use pgecore::arena::{Arena, ArenaId, ArenaIntoIterator};

#[derive(Debug, PartialEq)]
struct Person {
    name: String,
}

#[derive(Debug, PartialEq)]
struct Car {
    model: String,
}

#[test]
fn test_insert_and_get_person() {
    let mut arena = Arena::new();
    let person_id = arena.insert(Person { name: "Alice".to_string() });

    let person = arena.get(&person_id).unwrap();
    assert_eq!(person, &Person { name: "Alice".to_string() });
}

#[test]
fn test_insert_and_get_car() {
    let mut arena = Arena::new();
    let car_id = arena.insert(Car { model: "Tesla Model 3".to_string() });

    let car = arena.get(&car_id).unwrap();
    assert_eq!(car, &Car { model: "Tesla Model 3".to_string() });
}

#[test]
fn test_remove_person() {
    let mut arena = Arena::new();
    let person_id = arena.insert(Person { name: "Alice".to_string() });

    let removed_person = arena.remove(&person_id).unwrap();
    assert_eq!(removed_person, Person { name: "Alice".to_string() });
    assert!(arena.get(&person_id).is_none());
}

#[test]
fn test_remove_car() {
    let mut arena = Arena::new();
    let car_id = arena.insert(Car { model: "Tesla Model 3".to_string() });

    let removed_car = arena.remove(&car_id).unwrap();
    assert_eq!(removed_car, Car { model: "Tesla Model 3".to_string() });
    assert!(arena.get(&car_id).is_none());
}

#[test]
fn test_reuse_slots_person() {
    let mut arena = Arena::new();
    let person_id1 = arena.insert(Person { name: "Alice".to_string() });
    arena.remove(&person_id1);

    let person_id2 = arena.insert(Person { name: "Bob".to_string() });
    let person = arena.get(&person_id2).unwrap();

    assert_eq!(person, &Person { name: "Bob".to_string() });
    assert_eq!(person_id1.index(), person_id2.index());
}

#[test]
fn test_reuse_slots_car() {
    let mut arena = Arena::new();
    let car_id1 = arena.insert(Car { model: "Tesla Model 3".to_string() });
    arena.remove(&car_id1);

    let car_id2 = arena.insert(Car { model: "Ford Mustang".to_string() });
    let car = arena.get(&car_id2).unwrap();

    assert_eq!(car, &Car { model: "Ford Mustang".to_string() });
    assert_eq!(car_id1.index(), car_id2.index());
}

#[test]
fn test_get_mut_person() {
    let mut arena = Arena::new();
    let person_id = arena.insert(Person { name: "Alice".to_string() });

    if let Some(person) = arena.get_mut(&person_id) {
        person.name = "Bob".to_string();
    }

    let person = arena.get(&person_id).unwrap();
    assert_eq!(person, &Person { name: "Bob".to_string() });
}

#[test]
fn test_get_mut_car() {
    let mut arena = Arena::new();
    let car_id = arena.insert(Car { model: "Tesla Model 3".to_string() });

    if let Some(car) = arena.get_mut(&car_id) {
        car.model = "Ford Mustang".to_string();
    }

    let car = arena.get(&car_id).unwrap();
    assert_eq!(car, &Car { model: "Ford Mustang".to_string() });
}

#[test]
fn test_iter_person() {
    let mut arena = Arena::new();
    arena.insert(Person { name: "Alice".to_string() });
    arena.insert(Person { name: "Bob".to_string() });

    let mut iter = arena.iter();
    assert_eq!(iter.next(), Some((ArenaId::new(0), &Person { name: "Alice".to_string() })));
    assert_eq!(iter.next(), Some((ArenaId::new(1), &Person { name: "Bob".to_string() })));
    assert_eq!(iter.next(), None);
}

#[test]
fn test_iter_car() {
    let mut arena = Arena::new();
    arena.insert(Car { model: "Tesla Model 3".to_string() });
    arena.insert(Car { model: "Ford Mustang".to_string() });

    let mut iter = arena.iter();
    assert_eq!(iter.next(), Some((ArenaId::new(0), &Car { model: "Tesla Model 3".to_string() })));
    assert_eq!(iter.next(), Some((ArenaId::new(1), &Car { model: "Ford Mustang".to_string() })));
    assert_eq!(iter.next(), None);
}

#[test]
fn test_into_iter_person() {
    let mut arena = Arena::new();
    arena.insert(Person { name: "Alice".to_string() });
    arena.insert(Person { name: "Bob".to_string() });

    let iter: ArenaIntoIterator<_> = arena.into_iter();
    let results: Vec<_> = iter.collect();
    assert_eq!(results, vec![
        (ArenaId::new(0), Person { name: "Alice".to_string() }),
        (ArenaId::new(1), Person { name: "Bob".to_string() }),
    ]);
}

#[test]
fn test_iter_mut_person() {
    let mut arena = Arena::new();
    arena.insert(Person { name: "Alice".to_string() });
    arena.insert(Person { name: "Bob".to_string() });

    let mut iter = arena.iter_mut();
    if let Some((_, person)) = iter.next() {
        person.name = "Charlie".to_string();
    }

    let results: Vec<_> = arena.iter().collect();
    assert_eq!(results, vec![
        (ArenaId::new(0), &Person { name: "Charlie".to_string() }),
        (ArenaId::new(1), &Person { name: "Bob".to_string() }),
    ]);
}

#[test]
fn arena_reuses_most_recently_freed_slot_first() {
    let mut arena = Arena::new();
    let a = arena.insert(1u32);
    let b = arena.insert(2u32);
    let c = arena.insert(3u32);
    arena.remove(&a);
    arena.remove(&c);
    let d = arena.insert(4u32);
    let e = arena.insert(5u32);
    let f = arena.insert(6u32);
    assert_eq!(d.index(), 2);
    assert_eq!(e.index(), 0);
    assert_eq!(f.index(), 3);
    assert_eq!(arena.get(&b), Some(&2));
    assert_eq!(arena.len(), 4);
}

#[test]
fn arena_remove_of_missing_or_empty_slot_changes_nothing() {
    let mut arena: Arena<u32> = Arena::new();
    let a = arena.insert(7);
    assert_eq!(arena.remove(&ArenaId::new(5)), None);
    assert_eq!(arena.remove(&a), Some(7));
    assert_eq!(arena.remove(&a), None);
    let b = arena.insert(8);
    let c = arena.insert(9);
    assert_eq!(b.index(), 0);
    assert_eq!(c.index(), 1);
}

#[test]
fn arena_contains_and_len() {
    let mut arena = Arena::new();
    let a = arena.insert("x");
    assert!(arena.contains(&a));
    assert!(!arena.contains(&ArenaId::new(1)));
    arena.remove(&a);
    assert!(!arena.contains(&a));
    assert_eq!(arena.len(), 1);
    arena.reserve(10);
    assert_eq!(arena.len(), 1);
    assert!(arena.mem_size() >= std::mem::size_of::<&Arena<&str>>());
}

#[test]
fn arena_iteration_skips_empty_slots() {
    let mut arena = Arena::new();
    let a = arena.insert(10u8);
    arena.insert(20u8);
    let c = arena.insert(30u8);
    arena.insert(40u8);
    arena.remove(&a);
    arena.remove(&c);
    let got: Vec<(usize, u8)> = arena.iter().collect().into_iter().map(|(id, v)| (id.index(), *v)).collect();
    assert_eq!(got, vec![(1, 20), (3, 40)]);
    let mut it = arena.iter_mut();
    while let Some((_, v)) = it.next() {
        *v += 1;
    }
    let owned: Vec<(usize, u8)> = arena.into_iter().collect().into_iter().map(|(id, v)| (id.index(), v)).collect();
    assert_eq!(owned, vec![(1, 21), (3, 41)]);
}

#[test]
fn arena_clone_keeps_slots_and_free_list() {
    let mut a: Arena<String> = Arena::new();
    let x = a.insert("x".to_string());
    let _y = a.insert("y".to_string());
    a.remove(&x);
    let mut b = a.clone();
    assert_eq!(b.len(), 2);
    assert!(!b.contains(&x));
    assert_eq!(b.insert("z".to_string()).index(), 0);
}

#[test]
fn arena_reserve_makes_room_counted_by_mem_size() {
    let mut arena: Arena<u64> = Arena::new();
    arena.insert(1);
    arena.reserve(100);
    let slot = std::mem::size_of::<Option<u64>>();
    assert!(arena.mem_size() >= std::mem::size_of::<&Arena<u64>>() + 101 * slot);
}
