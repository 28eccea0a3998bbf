//! A slot arena: items live in numbered slots, removed slots are remembered
//! in a free list and handed out again, most recently freed first.
use vstd::prelude::*;
use std::marker::PhantomData;
use vstd::std_specs::cmp::PartialEqSpecImpl;

verus! {

/// A typed handle to a slot of an [`Arena`].
#[derive(Debug, Hash)]
pub struct ArenaId<T> {
    index: usize,
    _phantom: PhantomData<T>,
}

impl<T> View for ArenaId<T> {
    type V = usize;

    closed spec fn view(&self) -> usize {
        self.index
    }
}

impl<T> ArenaId<T> {
    /// The handle of slot `index`.
    pub fn new(index: usize) -> (id: Self)
        ensures
            id@ == index,
    {
        ArenaId { index, _phantom: PhantomData }
    }

    /// The slot number this handle refers to.
    pub fn index(&self) -> (r: usize)
        ensures
            r == self@,
    {
        self.index
    }

    /// Two handles are the same value exactly when they name the same slot.
    pub proof fn lemma_view_injective(a: Self, b: Self)
        ensures
            a@ == b@ <==> a == b,
    {
    }
}

impl<T> Clone for ArenaId<T> {
    fn clone(&self) -> (r: Self)
        ensures
            r == *self,
    {
        ArenaId { index: self.index, _phantom: PhantomData }
    }
}

impl<T> Copy for ArenaId<T> {}

impl<T> PartialEq for ArenaId<T> {
    fn eq(&self, other: &Self) -> (r: bool) {
        self.index == other.index
    }
}

impl<T> PartialEqSpecImpl for ArenaId<T> {
    open spec fn obeys_eq_spec() -> bool {
        true
    }

    open spec fn eq_spec(&self, other: &Self) -> bool {
        self@ == other@
    }
}

impl<T> Eq for ArenaId<T> {}

/// The entries `(slot, item)` of the live slots of `s` from slot `from` on,
/// in slot order.
pub open spec fn live_entries<T>(s: Seq<Option<T>>, from: int) -> Seq<(usize, T)>
    decreases s.len() - from,
{
    if from < 0 || from >= s.len() {
        Seq::empty()
    } else {
        match s[from] {
            Some(x) => seq![(from as usize, x)] + live_entries(s, from + 1),
            None => live_entries(s, from + 1),
        }
    }
}

/// Entries of `live_entries(s, from)` name live slots at or after `from`, in
/// increasing slot order, and every live slot at or after `from` is named.
pub proof fn lemma_live_entries<T>(s: Seq<Option<T>>, from: int)
    requires
        0 <= from <= s.len(),
        s.len() <= usize::MAX,
    ensures
        forall|k: int|
            0 <= k < live_entries(s, from).len() ==> {
                let e = #[trigger] live_entries(s, from)[k];
                &&& from <= e.0 < s.len()
                &&& s[e.0 as int] == Some(e.1)
            },
        forall|k1: int, k2: int|
            0 <= k1 < k2 < live_entries(s, from).len() ==> (#[trigger] live_entries(s, from)[k1]).0
                < (#[trigger] live_entries(s, from)[k2]).0,
        forall|i: int|
            from <= i < s.len() && (#[trigger] s[i]) is Some ==> exists|k: int|
                0 <= k < live_entries(s, from).len() && #[trigger] live_entries(s, from)[k].0 == i,
    decreases s.len() - from,
{
    if from < s.len() {
        lemma_live_entries(s, from + 1);
        let rest = live_entries(s, from + 1);
        let all = live_entries(s, from);
        match s[from] {
            Some(x) => {
                assert(all == seq![(from as usize, x)] + rest);
                assert forall|i: int| from <= i < s.len() && (#[trigger] s[i]) is Some implies exists|
                    k: int,
                | 0 <= k < all.len() && #[trigger] all[k].0 == i by {
                    if i == from {
                        assert(all[0].0 == i);
                    } else {
                        let k = choose|k: int| 0 <= k < rest.len() && #[trigger] rest[k].0 == i;
                        assert(all[k + 1].0 == i);
                    }
                }
            },
            None => {},
        }
    }
}

/// Slots `from..upto` all being empty leaves the live entries unchanged.
pub proof fn lemma_live_entries_skip<T>(s: Seq<Option<T>>, from: int, upto: int)
    requires
        0 <= from <= upto <= s.len(),
        forall|k: int| from <= k < upto ==> (#[trigger] s[k]) is None,
    ensures
        live_entries(s, from) == live_entries(s, upto),
    decreases upto - from,
{
    if from < upto {
        lemma_live_entries_skip(s, from + 1, upto);
    }
}

/// A slot arena. Every slot holds an item or is empty; the empty slots are
/// exactly those in the free list, each once.
#[derive(Debug)]
pub struct Arena<T> {
    items: Vec<Option<T>>,
    free_slots: Vec<usize>,
    /// The slot capacity last asked for with `reserve`.
    reserved: usize,
}

impl<T> View for Arena<T> {
    type V = Seq<Option<T>>;

    /// The contents of the slots, slot by slot.
    closed spec fn view(&self) -> Seq<Option<T>> {
        self.items@
    }
}

impl<T> Arena<T> {
    /// The empty slots that will be reused, the next one last.
    pub closed spec fn free_list(&self) -> Seq<usize> {
        self.free_slots@
    }

    /// The slot capacity asked for with [`Arena::reserve`]; the arena keeps
    /// room for at least this many slots.
    pub closed spec fn reserved(&self) -> nat {
        self.reserved as nat
    }

    /// The number of slots the arena surely has room for: its slots and
    /// what was reserved.
    pub open spec fn capacity_floor(&self) -> nat {
        if self.reserved() > self@.len() {
            self.reserved()
        } else {
            self@.len()
        }
    }

    /// The arena's invariant, over its view and free list.
    pub open spec fn wf(&self) -> bool {
        &&& self.free_list().no_duplicates()
        &&& forall|k: int|
            0 <= k < self.free_list().len() ==> {
                &&& #[trigger] self.free_list()[k] < self@.len()
                &&& self@[self.free_list()[k] as int] is None
            }
        &&& forall|i: int| 0 <= i < self@.len() && (#[trigger] self@[i]) is None ==> self.free_list().contains(i as usize)
    }

    /// The slot the next insert will fill.
    pub open spec fn next_slot(&self) -> usize {
        if self.free_list().len() > 0 {
            self.free_list().last()
        } else {
            self@.len() as usize
        }
    }

    /// The content of slot `i`; `None` for a slot past the end.
    pub open spec fn slot(&self, i: int) -> Option<T> {
        if 0 <= i < self@.len() {
            self@[i]
        } else {
            None
        }
    }

    /// `next` is what storing `item` makes of this arena: the most recently
    /// freed slot is filled and leaves the free list, or, with no slot free,
    /// a filled slot is added at the end.
    pub open spec fn inserts_into(&self, item: T, next: Self) -> bool {
        &&& next.reserved() == self.reserved()
        &&& if self.free_list().len() > 0 {
            &&& next@ == self@.update(self.free_list().last() as int, Some(item))
            &&& next.free_list() == self.free_list().drop_last()
        } else {
            &&& next@ == self@.push(Some(item))
            &&& next.free_list() == self.free_list()
        }
    }

    /// `next` is what emptying slot `i` makes of this arena: a filled slot is
    /// emptied and goes on the free list; otherwise nothing changes.
    pub open spec fn removes_into(&self, i: usize, next: Self) -> bool {
        &&& next.reserved() == self.reserved()
        &&& if self.slot(i as int) is Some {
            &&& next@ == self@.update(i as int, None)
            &&& next.free_list() == self.free_list().push(i)
        } else {
            &&& next@ == self@
            &&& next.free_list() == self.free_list()
        }
    }

    /// The bytes of a reference to an arena plus those of `capacity` slots.
    pub open spec fn footprint(capacity: nat) -> nat {
        vstd::layout::size_of::<&Arena<T>>() + capacity * vstd::layout::size_of::<Option<T>>()
    }

    /// An empty arena.
    pub fn new() -> (a: Self)
        ensures
            a@ == Seq::<Option<T>>::empty(),
            a.free_list() == Seq::<usize>::empty(),
            a.reserved() == 0,
            a.wf(),
    {
        Arena { items: Vec::new(), free_slots: Vec::new(), reserved: 0 }
    }

    /// Stores `item`, in the most recently freed slot if there is one and in a
    /// new slot at the end otherwise, and returns that slot's handle.
    pub fn insert(&mut self, item: T) -> (id: ArenaId<T>)
        requires
            old(self).wf(),
        ensures
            final(self).wf(),
            id@ == old(self).next_slot(),
            old(self).inserts_into(item, *final(self)),
    {
        if let Some(index) = self.free_slots.pop() {
            proof {
                assert(old(self).free_slots@.last() == index);
                assert(old(self).free_slots@.contains(index));
            }
            self.items.set(index, Some(item));
            proof {
                let fl = self.free_slots@;
                let ofl = old(self).free_slots@;
                assert(fl == ofl.drop_last());
                assert forall|k: int| 0 <= k < fl.len() implies #[trigger] fl[k] != index by {
                    assert(ofl[k] == fl[k]);
                    assert(ofl[ofl.len() - 1] == index);
                }
                assert forall|i: int| 0 <= i < self.items@.len() && (#[trigger] self.items@[i]) is None implies fl.contains(i as usize) by {
                    assert(i < self.items.len());
                    assert(i != index);
                    assert(old(self).items@[i] is None);
                    assert(ofl.contains(i as usize));
                    let k = choose|k: int| 0 <= k < ofl.len() && ofl[k] == i as usize;
                    assert(ofl[ofl.len() - 1] == index);
                    assert(k != ofl.len() - 1);
                    assert(fl[k] == i as usize);
                }
            }
            ArenaId::new(index)
        } else {
            let index = self.items.len();
            self.items.push(Some(item));
            proof {
                assert forall|i: int| 0 <= i < self.items@.len() && (#[trigger] self.items@[i]) is None implies self.free_slots@.contains(i as usize) by {
                    assert(i < old(self).items@.len());
                    assert(old(self).items@[i] is None);
                }
            }
            ArenaId::new(index)
        }
    }

    /// Makes room for `size` more slots: afterwards the arena has room for
    /// at least as many slots as it has plus `size`. The slots themselves
    /// do not change. The room asked for must fit in `isize::MAX` bytes.
    pub fn reserve(&mut self, size: usize)
        requires
            old(self).wf(),
            old(self)@.len() + size <= usize::MAX,
            (old(self)@.len() + size) * vstd::layout::size_of::<Option<T>>() <= isize::MAX,
        ensures
            final(self).wf(),
            final(self)@ == old(self)@,
            final(self).free_list() == old(self).free_list(),
            final(self).reserved() == if old(self).reserved() > old(self)@.len() + size {
                old(self).reserved()
            } else {
                (old(self)@.len() + size) as nat
            },
            final(self).capacity_floor() >= old(self)@.len() + size,
    {
        self.items.reserve(size);
        let wanted = self.items.len() + size;
        if wanted > self.reserved {
            self.reserved = wanted;
        }
    }

    /// The bytes the arena holds: one reference plus the slot storage it has
    /// allocated, `capacity * size_of::<Option<T>>()`, where the capacity is at
    /// least the number of slots and what was reserved.
    pub fn mem_size(&self) -> (r: usize)
        ensures
            exists|c: nat| c >= self.capacity_floor() && r == #[trigger] Self::footprint(c),
    {
        let cap = slot_capacity(self);
        let elem = std::mem::size_of::<Option<T>>();
        let own = std::mem::size_of::<&Arena<T>>();
        proof {
            broadcast use vstd::layout::layout_of_primitives;
            broadcast use vstd::layout::layout_of_references_and_pointers;
            vstd::layout::unsigned_int_max_values();
        }
        assert(own <= 8);
        assert(Self::footprint(cap as nat) == own + cap * elem);
        own + cap * elem
    }

    /// The item in `id`'s slot, if that slot exists and is filled.
    pub fn get(&self, id: &ArenaId<T>) -> (r: Option<&T>)
        ensures
            (match r {
                Some(x) => self.slot(id@ as int) == Some(*x),
                None => self.slot(id@ as int) is None,
            }),
    {
        if id.index < self.items.len() {
            self.items[id.index].as_ref()
        } else {
            None
        }
    }

    /// A mutable reference to the item in `id`'s slot, if that slot exists
    /// and is filled. Writing through it changes that slot only.
    pub fn get_mut(&mut self, id: &ArenaId<T>) -> (r: Option<&mut T>)
        requires
            old(self).wf(),
        ensures
            final(self).free_list() == old(self).free_list(),
            final(self).reserved() == old(self).reserved(),
            (match r {
                Some(x) => {
                    &&& old(self).slot(id@ as int) == Some(*x)
                    &&& final(self)@ == old(self)@.update(id@ as int, Some(*final(r.unwrap())))
                },
                None => {
                    &&& old(self).slot(id@ as int) is None
                    &&& final(self)@ == old(self)@
                },
            }),
            final(self).wf(),
    {
        if id.index < self.items.len() {
            let slot = &mut self.items[id.index];
            slot.as_mut()
        } else {
            None
        }
    }

    /// Empties `id`'s slot and returns what it held. A slot that was filled
    /// goes on the free list; anything else leaves the arena unchanged.
    pub fn remove(&mut self, id: &ArenaId<T>) -> (r: Option<T>)
        requires
            old(self).wf(),
        ensures
            final(self).wf(),
            r == old(self).slot(id@ as int),
            old(self).removes_into(id@, *final(self)),
    {
        if id.index < self.items.len() {
            let removed_item = self.items[id.index].take();
            if removed_item.is_some() {
                self.free_slots.push(id.index);
                proof {
                    let i = id.index;
                    let fl = self.free_slots@;
                    let ofl = old(self).free_slots@;
                    assert(!ofl.contains(i)) by {
                        if ofl.contains(i) {
                            let k = choose|k: int| 0 <= k < ofl.len() && ofl[k] == i;
                            assert(old(self).items@[ofl[k] as int] is None);
                        }
                    }
                    assert forall|a: int, b: int| 0 <= a < fl.len() && 0 <= b < fl.len() && a != b implies fl[a] != fl[b] by {
                        if a == fl.len() - 1 {
                            assert(ofl.contains(fl[b]) || b == fl.len() - 1);
                        } else if b == fl.len() - 1 {
                            assert(fl[a] == ofl[a]);
                        }
                    }
                    assert forall|k: int| 0 <= k < fl.len() implies {
                        &&& #[trigger] fl[k] < self.items@.len()
                        &&& self.items@[fl[k] as int] is None
                    } by {
                        if k < fl.len() - 1 {
                            assert(fl[k] == ofl[k]);
                        }
                    }
                    assert forall|j: int| 0 <= j < self.items@.len() && (#[trigger] self.items@[j]) is None implies fl.contains(j as usize) by {
                        if j == i {
                            assert(fl[fl.len() - 1] == i);
                        } else {
                            assert(old(self).items@[j] is None);
                            let k = choose|k: int| 0 <= k < ofl.len() && ofl[k] == j as usize;
                            assert(fl[k] == j as usize);
                        }
                    }
                }
            } else {
                proof {
                    assert(self.items@ =~= old(self).items@);
                }
            }
            removed_item
        } else {
            None
        }
    }

    /// The number of slots, filled or empty.
    pub fn len(&self) -> (r: usize)
        ensures
            r == self@.len(),
    {
        self.items.len()
    }

    /// Whether `id`'s slot exists and is filled.
    pub fn contains(&self, id: &ArenaId<T>) -> (r: bool)
        ensures
            r == self.slot(id@ as int) is Some,
    {
        id.index < self.items.len() && self.items[id.index].is_some()
    }

    /// An iterator over the filled slots, in slot order.
    pub fn iter(&self) -> (it: ArenaIterator<'_, T>)
        ensures
            it.arena() == *self,
            it.position() == 0,
    {
        ArenaIterator { arena: self, current: 0 }
    }

    /// An iterator over the filled slots, in slot order, that hands out
    /// mutable references.
    pub fn iter_mut(&mut self) -> (it: ArenaIterMut<'_, T>)
        ensures
            it.position() == 0,
            it.slots() == old(self)@,
            final(self)@ == (*final(it.arena))@,
            final(self).reserved() == (*final(it.arena)).reserved(),
            it.arena.reserved() == old(self).reserved(),
    {
        ArenaIterMut { arena: self, current: 0 }
    }

    /// An iterator that takes the arena and yields its filled slots, in slot
    /// order, by value.
    pub fn into_iter(self) -> (it: ArenaIntoIterator<T>)
        ensures
            it.slots() == self@,
            it.position() == 0,
    {
        ArenaIntoIterator { arena: self, current: 0 }
    }
}

/// `b` holds a clone of each item of `a` in the same slot, and is empty
/// where `a` is.
pub open spec fn slots_cloned<T: Clone>(a: Seq<Option<T>>, b: Seq<Option<T>>) -> bool {
    &&& b.len() == a.len()
    &&& forall|i: int|
        0 <= i < a.len() ==> match (#[trigger] a[i], b[i]) {
            (Some(x), Some(y)) => cloned(x, y),
            (None, None) => true,
            _ => false,
        }
}

impl<T: Clone> Clone for Arena<T> {
    /// An arena with a clone of each item in the same slot and the same
    /// free list.
    fn clone(&self) -> (r: Self)
        ensures
            slots_cloned(self@, r@),
            r.free_list() == self.free_list(),
            self.wf() ==> r.wf(),
    {
        let mut items: Vec<Option<T>> = Vec::new();
        let mut i: usize = 0;
        while i < self.items.len()
            invariant
                0 <= i <= self@.len(),
                slots_cloned(self@.subrange(0, i as int), items@),
            decreases self@.len() - i,
        {
            let e = match &self.items[i] {
                Some(x) => Some(x.clone()),
                None => None,
            };
            items.push(e);
            i = i + 1;
            proof {
                assert forall|k: int| 0 <= k < i implies match (#[trigger] self@.subrange(0, i as int)[k], items@[k]) {
                    (Some(x), Some(y)) => cloned(x, y),
                    (None, None) => true,
                    _ => false,
                } by {
                    if k < i - 1 {
                        assert(self@.subrange(0, i as int)[k] == self@.subrange(0, i - 1)[k]);
                    }
                }
            }
        }
        let mut free: Vec<usize> = Vec::new();
        let mut j: usize = 0;
        while j < self.free_slots.len()
            invariant
                0 <= j <= self.free_list().len(),
                free@ == self.free_list().subrange(0, j as int),
            decreases self.free_list().len() - j,
        {
            free.push(self.free_slots[j]);
            j = j + 1;
            proof {
                assert(free@ =~= self.free_list().subrange(0, j as int));
            }
        }
        proof {
            assert(self@.subrange(0, self@.len() as int) =~= self@);
            assert(free@ =~= self.free_list());
        }
        let r = Arena { items, free_slots: free, reserved: 0 };
        proof {
            if self.wf() {
                assert forall|k: int| 0 <= k < r.free_list().len() implies {
                    &&& #[trigger] r.free_list()[k] < r@.len()
                    &&& r@[r.free_list()[k] as int] is None
                } by {
                    let p = r.free_list()[k] as int;
                    assert(self@[p] is None);
                    assert(match (self@[p], r@[p]) {
                        (Some(x), Some(y)) => cloned(x, y),
                        (None, None) => true,
                        _ => false,
                    });
                }
                assert forall|i: int| 0 <= i < r@.len() && (#[trigger] r@[i]) is None implies r.free_list().contains(i as usize) by {
                    assert(match (self@[i], r@[i]) {
                        (Some(x), Some(y)) => cloned(x, y),
                        (None, None) => true,
                        _ => false,
                    });
                }
            }
        }
        r
    }
}

impl<T> Default for Arena<T> {
    /// An empty arena.
    fn default() -> (a: Self)
        ensures
            a@ == Seq::<Option<T>>::empty(),
            a.free_list() == Seq::<usize>::empty(),
            a.reserved() == 0,
            a.wf(),
    {
        Arena { items: Vec::new(), free_slots: Vec::new(), reserved: 0 }
    }
}

/// The slot capacity of `a`: how many slots its vector can hold without
/// reallocating, read with `Vec::capacity`. Std's documentation states that
/// it is at least the length, that `reserve(n)` leaves it at least the
/// length plus `n`, that a vector never shrinks by itself, and that it never
/// allocates more than `isize::MAX` bytes. The arena raises `reserved` only
/// right after such a `reserve` call, and nothing in this module shrinks the
/// vector, so the capacity is at least `reserved` too. The value itself
/// depends on the allocator and is left open.
#[verifier::external_body]
fn slot_capacity<T>(a: &Arena<T>) -> (r: usize)
    ensures
        r >= a@.len(),
        r >= a.reserved(),
        r * vstd::layout::size_of::<Option<T>>() <= isize::MAX,
{
    a.items.capacity()
}

/// Iterates over the filled slots of an arena by shared reference.
pub struct ArenaIterator<'a, T> {
    arena: &'a Arena<T>,
    current: usize,
}

impl<'a, T> ArenaIterator<'a, T> {
    /// The arena being walked.
    pub closed spec fn arena(&self) -> Arena<T> {
        *self.arena
    }

    /// The first slot not yet looked at.
    pub closed spec fn position(&self) -> int {
        self.current as int
    }

    /// The entries still to come.
    pub open spec fn remaining(&self) -> Seq<(usize, T)> {
        live_entries(self.arena()@, self.position())
    }

    /// The next filled slot at or after the position, with its item; `None`
    /// once no filled slot is left.
    pub fn next(&mut self) -> (r: Option<(ArenaId<T>, &'a T)>)
        ensures
            final(self).arena() == old(self).arena(),
            final(self).remaining() == (if old(self).remaining().len() > 0 {
                old(self).remaining().drop_first()
            } else {
                Seq::empty()
            }),
            (match r {
                Some(e) => old(self).remaining().len() > 0 && e.0@ == old(self).remaining()[0].0 && *e.1
                    == old(self).remaining()[0].1 && final(self).position() == e.0@ + 1,
                None => old(self).remaining().len() == 0,
            }),
    {
        let ghost s = self.arena@;
        let ghost start = self.current as int;
        while self.current < self.arena.items.len()
            invariant
                s == self.arena@,
                self.arena == old(self).arena,
                start <= self.current <= s.len() || (start >= s.len() && self.current == start),
                start == old(self).current,
                forall|k: int| start <= k < self.current ==> (#[trigger] s[k]) is None,
            decreases s.len() - self.current,
        {
            let index = self.current;
            self.current = self.current + 1;
            if let Some(item) = self.arena.items[index].as_ref() {
                proof {
                    if start <= s.len() {
                        lemma_live_entries_skip(s, start, index as int);
                    }
                    assert(live_entries(s, index as int) == seq![(index, *item)] + live_entries(
                        s,
                        index + 1,
                    ));
                }
                return Some((ArenaId::new(index), item));
            }
        }
        proof {
            if start <= s.len() {
                lemma_live_entries_skip(s, start, s.len() as int);
            }
        }
        None
    }

    /// All remaining entries, in slot order.
    pub fn collect(self) -> (r: Vec<(ArenaId<T>, &'a T)>)
        ensures
            r@.len() == self.remaining().len(),
            forall|k: int|
                0 <= k < r@.len() ==> (#[trigger] r@[k]).0@ == self.remaining()[k].0 && *r@[k].1
                    == self.remaining()[k].1,
    {
        let mut it = self;
        let mut out: Vec<(ArenaId<T>, &'a T)> = Vec::new();
        let ghost all = self.remaining();
        let ghost mut got: Seq<(usize, T)> = Seq::empty();
        loop
            invariant
                all == got + it.remaining(),
                got.len() == out@.len(),
                forall|k: int|
                    0 <= k < out@.len() ==> (#[trigger] out@[k]).0@ == got[k].0 && *out@[k].1
                        == got[k].1,
            ensures
                all == got,
                got.len() == out@.len(),
                forall|k: int|
                    0 <= k < out@.len() ==> (#[trigger] out@[k]).0@ == got[k].0 && *out@[k].1
                        == got[k].1,
            decreases it.remaining().len(),
        {
            let ghost before = it.remaining();
            match it.next() {
                Some(e) => {
                    proof {
                        assert(before == seq![before[0]] + before.drop_first());
                        got = got.push(before[0]);
                    }
                    out.push(e);
                },
                None => {
                    proof {
                        assert(got + before =~= got);
                    }
                    break;
                },
            }
        }
        out
    }
}

/// Iterates over the filled slots of an arena by mutable reference.
pub struct ArenaIterMut<'a, T> {
    /// The arena being walked; what it holds once the iterator is done is
    /// what was written through it.
    pub arena: &'a mut Arena<T>,
    /// The first slot not yet looked at.
    pub current: usize,
}

impl<'a, T> ArenaIterMut<'a, T> {
    /// The slots of the arena being walked.
    pub open spec fn slots(&self) -> Seq<Option<T>> {
        self.arena@
    }

    /// The first slot not yet looked at.
    pub open spec fn position(&self) -> int {
        self.current as int
    }

    /// The entries still to come.
    pub open spec fn remaining(&self) -> Seq<(usize, T)> {
        live_entries(self.slots(), self.position())
    }

    /// The next filled slot at or after the position, with a mutable
    /// reference to its item; `None` once no filled slot is left. Writing
    /// through the reference changes that slot only.
    pub fn next(&mut self) -> (r: Option<(ArenaId<T>, &mut T)>)
        ensures
            (*final(final(self).arena))@ == (*final(old(self).arena))@,
            (*final(final(self).arena)).reserved() == (*final(old(self).arena)).reserved(),
            final(self).arena.reserved() == old(self).arena.reserved(),
            (match r {
                Some(e) => {
                    &&& old(self).remaining().len() > 0
                    &&& e.0@ == old(self).remaining()[0].0
                    &&& *e.1 == old(self).remaining()[0].1
                    &&& final(self).position() == e.0@ + 1
                    &&& final(self).slots() == old(self).slots().update(e.0@ as int, Some(*final(e.1)))
                },
                None => {
                    &&& old(self).remaining().len() == 0
                    &&& final(self).slots() == old(self).slots()
                },
            }),
    {
        let ghost s = self.arena@;
        let ghost start = self.current as int;
        while self.current < self.arena.items.len()
            invariant
                s == self.arena@,
                s == old(self).slots(),
                *final(self.arena) == *final(old(self).arena),
                self.arena.reserved() == old(self).arena.reserved(),
                start <= self.current,
                self.current <= s.len() || self.current == start,
                start == old(self).current,
                forall|k: int| start <= k < self.current ==> (#[trigger] s[k]) is None,
            decreases s.len() - self.current,
        {
            let index = self.current;
            self.current = self.current + 1;
            if self.arena.items[index].is_some() {
                proof {
                    lemma_live_entries_skip(s, start, index as int);
                    let x = s[index as int]->0;
                    assert(live_entries(s, index as int) == seq![(index, x)] + live_entries(
                        s,
                        index + 1,
                    ));
                }
                let slot = &mut self.arena.items[index];
                let item = slot.as_mut().unwrap();
                return Some((ArenaId::new(index), item));
            }
        }
        proof {
            if start <= s.len() {
                lemma_live_entries_skip(s, start, s.len() as int);
            }
        }
        None
    }
}

/// Takes an arena and yields its filled slots by value.
pub struct ArenaIntoIterator<T> {
    arena: Arena<T>,
    current: usize,
}

impl<T> ArenaIntoIterator<T> {
    /// The slots still held.
    pub closed spec fn slots(&self) -> Seq<Option<T>> {
        self.arena@
    }

    /// The first slot not yet looked at.
    pub closed spec fn position(&self) -> int {
        self.current as int
    }

    /// The entries still to come.
    pub open spec fn remaining(&self) -> Seq<(usize, T)> {
        live_entries(self.slots(), self.position())
    }

    /// Takes the item of the next filled slot at or after the position and
    /// returns it with its handle; `None` once no filled slot is left.
    pub fn next(&mut self) -> (r: Option<(ArenaId<T>, T)>)
        ensures
            final(self).remaining() == (if old(self).remaining().len() > 0 {
                old(self).remaining().drop_first()
            } else {
                Seq::empty()
            }),
            (match r {
                Some(e) => old(self).remaining().len() > 0 && e.0@ == old(self).remaining()[0].0 && e.1
                    == old(self).remaining()[0].1 && final(self).position() == e.0@ + 1,
                None => old(self).remaining().len() == 0,
            }),
    {
        let ghost s = self.arena@;
        let ghost start = self.current as int;
        while self.current < self.arena.items.len()
            invariant
                s == old(self).arena@,
                self.arena@ == s,
                start <= self.current,
                self.current <= s.len() || self.current == start,
                start == old(self).current,
                forall|k: int| start <= k < self.current ==> (#[trigger] s[k]) is None,
            decreases s.len() - self.current,
        {
            let index = self.current;
            self.current = self.current + 1;
            let taken = self.arena.items[index].take();
            if let Some(item) = taken {
                proof {
                    lemma_live_entries_skip(s, start, index as int);
                    assert(live_entries(s, index as int) == seq![(index, item)] + live_entries(
                        s,
                        index + 1,
                    ));
                    let s2 = self.arena@;
                    assert(s2 == s.update(index as int, None));
                    lemma_live_entries_suffix(s, s2, index + 1);
                }
                return Some((ArenaId::new(index), item));
            }
            proof {
                assert(self.arena.items@ =~= s);
            }
        }
        proof {
            if start <= s.len() {
                lemma_live_entries_skip(s, start, s.len() as int);
            }
        }
        None
    }

    /// All remaining entries, in slot order.
    pub fn collect(self) -> (r: Vec<(ArenaId<T>, T)>)
        ensures
            r@.len() == self.remaining().len(),
            forall|k: int|
                0 <= k < r@.len() ==> (#[trigger] r@[k]).0@ == self.remaining()[k].0 && r@[k].1
                    == self.remaining()[k].1,
    {
        let ghost all = self.remaining();
        let mut it = self;
        let mut out: Vec<(ArenaId<T>, T)> = Vec::new();
        let ghost mut got: Seq<(usize, T)> = Seq::empty();
        loop
            invariant
                all == got + it.remaining(),
                got.len() == out@.len(),
                forall|k: int|
                    0 <= k < out@.len() ==> (#[trigger] out@[k]).0@ == got[k].0 && out@[k].1
                        == got[k].1,
            ensures
                all == got,
                got.len() == out@.len(),
                forall|k: int|
                    0 <= k < out@.len() ==> (#[trigger] out@[k]).0@ == got[k].0 && out@[k].1
                        == got[k].1,
            decreases it.remaining().len(),
        {
            let ghost before = it.remaining();
            match it.next() {
                Some(e) => {
                    proof {
                        assert(before == seq![before[0]] + before.drop_first());
                        got = got.push(before[0]);
                    }
                    out.push(e);
                },
                None => {
                    proof {
                        assert(got + before =~= got);
                    }
                    break;
                },
            }
        }
        out
    }
}

/// Live entries from `from` on only read slots from `from` on.
pub proof fn lemma_live_entries_suffix<T>(s1: Seq<Option<T>>, s2: Seq<Option<T>>, from: int)
    requires
        s1.len() == s2.len(),
        0 <= from,
        forall|k: int| from <= k < s1.len() ==> s1[k] == s2[k],
    ensures
        live_entries(s1, from) == live_entries(s2, from),
    decreases s1.len() - from,
{
    if from < s1.len() {
        lemma_live_entries_suffix(s1, s2, from + 1);
    }
}

impl<T> Arena<T> {
    /// The number of slots fits in a `usize`.
    pub proof fn lemma_len_bound(&self)
        ensures
            self@.len() <= usize::MAX,
    {
        assert(self.items.len() == self.items@.len());
    }

    /// Storing an item keeps the invariant.
    pub proof fn lemma_insert_keeps_wf(a: Self, item: T, b: Self)
        requires
            a.wf(),
            a.inserts_into(item, b),
        ensures
            b.wf(),
    {
        a.lemma_len_bound();
        let fl = b.free_list();
        let ofl = a.free_list();
        if ofl.len() > 0 {
            let index = ofl.last();
            assert(ofl[ofl.len() - 1] == index);
            assert forall|k: int| 0 <= k < fl.len() implies #[trigger] fl[k] != index by {
                assert(ofl[k] == fl[k]);
            }
            assert forall|i: int| 0 <= i < b@.len() && (#[trigger] b@[i]) is None implies fl.contains(
                i as usize,
            ) by {
                assert(i != index);
                assert(a@[i] is None);
                assert(ofl.contains(i as usize));
                let k = choose|k: int| 0 <= k < ofl.len() && ofl[k] == i as usize;
                assert(k != ofl.len() - 1);
                assert(fl[k] == i as usize);
            }
        } else {
            assert forall|i: int| 0 <= i < b@.len() && (#[trigger] b@[i]) is None implies fl.contains(
                i as usize,
            ) by {
                assert(i < a@.len());
                assert(a@[i] is None);
            }
        }
    }

    /// Emptying a slot keeps the invariant.
    pub proof fn lemma_remove_keeps_wf(a: Self, i: usize, b: Self)
        requires
            a.wf(),
            a.removes_into(i, b),
        ensures
            b.wf(),
    {
        if a.slot(i as int) is Some {
            let fl = b.free_list();
            let ofl = a.free_list();
            assert(!ofl.contains(i)) by {
                if ofl.contains(i) {
                    let k = choose|k: int| 0 <= k < ofl.len() && ofl[k] == i;
                    assert(a@[ofl[k] as int] is None);
                }
            }
            assert forall|x: int, y: int| 0 <= x < fl.len() && 0 <= y < fl.len() && x != y implies fl[x]
                != fl[y] by {
                if x == fl.len() - 1 {
                    assert(ofl.contains(fl[y]) || y == fl.len() - 1);
                } else if y == fl.len() - 1 {
                    assert(fl[x] == ofl[x]);
                }
            }
            assert forall|k: int| 0 <= k < fl.len() implies {
                &&& #[trigger] fl[k] < b@.len()
                &&& b@[fl[k] as int] is None
            } by {
                if k < fl.len() - 1 {
                    assert(fl[k] == ofl[k]);
                }
            }
            assert forall|j: int| 0 <= j < b@.len() && (#[trigger] b@[j]) is None implies fl.contains(
                j as usize,
            ) by {
                if j == i {
                    assert(fl[fl.len() - 1] == i);
                } else {
                    assert(a@[j] is None);
                    let k = choose|k: int| 0 <= k < ofl.len() && ofl[k] == j as usize;
                    assert(fl[k] == j as usize);
                }
            }
        }
    }
}

/// The slot an insert fills is empty: storing never overwrites a live item.
pub proof fn law_insert_fills_empty_slot<T>(a: Arena<T>)
    requires
        a.wf(),
    ensures
        a.slot(a.next_slot() as int) is None,
{
    a.lemma_len_bound();
    if a.free_list().len() > 0 {
        assert(a.free_list()[a.free_list().len() - 1] == a.next_slot());
    }
}

/// A read gives back what a write stored: after storing `item`, its slot
/// holds `item` and every other slot holds what it held before.
pub proof fn law_get_after_insert<T>(a: Arena<T>, item: T, b: Arena<T>)
    requires
        a.wf(),
        a.inserts_into(item, b),
    ensures
        b.slot(a.next_slot() as int) == Some(item),
        forall|j: int| j != a.next_slot() ==> #[trigger] b.slot(j) == a.slot(j),
{
    a.lemma_len_bound();
    if a.free_list().len() > 0 {
        assert(a.free_list()[a.free_list().len() - 1] == a.next_slot());
    }
}

/// Removing what was just stored hands the item back, empties its slot,
/// leaves every other slot as it was before the store, and makes that slot
/// the next one to be filled.
pub proof fn law_remove_after_insert<T>(a: Arena<T>, item: T, b: Arena<T>, c: Arena<T>)
    requires
        a.wf(),
        a.inserts_into(item, b),
        b.removes_into(a.next_slot(), c),
    ensures
        b.slot(a.next_slot() as int) == Some(item),
        c.slot(a.next_slot() as int) is None,
        forall|j: int| j != a.next_slot() ==> #[trigger] c.slot(j) == a.slot(j),
        c.next_slot() == a.next_slot(),
{
    law_get_after_insert(a, item, b);
    assert forall|j: int| j != a.next_slot() implies #[trigger] c.slot(j) == a.slot(j) by {
        assert(b.slot(j) == a.slot(j));
    }
}

/// A slot freed by a removal is the slot the next insert fills.
pub proof fn law_insert_reuses_removed_slot<T>(a: Arena<T>, i: usize, b: Arena<T>)
    requires
        a.wf(),
        a.slot(i as int) is Some,
        a.removes_into(i, b),
    ensures
        b.next_slot() == i,
        b.slot(i as int) is None,
{
}

/// Two stores in a row hand out different slots.
pub proof fn law_inserts_get_distinct_slots<T>(a: Arena<T>, x: T, b: Arena<T>)
    requires
        a.wf(),
        a.inserts_into(x, b),
    ensures
        b.next_slot() != a.next_slot(),
{
    Arena::lemma_insert_keeps_wf(a, x, b);
    law_get_after_insert(a, x, b);
    law_insert_fills_empty_slot(b);
}

/// Iteration yields each live slot once, in increasing slot order, with its
/// item.
pub proof fn law_iteration_covers_live_slots<T>(a: Arena<T>)
    ensures
        forall|k: int|
            0 <= k < live_entries(a@, 0).len() ==> a.slot((#[trigger] live_entries(a@, 0)[k]).0 as int)
                == Some(live_entries(a@, 0)[k].1),
        forall|k1: int, k2: int|
            0 <= k1 < k2 < live_entries(a@, 0).len() ==> (#[trigger] live_entries(a@, 0)[k1]).0
                < (#[trigger] live_entries(a@, 0)[k2]).0,
        forall|i: int|
            #![trigger a.slot(i)]
            a.slot(i) is Some ==> exists|k: int|
                0 <= k < live_entries(a@, 0).len() && #[trigger] live_entries(a@, 0)[k].0 == i,
{
    a.lemma_len_bound();
    lemma_live_entries(a@, 0);
}

} // verus!
