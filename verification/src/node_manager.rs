//! Keeps per-node records in a dense list, one slot per node id, reusing
//! the slots of deleted nodes, and remembers which slots changed.
use std::collections::HashMap;
use vstd::prelude::*;

verus! {

broadcast use vstd::std_specs::hash::group_hash_axioms;

/// Records of nodes in a dense list of slots.
pub struct NodeManager<T> {
    nodes: Vec<T>,
    /// Node id to slot.
    id_map: HashMap<usize, usize>,
    /// Slots of deleted nodes, to be reused last freed first.
    free_list: Vec<usize>,
    /// Slots written, in the order they were written.
    changed: Vec<usize>,
}

impl<T> NodeManager<T> {
    /// The records, slot by slot.
    pub closed spec fn slots(&self) -> Seq<T> {
        self.nodes@
    }

    /// Which slot holds which node id.
    pub closed spec fn ids(&self) -> Map<usize, usize> {
        self.id_map@
    }

    /// Freed slots, the next to be reused last.
    pub closed spec fn free(&self) -> Seq<usize> {
        self.free_list@
    }

    /// The slots written so far, in order.
    pub closed spec fn changed_slots(&self) -> Seq<usize> {
        self.changed@
    }

    /// Every id has its own slot, and freed slots belong to no id and are
    /// listed once.
    pub open spec fn wf(&self) -> bool {
        &&& forall|id: usize| #[trigger] self.ids().contains_key(id) ==> self.ids()[id] < self.slots().len()
        &&& forall|a: usize, b: usize|
            #[trigger] self.ids().contains_key(a) && #[trigger] self.ids().contains_key(b) && a != b
                ==> self.ids()[a] != self.ids()[b]
        &&& self.free().no_duplicates()
        &&& forall|k: int|
            0 <= k < self.free().len() ==> #[trigger] self.free()[k] < self.slots().len() && forall|
                id: usize,
            | #[trigger] self.ids().contains_key(id) ==> self.ids()[id] != self.free()[k]
        &&& forall|k: int| 0 <= k < self.changed_slots().len() ==> #[trigger] self.changed_slots()[k] < self.slots().len()
        &&& self.slots().len() <= usize::MAX
    }

    /// The slot the next new id will get.
    pub open spec fn next_free_slot(&self) -> usize {
        if self.free().len() > 0 {
            self.free().last()
        } else {
            self.slots().len() as usize
        }
    }

    /// The slot that storing a record for `id` writes: the id's own slot,
    /// else the most recently freed one, else a new one at the end.
    pub open spec fn slot_for(&self, id: usize) -> usize {
        if self.ids().contains_key(id) {
            self.ids()[id]
        } else {
            self.next_free_slot()
        }
    }

    /// `next` is what storing `node` for `id` makes of this manager.
    pub open spec fn upserts_into(&self, id: usize, node: T, next: Self) -> bool {
        let slot = self.slot_for(id);
        &&& next.changed_slots() == self.changed_slots().push(slot)
        &&& next.ids() == self.ids().insert(id, slot)
        &&& if self.ids().contains_key(id) || self.free().len() > 0 {
            next.slots() == self.slots().update(slot as int, node)
        } else {
            next.slots() == self.slots().push(node)
        }
        &&& next.free() == if !self.ids().contains_key(id) && self.free().len() > 0 {
            self.free().drop_last()
        } else {
            self.free()
        }
    }

    /// `next` is what deleting `id` makes of this manager: the id loses its
    /// slot, which joins the free list.
    pub open spec fn deletes_into(&self, id: usize, next: Self) -> bool {
        &&& next.slots() == self.slots()
        &&& next.changed_slots() == self.changed_slots()
        &&& next.ids() == self.ids().remove(id)
        &&& next.free() == if self.ids().contains_key(id) {
            self.free().push(self.ids()[id])
        } else {
            self.free()
        }
    }

    /// A manager with no records.
    pub fn new() -> (m: Self)
        ensures
            m.wf(),
            m.slots() == Seq::<T>::empty(),
            m.ids() == Map::<usize, usize>::empty(),
            m.free() == Seq::<usize>::empty(),
            m.changed_slots() == Seq::<usize>::empty(),
    {
        NodeManager { nodes: Vec::new(), id_map: HashMap::new(), free_list: Vec::new(), changed: Vec::new() }
    }

    /// Stores `node` as the record of node `id`: in the slot the id already
    /// has, else in the most recently freed slot, else in a new slot at the
    /// end. The slot is noted as changed.
    pub fn upsert_node(&mut self, id: usize, node: T)
        requires
            old(self).wf(),
        ensures
            final(self).wf(),
            old(self).upserts_into(id, node, *final(self)),
    {
        match self.id_map.get(&id) {
            Some(index) => {
                let index = *index;
                proof {
                    assert(self.id_map@.contains_key(id));
                    assert(self.id_map@[id] == index);
                    assert(self.ids().contains_key(id));
                    assert(old(self).ids().insert(id, index) =~= old(self).ids());
                }
                self.nodes.set(index, node);
                self.changed.push(index);
                        proof {
                            assert forall|k: int| 0 <= k < self.changed_slots().len() implies #[trigger] self.changed_slots()[k]
                                < self.slots().len() by {
                                if k < old(self).changed_slots().len() {
                                    assert(self.changed_slots()[k] == old(self).changed_slots()[k]);
                                }
                            }
                        }
            },
            None => {
                match self.free_list.pop() {
                    Some(free_index) => {
                        proof {
                            assert(old(self).free_list@[old(self).free_list@.len() - 1] == free_index);
                        }
                        self.nodes.set(free_index, node);
                        self.id_map.insert(id, free_index);
                        self.changed.push(free_index);
                        proof {
                            assert forall|k: int| 0 <= k < self.changed_slots().len() implies #[trigger] self.changed_slots()[k]
                                < self.slots().len() by {
                                if k < old(self).changed_slots().len() {
                                    assert(self.changed_slots()[k] == old(self).changed_slots()[k]);
                                }
                            }
                        }
                        proof {
                            let ofl = old(self).free_list@;
                            assert forall|k: int| 0 <= k < self.free().len() implies #[trigger] self.free()[k]
                                < self.slots().len() && forall|i: usize| #[trigger] self.ids().contains_key(i)
                                ==> self.ids()[i] != self.free()[k] by {
                                assert(self.free()[k] == ofl[k]);
                                assert(ofl[k] != ofl[ofl.len() - 1]);
                                assert forall|i: usize| #[trigger] self.ids().contains_key(i) implies self.ids()[i]
                                    != self.free()[k] by {
                                    if i != id {
                                        assert(old(self).ids().contains_key(i));
                                    }
                                }
                            }
                            assert forall|a: usize, b: usize|
                                #[trigger] self.ids().contains_key(a) && #[trigger] self.ids().contains_key(b) && a
                                    != b implies self.ids()[a] != self.ids()[b] by {
                                if a != id && b != id {
                                    assert(old(self).ids().contains_key(a) && old(self).ids().contains_key(b));
                                } else if a == id {
                                    assert(old(self).ids().contains_key(b));
                                    assert(old(self).free()[ofl.len() - 1] == free_index);
                                } else {
                                    assert(old(self).ids().contains_key(a));
                                    assert(old(self).free()[ofl.len() - 1] == free_index);
                                }
                            }
                            assert forall|i: usize| #[trigger] self.ids().contains_key(i) implies self.ids()[i]
                                < self.slots().len() by {
                                if i != id {
                                    assert(old(self).ids().contains_key(i));
                                }
                            }
                        }
                    },
                    None => {
                        self.nodes.push(node);
                        let inx = self.nodes.len() - 1;
                        self.id_map.insert(id, inx);
                        self.changed.push(inx);
                        proof {
                            assert forall|a: usize, b: usize|
                                #[trigger] self.ids().contains_key(a) && #[trigger] self.ids().contains_key(b) && a
                                    != b implies self.ids()[a] != self.ids()[b] by {
                                if a != id && b != id {
                                    assert(old(self).ids().contains_key(a) && old(self).ids().contains_key(b));
                                } else if a == id {
                                    assert(old(self).ids().contains_key(b));
                                } else {
                                    assert(old(self).ids().contains_key(a));
                                }
                            }
                            assert forall|i: usize| #[trigger] self.ids().contains_key(i) implies self.ids()[i]
                                < self.slots().len() by {
                                if i != id {
                                    assert(old(self).ids().contains_key(i));
                                }
                            }
                            assert forall|k: int| 0 <= k < self.free().len() implies #[trigger] self.free()[k]
                                < self.slots().len() && forall|i: usize| #[trigger] self.ids().contains_key(i)
                                ==> self.ids()[i] != self.free()[k] by {
                            }
                            assert forall|k: int| 0 <= k < self.changed_slots().len() implies #[trigger] self.changed_slots()[k]
                                < self.slots().len() by {
                                if k < self.changed_slots().len() - 1 {
                                    assert(self.changed_slots()[k] == old(self).changed_slots()[k]);
                                }
                            }
                        }
                    },
                }
            },
        }
    }

    /// Forgets node `id`; its slot joins the free list. Unknown ids change
    /// nothing.
    pub fn delete_node(&mut self, id: usize)
        requires
            old(self).wf(),
        ensures
            final(self).wf(),
            old(self).deletes_into(id, *final(self)),
    {
        match self.id_map.get(&id) {
            Some(index) => {
                let index = *index;
                self.free_list.push(index);
                self.id_map.remove(&id);
                        proof {
                            assert forall|k: int| 0 <= k < self.changed_slots().len() implies #[trigger] self.changed_slots()[k]
                                < self.slots().len() by {
                                if k < old(self).changed_slots().len() {
                                    assert(self.changed_slots()[k] == old(self).changed_slots()[k]);
                                }
                            }
                        }
                proof {
                    let ofl = old(self).free_list@;
                    let fl = self.free_list@;
                    assert(!ofl.contains(index)) by {
                        if ofl.contains(index) {
                            let k = choose|k: int| 0 <= k < ofl.len() && ofl[k] == index;
                            assert(old(self).ids().contains_key(id));
                        }
                    }
                    assert forall|i: usize| #[trigger] self.ids().contains_key(i) implies self.ids()[i]
                        < self.slots().len() by {
                        assert(old(self).ids().contains_key(i));
                    }
                    assert forall|a: usize, b: usize|
                        #[trigger] self.ids().contains_key(a) && #[trigger] self.ids().contains_key(b) && a != b implies self.ids()[a]
                        != self.ids()[b] by {
                        assert(old(self).ids().contains_key(a) && old(self).ids().contains_key(b));
                    }
                    assert forall|a: int, b: int| 0 <= a < b < fl.len() implies fl[a] != fl[b] by {
                        if b == fl.len() - 1 {
                            assert(fl[a] == ofl[a]);
                        }
                    }
                    assert forall|k: int| 0 <= k < fl.len() implies #[trigger] fl[k] < self.slots().len()
                        && forall|i: usize| #[trigger] self.ids().contains_key(i) ==> self.ids()[i] != fl[k] by {
                        if k < fl.len() - 1 {
                            assert(fl[k] == ofl[k]);
                        } else {
                            assert forall|i: usize| #[trigger] self.ids().contains_key(i) implies self.ids()[i]
                                != fl[k] by {
                                assert(i != id);
                                assert(old(self).ids().contains_key(i));
                            }
                        }
                    }
                }
            },
            None => {
                proof {
                    assert(old(self).ids().remove(id) =~= old(self).ids());
                }
                        proof {
                            assert forall|k: int| 0 <= k < self.changed_slots().len() implies #[trigger] self.changed_slots()[k]
                                < self.slots().len() by {
                                if k < old(self).changed_slots().len() {
                                    assert(self.changed_slots()[k] == old(self).changed_slots()[k]);
                                }
                            }
                        }
            },
        }
    }

    /// The written slots with their current records, in the order they were
    /// written: what the write commands for the GPU copy are made of.
    pub fn changed_records(&self) -> (r: Vec<(usize, &T)>)
        requires
            self.wf(),
        ensures
            r@.len() == self.changed_slots().len(),
            forall|k: int|
                0 <= k < r@.len() ==> (#[trigger] r@[k]).0 == self.changed_slots()[k] && *r@[k].1
                    == self.slots()[self.changed_slots()[k] as int],
    {
        let mut out: Vec<(usize, &T)> = Vec::new();
        let mut i: usize = 0;
        while i < self.changed.len()
            invariant
                self.wf(),
                0 <= i <= self.changed@.len(),
                out@.len() == i,
                forall|k: int|
                    0 <= k < i ==> (#[trigger] out@[k]).0 == self.changed_slots()[k] && *out@[k].1
                        == self.slots()[self.changed_slots()[k] as int],
            decreases self.changed@.len() - i,
        {
            let inx = self.changed[i];
            proof {
                assert(self.changed_slots()[i as int] == inx);
            }
            out.push((inx, &self.nodes[inx]));
            i = i + 1;
        }
        out
    }
}

/// A read gives back what a write stored: after storing `node` for `id`,
/// the record of `id` is `node`, and every other id keeps its slot and its
/// record.
pub proof fn law_upsert_then_get<T>(a: NodeManager<T>, id: usize, node: T, b: NodeManager<T>)
    requires
        a.wf(),
        a.upserts_into(id, node, b),
    ensures
        b.ids().contains_key(id),
        b.slots()[b.ids()[id] as int] == node,
        forall|other: usize|
            #[trigger] a.ids().contains_key(other) && other != id ==> b.ids().contains_key(other)
                && b.ids()[other] == a.ids()[other] && b.slots()[b.ids()[other] as int]
                == a.slots()[a.ids()[other] as int],
{
    if !a.ids().contains_key(id) && a.free().len() > 0 {
        assert(a.free()[a.free().len() - 1] == a.next_free_slot());
    }
    assert forall|other: usize| #[trigger] a.ids().contains_key(other) && other != id implies b.ids().contains_key(other)
        && b.ids()[other] == a.ids()[other] && b.slots()[b.ids()[other] as int] == a.slots()[a.ids()[other] as int] by {
        if !a.ids().contains_key(id) && a.free().len() > 0 {
            assert(a.free()[a.free().len() - 1] == a.next_free_slot());
        }
    }
}

/// A deleted node's slot is the one the next new node gets, and the
/// deleted id has no record any more.
pub proof fn law_delete_then_reuse<T>(a: NodeManager<T>, id: usize, b: NodeManager<T>)
    requires
        a.wf(),
        a.ids().contains_key(id),
        a.deletes_into(id, b),
    ensures
        !b.ids().contains_key(id),
        b.next_free_slot() == a.ids()[id],
{
}

/// Storing for an id that already has a record reuses its slot: no slot is
/// added and none is taken from the free list.
pub proof fn law_upsert_existing_keeps_layout<T>(a: NodeManager<T>, id: usize, node: T, b: NodeManager<T>)
    requires
        a.wf(),
        a.ids().contains_key(id),
        a.upserts_into(id, node, b),
    ensures
        b.slots().len() == a.slots().len(),
        b.free() == a.free(),
        b.ids() == a.ids(),
{
    assert(a.ids().insert(id, a.ids()[id]) =~= a.ids());
}

} // verus!
