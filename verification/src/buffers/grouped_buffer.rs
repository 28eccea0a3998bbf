//! A byte buffer that stores items by group and id, remembers which byte
//! ranges changed, and turns those into write commands.
use std::ops::Range;
use vstd::prelude::*;

use crate::buffer::{overwrite, write_at};
use crate::buffers::types::WriteCommand;

verus! {

/// A stored item: its group, its id, and the first and one-past-last byte it
/// occupies.
pub type Entry = (u32, u32, u32, u32);

/// The position in `s` of the item `(group, id)`, if it is stored.
pub open spec fn entry_index(s: Seq<Entry>, group: u32, id: u32) -> Option<int>
    decreases s.len(),
{
    if s.len() == 0 {
        None
    } else if s.last().0 == group && s.last().1 == id {
        Some(s.len() - 1)
    } else {
        entry_index(s.drop_last(), group, id)
    }
}

/// The bytes spanned by the items of `group`: from the lowest start to the
/// highest end, if the group has any item.
pub open spec fn group_span(s: Seq<Entry>, group: u32) -> Option<(u32, u32)>
    decreases s.len(),
{
    if s.len() == 0 {
        None
    } else {
        let e = s.last();
        let rest = group_span(s.drop_last(), group);
        if e.0 != group {
            rest
        } else {
            match rest {
                None => Some((e.2, e.3)),
                Some(r) => Some(
                    (if e.2 < r.0 {
                        e.2
                    } else {
                        r.0
                    }, if e.3 > r.1 {
                        e.3
                    } else {
                        r.1
                    }),
                ),
            }
        }
    }
}

/// Items are stored once each, in increasing and non-overlapping byte
/// ranges that end within the first `len` bytes.
pub open spec fn entries_wf(s: Seq<Entry>, len: int) -> bool {
    &&& forall|a: int, b: int|
        0 <= a < b < s.len() ==> !((#[trigger] s[a]).0 == (#[trigger] s[b]).0 && s[a].1 == s[b].1)
    &&& forall|k: int| 0 <= k < s.len() ==> (#[trigger] s[k]).2 <= s[k].3 <= len
    &&& forall|a: int, b: int| 0 <= a < b < s.len() ==> (#[trigger] s[a]).3 <= (#[trigger] s[b]).2
}

/// The bytes of item `(group, id)` as recorded by `s`, if it is stored.
pub open spec fn stored_in(s: Seq<Entry>, bytes: Seq<u8>, group: u32, id: u32) -> Option<Seq<u8>> {
    match entry_index(s, group, id) {
        Some(k) => Some(bytes.subrange(s[k].2 as int, s[k].3 as int)),
        None => None,
    }
}

/// `s` with `r` added, unless `r` is already there.
pub open spec fn set_insert(s: Seq<(u32, u32)>, r: (u32, u32)) -> Seq<(u32, u32)> {
    if s.contains(r) {
        s
    } else {
        s.push(r)
    }
}

/// `bytes` with positions `start..end` set to zero.
pub open spec fn zeroed(bytes: Seq<u8>, start: int, end: int) -> Seq<u8> {
    Seq::new(
        bytes.len(),
        |i: int|
            if start <= i < end {
                0u8
            } else {
                bytes[i]
            },
    )
}

/// Items stored by group and id in one byte buffer, in the order they were
/// first stored, and the byte ranges changed since the last write commands.
pub struct GroupedBuffer {
    buffer: Vec<u8>,
    entries: Vec<(u32, u32, Range<u32>)>,
    modified_ranges: Vec<Range<u32>>,
}

impl GroupedBuffer {
    /// The buffer's bytes.
    pub closed spec fn bytes(&self) -> Seq<u8> {
        self.buffer@
    }

    /// The stored items, oldest first.
    pub closed spec fn entries(&self) -> Seq<Entry> {
        self.entries@.map_values(|e: (u32, u32, Range<u32>)| (e.0, e.1, e.2.start, e.2.end))
    }

    /// The byte ranges changed since the last write commands, each once.
    pub closed spec fn modified(&self) -> Seq<(u32, u32)> {
        self.modified_ranges@.map_values(|r: Range<u32>| (r.start, r.end))
    }

    /// Every item is stored once, every range lies within the bytes, and
    /// every changed range is listed once.
    pub open spec fn wf(&self) -> bool {
        &&& entries_wf(self.entries(), self.bytes().len() as int)
        &&& self.modified().no_duplicates()
        &&& forall|k: int|
            0 <= k < self.modified().len() ==> (#[trigger] self.modified()[k]).0 <= self.modified()[k].1
                <= self.bytes().len()
    }

    /// The bytes of item `(group, id)`, if it is stored.
    pub open spec fn stored(&self, group: u32, id: u32) -> Option<Seq<u8>> {
        stored_in(self.entries(), self.bytes(), group, id)
    }

    /// An empty buffer.
    pub fn new() -> (g: Self)
        ensures
            g.wf(),
            g.bytes() == Seq::<u8>::empty(),
            g.entries() == Seq::<Entry>::empty(),
            g.modified() == Seq::<(u32, u32)>::empty(),
    {
        let g = GroupedBuffer { buffer: Vec::new(), entries: Vec::new(), modified_ranges: Vec::new() };
        proof {
            assert(g.entries() =~= Seq::<Entry>::empty());
            assert(g.modified() =~= Seq::<(u32, u32)>::empty());
        }
        g
    }

    /// Finds the position of item `(group, id)`.
    fn find(&self, group: u32, id: u32) -> (r: Option<usize>)
        ensures
            r matches Some(k) ==> entry_index(self.entries(), group, id) == Some(k as int),
            r is None <==> entry_index(self.entries(), group, id) is None,
    {
        let n = self.entries.len();
        let mut i = n;
        let ghost es = self.entries();
        proof {
            assert(es.subrange(0, n as int) =~= es);
        }
        while i > 0
            invariant
                i <= n,
                n == self.entries@.len(),
                es == self.entries(),
                entry_index(es, group, id) == entry_index(es.subrange(0, i as int), group, id),
            decreases i,
        {
            let e = &self.entries[i - 1];
            proof {
                let sub = es.subrange(0, i as int);
                assert(sub.last() == es[i - 1]);
                assert(sub.drop_last() =~= es.subrange(0, i - 1));
            }
            if e.0 == group && e.1 == id {
                return Some(i - 1);
            }
            i = i - 1;
        }
        proof {
            assert(es.subrange(0, 0) =~= Seq::<Entry>::empty());
        }
        None
    }

    /// Whether `len` bytes can be stored as item `(group, id)`: a stored item
    /// keeps its size, and a new one must keep the buffer within `u32`
    /// positions.
    pub fn can_store(&self, group: u32, id: u32, len: usize) -> (r: bool)
        requires
            self.wf(),
        ensures
            r == (match entry_index(self.entries(), group, id) {
                Some(k) => len == self.entries()[k].3 - self.entries()[k].2,
                None => self.bytes().len() + len <= u32::MAX,
            }),
    {
        proof {
            lemma_entry_index(self.entries(), group, id);
        }
        match self.find(group, id) {
            Some(k) => {
                let e = &self.entries[k];
                proof {
                    assert(self.entries()[k as int] == (e.0, e.1, e.2.start, e.2.end));
                    assert(e.2.start <= e.2.end);
                }
                len as u64 == (e.2.end - e.2.start) as u64
            },
            None => {
                let used = self.buffer.len();
                used <= u32::MAX as usize && len <= u32::MAX as usize - used
            },
        }
    }

    /// The span of `group` over all items.
    fn span(&self, group: u32) -> (r: Option<(u32, u32)>)
        ensures
            r == group_span(self.entries(), group),
    {
        let n = self.entries.len();
        let mut i: usize = 0;
        let mut acc: Option<(u32, u32)> = None;
        let ghost es = self.entries();
        while i < n
            invariant
                i <= n,
                n == self.entries@.len(),
                es == self.entries(),
                acc == group_span(es.subrange(0, i as int), group),
            decreases n - i,
        {
            let e = &self.entries[i];
            proof {
                let sub = es.subrange(0, i + 1);
                assert(sub.drop_last() =~= es.subrange(0, i as int));
                assert(sub.last() == es[i as int]);
            }
            if e.0 == group {
                let s = e.2.start;
                let t = e.2.end;
                acc = match acc {
                    None => Some((s, t)),
                    Some(r) => Some(
                        (if s < r.0 {
                            s
                        } else {
                            r.0
                        }, if t > r.1 {
                            t
                        } else {
                            r.1
                        }),
                    ),
                };
            }
            i = i + 1;
        }
        proof {
            assert(es.subrange(0, n as int) =~= es);
        }
        acc
    }

    /// Marks `start..end` as changed.
    fn mark_modified(&mut self, start: u32, end: u32)
        requires
            old(self).modified().no_duplicates(),
        ensures
            final(self).modified() == set_insert(old(self).modified(), (start, end)),
            final(self).modified().no_duplicates(),
            final(self).bytes() == old(self).bytes(),
            final(self).entries() == old(self).entries(),
    {
        let n = self.modified_ranges.len();
        let mut i: usize = 0;
        let ghost ms = self.modified();
        while i < n
            invariant
                i <= n,
                n == self.modified_ranges@.len(),
                ms == self.modified(),
                ms == old(self).modified(),
                ms.no_duplicates(),
                self.bytes() == old(self).bytes(),
                self.entries() == old(self).entries(),
                forall|k: int| 0 <= k < i ==> ms[k] != (start, end),
            decreases n - i,
        {
            let r = &self.modified_ranges[i];
            if r.start == start && r.end == end {
                proof {
                    assert(ms[i as int] == (start, end));
                    assert(ms.contains((start, end)));
                }
                return;
            }
            i = i + 1;
        }
        proof {
            assert(!ms.contains((start, end)));
        }
        self.modified_ranges.push(start..end);
        proof {
            assert(self.modified() =~= ms.push((start, end)));
        }
    }

    /// Stores the bytes of item `id` of `group`. An item stored before keeps
    /// its place and its bytes are overwritten; a new item is appended to the
    /// buffer. Either way its range is marked as changed. Returns the bytes
    /// spanned by the whole group afterwards.
    pub fn store(&mut self, group: u32, id: u32, item: &[u8]) -> (r: Range<u32>)
        requires
            old(self).wf(),
            entry_index(old(self).entries(), group, id) matches Some(k) ==> item@.len()
                == old(self).entries()[k].3 - old(self).entries()[k].2,
            entry_index(old(self).entries(), group, id) is None ==> old(self).bytes().len()
                + item@.len() <= u32::MAX,
        ensures
            final(self).wf(),
            match entry_index(old(self).entries(), group, id) {
                Some(k) => {
                    let e = old(self).entries()[k];
                    &&& final(self).entries() == old(self).entries()
                    &&& final(self).bytes() == overwrite(old(self).bytes(), e.2 as int, item@)
                    &&& final(self).modified() == set_insert(old(self).modified(), (e.2, e.3))
                },
                None => {
                    let start = old(self).bytes().len() as u32;
                    let end = (old(self).bytes().len() + item@.len()) as u32;
                    &&& final(self).entries() == old(self).entries().push((group, id, start, end))
                    &&& final(self).bytes() == old(self).bytes() + item@
                    &&& final(self).modified() == set_insert(old(self).modified(), (start, end))
                },
            },
            group_span(final(self).entries(), group) == Some((r.start, r.end)),
            forall|k: int|
                0 <= k < final(self).entries().len() && (#[trigger] final(self).entries()[k]).0 == group ==> r.start
                    <= final(self).entries()[k].2 && final(self).entries()[k].3 <= r.end,
            exists|k: int|
                0 <= k < final(self).entries().len() && (#[trigger] final(self).entries()[k]).0 == group
                    && final(self).entries()[k].2 == r.start,
            exists|k: int|
                0 <= k < final(self).entries().len() && (#[trigger] final(self).entries()[k]).0 == group
                    && final(self).entries()[k].3 == r.end,
            final(self).stored(group, id) == Some(item@),
            forall|g: u32, i: u32|
                !(g == group && i == id) ==> #[trigger] final(self).stored(g, i) == old(self).stored(g, i),
    {
        match self.find(group, id) {
            Some(k) => {
                proof {
                    lemma_entry_index(old(self).entries(), group, id);
                    lemma_stored_after_overwrite(old(self).entries(), old(self).bytes(), group, id, item@);
                }
                let start = self.entries[k].2.start;
                let end = self.entries[k].2.end;
                proof {
                    assert(self.entries() == old(self).entries());
                    assert(entry_index(old(self).entries(), group, id) == Some(k as int));
                    assert(old(self).entries()[k as int].0 == group);
                    let e = self.entries@[k as int];
                    assert(e.2.start == start && e.2.end == end);
                    assert(self.entries()[k as int] == (e.0, e.1, e.2.start, e.2.end));
                    assert(self.entries()[k as int] == (group, id, start, end));
                    assert(self.buffer@.len() == self.buffer.len());
                }
                write_at(&mut self.buffer, start as usize, item);
                proof {
                    assert(self.bytes() =~= overwrite(old(self).bytes(), start as int, item@));
                    assert(self.bytes().len() == old(self).bytes().len());
                }
                self.mark_modified(start, end);
                proof {
                    lemma_span_contains(self.entries(), group, k as int);
                }
                let span = self.span(group);
                proof {
                    law_group_span(self.entries(), group);
                }
                let s = span.unwrap();
                s.0..s.1
            },
            None => {
                let start = self.buffer.len() as u32;
                let end = start + item.len() as u32;
                let ghost old_bytes = self.buffer@;
                let ghost old_entries = self.entries();
                proof {
                    lemma_stored_after_append(old_entries, old_bytes, group, id, item@);
                }
                self.buffer.extend_from_slice(item);
                proof {
                    assert(self.buffer@ =~= old_bytes + item@);
                }
                self.entries.push((group, id, start..end));
                proof {
                    assert(self.entries() =~= old_entries.push((group, id, start, end)));
                    lemma_entry_index(old_entries, group, id);
                    lemma_span_contains(self.entries(), group, old_entries.len() as int);
                }
                self.mark_modified(start, end);
                let span = self.span(group);
                proof {
                    law_group_span(self.entries(), group);
                }
                let s = span.unwrap();
                s.0..s.1
            },
        }
    }

    /// Forgets item `id` of `group`, if stored: its bytes become zero and
    /// its range is marked as changed. Otherwise nothing changes.
    pub fn remove(&mut self, group: u32, id: u32)
        requires
            old(self).wf(),
        ensures
            final(self).wf(),
            match entry_index(old(self).entries(), group, id) {
                Some(k) => {
                    let e = old(self).entries()[k];
                    &&& final(self).entries() == old(self).entries().remove(k)
                    &&& final(self).bytes() == zeroed(old(self).bytes(), e.2 as int, e.3 as int)
                    &&& final(self).modified() == set_insert(old(self).modified(), (e.2, e.3))
                },
                None => {
                    &&& final(self).entries() == old(self).entries()
                    &&& final(self).bytes() == old(self).bytes()
                    &&& final(self).modified() == old(self).modified()
                },
            },
            final(self).stored(group, id) is None,
            forall|g: u32, i: u32|
                !(g == group && i == id) ==> #[trigger] final(self).stored(g, i) == old(self).stored(g, i),
    {
        if let Some(k) = self.find(group, id) {
            proof {
                lemma_entry_index(old(self).entries(), group, id);
                lemma_stored_after_remove(old(self).entries(), old(self).bytes(), group, id);
            }
            let start = self.entries[k].2.start;
            let end = self.entries[k].2.end;
            let ghost old_entries = self.entries@;
            self.entries.remove(k);
            proof {
                assert(self.entries() =~= old(self).entries().remove(k as int));
            }
            let mut i = start;
            while i < end
                invariant
                    start <= i <= end,
                    end <= self.buffer@.len(),
                    self.entries() == old(self).entries().remove(k as int),
                    self.modified() == old(self).modified(),
                    old(self).wf(),
                    self.buffer@.len() == old(self).bytes().len(),
                    forall|j: int|
                        0 <= j < self.buffer@.len() ==> #[trigger] self.buffer@[j] == if start <= j < i {
                            0u8
                        } else {
                            old(self).bytes()[j]
                        },
                decreases end - i,
            {
                self.buffer.set(i as usize, 0u8);
                i = i + 1;
            }
            proof {
                assert(self.bytes() =~= zeroed(old(self).bytes(), start as int, end as int));
            }
            self.mark_modified(start, end);
            proof {
                let es = self.entries();
                let oes = old(self).entries();
                assert forall|a: int, b: int| 0 <= a < b < es.len() implies !((#[trigger] es[a]).0
                    == (#[trigger] es[b]).0 && es[a].1 == es[b].1) by {
                    let a2 = if a < k { a } else { a + 1 };
                    let b2 = if b < k { b } else { b + 1 };
                    assert(es[a] == oes[a2]);
                    assert(es[b] == oes[b2]);
                }
                assert forall|j: int| 0 <= j < es.len() implies (#[trigger] es[j]).2 <= es[j].3
                    <= self.bytes().len() by {
                    let j2 = if j < k { j } else { j + 1 };
                    assert(es[j] == oes[j2]);
                }
            }
        }
    }

    /// One write command per changed range, in the order the ranges were
    /// first marked, each holding the range's current bytes; afterwards no
    /// range is marked.
    pub fn generate_write_commands(&mut self) -> (r: Vec<WriteCommand>)
        requires
            old(self).wf(),
        ensures
            final(self).wf(),
            final(self).bytes() == old(self).bytes(),
            final(self).entries() == old(self).entries(),
            final(self).modified() == Seq::<(u32, u32)>::empty(),
            r@.len() == old(self).modified().len(),
            forall|k: int|
                0 <= k < r@.len() ==> {
                    let m = old(self).modified()[k];
                    &&& (#[trigger] r@[k]).offset == m.0
                    &&& r@[k].data@ == old(self).bytes().subrange(m.0 as int, m.1 as int)
                },
    {
        let mut commands: Vec<WriteCommand> = Vec::new();
        let n = self.modified_ranges.len();
        let ghost ms = self.modified();
        let mut i: usize = 0;
        while i < n
            invariant
                i <= n,
                n == ms.len(),
                self.modified() == ms,
                self.bytes() == old(self).bytes(),
                self.entries() == old(self).entries(),
                ms == old(self).modified(),
                old(self).wf(),
                commands@.len() == i,
                forall|k: int|
                    0 <= k < i ==> {
                        let m = ms[k];
                        &&& (#[trigger] commands@[k]).offset == m.0
                        &&& commands@[k].data@ == self.bytes().subrange(m.0 as int, m.1 as int)
                    },
            decreases n - i,
        {
            let start = self.modified_ranges[i].start;
            let end = self.modified_ranges[i].end;
            proof {
                assert(ms[i as int] == (start, end));
            }
            let data = copy_range(&self.buffer, start as usize, end as usize);
            commands.push(WriteCommand { offset: start as usize, data });
            i = i + 1;
        }
        self.modified_ranges.clear();
        proof {
            assert(self.modified() =~= Seq::<(u32, u32)>::empty());
        }
        commands
    }
}

/// The bytes `start..end` of `v`.
fn copy_range(v: &Vec<u8>, start: usize, end: usize) -> (r: Vec<u8>)
    requires
        start <= end <= v@.len(),
    ensures
        r@ == v@.subrange(start as int, end as int),
{
    let mut r: Vec<u8> = Vec::new();
    let mut i = start;
    while i < end
        invariant
            start <= i <= end,
            end <= v@.len(),
            r@ == v@.subrange(start as int, i as int),
        decreases end - i,
    {
        r.push(v[i]);
        i = i + 1;
        proof {
            assert(r@ =~= v@.subrange(start as int, i as int));
        }
    }
    r
}

/// `entry_index` finds the entry with the given group and id.
pub proof fn lemma_entry_index(s: Seq<Entry>, group: u32, id: u32)
    ensures
        entry_index(s, group, id) matches Some(k) ==> 0 <= k < s.len() && s[k].0 == group && s[k].1
            == id,
        entry_index(s, group, id) is None ==> forall|k: int|
            0 <= k < s.len() ==> !(#[trigger] s[k].0 == group && s[k].1 == id),
    decreases s.len(),
{
    if s.len() > 0 {
        let t = s.drop_last();
        lemma_entry_index(t, group, id);
        if entry_index(s, group, id) is None {
            assert forall|k: int| 0 <= k < s.len() implies !(#[trigger] s[k].0 == group && s[k].1
                == id) by {
                if k < s.len() - 1 {
                    assert(s[k] == t[k]);
                }
            }
        }
    }
}

/// A group with an item at position `k` has a span.
/// The span of a group runs from the lowest start to the highest end of
/// its items: every item of the group lies within it, and some item starts
/// at its start and some item ends at its end. A group without items has no
/// span.
pub proof fn law_group_span(s: Seq<Entry>, group: u32)
    ensures
        group_span(s, group) is None <==> forall|k: int| 0 <= k < s.len() ==> (#[trigger] s[k]).0 != group,
        group_span(s, group) matches Some(r) ==> {
            &&& forall|k: int| 0 <= k < s.len() && (#[trigger] s[k]).0 == group ==> r.0 <= s[k].2 && s[k].3 <= r.1
            &&& exists|k: int| 0 <= k < s.len() && (#[trigger] s[k]).0 == group && s[k].2 == r.0
            &&& exists|k: int| 0 <= k < s.len() && (#[trigger] s[k]).0 == group && s[k].3 == r.1
        },
    decreases s.len(),
{
    if s.len() > 0 {
        let t = s.drop_last();
        law_group_span(t, group);
        let e = s.last();
        assert(s[s.len() - 1] == e);
        assert forall|k: int| 0 <= k < t.len() implies #[trigger] s[k] == t[k] by {}
        match group_span(t, group) {
            None => {
                if e.0 == group {
                    assert forall|k: int| 0 <= k < s.len() && (#[trigger] s[k]).0 == group implies e.2 <= s[k].2 && s[k].3 <= e.3 by {
                        if k < t.len() {
                            assert(t[k].0 != group);
                        }
                    }
                } else {
                    assert forall|k: int| 0 <= k < s.len() implies (#[trigger] s[k]).0 != group by {
                        if k < t.len() {
                            assert(t[k].0 != group);
                        }
                    }
                }
            },
            Some(r) => {
                let k0 = choose|k: int| 0 <= k < t.len() && (#[trigger] t[k]).0 == group && t[k].2 == r.0;
                let k1 = choose|k: int| 0 <= k < t.len() && (#[trigger] t[k]).0 == group && t[k].3 == r.1;
                assert(s[k0] == t[k0] && s[k1] == t[k1]);
                assert(t[k0].0 == group);
            },
        }
    }
}

pub proof fn lemma_span_contains(s: Seq<Entry>, group: u32, k: int)
    requires
        0 <= k < s.len(),
        s[k].0 == group,
    ensures
        group_span(s, group) is Some,
    decreases s.len(),
{
    if k < s.len() - 1 {
        lemma_span_contains(s.drop_last(), group, k);
    }
}

/// With keys stored once, the entry holding a key is the one found for it.
pub proof fn lemma_entry_index_unique(s: Seq<Entry>, len: int, group: u32, id: u32, k: int)
    requires
        entries_wf(s, len),
        0 <= k < s.len(),
        s[k].0 == group,
        s[k].1 == id,
    ensures
        entry_index(s, group, id) == Some(k),
{
    lemma_entry_index(s, group, id);
    let j = entry_index(s, group, id)->0;
    if j != k {
        if j < k {
            assert(s[j].0 == s[k].0 && s[j].1 == s[k].1);
        } else {
            assert(s[k].0 == s[j].0 && s[k].1 == s[j].1);
        }
    }
}

/// Appending a new item records its bytes and leaves every other item's
/// bytes as they were.
pub proof fn lemma_stored_after_append(
    s: Seq<Entry>,
    bytes: Seq<u8>,
    group: u32,
    id: u32,
    item: Seq<u8>,
)
    requires
        entries_wf(s, bytes.len() as int),
        entry_index(s, group, id) is None,
        bytes.len() + item.len() <= u32::MAX,
    ensures
        ({
            let s2 = s.push((group, id, bytes.len() as u32, (bytes.len() + item.len()) as u32));
            let b2 = bytes + item;
            &&& entries_wf(s2, b2.len() as int)
            &&& stored_in(s2, b2, group, id) == Some(item)
            &&& forall|g: u32, i: u32|
                !(g == group && i == id) ==> #[trigger] stored_in(s2, b2, g, i) == stored_in(s, bytes, g, i)
        }),
{
    let s2 = s.push((group, id, bytes.len() as u32, (bytes.len() + item.len()) as u32));
    let b2 = bytes + item;
    lemma_entry_index(s, group, id);
    assert(s2.drop_last() =~= s);
    assert(entries_wf(s2, b2.len() as int)) by {
        assert forall|a: int, b: int| 0 <= a < b < s2.len() implies !((#[trigger] s2[a]).0
            == (#[trigger] s2[b]).0 && s2[a].1 == s2[b].1) by {
            if b == s2.len() - 1 {
                assert(s2[a] == s[a]);
            } else {
                assert(s2[a] == s[a] && s2[b] == s[b]);
            }
        }
        assert forall|a: int, b: int| 0 <= a < b < s2.len() implies (#[trigger] s2[a]).3 <= (
        #[trigger] s2[b]).2 by {
            assert(s2[a] == s[a]);
            if b < s2.len() - 1 {
                assert(s2[b] == s[b]);
            }
        }
        assert forall|k: int| 0 <= k < s2.len() implies (#[trigger] s2[k]).2 <= s2[k].3 <= b2.len() by {
            if k < s2.len() - 1 {
                assert(s2[k] == s[k]);
            }
        }
    }
    assert(b2.subrange(bytes.len() as int, b2.len() as int) =~= item);
    assert forall|g: u32, i: u32| !(g == group && i == id) implies #[trigger] stored_in(s2, b2, g, i)
        == stored_in(s, bytes, g, i) by {
        lemma_entry_index(s, g, i);
        match entry_index(s, g, i) {
            Some(k) => {
                assert(s2[k] == s[k]);
                assert(b2.subrange(s[k].2 as int, s[k].3 as int) =~= bytes.subrange(
                    s[k].2 as int,
                    s[k].3 as int,
                ));
            },
            None => {},
        }
    }
}

/// Overwriting an item's bytes in place records the new bytes and leaves
/// every other item's bytes as they were.
pub proof fn lemma_stored_after_overwrite(
    s: Seq<Entry>,
    bytes: Seq<u8>,
    group: u32,
    id: u32,
    item: Seq<u8>,
)
    requires
        entries_wf(s, bytes.len() as int),
        entry_index(s, group, id) matches Some(k) && item.len() == s[k].3 - s[k].2,
    ensures
        ({
            let k = entry_index(s, group, id)->0;
            let b2 = overwrite(bytes, s[k].2 as int, item);
            &&& b2.len() == bytes.len()
            &&& stored_in(s, b2, group, id) == Some(item)
            &&& forall|g: u32, i: u32|
                !(g == group && i == id) ==> #[trigger] stored_in(s, b2, g, i) == stored_in(s, bytes, g, i)
        }),
{
    let k = entry_index(s, group, id)->0;
    lemma_entry_index(s, group, id);
    let b2 = overwrite(bytes, s[k].2 as int, item);
    assert(b2.subrange(s[k].2 as int, s[k].3 as int) =~= item);
    assert forall|g: u32, i: u32| !(g == group && i == id) implies #[trigger] stored_in(s, b2, g, i)
        == stored_in(s, bytes, g, i) by {
        lemma_entry_index(s, g, i);
        match entry_index(s, g, i) {
            Some(j) => {
                assert(j != k);
                assert(s[j].3 <= s[k].2 || s[k].3 <= s[j].2);
                assert(b2.subrange(s[j].2 as int, s[j].3 as int) =~= bytes.subrange(
                    s[j].2 as int,
                    s[j].3 as int,
                ));
            },
            None => {},
        }
    }
}

/// Forgetting an item removes its record and leaves every other item's
/// bytes as they were.
pub proof fn lemma_stored_after_remove(s: Seq<Entry>, bytes: Seq<u8>, group: u32, id: u32)
    requires
        entries_wf(s, bytes.len() as int),
        entry_index(s, group, id) is Some,
    ensures
        ({
            let k = entry_index(s, group, id)->0;
            let s2 = s.remove(k);
            let b2 = zeroed(bytes, s[k].2 as int, s[k].3 as int);
            &&& entries_wf(s2, b2.len() as int)
            &&& stored_in(s2, b2, group, id) is None
            &&& forall|g: u32, i: u32|
                !(g == group && i == id) ==> #[trigger] stored_in(s2, b2, g, i) == stored_in(s, bytes, g, i)
        }),
{
    let k = entry_index(s, group, id)->0;
    lemma_entry_index(s, group, id);
    let s2 = s.remove(k);
    let b2 = zeroed(bytes, s[k].2 as int, s[k].3 as int);
    assert forall|j: int| 0 <= j < s2.len() implies #[trigger] s2[j] == s[if j < k { j } else { j + 1 }] by {}
    assert(entries_wf(s2, b2.len() as int)) by {
        assert forall|a: int, b: int| 0 <= a < b < s2.len() implies !((#[trigger] s2[a]).0
            == (#[trigger] s2[b]).0 && s2[a].1 == s2[b].1) by {
            let a2 = if a < k { a } else { a + 1 };
            let b2 = if b < k { b } else { b + 1 };
            assert(s2[a] == s[a2] && s2[b] == s[b2]);
        }
        assert forall|a: int, b: int| 0 <= a < b < s2.len() implies (#[trigger] s2[a]).3 <= (
        #[trigger] s2[b]).2 by {
            let a2 = if a < k { a } else { a + 1 };
            let b2 = if b < k { b } else { b + 1 };
            assert(s2[a] == s[a2] && s2[b] == s[b2]);
        }
        assert forall|j: int| 0 <= j < s2.len() implies (#[trigger] s2[j]).2 <= s2[j].3 <= b2.len() by {
            let j2 = if j < k { j } else { j + 1 };
            assert(s2[j] == s[j2]);
        }
    }
    lemma_entry_index(s2, group, id);
    if entry_index(s2, group, id) is Some {
        let j = entry_index(s2, group, id)->0;
        let j2 = if j < k { j } else { j + 1 };
        assert(s2[j] == s[j2]);
        assert(s[j2].0 == group && s[j2].1 == id);
        lemma_entry_index_unique(s, bytes.len() as int, group, id, j2);
    }
    assert forall|g: u32, i: u32| !(g == group && i == id) implies #[trigger] stored_in(s2, b2, g, i)
        == stored_in(s, bytes, g, i) by {
        lemma_entry_index(s, g, i);
        lemma_entry_index(s2, g, i);
        match entry_index(s, g, i) {
            Some(j) => {
                assert(j != k);
                let j1 = if j < k { j } else { j - 1 };
                assert(s2[j1] == s[j]);
                lemma_entry_index_unique(s2, b2.len() as int, g, i, j1);
                assert(s[j].3 <= s[k].2 || s[k].3 <= s[j].2);
                assert(b2.subrange(s[j].2 as int, s[j].3 as int) =~= bytes.subrange(
                    s[j].2 as int,
                    s[j].3 as int,
                ));
            },
            None => {
                if entry_index(s2, g, i) is Some {
                    let j = entry_index(s2, g, i)->0;
                    let j2 = if j < k { j } else { j + 1 };
                    assert(s2[j] == s[j2]);
                }
            },
        }
    }
}

} // verus!
