//! A growable byte buffer written front to back, the staging area of a GPU
//! buffer, and slices of it.
use std::ops::Range;
use vstd::prelude::*;

use crate::hardware::BufferHandle;

verus! {

/// `old` with `bytes` written from position `at` on: the sequence grows to
/// cover the write, positions it did not reach before are zero.
pub open spec fn overwrite(old: Seq<u8>, at: int, bytes: Seq<u8>) -> Seq<u8> {
    let len = if at + bytes.len() > old.len() {
        at + bytes.len()
    } else {
        old.len() as int
    };
    Seq::new(
        len as nat,
        |i: int|
            if at <= i < at + bytes.len() {
                bytes[i - at]
            } else if i < old.len() {
                old[i]
            } else {
                0u8
            },
    )
}

/// Writes `bytes` into `data` from position `at`, growing `data` with zeros
/// as needed.
pub fn write_at(data: &mut Vec<u8>, at: usize, bytes: &[u8])
    requires
        at + bytes@.len() <= usize::MAX,
    ensures
        final(data)@ == overwrite(old(data)@, at as int, bytes@),
{
    let n = bytes.len();
    let end = at + n;
    if end > data.len() {
        data.resize(end, 0u8);
    }
    let ghost grown = data@;
    proof {
        assert forall|i: int| old(data)@.len() <= i < grown.len() implies grown[i] == 0u8 by {
            assert(cloned::<u8>(0u8, grown[i]));
        }
    }
    let mut i: usize = 0;
    while i < n
        invariant
            n == bytes@.len(),
            end == at + n,
            0 <= i <= n,
            data@.len() == grown.len(),
            grown.len() >= end,
            grown.len() == overwrite(old(data)@, at as int, bytes@).len(),
            forall|k: int| old(data)@.len() <= k < grown.len() ==> grown[k] == 0u8,
            forall|k: int| 0 <= k < old(data)@.len() && k < grown.len() ==> grown[k] == old(data)@[k],
            forall|k: int|
                0 <= k < data@.len() ==> #[trigger] data@[k] == if at <= k < at + i {
                    bytes@[k - at]
                } else {
                    grown[k]
                },
        decreases n - i,
    {
        data.set(at + i, bytes[i]);
        i = i + 1;
    }
    proof {
        assert(data@ =~= overwrite(old(data)@, at as int, bytes@));
    }
}

/// A range of bytes of a GPU buffer.
#[derive(Debug)]
pub struct BufferSlice {
    pub handle: BufferHandle,
    pub range: Range<u64>,
}

impl Clone for BufferSlice {
    fn clone(&self) -> (r: Self)
        ensures
            r == *self,
    {
        BufferSlice { handle: self.handle, range: self.range.start..self.range.end }
    }
}

/// The bytes staged for a GPU buffer and the position of the next write.
#[derive(Debug)]
pub struct Buffer {
    pub handle: BufferHandle,
    data: Vec<u8>,
    offset: u64,
}

impl Buffer {
    /// The buffer being staged for: the `handle` field.
    pub closed spec fn handle(&self) -> BufferHandle {
        self.handle
    }

    /// The staged bytes.
    pub closed spec fn data(&self) -> Seq<u8> {
        self.data@
    }

    /// Where the next write starts.
    pub closed spec fn offset(&self) -> nat {
        self.offset as nat
    }

    /// An empty buffer for `handle`.
    pub fn new(handle: BufferHandle) -> (b: Self)
        ensures
            b.handle() == handle,
            b.data() == Seq::<u8>::empty(),
            b.offset() == 0,
            b.offset() <= b.data().len(),
    {
        Buffer { handle, data: Vec::new(), offset: 0 }
    }

    /// The slice `range` of this buffer.
    pub fn slice(&self, range: Range<u64>) -> (s: BufferSlice)
        ensures
            s.handle == self.handle(),
            s.range == range,
    {
        BufferSlice { handle: self.handle, range }
    }

    /// The slice covering all staged bytes.
    pub fn full(&self) -> (s: BufferSlice)
        ensures
            s.handle == self.handle(),
            s.range.start == 0,
            s.range.end == self.data().len(),
    {
        BufferSlice { handle: self.handle, range: 0..self.data.len() as u64 }
    }

    /// Starts writing from the front again; the staged bytes stay.
    pub fn begin(&mut self)
        ensures
            final(self).offset() == 0,
            final(self).data() == old(self).data(),
            final(self).handle() == old(self).handle(),
            final(self).offset() <= final(self).data().len(),
    {
        self.offset = 0;
    }

    /// Hands over the staged bytes, to be copied to the GPU buffer, and
    /// starts writing from the front again; the staged bytes stay.
    pub fn flush(&mut self) -> (r: Vec<u8>)
        ensures
            r@ == old(self).data(),
            final(self).offset() == 0,
            final(self).data() == old(self).data(),
            final(self).handle() == old(self).handle(),
            final(self).offset() <= final(self).data().len(),
    {
        let r = crate::hardware::copy_bytes(&self.data);
        self.offset = 0;
        r
    }

    /// Writes `data` at the current position, growing the buffer with zeros
    /// as needed, and moves the position past it.
    pub fn write(&mut self, data: &[u8])
        requires
            old(self).offset() + data@.len() <= usize::MAX,
        ensures
            final(self).data() == overwrite(old(self).data(), old(self).offset() as int, data@),
            final(self).offset() == old(self).offset() + data@.len(),
            final(self).handle() == old(self).handle(),
            final(self).offset() <= final(self).data().len(),
    {
        let at = self.offset as usize;
        write_at(&mut self.data, at, data);
        self.offset = (at + data.len()) as u64;
    }

    /// The number of staged bytes.
    pub fn len(&self) -> (r: u64)
        ensures
            r == self.data().len(),
    {
        self.data.len() as u64
    }

    /// How many bytes the buffer can hold without reallocating; at least
    /// its length, at most `isize::MAX`.
    pub fn capacity(&self) -> (r: u64)
        ensures
            r >= self.data().len(),
            r <= isize::MAX,
    {
        crate::hardware::byte_capacity(&self.data)
    }
}

impl Clone for Buffer {
    fn clone(&self) -> (r: Self)
        ensures
            r.handle() == self.handle(),
            r.data() == self.data(),
            r.offset() == self.offset(),
    {
        Buffer { handle: self.handle, data: crate::hardware::copy_bytes(&self.data), offset: self.offset }
    }
}

/// A read gives back what a write stored: the written positions hold the
/// written bytes, positions before the write keep their old bytes.
pub proof fn law_overwrite_reads_back(old: Seq<u8>, at: int, bytes: Seq<u8>)
    requires
        0 <= at,
    ensures
        overwrite(old, at, bytes).subrange(at, at + bytes.len()) == bytes,
        forall|i: int| 0 <= i < at && i < old.len() ==> #[trigger] overwrite(old, at, bytes)[i] == old[i],
        overwrite(old, at, bytes).len() >= old.len(),
{
    assert(overwrite(old, at, bytes).subrange(at, at + bytes.len()) =~= bytes);
}

/// A write from a position within the staged bytes splices: the bytes
/// before it stay, then come the written bytes, then whatever of the old
/// bytes lies past the written ones.
pub proof fn law_write_splices(old: Seq<u8>, at: int, bytes: Seq<u8>)
    requires
        0 <= at <= old.len(),
    ensures
        overwrite(old, at, bytes) == old.subrange(0, at) + bytes + old.subrange(
            if at + bytes.len() < old.len() {
                at + bytes.len()
            } else {
                old.len() as int
            },
            old.len() as int,
        ),
        overwrite(old, at, bytes).len() == if at + bytes.len() > old.len() {
            at + bytes.len()
        } else {
            old.len() as int
        },
{
    let rest_start = if at + bytes.len() < old.len() { at + bytes.len() } else { old.len() as int };
    assert(overwrite(old, at, bytes) =~= old.subrange(0, at) + bytes + old.subrange(rest_start, old.len() as int));
}

/// Writing `a` and then `b` right after it is writing `a + b` at once.
pub proof fn law_consecutive_writes(old: Seq<u8>, at: int, a: Seq<u8>, b: Seq<u8>)
    requires
        0 <= at,
    ensures
        overwrite(overwrite(old, at, a), at + a.len(), b) == overwrite(old, at, a + b),
{
    assert(overwrite(overwrite(old, at, a), at + a.len(), b) =~= overwrite(old, at, a + b));
}

/// Writing from the front over bytes already staged, no further than their
/// end, keeps the length.
pub proof fn law_rewrite_keeps_length(old: Seq<u8>, bytes: Seq<u8>)
    requires
        bytes.len() <= old.len(),
    ensures
        overwrite(old, 0, bytes).len() == old.len(),
{
}

} // verus!
