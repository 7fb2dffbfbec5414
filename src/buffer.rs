//! Append-only byte buffers with the capacity they were sized for.
use vstd::prelude::*;

verus! {

/// An append-only buffer of bytes. `capacity` is the size it was allocated
/// for; bytes are appended only while they fit in it, so positions once
/// written never move.
pub struct Buffer {
    bytes: Vec<u8>,
    capacity: usize,
}

impl View for Buffer {
    type V = Seq<u8>;

    closed spec fn view(&self) -> Seq<u8> {
        self.bytes@
    }
}

impl Buffer {
    /// The size the buffer was allocated for.
    pub closed spec fn spec_capacity(&self) -> nat {
        self.capacity as nat
    }

    /// The buffer holds no more than its capacity.
    pub open spec fn wf(&self) -> bool {
        self@.len() <= self.spec_capacity()
    }

    /// An empty buffer with room for `capacity` bytes.
    pub fn with_capacity(capacity: usize) -> (b: Buffer)
        ensures
            b@ == Seq::<u8>::empty(),
            b.spec_capacity() == capacity,
    {
        Buffer { bytes: Vec::with_capacity(capacity), capacity }
    }

    /// A buffer holding exactly `src`, with no room to spare.
    pub fn from_slice(src: &[u8]) -> (b: Buffer)
        ensures
            b@ == src@,
            b.spec_capacity() == src@.len(),
    {
        let mut bytes: Vec<u8> = Vec::with_capacity(src.len());
        let mut i: usize = 0;
        while i < src.len()
            invariant
                i <= src@.len(),
                bytes@ == src@.subrange(0, i as int),
            decreases src@.len() - i,
        {
            bytes.push(src[i]);
            i = i + 1;
            assert(bytes@ =~= src@.subrange(0, i as int));
        }
        assert(bytes@ =~= src@);
        Buffer { bytes, capacity: src.len() }
    }

    pub fn len(&self) -> (r: usize)
        ensures
            r == self@.len(),
    {
        self.bytes.len()
    }

    pub fn capacity(&self) -> (r: usize)
        ensures
            r == self.spec_capacity(),
    {
        self.capacity
    }

    /// Appends `src` at the end of the buffer.
    pub fn append(&mut self, src: &[u8])
        requires
            old(self)@.len() + src@.len() <= old(self).spec_capacity(),
        ensures
            final(self)@ == old(self)@ + src@,
            final(self).spec_capacity() == old(self).spec_capacity(),
    {
        let ghost start = self@;
        let mut i: usize = 0;
        while i < src.len()
            invariant
                i <= src@.len(),
                self.bytes@ == start + src@.subrange(0, i as int),
                self.capacity == old(self).capacity,
            decreases src@.len() - i,
        {
            self.bytes.push(src[i]);
            i = i + 1;
            assert(self.bytes@ =~= start + src@.subrange(0, i as int));
        }
        assert(src@.subrange(0, i as int) =~= src@);
    }

    /// Appends the bytes `[start, end)` of the buffer to `out`.
    pub fn copy_range(&self, start: usize, end: usize, out: &mut Vec<u8>)
        requires
            start <= end <= self@.len(),
        ensures
            final(out)@ == old(out)@ + self@.subrange(start as int, end as int),
    {
        let ghost first = out@;
        let mut i: usize = start;
        while i < end
            invariant
                start <= i <= end,
                end <= self@.len(),
                out@ == first + self@.subrange(start as int, i as int),
            decreases end - i,
        {
            out.push(self.bytes[i]);
            i = i + 1;
            assert(out@ =~= first + self@.subrange(start as int, i as int));
        }
    }
}

} // verus!
