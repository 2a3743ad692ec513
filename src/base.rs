//! The carry-over buffer and the chunk view handed to the tokenizer.
use vstd::prelude::*;
use crate::errors::Error;

verus! {

/// Capacity-bounded byte storage for bytes carried from one write to the next.
pub struct Buffer {
    data: Vec<u8>,
    capacity: usize,
}

impl View for Buffer {
    type V = Seq<u8>;

    closed spec fn view(&self) -> Seq<u8> {
        self.data@
    }
}

impl Buffer {
    /// The fixed maximum number of bytes the buffer can hold.
    pub closed spec fn capacity_spec(&self) -> nat {
        self.capacity as nat
    }

    /// The stored bytes never exceed the capacity.
    pub closed spec fn wf(&self) -> bool {
        self.data@.len() <= self.capacity
    }

    pub fn new(capacity: usize) -> (r: Buffer)
        ensures
            r.wf(),
            r@ == Seq::<u8>::empty(),
            r.capacity_spec() == capacity,
    {
        Buffer { data: Vec::new(), capacity }
    }

    pub fn capacity(&self) -> (r: usize)
        ensures
            r == self.capacity_spec(),
    {
        self.capacity
    }

    pub fn len(&self) -> (r: usize)
        requires
            self.wf(),
        ensures
            r == self@.len(),
    {
        self.data.len()
    }

    /// Appends `slice`, or fails without change when the result would exceed the capacity.
    pub fn append(&mut self, slice: &[u8]) -> (r: Result<(), Error>)
        requires
            old(self).wf(),
        ensures
            final(self).wf(),
            final(self).capacity_spec() == old(self).capacity_spec(),
            old(self)@.len() + slice@.len() > old(self).capacity_spec() ==> (
                r == Err::<(), Error>(Error::BufferCapacityExceeded)
                && final(self)@ == old(self)@),
            old(self)@.len() + slice@.len() <= old(self).capacity_spec() ==> (
                r is Ok && final(self)@ == old(self)@ + slice@),
    {
        if slice.len() > self.capacity - self.data.len() {
            return Err(Error::BufferCapacityExceeded);
        }
        let mut i: usize = 0;
        let ghost start = self.data@;
        while i < slice.len()
            invariant
                i <= slice@.len(),
                self.capacity == old(self).capacity,
                start.len() + slice@.len() <= self.capacity,
                self.data@ == start + slice@.subrange(0, i as int),
            decreases slice@.len() - i,
        {
            self.data.push(slice[i]);
            i = i + 1;
            assert(self.data@ =~= start + slice@.subrange(0, i as int));
        }
        assert(slice@.subrange(0, slice@.len() as int) =~= slice@);
        Ok(())
    }

    /// Replaces the contents with `slice`, or fails without change when `slice` does not fit.
    pub fn init_with(&mut self, slice: &[u8]) -> (r: Result<(), Error>)
        requires
            old(self).wf(),
        ensures
            final(self).wf(),
            final(self).capacity_spec() == old(self).capacity_spec(),
            slice@.len() > old(self).capacity_spec() ==> (
                r == Err::<(), Error>(Error::BufferCapacityExceeded)
                && final(self)@ == old(self)@),
            slice@.len() <= old(self).capacity_spec() ==> (r is Ok && final(self)@ == slice@),
    {
        if slice.len() > self.capacity {
            return Err(Error::BufferCapacityExceeded);
        }
        self.data.clear();
        self.append(slice)
    }

    /// Keeps only the last `count` bytes, in order.
    pub fn shrink_to_last(&mut self, count: usize)
        requires
            old(self).wf(),
            count <= old(self)@.len(),
        ensures
            final(self).wf(),
            final(self).capacity_spec() == old(self).capacity_spec(),
            final(self)@ == old(self)@.subrange(old(self)@.len() - count, old(self)@.len() as int),
    {
        let ghost before = self.data@;
        let drop_count: usize = self.data.len() - count;
        let mut kept: Vec<u8> = Vec::new();
        let mut i: usize = drop_count;
        while i < self.data.len()
            invariant
                drop_count <= i <= self.data@.len(),
                self.data@ == before,
                kept@ == before.subrange(drop_count as int, i as int),
            decreases self.data@.len() - i,
        {
            kept.push(self.data[i]);
            i = i + 1;
            assert(kept@ =~= before.subrange(drop_count as int, i as int));
        }
        self.data = kept;
    }

    /// A read-only view of the stored bytes.
    pub fn bytes(&self) -> (r: &[u8])
        ensures
            r@ == self@,
    {
        self.data.as_slice()
    }
}

/// An immutable view of input bytes, flagged when it is the stream's final segment.
pub struct Chunk<'b> {
    data: &'b [u8],
    last: bool,
}

impl<'b> Chunk<'b> {
    pub closed spec fn bytes_spec(&self) -> Seq<u8> {
        self.data@
    }

    pub closed spec fn is_last_spec(&self) -> bool {
        self.last
    }

    /// Wraps a segment that more input may follow.
    pub fn from_slice(data: &'b [u8]) -> (r: Chunk<'b>)
        ensures
            r.bytes_spec() == data@,
            !r.is_last_spec(),
    {
        Chunk { data, last: false }
    }

    /// Wraps the final segment of the stream.
    pub fn last(data: &'b [u8]) -> (r: Chunk<'b>)
        ensures
            r.bytes_spec() == data@,
            r.is_last_spec(),
    {
        Chunk { data, last: true }
    }

    /// The empty final segment.
    pub fn last_empty() -> (r: Chunk<'static>)
        ensures
            r.bytes_spec() == Seq::<u8>::empty(),
            r.is_last_spec(),
    {
        Chunk { data: &[], last: true }
    }

    pub fn is_last(&self) -> (r: bool)
        ensures
            r == self.is_last_spec(),
    {
        self.last
    }

    pub fn bytes(&self) -> (r: &'b [u8])
        ensures
            r@ == self.bytes_spec(),
    {
        self.data
    }
}

} // verus!
