use std::ops::Range;
use vstd::prelude::*;

verus! {

/// The write position within an output buffer of fixed capacity.
///
/// Allocation is monotonic and never passes the capacity. The cursor keeps no
/// dictionary of name suffixes written so far, so every name is written in
/// full: messages stay wire-compatible, only larger than they could be.
#[derive(Debug, Copy, Clone)]
pub struct MessageCursor {
    next_byte: usize,
    limit: usize,
}

impl MessageCursor {
    /// Offset of the next free byte.
    pub closed spec fn next(&self) -> nat {
        self.next_byte as nat
    }

    /// Total capacity in bytes.
    pub closed spec fn capacity(&self) -> nat {
        self.limit as nat
    }

    pub open spec fn wf(&self) -> bool {
        self.next() <= self.capacity()
    }

    pub fn new(limit: usize) -> (r: MessageCursor)
        ensures
            r.wf(),
            r.next() == 0,
            r.capacity() == limit,
    {
        MessageCursor { next_byte: 0, limit: limit }
    }

    pub fn tell(&self) -> (r: usize)
        ensures
            r == self.next(),
    {
        self.next_byte
    }

    /// Takes the next `size` bytes, or fails when fewer remain.
    pub fn allocate(&mut self, size: usize) -> (r: Option<Range<usize>>)
        ensures
            old(self).wf() ==> final(self).wf(),
            final(self).capacity() == old(self).capacity(),
            old(self).next() + size <= old(self).capacity() ==> {
                &&& r matches Some(range)
                &&& range.start == old(self).next()
                &&& range.end == old(self).next() + size
                &&& final(self).next() == old(self).next() + size
            },
            old(self).next() + size > old(self).capacity() ==> r is None && final(self).next()
                == old(self).next(),
    {
        if self.next_byte <= self.limit && size <= self.limit - self.next_byte {
            let start = self.next_byte;
            self.next_byte = self.next_byte + size;
            Some(start..self.next_byte)
        } else {
            None
        }
    }

    /// Records that the name `suffix` was written at `at`. The cursor keeps no
    /// such record, so this leaves it unchanged.
    pub fn register_name_suffix(&mut self, at: usize, suffix: &[&[u8]])
        ensures
            *final(self) == *old(self),
    {
    }

    /// The offset at which the name `suffix` was written earlier, for a
    /// compression pointer. The cursor keeps no such record and finds none.
    pub fn lookup_name_suffix(&mut self, data: &[u8], suffix: &[&[u8]]) -> (r: Option<u16>)
        ensures
            r is None,
            *final(self) == *old(self),
    {
        None
    }
}

} // verus!
