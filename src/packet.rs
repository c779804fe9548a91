use vstd::prelude::*;

verus! {

/// The bytes of a received packet.
#[derive(Debug, Copy, Clone)]
pub struct PacketData<'d> {
    data: &'d [u8],
}

impl<'d> PacketData<'d> {
    pub closed spec fn bytes(&self) -> Seq<u8> {
        self.data@
    }
}

/// A packet being parsed, with the offset at which its next block starts.
#[derive(Debug)]
pub struct Packet<'d> {
    root: PacketData<'d>,
    next: usize,
}

/// A range of a packet's bytes, held within the packet.
#[derive(Debug, Copy, Clone)]
pub struct Piece<'d> {
    pub root: PacketData<'d>,
    start: usize,
    end: usize,
}

/// The smaller of two integers.
pub open spec fn min(a: int, b: int) -> int {
    if a <= b {
        a
    } else {
        b
    }
}

/// A block that can be parsed from a packet at an offset.
pub trait Block<'d>: Sized {
    fn at(src: &mut Packet<'d>, at: usize) -> Self;
}

impl<'d> Packet<'d> {
    pub closed spec fn bytes(&self) -> Seq<u8> {
        self.root.bytes()
    }

    pub closed spec fn next_spec(&self) -> int {
        self.next as int
    }

    pub fn new(data: &'d [u8]) -> (r: Packet<'d>)
        ensures
            r.bytes() == data@,
            r.next_spec() == 0,
    {
        Packet { root: PacketData { data: data }, next: 0 }
    }

    /// Parses a block at the next offset.
    pub fn next<B: Block<'d>>(&mut self) -> B {
        let at = self.next;
        B::at(self, at)
    }

    /// Takes `length` bytes from the next offset on, as far as the packet goes.
    pub fn next_slice(&mut self, length: usize) -> (r: Piece<'d>)
        ensures
            final(self).bytes() == old(self).bytes(),
            final(self).next_spec() == min(old(self).next_spec() + length, usize::MAX as int),
            r.root_bytes() == old(self).bytes(),
            r.start() == min(old(self).next_spec(), old(self).bytes().len() as int),
            r.end() == min(
                min(old(self).next_spec() + length, usize::MAX as int),
                old(self).bytes().len() as int,
            ),
    {
        let at = self.next;
        self.next = self.next.saturating_add(length);
        self.data_slice(at, length)
    }

    /// Marks the bytes up to `end` as parsed.
    pub fn consume_data_range(&mut self, start: usize, end: usize)
        ensures
            final(self).bytes() == old(self).bytes(),
            final(self).next_spec() == (if end > old(self).next_spec() {
                end as int
            } else {
                old(self).next_spec()
            }),
    {
        if end > self.next {
            self.next = end;
        }
    }

    /// The `length` bytes from `at` on, cut to the packet's end.
    pub fn data_slice(&self, at: usize, length: usize) -> (r: Piece<'d>)
        ensures
            r.root_bytes() == self.bytes(),
            r.start() == min(at as int, self.bytes().len() as int),
            r.end() == min(min(at + length, usize::MAX as int), self.bytes().len() as int),
    {
        let len = self.root.data.len();
        let start = if at < len {
            at
        } else {
            len
        };
        let reach = at.saturating_add(length);
        let end = if reach < len {
            reach
        } else {
            len
        };
        Piece { root: self.root, start: start, end: end }
    }

    pub fn data(&self) -> (r: &'d [u8])
        ensures
            r@ == self.bytes(),
    {
        self.root.data
    }
}

impl<'d> Piece<'d> {
    pub closed spec fn root_bytes(&self) -> Seq<u8> {
        self.root.bytes()
    }

    pub closed spec fn start(&self) -> int {
        self.start as int
    }

    pub closed spec fn end(&self) -> int {
        self.end as int
    }

    /// The bytes of the piece; empty when its range does not lie in the packet.
    pub fn data(&self) -> (r: &'d [u8])
        ensures
            r@ == (if self.start() <= self.end() <= self.root_bytes().len() {
                self.root_bytes().subrange(self.start(), self.end())
            } else {
                Seq::empty()
            }),
    {
        if self.start <= self.end && self.end <= self.root.data.len() {
            &self.root.data[self.start..self.end]
        } else {
            &self.root.data[0..0]
        }
    }

    pub fn whole_packet(&self) -> (r: &'d [u8])
        ensures
            r@ == self.root_bytes(),
    {
        self.root.data
    }
}

} // verus!
