use crate::bits::{u16_at, u32_at, BEU16Field, BEU32Field};
use crate::domain_name::{
    inline_end, labels_at, labels_fit, lemma_overwrite_concat, name_wire, overwrite, parsed_name,
    put_bytes, slice_views, DomainName,
};
use crate::message::MessageCursor;
use std::ops::Range;
use vstd::prelude::*;

verus! {

/// Offsets within the footer that follows a record's name.
pub const TYPE_AT: usize = 0;
pub const CLASS_AT: usize = 2;
pub const TTL_AT: usize = 4;
pub const LENGTH_AT: usize = 8;

/// Bytes in a record's footer.
pub const SIZE: usize = 10;

/// A resource record parsed from a message: its name, its footer (TYPE,
/// CLASS, TTL, RDLENGTH), and the place of its RDATA.
pub struct Resource<'d> {
    name: DomainName,
    footer: &'d [u8],
}

impl<'d> Resource<'d> {
    #[verifier::type_invariant]
    spec fn inv(&self) -> bool {
        &&& self.name.end() + SIZE <= usize::MAX
        &&& self.footer@.len() == SIZE
    }

    pub closed spec fn name_spec(&self) -> DomainName {
        self.name
    }

    pub closed spec fn footer(&self) -> Seq<u8> {
        self.footer@
    }

    /// RDLENGTH as read from the footer.
    pub open spec fn length_spec(&self) -> nat {
        match u16_at(self.footer(), LENGTH_AT as int) {
            Some(n) => n as nat,
            None => 0,
        }
    }

    /// Offset of the first RDATA byte.
    pub open spec fn payload_start(&self) -> int {
        self.name_spec().end() + SIZE
    }

    /// Offset just past the RDATA, held to `usize::MAX`.
    pub open spec fn payload_end(&self) -> int {
        if self.payload_start() + self.length_spec() <= usize::MAX {
            self.payload_start() + self.length_spec()
        } else {
            usize::MAX as int
        }
    }

    pub fn name<'a>(&'a self) -> (r: Option<&'a DomainName>)
        ensures
            r matches Some(n) && *n == self.name_spec(),
    {
        Some(&self.name)
    }

    /// The range that the RDATA takes in the message.
    pub fn payload_range(&self) -> (r: Option<Range<usize>>)
        ensures
            r matches Some(range) && range.start == self.payload_start() && range.end
                == self.payload_end(),
    {
        proof {
            use_type_invariant(self);
        }
        Some(self.name.end_offset() + SIZE..self.end_offset())
    }

    pub fn end_offset(&self) -> (r: usize)
        ensures
            r == self.payload_end(),
    {
        proof {
            use_type_invariant(self);
        }
        let footer_end = self.name.end_offset() + SIZE;
        let len = match self.data_length() {
            Some(n) => n as usize,
            None => 0,
        };
        if len <= usize::MAX - footer_end {
            footer_end + len
        } else {
            usize::MAX
        }
    }

    /// The RDATA, or `None` when the message ends before it does.
    pub fn payload(&self, message: &'d [u8]) -> (r: Option<&'d [u8]>)
        ensures
            self.payload_start() + self.length_spec() <= message@.len() ==> (r matches Some(p)
                && p@ == message@.subrange(self.payload_start(), self.payload_end())),
            self.payload_start() + self.length_spec() > message@.len() ==> r is None,
    {
        proof {
            use_type_invariant(self);
        }
        let start = self.name.end_offset() + SIZE;
        let len = self.data_length().unwrap() as usize;
        if len <= message.len() && start <= message.len() - len {
            Some(&message[start..start + len])
        } else {
            None
        }
    }

    pub fn rtype(&self) -> (r: Option<u16>)
        ensures
            r == u16_at(self.footer(), TYPE_AT as int),
    {
        BEU16Field { index: TYPE_AT }.get(self.footer)
    }

    pub fn rclass(&self) -> (r: Option<u16>)
        ensures
            r == u16_at(self.footer(), CLASS_AT as int),
    {
        BEU16Field { index: CLASS_AT }.get(self.footer)
    }

    pub fn ttl(&self) -> (r: Option<u32>)
        ensures
            r == u32_at(self.footer(), TTL_AT as int),
    {
        BEU32Field { index: TTL_AT }.get(self.footer)
    }

    pub fn data_length(&self) -> (r: Option<u16>)
        ensures
            r == u16_at(self.footer(), LENGTH_AT as int),
            r matches Some(n) && n == self.length_spec(),
    {
        proof {
            use_type_invariant(self);
        }
        BEU16Field { index: LENGTH_AT }.get(self.footer)
    }

    /// Parses the record at `at`: a name, then a 10-byte footer. `None` when
    /// the name does not parse or the footer runs past the end of the
    /// message; RDATA that runs past it leaves the record valid, without a
    /// payload.
    pub fn from_message(message: &'d [u8], at: usize) -> (r: Option<Resource<'d>>)
        ensures
            r is Some <==> labels_at(message@, at as int) is Some && 0 <= inline_end(
                message@,
                at as int,
            ) && inline_end(message@, at as int) + SIZE <= message@.len(),
            r matches Some(rec) ==> {
                &&& parsed_name(Some(rec.name_spec()), message@, at as int)
                &&& rec.footer() == message@.subrange(
                    rec.name_spec().end(),
                    rec.name_spec().end() + SIZE,
                )
            },
    {
        match DomainName::from_message(message, at) {
            Some(name) => {
                let end = name.end_offset();
                if end <= message.len() && message.len() - end >= SIZE {
                    let footer = &message[end..end + SIZE];
                    Some(Resource { name: name, footer: footer })
                } else {
                    None
                }
            },
            None => None,
        }
    }
}

/// A 16-bit value as two big-endian bytes.
pub open spec fn u16_bytes(v: u16) -> Seq<u8> {
    seq![(v / 0x100) as u8, (v % 0x100) as u8]
}

/// A 32-bit value as four big-endian bytes.
pub open spec fn u32_bytes(v: u32) -> Seq<u8> {
    seq![(v / 0x100_0000) as u8, (v / 0x1_0000 % 0x100) as u8, (v / 0x100 % 0x100) as u8, (v % 0x100) as u8]
}

/// A record's footer as written: TYPE, CLASS, TTL, RDLENGTH.
pub open spec fn footer_wire(rtype: u16, rclass: u16, ttl: u32, len: u16) -> Seq<u8> {
    u16_bytes(rtype) + u16_bytes(rclass) + u32_bytes(ttl) + u16_bytes(len)
}

/// A resource record written into a buffer: where it starts, and its name.
#[derive(Debug, Copy, Clone)]
pub struct ResourceMut {
    start: usize,
    name: DomainName,
}

impl ResourceMut {
    pub closed spec fn start(&self) -> int {
        self.start as int
    }

    pub closed spec fn name_spec(&self) -> DomainName {
        self.name
    }

    /// Writes a record at the cursor's position: `name` in full, its footer,
    /// then `rdata`. Fails when a label is too long, the name does not parse
    /// back, the RDATA is longer than RDLENGTH can say, or the cursor runs out
    /// of room; bytes written before that are left in place.
    pub fn at(
        idx: &mut MessageCursor,
        data: &mut [u8],
        name: &[&[u8]],
        rtype: u16,
        rclass: u16,
        ttl: u32,
        rdata: &[u8],
    ) -> (r: Option<ResourceMut>)
        ensures
            final(idx).capacity() == old(idx).capacity(),
            old(idx).wf() ==> final(idx).wf(),
            old(idx).next() <= final(idx).next(),
            final(data)@.len() == old(data)@.len(),
            forall|i: int|
                0 <= i < old(data)@.len() && !(old(idx).next() <= i < final(idx).next())
                    ==> final(data)@[i] == old(data)@[i],
            ({
                let s = old(idx).next() as int;
                let wire = name_wire(slice_views(name@));
                let written = overwrite(old(data)@, s, wire);
                if labels_fit(slice_views(name@)) && rdata@.len() <= 0xffff && s + wire.len() + SIZE
                    + rdata@.len() <= old(idx).capacity() && labels_at(written, s) is Some {
                    &&& r matches Some(rec)
                    &&& rec.start() == s
                    &&& parsed_name(Some(rec.name_spec()), written, s)
                    &&& final(data)@ == overwrite(
                        written,
                        s + wire.len(),
                        footer_wire(rtype, rclass, ttl, rdata@.len() as u16) + rdata@,
                    )
                    &&& final(idx).next() == s + wire.len() + SIZE + rdata@.len()
                } else {
                    r is None
                }
            }),
    {
        let start = idx.tell();
        if rdata.len() > 0xffff {
            return None;
        }
        let written = match DomainName::write_at(idx, data, name) {
            Some(n) => n,
            None => {
                return None;
            },
        };
        let len = rdata.len() as u16;
        let mut tail: Vec<u8> = Vec::new();
        tail.push((rtype / 0x100) as u8);
        tail.push((rtype % 0x100) as u8);
        tail.push((rclass / 0x100) as u8);
        tail.push((rclass % 0x100) as u8);
        tail.push((ttl / 0x100_0000) as u8);
        tail.push((ttl / 0x1_0000 % 0x100) as u8);
        tail.push((ttl / 0x100 % 0x100) as u8);
        tail.push((ttl % 0x100) as u8);
        tail.push((len / 0x100) as u8);
        tail.push((len % 0x100) as u8);
        let ghost footer = tail@;
        let mut i: usize = 0;
        while i < rdata.len()
            invariant
                i <= rdata@.len(),
                tail@ == footer + rdata@.take(i as int),
            decreases rdata.len() - i,
        {
            tail.push(rdata[i]);
            proof {
                assert(footer + rdata@.take(i + 1) =~= (footer + rdata@.take(i as int)).push(
                    rdata@[i as int],
                ));
            }
            i = i + 1;
        }
        proof {
            assert(rdata@.take(i as int) =~= rdata@);
            assert(footer =~= footer_wire(rtype, rclass, ttl, len));
        }
        match idx.allocate(tail.len()) {
            Some(range) => {
                put_bytes(data, range.start, tail.as_slice());
                Some(ResourceMut { start: start, name: written })
            },
            None => None,
        }
    }
}

} // verus!
