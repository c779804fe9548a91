use crate::bits::{u16_at, with_u16, BEU16Field};
use crate::domain_name::wire_size;
use crate::domain_name::{
    inline_end, labels_at, labels_fit, name_wire, overwrite, parsed_name, slice_views, DomainName,
};
use crate::message::MessageCursor;
use vstd::prelude::*;

verus! {

/// Offsets within the footer that follows a question's name.
pub const TYPE_AT: usize = 0;
pub const CLASS_AT: usize = 2;

/// Bytes in a question's footer.
pub const SIZE: usize = 4;

pub const QTYPE_A: u16 = 1;
pub const QTYPE_NS: u16 = 2;
pub const QTYPE_MD: u16 = 3;
pub const QTYPE_MF: u16 = 4;
pub const QTYPE_CNAME: u16 = 5;
pub const QTYPE_SOA: u16 = 6;
pub const QTYPE_MB: u16 = 7;
pub const QTYPE_MG: u16 = 8;
pub const QTYPE_MR: u16 = 9;
pub const QTYPE_NULL: u16 = 10;
pub const QTYPE_WKS: u16 = 11;
pub const QTYPE_PTR: u16 = 12;
pub const QTYPE_HINFO: u16 = 13;
pub const QTYPE_MINFO: u16 = 14;
pub const QTYPE_MX: u16 = 15;
pub const QTYPE_TXT: u16 = 16;

/// An upper bound on the RDATA of an answer of the given type: 4 bytes for an
/// address, 64 for a record that holds one name, 512 for text, 128 otherwise.
pub open spec fn rdata_estimate(qtype: Option<u16>) -> nat {
    match qtype {
        Some(t) => if t == QTYPE_A {
            4
        } else if t == QTYPE_NS || t == QTYPE_MD || t == QTYPE_MF || t == QTYPE_CNAME || t
            == QTYPE_SOA || t == QTYPE_MB || t == QTYPE_MR || t == QTYPE_PTR {
            64
        } else if t == QTYPE_TXT {
            512
        } else {
            128
        },
        None => 128,
    }
}

/// Whether a question's footer fits in `buf` after a name that ends at `end`.
pub open spec fn footer_fits(buf: Seq<u8>, end: int) -> bool {
    0 <= end && end + SIZE <= buf.len()
}

/// Whether a question parses at `at` of `buf`.
pub open spec fn question_parses(buf: Seq<u8>, at: int) -> bool {
    labels_at(buf, at) is Some && footer_fits(buf, inline_end(buf, at))
}

/// Offset just past the question at `at`.
pub open spec fn question_end(buf: Seq<u8>, at: int) -> int {
    inline_end(buf, at) + SIZE
}

/// The answer size estimated for the question at `at`: its name written in
/// full, its footer, and the RDATA bound for its type.
pub open spec fn question_estimate(buf: Seq<u8>, at: int) -> nat {
    (wire_size(labels_at(buf, at).unwrap()) + SIZE + rdata_estimate(
        u16_at(buf, inline_end(buf, at) + TYPE_AT),
    )) as nat
}

/// A question parsed from a message: its name, then QTYPE and QCLASS.
pub struct Question<'d> {
    name: DomainName,
    footer: &'d [u8],
}

impl<'d> Question<'d> {
    #[verifier::type_invariant]
    spec fn inv(&self) -> bool {
        &&& self.name.end() + SIZE <= usize::MAX
        &&& self.name.max_size() <= 0x1000
        &&& self.footer@.len() == SIZE
    }

    pub closed spec fn name_spec(&self) -> DomainName {
        self.name
    }

    pub closed spec fn footer(&self) -> Seq<u8> {
        self.footer@
    }

    pub fn name<'a>(&'a self) -> (r: Option<&'a DomainName>)
        ensures
            r matches Some(n) && *n == self.name_spec(),
            self.name_spec().max_size() <= 0x1000,
    {
        proof {
            use_type_invariant(self);
        }
        Some(&self.name)
    }

    pub fn qtype(&self) -> (r: Option<u16>)
        ensures
            r == u16_at(self.footer(), TYPE_AT as int),
    {
        BEU16Field { index: TYPE_AT }.get(self.footer)
    }

    pub fn qclass(&self) -> (r: Option<u16>)
        ensures
            r == u16_at(self.footer(), CLASS_AT as int),
    {
        BEU16Field { index: CLASS_AT }.get(self.footer)
    }

    /// Parses the question at `at`: a name, then a 4-byte footer. `None` when
    /// the name does not parse or the footer runs past the end of the message.
    pub fn from_message(message: &'d [u8], at: usize) -> (r: Option<Question<'d>>)
        ensures
            r is Some <==> labels_at(message@, at as int) is Some && footer_fits(
                message@,
                inline_end(message@, at as int),
            ),
            r matches Some(q) ==> {
                &&& parsed_name(Some(q.name_spec()), message@, at as int)
                &&& q.footer() == message@.subrange(
                    q.name_spec().end(),
                    q.name_spec().end() + SIZE,
                )
                &&& q.name_spec().end() + SIZE == question_end(message@, at as int)
                &&& q.qtype_spec() == u16_at(message@, inline_end(message@, at as int) + TYPE_AT)
                &&& u16_at(q.footer(), CLASS_AT as int) == u16_at(
                    message@,
                    inline_end(message@, at as int) + CLASS_AT,
                )
                &&& q.name_spec().max_size() + SIZE + rdata_estimate(q.qtype_spec())
                    == question_estimate(message@, at as int)
            },
    {
        match DomainName::from_message(message, at) {
            Some(name) => {
                let end = name.end_offset();
                if end <= message.len() && message.len() - end >= SIZE {
                    let footer = &message[end..end + SIZE];
                    proof {
                        assert(u16_at(footer@, TYPE_AT as int) == u16_at(message@, end + TYPE_AT));
                        assert(u16_at(footer@, CLASS_AT as int) == u16_at(message@, end + CLASS_AT));
                    }
                    Some(Question { name: name, footer: footer })
                } else {
                    None
                }
            },
            None => None,
        }
    }

    pub fn end_offset(&self) -> (r: usize)
        ensures
            r == self.name_spec().end() + SIZE,
    {
        proof {
            use_type_invariant(self);
        }
        self.name.end_offset() + SIZE
    }

    /// Room that an answer to this question may take: the name written in
    /// full, the footer, and an upper bound on the RDATA for the type asked.
    pub fn estimate_response_size(&self) -> (r: usize)
        ensures
            r == self.name_spec().max_size() + SIZE + rdata_estimate(self.qtype_spec()),
            r <= 0x1000 + SIZE + 512,
    {
        proof {
            use_type_invariant(self);
        }
        let rdata: usize = match self.qtype() {
            Some(t) => if t == QTYPE_A {
                4
            } else if t == QTYPE_NS || t == QTYPE_MD || t == QTYPE_MF || t == QTYPE_CNAME || t
                == QTYPE_SOA || t == QTYPE_MB || t == QTYPE_MR || t == QTYPE_PTR {
                64
            } else if t == QTYPE_TXT {
                512
            } else {
                128
            },
            None => 128,
        };
        self.name.max_encoding_size() + SIZE + rdata
    }

    pub open spec fn qtype_spec(&self) -> Option<u16> {
        u16_at(self.footer(), TYPE_AT as int)
    }
}

/// A question written into a buffer: where it starts, and its name.
#[derive(Debug, Copy, Clone)]
pub struct QuestionMut {
    start: usize,
    name: DomainName,
}

impl QuestionMut {
    pub closed spec fn start(&self) -> int {
        self.start as int
    }

    pub closed spec fn name_spec(&self) -> DomainName {
        self.name
    }

    /// Writes a question at the cursor's position: `name` in full, then
    /// QTYPE and QCLASS. Fails when a label is too long, the name does not
    /// parse back, or the cursor runs out of room; bytes written before that
    /// are left in place.
    pub fn at(
        idx: &mut MessageCursor,
        data: &mut [u8],
        name: &[&[u8]],
        qtype: u16,
        qclass: u16,
    ) -> (r: Option<QuestionMut>)
        ensures
            final(idx).capacity() == old(idx).capacity(),
            old(idx).wf() ==> final(idx).wf(),
            old(idx).next() <= final(idx).next(),
            final(data)@.len() == old(data)@.len(),
            forall|i: int|
                0 <= i < old(data)@.len() && !(old(idx).next() <= i < final(idx).next())
                    ==> final(data)@[i] == old(data)@[i],
            ({
                let s = old(idx).next() as int;
                let wire = name_wire(slice_views(name@));
                let written = overwrite(old(data)@, s, wire);
                if labels_fit(slice_views(name@)) && s + wire.len() + SIZE <= old(idx).capacity()
                    && labels_at(written, s) is Some {
                    &&& r matches Some(q)
                    &&& q.start() == s
                    &&& parsed_name(Some(q.name_spec()), written, s)
                    &&& final(data)@ == with_u16(
                        with_u16(written, s + wire.len() + TYPE_AT, qtype),
                        s + wire.len() + CLASS_AT,
                        qclass,
                    )
                    &&& final(idx).next() == s + wire.len() + SIZE
                } else {
                    r is None
                }
            }),
    {
        let start = idx.tell();
        match DomainName::write_at(idx, data, name) {
            Some(written) => {
                match idx.allocate(SIZE) {
                    Some(footer_idx) => {
                        BEU16Field { index: footer_idx.start + TYPE_AT }.set(data, qtype);
                        BEU16Field { index: footer_idx.start + CLASS_AT }.set(data, qclass);
                        Some(QuestionMut { start: start, name: written })
                    },
                    None => None,
                }
            },
            None => None,
        }
    }
}

} // verus!
