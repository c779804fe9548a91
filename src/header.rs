use crate::bits::{
    bits_at, flag_at, masked_value, u16_at, with_bits, with_masked_value, with_u16, BEU16Field,
    BitData, BitDataMut, BitField,
};
use crate::message::MessageCursor;
use vstd::prelude::*;

verus! {

/// Bytes in a message header.
pub const SIZE: usize = 12;

pub const RC_OK: u8 = 0;
pub const RC_FORMAT_ERROR: u8 = 1;
pub const RC_SERVER_ERROR: u8 = 2;
pub const RC_NAME_ERROR: u8 = 3;
pub const RC_NOT_IMPLEMENTED: u8 = 4;
pub const RC_REFUSED: u8 = 5;

pub const OP_QUERY: u8 = 0;
pub const OP_IQUERY: u8 = 1;
pub const OP_STATUS: u8 = 2;

/// Byte offsets within the header.
pub const ID_AT: usize = 0;
pub const FLAGS_AT: usize = 2;
pub const CODES_AT: usize = 3;
pub const QD_AT: usize = 4;
pub const AN_AT: usize = 6;
pub const NS_AT: usize = 8;
pub const AR_AT: usize = 10;

/// Masks within the byte at `FLAGS_AT`.
pub const QR_MASK: u8 = 0x80;
pub const OP_MASK: u8 = 0x78;
pub const AA_MASK: u8 = 0x04;
pub const TC_MASK: u8 = 0x02;
pub const RD_MASK: u8 = 0x01;

/// Masks within the byte at `CODES_AT`.
pub const RA_MASK: u8 = 0x80;
pub const Z_MASK: u8 = 0x70;
pub const RC_MASK: u8 = 0x0f;

/// The header fields as they are read from a buffer whose header starts at `s`.
/// Each is `None` when its bytes lie past the end of the buffer.
pub open spec fn id_in(buf: Seq<u8>, s: int) -> Option<u16> {
    u16_at(buf, s + ID_AT)
}

pub open spec fn qr_in(buf: Seq<u8>, s: int) -> Option<bool> {
    flag_at(buf, s + FLAGS_AT, QR_MASK)
}

pub open spec fn op_in(buf: Seq<u8>, s: int) -> Option<u8> {
    bits_at(buf, s + FLAGS_AT, OP_MASK)
}

pub open spec fn aa_in(buf: Seq<u8>, s: int) -> Option<bool> {
    flag_at(buf, s + FLAGS_AT, AA_MASK)
}

pub open spec fn tc_in(buf: Seq<u8>, s: int) -> Option<bool> {
    flag_at(buf, s + FLAGS_AT, TC_MASK)
}

pub open spec fn rd_in(buf: Seq<u8>, s: int) -> Option<bool> {
    flag_at(buf, s + FLAGS_AT, RD_MASK)
}

pub open spec fn ra_in(buf: Seq<u8>, s: int) -> Option<bool> {
    flag_at(buf, s + CODES_AT, RA_MASK)
}

pub open spec fn z_in(buf: Seq<u8>, s: int) -> Option<u8> {
    bits_at(buf, s + CODES_AT, Z_MASK)
}

pub open spec fn rc_in(buf: Seq<u8>, s: int) -> Option<u8> {
    bits_at(buf, s + CODES_AT, RC_MASK)
}

/// Byte `i` of a buffer after a query header was written over `buf` at `s`.
pub open spec fn query_byte(buf: Seq<u8>, s: int, id: u16, i: int) -> u8 {
    if i == s + ID_AT && s + 2 <= buf.len() {
        (id / 0x100) as u8
    } else if i == s + ID_AT + 1 && s + 2 <= buf.len() {
        (id % 0x100) as u8
    } else if i == s + FLAGS_AT {
        RD_MASK
    } else if i == s + CODES_AT {
        buf[i] & Z_MASK
    } else {
        buf[i]
    }
}

/// The shift of a mask's lowest set bit, when bit `k` is set and none below it.
proof fn lemma_lowest_bit(m: u8, k: u8)
    requires
        k < 8,
        (m >> k) & 1 == 1,
        m << ((8 - k) as u8) == 0,
    ensures
        m.trailing_zeros() == k,
{
    vstd::std_specs::bits::axiom_u8_trailing_zeros(m);
    let t = m.trailing_zeros() as u8;
    assert(m << ((8 - t) as u8) == 0);
    assert(t < 8 && (m >> t) & 1 == 1 && m << ((8 - t) as u8) == 0 && k < 8 && (m >> k) & 1 == 1
        && m << ((8 - k) as u8) == 0 ==> t == k) by (bit_vector);
}

/// What each header mask reads and writes, as plain shifts.
pub(crate) proof fn lemma_header_masks(b: u8, v: u8)
    ensures
        masked_value(b, QR_MASK) == (b & 0x80) >> 7u8,
        masked_value(b, OP_MASK) == (b & 0x78) >> 3u8,
        masked_value(b, AA_MASK) == (b & 0x04) >> 2u8,
        masked_value(b, TC_MASK) == (b & 0x02) >> 1u8,
        masked_value(b, RD_MASK) == b & 0x01,
        masked_value(b, Z_MASK) == (b & 0x70) >> 4u8,
        masked_value(b, RC_MASK) == b & 0x0f,
        with_masked_value(b, QR_MASK, v) == (b & 0x7f) | ((v & 1) << 7u8),
        with_masked_value(b, OP_MASK, v) == (b & 0x87) | ((v & 0xf) << 3u8),
        with_masked_value(b, AA_MASK, v) == (b & 0xfb) | ((v & 1) << 2u8),
        with_masked_value(b, TC_MASK, v) == (b & 0xfd) | ((v & 1) << 1u8),
        with_masked_value(b, RD_MASK, v) == (b & 0xfe) | (v & 1),
        with_masked_value(b, Z_MASK, v) == (b & 0x8f) | ((v & 7) << 4u8),
        with_masked_value(b, RC_MASK, v) == (b & 0xf0) | (v & 0xf),
{
    assert((0x80u8 >> 7u8) & 1 == 1 && 0x80u8 << 1u8 == 0) by (bit_vector);
    lemma_lowest_bit(0x80, 7);
    assert((0x78u8 >> 3u8) & 1 == 1 && 0x78u8 << 5u8 == 0) by (bit_vector);
    lemma_lowest_bit(0x78, 3);
    assert((0x04u8 >> 2u8) & 1 == 1 && 0x04u8 << 6u8 == 0) by (bit_vector);
    lemma_lowest_bit(0x04, 2);
    assert((0x02u8 >> 1u8) & 1 == 1 && 0x02u8 << 7u8 == 0) by (bit_vector);
    lemma_lowest_bit(0x02, 1);
    assert((0x01u8 >> 0u8) & 1 == 1 && 0x01u8 << 8u8 == 0) by (bit_vector);
    lemma_lowest_bit(0x01, 0);
    assert((0x70u8 >> 4u8) & 1 == 1 && 0x70u8 << 4u8 == 0) by (bit_vector);
    lemma_lowest_bit(0x70, 4);
    assert((0x0fu8 >> 0u8) & 1 == 1 && 0x0fu8 << 8u8 == 0) by (bit_vector);
    lemma_lowest_bit(0x0f, 0);
    assert(b >> 0u8 == b && !0x80u8 == 0x7fu8 && 0x80u8 >> 7u8 == 1u8 && !0x78u8 == 0x87u8
        && 0x78u8 >> 3u8 == 0xfu8 && !0x04u8 == 0xfbu8 && 0x04u8 >> 2u8 == 1u8 && !0x02u8 == 0xfdu8
        && 0x02u8 >> 1u8 == 1u8 && !0x01u8 == 0xfeu8 && 0x01u8 >> 0u8 == 1u8 && (v & 1) << 0u8 == v
        & 1 && !0x70u8 == 0x8fu8 && 0x70u8 >> 4u8 == 7u8 && !0x0fu8 == 0xf0u8 && 0x0fu8 >> 0u8
        == 0xfu8 && (v & 0xf) << 0u8 == v & 0xf) by (bit_vector);
    assert((b & 0x01) >> 0u8 == b & 0x01 && (b & 0x0f) >> 0u8 == b & 0x0f) by (bit_vector);
}

/// A read-only view of the 12-byte header at the start of a message.
pub struct Header<'d, D: BitData + ?Sized> {
    start: usize,
    data: &'d D,
}

impl<'d, D: BitData + ?Sized> Header<'d, D> {
    #[verifier::type_invariant]
    spec fn inv(&self) -> bool {
        self.start <= usize::MAX - SIZE
    }

    pub closed spec fn start(&self) -> int {
        self.start as int
    }

    pub closed spec fn bytes(&self) -> Seq<u8> {
        self.data.bytes()
    }

    pub fn at(data: &'d D) -> (r: Header<'d, D>)
        ensures
            r.start() == 0,
            r.bytes() == data.bytes(),
    {
        Header { start: 0, data: data }
    }

    pub fn id(&self) -> (r: Option<u16>)
        ensures
            r == id_in(self.bytes(), self.start()),
    {
        proof {
            use_type_invariant(self);
        }
        BEU16Field { index: self.start + ID_AT }.get(self.data)
    }

    pub fn qr(&self) -> (r: Option<bool>)
        ensures
            r == qr_in(self.bytes(), self.start()),
    {
        proof {
            use_type_invariant(self);
        }
        BitField { index: self.start + FLAGS_AT, mask: QR_MASK }.nonzero(self.data)
    }

    pub fn op(&self) -> (r: Option<u8>)
        ensures
            r == op_in(self.bytes(), self.start()),
    {
        proof {
            use_type_invariant(self);
        }
        BitField { index: self.start + FLAGS_AT, mask: OP_MASK }.get(self.data)
    }

    pub fn aa(&self) -> (r: Option<bool>)
        ensures
            r == aa_in(self.bytes(), self.start()),
    {
        proof {
            use_type_invariant(self);
        }
        BitField { index: self.start + FLAGS_AT, mask: AA_MASK }.nonzero(self.data)
    }

    pub fn tc(&self) -> (r: Option<bool>)
        ensures
            r == tc_in(self.bytes(), self.start()),
    {
        proof {
            use_type_invariant(self);
        }
        BitField { index: self.start + FLAGS_AT, mask: TC_MASK }.nonzero(self.data)
    }

    pub fn rd(&self) -> (r: Option<bool>)
        ensures
            r == rd_in(self.bytes(), self.start()),
    {
        proof {
            use_type_invariant(self);
        }
        BitField { index: self.start + FLAGS_AT, mask: RD_MASK }.nonzero(self.data)
    }

    pub fn ra(&self) -> (r: Option<bool>)
        ensures
            r == ra_in(self.bytes(), self.start()),
    {
        proof {
            use_type_invariant(self);
        }
        BitField { index: self.start + CODES_AT, mask: RA_MASK }.nonzero(self.data)
    }

    pub fn z(&self) -> (r: Option<u8>)
        ensures
            r == z_in(self.bytes(), self.start()),
    {
        proof {
            use_type_invariant(self);
        }
        BitField { index: self.start + CODES_AT, mask: Z_MASK }.get(self.data)
    }

    pub fn rc(&self) -> (r: Option<u8>)
        ensures
            r == rc_in(self.bytes(), self.start()),
    {
        proof {
            use_type_invariant(self);
        }
        BitField { index: self.start + CODES_AT, mask: RC_MASK }.get(self.data)
    }

    pub fn qd(&self) -> (r: Option<u16>)
        ensures
            r == u16_at(self.bytes(), self.start() + QD_AT),
    {
        proof {
            use_type_invariant(self);
        }
        BEU16Field { index: self.start + QD_AT }.get(self.data)
    }

    pub fn an(&self) -> (r: Option<u16>)
        ensures
            r == u16_at(self.bytes(), self.start() + AN_AT),
    {
        proof {
            use_type_invariant(self);
        }
        BEU16Field { index: self.start + AN_AT }.get(self.data)
    }

    pub fn ns(&self) -> (r: Option<u16>)
        ensures
            r == u16_at(self.bytes(), self.start() + NS_AT),
    {
        proof {
            use_type_invariant(self);
        }
        BEU16Field { index: self.start + NS_AT }.get(self.data)
    }

    pub fn ar(&self) -> (r: Option<u16>)
        ensures
            r == u16_at(self.bytes(), self.start() + AR_AT),
    {
        proof {
            use_type_invariant(self);
        }
        BEU16Field { index: self.start + AR_AT }.get(self.data)
    }

    pub fn is_query(&self) -> (r: bool)
        ensures
            r == (qr_in(self.bytes(), self.start()) == Some(false)),
    {
        match self.qr() {
            Some(qr) => !qr,
            None => false,
        }
    }

    pub fn is_response(&self) -> (r: bool)
        ensures
            r == (qr_in(self.bytes(), self.start()) == Some(true)),
    {
        match self.qr() {
            Some(qr) => qr,
            None => false,
        }
    }

    pub fn is_truncated(&self) -> (r: bool)
        ensures
            r == (tc_in(self.bytes(), self.start()) == Some(true)),
    {
        match self.tc() {
            Some(tc) => tc,
            None => false,
        }
    }

    pub fn end_offset(&self) -> (r: usize)
        ensures
            r == self.start() + SIZE,
    {
        proof {
            use_type_invariant(self);
        }
        self.start + SIZE
    }
}

/// The place of a header in a buffer that is being written. The buffer itself
/// is handed to each setter; a setter returns the view, so that calls chain.
#[derive(Debug, Copy, Clone)]
pub struct HeaderMut {
    start: usize,
}

impl HeaderMut {
    #[verifier::type_invariant]
    spec fn inv(&self) -> bool {
        self.start <= usize::MAX - SIZE
    }

    pub closed spec fn start(&self) -> int {
        self.start as int
    }

    /// A header at the very start of a buffer, taken without a cursor.
    pub fn at_raw() -> (r: HeaderMut)
        ensures
            r.start() == 0,
    {
        HeaderMut { start: 0 }
    }

    /// Takes the next 12 bytes from the cursor for a header, or fails when
    /// fewer remain.
    pub fn at(idx: &mut MessageCursor) -> (r: Option<HeaderMut>)
        ensures
            final(idx).capacity() == old(idx).capacity(),
            old(idx).wf() ==> final(idx).wf(),
            old(idx).next() + SIZE <= old(idx).capacity() ==> {
                &&& r matches Some(h)
                &&& h.start() == old(idx).next()
                &&& final(idx).next() == old(idx).next() + SIZE
            },
            old(idx).next() + SIZE > old(idx).capacity() ==> r is None && final(idx).next()
                == old(idx).next(),
    {
        match idx.allocate(SIZE) {
            Some(range) => Some(HeaderMut { start: range.start }),
            None => None,
        }
    }

    pub fn set_id<D: BitDataMut + ?Sized>(&self, data: &mut D, val: u16) -> (r: &Self)
        ensures
            *r == *self,
            final(data).bytes() == with_u16(old(data).bytes(), self.start() + ID_AT, val),
    {
        proof {
            use_type_invariant(self);
        }
        BEU16Field { index: self.start + ID_AT }.set(data, val);
        self
    }

    pub fn set_qr<D: BitDataMut + ?Sized>(&self, data: &mut D, val: bool) -> (r: &Self)
        ensures
            *r == *self,
            final(data).bytes() == with_bits(
                old(data).bytes(),
                self.start() + FLAGS_AT,
                QR_MASK,
                val as u8,
            ),
    {
        proof {
            use_type_invariant(self);
        }
        BitField { index: self.start + FLAGS_AT, mask: QR_MASK }.set(data, val as u8);
        self
    }

    pub fn set_op<D: BitDataMut + ?Sized>(&self, data: &mut D, val: u8) -> (r: &Self)
        ensures
            *r == *self,
            final(data).bytes() == with_bits(old(data).bytes(), self.start() + FLAGS_AT, OP_MASK, val),
    {
        proof {
            use_type_invariant(self);
        }
        BitField { index: self.start + FLAGS_AT, mask: OP_MASK }.set(data, val);
        self
    }

    pub fn set_aa<D: BitDataMut + ?Sized>(&self, data: &mut D, val: bool) -> (r: &Self)
        ensures
            *r == *self,
            final(data).bytes() == with_bits(
                old(data).bytes(),
                self.start() + FLAGS_AT,
                AA_MASK,
                val as u8,
            ),
    {
        proof {
            use_type_invariant(self);
        }
        BitField { index: self.start + FLAGS_AT, mask: AA_MASK }.set(data, val as u8);
        self
    }

    pub fn set_tc<D: BitDataMut + ?Sized>(&self, data: &mut D, val: bool) -> (r: &Self)
        ensures
            *r == *self,
            final(data).bytes() == with_bits(
                old(data).bytes(),
                self.start() + FLAGS_AT,
                TC_MASK,
                val as u8,
            ),
    {
        proof {
            use_type_invariant(self);
        }
        BitField { index: self.start + FLAGS_AT, mask: TC_MASK }.set(data, val as u8);
        self
    }

    pub fn set_rd<D: BitDataMut + ?Sized>(&self, data: &mut D, val: bool) -> (r: &Self)
        ensures
            *r == *self,
            final(data).bytes() == with_bits(
                old(data).bytes(),
                self.start() + FLAGS_AT,
                RD_MASK,
                val as u8,
            ),
    {
        proof {
            use_type_invariant(self);
        }
        BitField { index: self.start + FLAGS_AT, mask: RD_MASK }.set(data, val as u8);
        self
    }

    pub fn set_ra<D: BitDataMut + ?Sized>(&self, data: &mut D, val: bool) -> (r: &Self)
        ensures
            *r == *self,
            final(data).bytes() == with_bits(
                old(data).bytes(),
                self.start() + CODES_AT,
                RA_MASK,
                val as u8,
            ),
    {
        proof {
            use_type_invariant(self);
        }
        BitField { index: self.start + CODES_AT, mask: RA_MASK }.set(data, val as u8);
        self
    }

    pub fn set_rc<D: BitDataMut + ?Sized>(&self, data: &mut D, val: u8) -> (r: &Self)
        ensures
            *r == *self,
            final(data).bytes() == with_bits(old(data).bytes(), self.start() + CODES_AT, RC_MASK, val),
    {
        proof {
            use_type_invariant(self);
        }
        BitField { index: self.start + CODES_AT, mask: RC_MASK }.set(data, val);
        self
    }

    pub fn set_qd<D: BitDataMut + ?Sized>(&self, data: &mut D, val: u16) -> (r: &Self)
        ensures
            *r == *self,
            final(data).bytes() == with_u16(old(data).bytes(), self.start() + QD_AT, val),
    {
        proof {
            use_type_invariant(self);
        }
        BEU16Field { index: self.start + QD_AT }.set(data, val);
        self
    }

    pub fn set_an<D: BitDataMut + ?Sized>(&self, data: &mut D, val: u16) -> (r: &Self)
        ensures
            *r == *self,
            final(data).bytes() == with_u16(old(data).bytes(), self.start() + AN_AT, val),
    {
        proof {
            use_type_invariant(self);
        }
        BEU16Field { index: self.start + AN_AT }.set(data, val);
        self
    }

    pub fn set_ns<D: BitDataMut + ?Sized>(&self, data: &mut D, val: u16) -> (r: &Self)
        ensures
            *r == *self,
            final(data).bytes() == with_u16(old(data).bytes(), self.start() + NS_AT, val),
    {
        proof {
            use_type_invariant(self);
        }
        BEU16Field { index: self.start + NS_AT }.set(data, val);
        self
    }

    pub fn set_ar<D: BitDataMut + ?Sized>(&self, data: &mut D, val: u16) -> (r: &Self)
        ensures
            *r == *self,
            final(data).bytes() == with_u16(old(data).bytes(), self.start() + AR_AT, val),
    {
        proof {
            use_type_invariant(self);
        }
        BEU16Field { index: self.start + AR_AT }.set(data, val);
        self
    }

    pub fn end_offset(&self) -> (r: usize)
        ensures
            r == self.start() + SIZE,
    {
        proof {
            use_type_invariant(self);
        }
        self.start + SIZE
    }

    /// Asks the server to resolve recursively (sets RD).
    pub fn allow_recursion<D: BitDataMut + ?Sized>(&self, data: &mut D) -> (r: &Self)
        ensures
            *r == *self,
            final(data).bytes() == with_bits(old(data).bytes(), self.start() + FLAGS_AT, RD_MASK, 1),
    {
        self.set_rd(data, true)
    }

    /// Fills in the header of an outgoing query: the given ID, QR=0,
    /// OPCODE=QUERY, AA=0, TC=0, RD=1, RA=0, RCODE=0. The reserved Z bits and
    /// the four counts are left as they are, and so is any header byte that
    /// lies past the end of the buffer (the ID only as a whole).
    pub fn make_query<D: BitDataMut + ?Sized>(&self, data: &mut D, id: u16) -> (r: &Self)
        ensures
            *r == *self,
            final(data).bytes().len() == old(data).bytes().len(),
            forall|i: int|
                0 <= i < old(data).bytes().len() ==> #[trigger] final(data).bytes()[i] == query_byte(
                    old(data).bytes(),
                    self.start(),
                    id,
                    i,
                ),
    {
        let ghost b0 = data.bytes();
        let ghost s = self.start();
        self.set_id(data, id);
        let ghost b1 = data.bytes();
        self.set_qr(data, false);
        self.set_op(data, OP_QUERY);
        self.set_aa(data, false);
        self.set_tc(data, false);
        self.allow_recursion(data);
        let ghost b2 = data.bytes();
        self.set_ra(data, false);
        self.set_rc(data, 0);
        proof {
            use_type_invariant(self);
            let f = s + FLAGS_AT;
            let c = s + CODES_AT;
            if 0 <= f < b1.len() {
                let x = b1[f];
                lemma_header_masks(x, 0);
                lemma_header_masks((x & 0x7f) | ((0u8 & 1) << 7u8), 0);
                let y1 = (x & 0x7f) | ((0u8 & 1) << 7u8);
                lemma_header_masks((y1 & 0x87) | ((0u8 & 0xf) << 3u8), 0);
                let y2 = (y1 & 0x87) | ((0u8 & 0xf) << 3u8);
                lemma_header_masks((y2 & 0xfb) | ((0u8 & 1) << 2u8), 0);
                let y3 = (y2 & 0xfb) | ((0u8 & 1) << 2u8);
                lemma_header_masks((y3 & 0xfd) | ((0u8 & 1) << 1u8), 1);
                let y4 = (y3 & 0xfd) | ((0u8 & 1) << 1u8);
                assert(((y4 & 0xfe) | (1u8 & 1)) == 1u8) by (bit_vector)
                    requires
                        y4 == (y3 & 0xfd) | ((0u8 & 1) << 1u8),
                        y3 == (y2 & 0xfb) | ((0u8 & 1) << 2u8),
                        y2 == (y1 & 0x87) | ((0u8 & 0xf) << 3u8),
                        y1 == (x & 0x7f) | ((0u8 & 1) << 7u8),
                ;
            }
            if 0 <= c < b2.len() {
                let x = b2[c];
                lemma_header_masks(x, 0);
                let y1 = (x & 0x7f) | ((0u8 & 1) << 7u8);
                lemma_header_masks(y1, 0);
                assert(((y1 & 0xf0) | (0u8 & 0xf)) == x & 0x70) by (bit_vector)
                    requires
                        y1 == (x & 0x7f) | ((0u8 & 1) << 7u8),
                ;
            }
        }
        self
    }

    /// The read-only view of the same header.
    pub fn as_header<'d, D: BitData + ?Sized>(&self, data: &'d D) -> (r: Header<'d, D>)
        ensures
            r.start() == self.start(),
            r.bytes() == data.bytes(),
    {
        proof {
            use_type_invariant(self);
        }
        Header { start: self.start, data: data }
    }
}

} // verus!
