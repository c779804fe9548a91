use vstd::prelude::*;

verus! {

/// The byte at `i` of `buf`, or `None` when `i` lies outside it.
pub open spec fn byte_of(buf: Seq<u8>, i: int) -> Option<u8> {
    if 0 <= i < buf.len() {
        Some(buf[i])
    } else {
        None
    }
}

/// Read access to a byte buffer. Every read is bounded by the buffer's length
/// and answers `None` rather than reaching outside it.
pub trait BitData {
    spec fn bytes(&self) -> Seq<u8>;

    fn read_byte(&self, index: usize) -> (r: Option<u8>)
        ensures
            r == byte_of(self.bytes(), index as int),
    ;

    fn byte_len(&self) -> (r: usize)
        ensures
            r == self.bytes().len(),
    ;
}

/// Write access to a byte buffer. A write outside the buffer changes nothing.
pub trait BitDataMut: BitData {
    fn write_byte(&mut self, index: usize, value: u8)
        ensures
            final(self).bytes() == (if index < old(self).bytes().len() {
                old(self).bytes().update(index as int, value)
            } else {
                old(self).bytes()
            }),
    ;
}

impl BitData for [u8] {
    open spec fn bytes(&self) -> Seq<u8> {
        self@
    }

    fn read_byte(&self, index: usize) -> (r: Option<u8>) {
        if index < self.len() {
            Some(self[index])
        } else {
            None
        }
    }

    fn byte_len(&self) -> (r: usize) {
        self.len()
    }
}

impl BitDataMut for [u8] {
    fn write_byte(&mut self, index: usize, value: u8) {
        if index < self.len() {
            self[index] = value;
        }
    }
}

impl BitData for Vec<u8> {
    open spec fn bytes(&self) -> Seq<u8> {
        self@
    }

    fn read_byte(&self, index: usize) -> (r: Option<u8>) {
        if index < self.len() {
            Some(self[index])
        } else {
            None
        }
    }

    fn byte_len(&self) -> (r: usize) {
        self.len()
    }
}

impl BitDataMut for Vec<u8> {
    fn write_byte(&mut self, index: usize, value: u8) {
        if index < self.len() {
            self.set(index, value);
        }
    }
}

/// The value held under `mask` in byte `b`, shifted down to bit 0.
/// An empty mask selects no bits and reads as 0.
pub open spec fn masked_value(b: u8, mask: u8) -> u8 {
    if mask == 0 {
        0
    } else {
        (b & mask) >> (mask.trailing_zeros() as u8)
    }
}

/// Byte `b` with the bits under `mask` replaced by the low bits of `v`.
/// Bits of `v` that do not fit under the mask are dropped.
pub open spec fn with_masked_value(b: u8, mask: u8, v: u8) -> u8 {
    if mask == 0 {
        b
    } else {
        let t = mask.trailing_zeros() as u8;
        (b & !mask) | ((v & (mask >> t)) << t)
    }
}

/// A field of one or more bits within one byte of a buffer.
/// It does not reach across byte boundaries.
pub struct BitField {
    /// Byte offset from the start of the buffer.
    pub index: usize,
    /// Bits to extract from the target byte.
    pub mask: u8,
}

impl BitField {
    /// The field's value in `buf`, or `None` when the byte is outside it.
    pub open spec fn value_in(&self, buf: Seq<u8>) -> Option<u8> {
        bits_at(buf, self.index as int, self.mask)
    }

    /// `buf` with the field set to `v`; unchanged when the byte is outside it.
    pub open spec fn stored_in(&self, buf: Seq<u8>, v: u8) -> Seq<u8> {
        with_bits(buf, self.index as int, self.mask, v)
    }

    pub fn get<T: BitData + ?Sized>(&self, data: &T) -> (r: Option<u8>)
        ensures
            r == self.value_in(data.bytes()),
    {
        match data.read_byte(self.index) {
            Some(val) => {
                if self.mask == 0 {
                    Some(0)
                } else {
                    let t = self.mask.trailing_zeros() as u8;
                    proof {
                        vstd::std_specs::bits::axiom_u8_trailing_zeros(self.mask);
                    }
                    Some((val & self.mask) >> t)
                }
            },
            None => None,
        }
    }

    /// Whether any bit under the mask is set, or `None` when the byte is outside the buffer.
    pub fn nonzero<T: BitData + ?Sized>(&self, data: &T) -> (r: Option<bool>)
        ensures
            r == flag_at(data.bytes(), self.index as int, self.mask),
    {
        match data.read_byte(self.index) {
            Some(val) => Some(0 != (val & self.mask)),
            None => None,
        }
    }

    pub fn set<T: BitDataMut + ?Sized>(&self, data: &mut T, value: u8)
        ensures
            final(data).bytes() == self.stored_in(old(data).bytes(), value),
    {
        match data.read_byte(self.index) {
            Some(old_byte) => {
                if self.mask != 0 {
                    let t = self.mask.trailing_zeros() as u8;
                    proof {
                        vstd::std_specs::bits::axiom_u8_trailing_zeros(self.mask);
                    }
                    let updated = (old_byte & !self.mask) | ((value & (self.mask >> t)) << t);
                    data.write_byte(self.index, updated);
                }
            },
            None => {},
        }
    }
}

/// Bit-field round trip: writing back the value just read leaves the buffer as
/// it was, and a write of any value changes only the bits under the mask,
/// which then read back as the value cut to the mask's width.
pub proof fn lemma_bit_field_round_trip(f: BitField, buf: Seq<u8>, v: u8)
    requires
        f.index < buf.len(),
    ensures
        f.stored_in(buf, f.value_in(buf).unwrap()) == buf,
        f.stored_in(buf, v)[f.index as int] & !f.mask == buf[f.index as int] & !f.mask,
        f.stored_in(buf, v).len() == buf.len(),
        forall|i: int| 0 <= i < buf.len() && i != f.index ==> f.stored_in(buf, v)[i] == buf[i],
        f.mask != 0 ==> f.value_in(f.stored_in(buf, v)) == Some(
            v & (f.mask >> (f.mask.trailing_zeros() as u8)),
        ),
{
    let b = buf[f.index as int];
    let m = f.mask;
    if m != 0 {
        vstd::std_specs::bits::axiom_u8_trailing_zeros(m);
        let t = m.trailing_zeros() as u8;
        assert(m << ((8 - t) as u8) == 0);
        assert(t < 8 && m << ((8 - t) as u8) == 0 ==> ((b & !m) | ((((b & m) >> t) & (m >> t)) << t))
            == b) by (bit_vector);
        assert(t < 8 && m << ((8 - t) as u8) == 0 ==> ((b & !m) | ((v & (m >> t)) << t)) & !m == b
            & !m) by (bit_vector);
        assert(t < 8 && m << ((8 - t) as u8) == 0 ==> ((((b & !m) | ((v & (m >> t)) << t)) & m) >> t)
            == v & (m >> t)) by (bit_vector);
        assert(buf.update(f.index as int, b) =~= buf);
    } else {
        assert(buf.update(f.index as int, b) =~= buf);
    }
}

/// Big-endian value of two bytes.
pub open spec fn be16(hi: u8, lo: u8) -> u16 {
    (hi as int * 0x100 + lo as int) as u16
}

/// Big-endian value of four bytes.
pub open spec fn be32(b0: u8, b1: u8, b2: u8, b3: u8) -> u32 {
    (b0 as int * 0x100_0000 + b1 as int * 0x1_0000 + b2 as int * 0x100 + b3 as int) as u32
}

/// Whether `width` bytes starting at `index` all lie inside a buffer of `len` bytes.
pub open spec fn span_fits(index: int, width: int, len: int) -> bool {
    0 <= index && index + width <= len
}

/// The bits under `mask` in byte `i` of `buf`, shifted down, or `None` past its end.
pub open spec fn bits_at(buf: Seq<u8>, i: int, mask: u8) -> Option<u8> {
    if 0 <= i < buf.len() {
        Some(masked_value(buf[i], mask))
    } else {
        None
    }
}

/// Whether any bit under `mask` is set in byte `i` of `buf`, or `None` past its end.
pub open spec fn flag_at(buf: Seq<u8>, i: int, mask: u8) -> Option<bool> {
    if 0 <= i < buf.len() {
        Some(buf[i] & mask != 0)
    } else {
        None
    }
}

/// `buf` with the bits under `mask` in byte `i` set from `v`; unchanged past its end.
pub open spec fn with_bits(buf: Seq<u8>, i: int, mask: u8, v: u8) -> Seq<u8> {
    if 0 <= i < buf.len() {
        buf.update(i, with_masked_value(buf[i], mask, v))
    } else {
        buf
    }
}

/// The big-endian 16-bit value at `i`, or `None` unless both bytes lie in `buf`.
pub open spec fn u16_at(buf: Seq<u8>, i: int) -> Option<u16> {
    if span_fits(i, 2, buf.len() as int) {
        Some(be16(buf[i], buf[i + 1]))
    } else {
        None
    }
}

/// `buf` with `v` written big-endian at `i`; unchanged unless both bytes lie in it.
pub open spec fn with_u16(buf: Seq<u8>, i: int, v: u16) -> Seq<u8> {
    if span_fits(i, 2, buf.len() as int) {
        buf.update(i, (v / 0x100) as u8).update(i + 1, (v % 0x100) as u8)
    } else {
        buf
    }
}

/// The big-endian 32-bit value at `i`, or `None` unless all four bytes lie in `buf`.
pub open spec fn u32_at(buf: Seq<u8>, i: int) -> Option<u32> {
    if span_fits(i, 4, buf.len() as int) {
        Some(be32(buf[i], buf[i + 1], buf[i + 2], buf[i + 3]))
    } else {
        None
    }
}

/// `buf` with `v` written big-endian at `i`; unchanged unless all four bytes lie in it.
pub open spec fn with_u32(buf: Seq<u8>, i: int, v: u32) -> Seq<u8> {
    if span_fits(i, 4, buf.len() as int) {
        buf.update(i, (v / 0x100_0000) as u8).update(i + 1, (v / 0x1_0000 % 0x100) as u8).update(
            i + 2,
            (v / 0x100 % 0x100) as u8,
        ).update(i + 3, (v % 0x100) as u8)
    } else {
        buf
    }
}

/// A 16-bit big-endian field at a byte offset.
pub struct BEU16Field {
    pub index: usize,
}

impl BEU16Field {
    pub open spec fn value_in(&self, buf: Seq<u8>) -> Option<u16> {
        u16_at(buf, self.index as int)
    }

    pub open spec fn stored_in(&self, buf: Seq<u8>, v: u16) -> Seq<u8> {
        with_u16(buf, self.index as int, v)
    }

    pub fn get<T: BitData + ?Sized>(&self, data: &T) -> (r: Option<u16>)
        ensures
            r == self.value_in(data.bytes()),
    {
        let len = data.byte_len();
        if self.index < len && len - self.index >= 2 {
            let hi = data.read_byte(self.index).unwrap();
            let lo = data.read_byte(self.index + 1).unwrap();
            Some((hi as u16) * 0x100 + (lo as u16))
        } else {
            None
        }
    }

    pub fn set<T: BitDataMut + ?Sized>(&self, data: &mut T, value: u16)
        ensures
            final(data).bytes() == self.stored_in(old(data).bytes(), value),
    {
        let len = data.byte_len();
        if self.index < len && len - self.index >= 2 {
            data.write_byte(self.index, (value / 0x100) as u8);
            data.write_byte(self.index + 1, (value % 0x100) as u8);
        }
    }
}

/// A 32-bit big-endian field at a byte offset.
pub struct BEU32Field {
    pub index: usize,
}

impl BEU32Field {
    pub open spec fn value_in(&self, buf: Seq<u8>) -> Option<u32> {
        u32_at(buf, self.index as int)
    }

    pub open spec fn stored_in(&self, buf: Seq<u8>, v: u32) -> Seq<u8> {
        with_u32(buf, self.index as int, v)
    }

    pub fn get<T: BitData + ?Sized>(&self, data: &T) -> (r: Option<u32>)
        ensures
            r == self.value_in(data.bytes()),
    {
        let len = data.byte_len();
        if self.index < len && len - self.index >= 4 {
            let b0 = data.read_byte(self.index).unwrap() as u32;
            let b1 = data.read_byte(self.index + 1).unwrap() as u32;
            let b2 = data.read_byte(self.index + 2).unwrap() as u32;
            let b3 = data.read_byte(self.index + 3).unwrap() as u32;
            Some(b0 * 0x100_0000 + b1 * 0x1_0000 + b2 * 0x100 + b3)
        } else {
            None
        }
    }

    pub fn set<T: BitDataMut + ?Sized>(&self, data: &mut T, value: u32)
        ensures
            final(data).bytes() == self.stored_in(old(data).bytes(), value),
    {
        let len = data.byte_len();
        if self.index < len && len - self.index >= 4 {
            data.write_byte(self.index, (value / 0x100_0000) as u8);
            data.write_byte(self.index + 1, (value / 0x1_0000 % 0x100) as u8);
            data.write_byte(self.index + 2, (value / 0x100 % 0x100) as u8);
            data.write_byte(self.index + 3, (value % 0x100) as u8);
        }
    }
}

} // verus!
