use crate::bits::{be16, masked_value, u16_at, with_bits, with_masked_value};
use crate::header::{
    lemma_header_masks, Header, HeaderMut, AA_MASK, OP_MASK, QD_AT, QR_MASK, RA_MASK, RC_FORMAT_ERROR,
    RC_MASK, RC_OK, RD_MASK, SIZE, TC_MASK, CODES_AT,
};
use crate::message::MessageCursor;
use crate::question::{question_end, question_estimate, question_parses, Question};
use crate::resource::{footer_wire, ResourceMut};
use crate::domain_name::{
    labels_at, labels_fit, lemma_overwrite_concat, lemma_overwrite_prefix, name_wire, overwrite,
    slice_views,
};
use crate::bits::with_u16;
use crate::header::{AN_AT, FLAGS_AT};
use vstd::prelude::*;

verus! {

/// Bytes by which an answer record's footer is longer than a question's.
pub const FOOTER_GROWTH: usize = 6;

/// Room for the answers to up to `count` questions one after another from
/// `at`, stopping at the first that does not parse: for each, its estimate,
/// with the footer of an answer record in place of the question's.
pub open spec fn answers_room(buf: Seq<u8>, at: int, count: nat) -> nat
    decreases count,
{
    if count == 0 || !question_parses(buf, at) {
        0
    } else {
        (question_estimate(buf, at) + FOOTER_GROWTH + answers_room(
            buf,
            question_end(buf, at),
            (count - 1) as nat,
        )) as nat
    }
}

/// The questions that the header of `m` announces, or none when the count is unreadable.
pub open spec fn announced(m: Seq<u8>) -> nat {
    match u16_at(m, QD_AT as int) {
        Some(n) => n as nat,
        None => 0,
    }
}

/// The reply being built for a request: its bytes, sized up front from the
/// request's questions, and the cursor that allocates within them.
pub struct Response {
    response_cursor: MessageCursor,
    response: Vec<u8>,
}

impl Response {
    pub closed spec fn bytes_spec(&self) -> Seq<u8> {
        self.response@
    }

    pub closed spec fn cursor_spec(&self) -> MessageCursor {
        self.response_cursor
    }

    /// Starts the reply to `message`. Its header echoes the request: the ID,
    /// OPCODE and RD are copied where the request holds them, QR is set, AA,
    /// TC, RA and Z are clear, and RCODE is OK, or FORMAT_ERROR when the
    /// request is shorter than a header. The counts are zero, and the rest of
    /// the buffer, sized for the answers, is zero too.
    pub fn for_message(message: &Vec<u8>) -> (r: Response)
        ensures
            ({
                let m = message@;
                let b = r.bytes_spec();
                &&& b.len() == SIZE + answers_room(m, SIZE as int, announced(m))
                &&& b[0] == (if m.len() >= 2 { m[0] } else { 0 })
                &&& b[1] == (if m.len() >= 2 { m[1] } else { 0 })
                &&& b[2] == QR_MASK | (if m.len() >= 3 { m[2] & (OP_MASK | RD_MASK) } else { 0 })
                &&& b[3] == (if m.len() >= SIZE { RC_OK } else { RC_FORMAT_ERROR })
                &&& forall|i: int| 4 <= i < b.len() ==> b[i] == 0
            }),
            r.wf(),
            r.cursor_spec().wf(),
            r.cursor_spec().next() == SIZE,
            r.cursor_spec().capacity() == r.bytes_spec().len(),
    {
        let response_len = Self::estimate_response_size(message);
        let mut response: Vec<u8> = Vec::new();
        let mut i: usize = 0;
        while i < response_len
            invariant
                i <= response_len,
                response@.len() == i,
                forall|k: int| 0 <= k < i ==> response@[k] == 0,
            decreases response_len - i,
        {
            response.push(0);
            i = i + 1;
        }
        let mut response_cursor = MessageCursor::new(response_len);
        let ghost zero = response@;
        let qheader = Header::at(message);
        let rheader = match HeaderMut::at(&mut response_cursor) {
            Some(h) => h,
            None => {
                proof {
                    assert(false);
                }
                HeaderMut::at_raw()
            },
        };
        let ghost m = message@;
        if message.len() >= SIZE {
            // A whole header: copy it into the reply.
            let id = qheader.id().unwrap();
            let op = qheader.op().unwrap();
            let rd = qheader.rd().unwrap();
            rheader.set_id(&mut response, id);
            rheader.set_qr(&mut response, true);
            rheader.set_op(&mut response, op);
            rheader.set_aa(&mut response, false);
            rheader.set_tc(&mut response, false);
            rheader.set_rd(&mut response, rd);
            rheader.set_ra(&mut response, false);
            rheader.set_rc(&mut response, RC_OK);
            proof {
                lemma_flags_byte(m[2]);
                lemma_codes_byte(RC_OK);
                lemma_id_bytes(m[0], m[1]);
            }
        } else {
            // Part of a header: echo what can be read of it.
            match qheader.id() {
                Some(id) => {
                    rheader.set_id(&mut response, id);
                },
                None => {},
            }
            rheader.set_qr(&mut response, true);
            match qheader.op() {
                Some(op) => {
                    rheader.set_op(&mut response, op);
                },
                None => {},
            }
            rheader.set_aa(&mut response, false);
            match qheader.rd() {
                Some(rd) => {
                    rheader.set_rd(&mut response, rd);
                },
                None => {},
            }
            rheader.set_ra(&mut response, false);
            rheader.set_rc(&mut response, RC_FORMAT_ERROR);
            proof {
                if m.len() >= 3 {
                    lemma_flags_byte(m[2]);
                } else {
                    lemma_flags_byte(0);
                    assert(0x80u8 | 0u8 == 0x80u8) by (bit_vector);
                }
                if m.len() >= 2 {
                    lemma_id_bytes(m[0], m[1]);
                }
                lemma_codes_byte(RC_FORMAT_ERROR);
            }
        }
        Response { response_cursor: response_cursor, response: response }
    }

    /// Room for the reply to `message`: a header, and for each question that
    /// the header announces, in order until one fails to parse, its estimate
    /// with room for an answer record's footer.
    fn estimate_response_size(message: &Vec<u8>) -> (r: usize)
        ensures
            r == SIZE + answers_room(message@, SIZE as int, announced(message@)),
    {
        let ghost m = message@;
        let mut response_len = SIZE;
        let header = Header::at(message);
        let mut next = header.end_offset();
        match header.qd() {
            Some(qdcount) => {
                let mut i: u16 = 0;
                while i < qdcount
                    invariant
                        i <= qdcount,
                        qdcount == announced(m),
                        m == message@,
                        response_len <= SIZE + i * 4628,
                        SIZE + answers_room(m, SIZE as int, announced(m)) == response_len
                            + answers_room(m, next as int, (qdcount - i) as nat),
                    ensures
                        response_len == SIZE + answers_room(m, SIZE as int, announced(m)),
                    decreases qdcount - i,
                {
                    match Question::from_message(message.as_slice(), next) {
                        Some(query) => {
                            response_len = response_len + query.estimate_response_size() + FOOTER_GROWTH;
                            next = query.end_offset();
                        },
                        None => {
                            proof {
                                assert(!question_parses(m, next as int));
                                assert(answers_room(m, next as int, (qdcount - i) as nat) == 0);
                            }
                            break ;
                        },
                    }
                    i = i + 1;
                }
                proof {
                    if i == qdcount {
                        assert(answers_room(m, next as int, 0) == 0);
                    }
                    assert(response_len == SIZE + answers_room(m, SIZE as int, announced(m)));
                }
            },
            None => {
                proof {
                    assert(announced(m) == 0);
                    assert(answers_room(m, SIZE as int, 0) == 0);
                    assert(response_len == SIZE + answers_room(m, SIZE as int, announced(m)));
                }
            },
        }
        response_len
    }

    /// The cursor allocates within the reply's bytes.
    pub open spec fn wf(&self) -> bool {
        &&& self.cursor_spec().wf()
        &&& self.cursor_spec().capacity() == self.bytes_spec().len()
    }

    /// Appends an answer record at the cursor: `name` in full, its footer,
    /// then `rdata`. On success the reply, up to the cursor, has grown by
    /// exactly that record. Gives `false` and leaves the cursor, and the bytes
    /// before it, as they were when the record cannot be written there.
    pub fn append_answer(
        &mut self,
        name: &[&[u8]],
        rtype: u16,
        rclass: u16,
        ttl: u32,
        rdata: &[u8],
    ) -> (r: bool)
        requires
            old(self).wf(),
        ensures
            final(self).wf(),
            final(self).bytes_spec().len() == old(self).bytes_spec().len(),
            old(self).cursor_spec().next() <= final(self).cursor_spec().next(),
            forall|i: int|
                0 <= i < old(self).cursor_spec().next() ==> final(self).bytes_spec()[i]
                    == old(self).bytes_spec()[i],
            ({
                let s = old(self).cursor_spec().next() as int;
                let wire = name_wire(slice_views(name@));
                let record = wire + footer_wire(rtype, rclass, ttl, rdata@.len() as u16) + rdata@;
                let written = overwrite(old(self).bytes_spec(), s, wire);
                if labels_fit(slice_views(name@)) && rdata@.len() <= 0xffff && s + record.len()
                    <= old(self).cursor_spec().capacity() && labels_at(written, s) is Some {
                    &&& r
                    &&& final(self).cursor_spec().next() == s + record.len()
                    &&& final(self).bytes_spec().take(s + record.len())
                        == old(self).bytes_spec().take(s) + record
                } else {
                    &&& !r
                    &&& final(self).cursor_spec() == old(self).cursor_spec()
                }
            }),
    {
        let saved = self.response_cursor;
        let ghost b0 = self.response@;
        let written = ResourceMut::at(
            &mut self.response_cursor,
            self.response.as_mut_slice(),
            name,
            rtype,
            rclass,
            ttl,
            rdata,
        );
        match written {
            Some(_) => {
                proof {
                    let s = saved.next() as int;
                    let wire = name_wire(slice_views(name@));
                    let tail = footer_wire(rtype, rclass, ttl, rdata@.len() as u16) + rdata@;
                    lemma_overwrite_concat(b0, s, wire, tail);
                    lemma_overwrite_prefix(b0, s, wire + tail);
                }
                true
            },
            None => {
                self.response_cursor = saved;
                false
            },
        }
    }

    /// Sets ANCOUNT, the number of answer records.
    pub fn set_answer_count(&mut self, n: u16)
        requires
            old(self).wf(),
        ensures
            final(self).wf(),
            final(self).bytes_spec() == with_u16(old(self).bytes_spec(), AN_AT as int, n),
            final(self).cursor_spec() == old(self).cursor_spec(),
    {
        HeaderMut::at_raw().set_an(&mut self.response, n);
    }

    /// Sets TC, the flag that says the reply was cut short.
    pub fn set_truncated(&mut self)
        ensures
            final(self).bytes_spec() == with_bits(old(self).bytes_spec(), FLAGS_AT as int, TC_MASK, 1),
            final(self).cursor_spec() == old(self).cursor_spec(),
            old(self).wf() ==> final(self).wf(),
    {
        HeaderMut::at_raw().set_tc(&mut self.response, true);
    }

    /// The bytes written so far, up to the cursor: the reply as it is sent.
    pub fn finish(self) -> (r: Vec<u8>)
        requires
            self.wf(),
        ensures
            r@ == self.bytes_spec().take(self.cursor_spec().next() as int),
    {
        let mut bytes = self.response;
        let end = self.response_cursor.tell();
        bytes.truncate(end);
        proof {
            assert(bytes@ =~= self.bytes_spec().take(end as int));
        }
        bytes
    }

    /// Sets the reply's RCODE.
    pub fn set_rcode(&mut self, rc: u8)
        ensures
            final(self).bytes_spec() == with_bits(old(self).bytes_spec(), CODES_AT as int, RC_MASK, rc),
            final(self).cursor_spec() == old(self).cursor_spec(),
            old(self).wf() ==> final(self).wf(),
    {
        HeaderMut::at_raw().set_rc(&mut self.response, rc);
    }

    /// The reply's bytes, handed over.
    pub fn into_bytes(self) -> (r: Vec<u8>)
        ensures
            r@ == self.bytes_spec(),
    {
        self.response
    }

    /// The reply's bytes.
    pub fn bytes(&self) -> (r: &Vec<u8>)
        ensures
            r@ == self.bytes_spec(),
    {
        &self.response
    }

    /// The cursor for what is written after the header.
    pub fn cursor(&self) -> (r: MessageCursor)
        ensures
            r == self.cursor_spec(),
    {
        self.response_cursor
    }
}

/// The flags byte of a reply, written field by field over a zero byte, for
/// a request whose flags byte is `q`.
proof fn lemma_flags_byte(q: u8)
    ensures
        ({
            let op = masked_value(q, OP_MASK);
            let rd = (q & RD_MASK != 0) as u8;
            let with_op = with_masked_value(
                with_masked_value(with_masked_value(0, QR_MASK, 1), OP_MASK, op),
                AA_MASK,
                0,
            );
            &&& with_masked_value(with_masked_value(with_op, TC_MASK, 0), RD_MASK, rd) == QR_MASK | (q
                & (OP_MASK | RD_MASK))
            &&& with_masked_value(with_op, RD_MASK, rd) == QR_MASK | (q & (OP_MASK | RD_MASK))
            &&& with_masked_value(with_masked_value(0, QR_MASK, 1), AA_MASK, 0) == QR_MASK
        }),
{
    let op = masked_value(q, OP_MASK);
    let rd = (q & RD_MASK != 0) as u8;
    lemma_header_masks(q, 0);
    lemma_header_masks(0, 1);
    let y1 = (0u8 & 0x7f) | ((1u8 & 1) << 7u8);
    lemma_header_masks(y1, op);
    let y2 = (y1 & 0x87) | ((op & 0xf) << 3u8);
    lemma_header_masks(y2, 0);
    let y3 = (y2 & 0xfb) | ((0u8 & 1) << 2u8);
    lemma_header_masks(y3, 0);
    let y4 = (y3 & 0xfd) | ((0u8 & 1) << 1u8);
    lemma_header_masks(y4, rd);
    lemma_header_masks(y3, rd);
    lemma_header_masks(y1, 0);
    assert(rd == q & 1) by {
        assert((q & 1u8) != 0u8 ==> (q & 1u8) == 1u8) by (bit_vector);
        assert((q & 1u8) < 2u8) by (bit_vector);
    }
    assert(op == (q & 0x78) >> 3u8);
    let with_op = with_masked_value(
        with_masked_value(with_masked_value(0, QR_MASK, 1), OP_MASK, op),
        AA_MASK,
        0,
    );
    assert(with_op == y3);
    assert(with_masked_value(with_op, TC_MASK, 0) == y4);
    assert(with_masked_value(y4, RD_MASK, rd) == (y4 & 0xfe) | (rd & 1));
    assert(with_masked_value(with_masked_value(with_op, TC_MASK, 0), RD_MASK, rd) == (y4 & 0xfe) | (
    rd & 1));
    assert(((y4 & 0xfe) | (rd & 1)) == 0x80u8 | (q & 0x79u8) && ((y3 & 0xfe) | (rd & 1)) == 0x80u8
        | (q & 0x79u8)) by (bit_vector)
        requires
            y1 == (0u8 & 0x7f) | ((1u8 & 1) << 7u8),
            y2 == (y1 & 0x87) | ((op & 0xf) << 3u8),
            y3 == (y2 & 0xfb) | ((0u8 & 1) << 2u8),
            y4 == (y3 & 0xfd) | ((0u8 & 1) << 1u8),
            op == (q & 0x78) >> 3u8,
            rd == q & 1,
    ;
    assert(y4 == y3) by (bit_vector)
        requires
            y1 == (0u8 & 0x7f) | ((1u8 & 1) << 7u8),
            y2 == (y1 & 0x87) | ((op & 0xf) << 3u8),
            y3 == (y2 & 0xfb) | ((0u8 & 1) << 2u8),
            y4 == (y3 & 0xfd) | ((0u8 & 1) << 1u8),
    ;
    assert(0x78u8 | 0x01u8 == 0x79u8) by (bit_vector);
    assert(((y1 & 0xfb) | ((0u8 & 1) << 2u8)) == 0x80u8) by (bit_vector)
        requires
            y1 == (0u8 & 0x7f) | ((1u8 & 1) << 7u8),
    ;
}

/// The codes byte of a reply, written over a zero byte: RA clear, RCODE `rc`.
proof fn lemma_codes_byte(rc: u8)
    requires
        rc < 16,
    ensures
        with_masked_value(with_masked_value(0, RA_MASK, 0), RC_MASK, rc) == rc,
{
    lemma_header_masks(0, 0);
    let y1 = (0u8 & 0x7f) | ((0u8 & 1) << 7u8);
    lemma_header_masks(y1, rc);
    assert(((y1 & 0xf0) | (rc & 0xf)) == rc) by (bit_vector)
        requires
            y1 == (0u8 & 0x7f) | ((0u8 & 1) << 7u8),
            rc < 16,
    ;
}

/// The two bytes of a big-endian 16-bit value read from `a`, `b` are `a`, `b`.
proof fn lemma_id_bytes(a: u8, b: u8)
    ensures
        (be16(a, b) / 0x100) as u8 == a,
        (be16(a, b) % 0x100) as u8 == b,
{
    assert(be16(a, b) == a as int * 0x100 + b as int);
}

} // verus!
