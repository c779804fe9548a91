use crate::message::MessageCursor;
use vstd::prelude::*;

verus! {

/// Pointer jumps that one name may follow.
pub const MAX_POINTER_HOPS: u32 = 64;

/// Labels that one name may hold, the root label included.
pub const MAX_LABELS: u32 = 64;

/// Longest label that the wire format can carry.
pub const MAX_LABEL_LEN: usize = 63;

/// Offset named by a compression pointer whose two bytes are `hi` (tag `11`) and `lo`.
pub open spec fn pointer_target(hi: u8, lo: u8) -> int {
    (hi - 0xc0) * 0x100 + lo
}

/// The labels of the name that starts at `pos` of `buf`, ending with the
/// empty root label. Pointers are followed; `hops` more pointer jumps and
/// `room` more labels (the root included) are allowed. `None` when the bytes
/// do not hold a name within those bounds.
pub open spec fn labels_from(buf: Seq<u8>, pos: int, hops: nat, room: nat) -> Option<Seq<Seq<u8>>>
    decreases hops + room,
{
    if room == 0 || !(0 <= pos < buf.len()) {
        None
    } else if buf[pos] == 0 {
        Some(seq![Seq::<u8>::empty()])
    } else if buf[pos] < 0x40 {
        let end = pos + 1 + buf[pos];
        if end <= buf.len() {
            match labels_from(buf, end, hops, (room - 1) as nat) {
                Some(rest) => Some(seq![buf.subrange(pos + 1, end)] + rest),
                None => None,
            }
        } else {
            None
        }
    } else if buf[pos] >= 0xc0 {
        if hops == 0 || pos + 1 >= buf.len() {
            None
        } else {
            labels_from(buf, pointer_target(buf[pos], buf[pos + 1]), (hops - 1) as nat, room)
        }
    } else {
        None
    }
}

/// The labels of the name at `pos`, within the decoder's bounds.
pub open spec fn labels_at(buf: Seq<u8>, pos: int) -> Option<Seq<Seq<u8>>> {
    labels_from(buf, pos, MAX_POINTER_HOPS as nat, MAX_LABELS as nat)
}

/// Offset just past the inline part of the name at `pos`: past its root
/// label, or past the pointer that ends it. No pointer is followed.
pub open spec fn inline_end(buf: Seq<u8>, pos: int) -> int
    decreases buf.len() - pos,
{
    if !(0 <= pos < buf.len()) {
        pos
    } else if buf[pos] == 0 {
        pos + 1
    } else if buf[pos] < 0x40 {
        if pos + 1 + buf[pos] <= buf.len() {
            inline_end(buf, pos + 1 + buf[pos])
        } else {
            pos
        }
    } else if buf[pos] >= 0xc0 && pos + 1 < buf.len() {
        pos + 2
    } else {
        pos
    }
}

/// Bytes that labels take when written in full: a length byte and the label's bytes each.
pub open spec fn wire_size(labels: Seq<Seq<u8>>) -> nat
    decreases labels.len(),
{
    if labels.len() == 0 {
        0
    } else {
        wire_size(labels.drop_last()) + labels.last().len() + 1
    }
}

/// One label as written: its length byte, then its bytes.
pub open spec fn label_wire(label: Seq<u8>) -> Seq<u8> {
    seq![label.len() as u8] + label
}

/// Labels written one after another, with no root.
pub open spec fn labels_wire(labels: Seq<Seq<u8>>) -> Seq<u8>
    decreases labels.len(),
{
    if labels.len() == 0 {
        Seq::empty()
    } else {
        labels_wire(labels.drop_last()) + label_wire(labels.last())
    }
}

/// The labels without an explicit trailing root label.
pub open spec fn without_root(labels: Seq<Seq<u8>>) -> Seq<Seq<u8>> {
    if labels.len() > 0 && labels.last().len() == 0 {
        labels.drop_last()
    } else {
        labels
    }
}

/// The labels ending in exactly one root label.
pub open spec fn with_root(labels: Seq<Seq<u8>>) -> Seq<Seq<u8>> {
    without_root(labels).push(Seq::empty())
}

/// The full encoding of a name: each label in turn, then the root.
pub open spec fn name_wire(labels: Seq<Seq<u8>>) -> Seq<u8> {
    labels_wire(without_root(labels)) + seq![0u8]
}

/// Whether every label but the root is short enough for the wire format.
pub open spec fn labels_fit(labels: Seq<Seq<u8>>) -> bool {
    forall|i: int| 0 <= i < without_root(labels).len() ==> #[trigger] without_root(labels)[i].len() <= 63
}

/// A name that encodes and decodes back to itself: every label but the root
/// holds 1 to 63 bytes, and the labels, the root included, fit the decoder's bound.
pub open spec fn well_formed(labels: Seq<Seq<u8>>) -> bool {
    &&& forall|i: int|
        0 <= i < without_root(labels).len() ==> 1 <= #[trigger] without_root(labels)[i].len() <= 63
    &&& without_root(labels).len() < MAX_LABELS
}

/// `buf` with `bytes` written from offset `at` on; bytes that would fall past
/// the end of `buf` are dropped.
pub open spec fn overwrite(buf: Seq<u8>, at: int, bytes: Seq<u8>) -> Seq<u8> {
    Seq::new(buf.len(), |i: int| if at <= i < at + bytes.len() { bytes[i - at] } else { buf[i] })
}

/// The byte views of a sequence of slices.
pub open spec fn slice_views(v: Seq<&[u8]>) -> Seq<Seq<u8>> {
    v.map_values(|s: &[u8]| s@)
}

/// A domain name parsed from a message: where it starts, where its inline
/// part ends, and how many bytes it takes when written without compression.
#[derive(Debug, Copy, Clone)]
pub struct DomainName {
    start: usize,
    end: usize,
    total_bytes: usize,
}

/// Whether `r` is what parsing a name at `at` of `buf` gives.
pub open spec fn parsed_name(r: Option<DomainName>, buf: Seq<u8>, at: int) -> bool {
    match labels_at(buf, at) {
        Some(labels) => {
            &&& r matches Some(n)
            &&& n.start() == at
            &&& n.end() == inline_end(buf, at)
            &&& n.max_size() == wire_size(labels)
            &&& n.max_size() <= 0x1000
        },
        None => r is None,
    }
}

enum Segment {
    Root,
    Label { start: usize, end: usize },
    Pointer { target: usize },
    Invalid,
}

impl DomainName {
    pub closed spec fn start(&self) -> int {
        self.start as int
    }

    pub closed spec fn end(&self) -> int {
        self.end as int
    }

    pub closed spec fn max_size(&self) -> nat {
        self.total_bytes as nat
    }

    /// Parses the name that starts at `at`, or gives `None` when the bytes
    /// there do not hold one within the decoder's bounds.
    pub fn from_message(message: &[u8], at: usize) -> (r: Option<DomainName>)
        ensures
            parsed_name(r, message@, at as int),
    {
        let ghost buf = message@;
        // The inline part: labels up to the root or to the first pointer.
        let mut end = at;
        loop
            invariant_except_break
                inline_end(buf, end as int) == inline_end(buf, at as int),
            invariant
                at <= end,
                buf == message@,
            ensures
                end == inline_end(buf, at as int),
            decreases message.len() - end,
        {
            match Self::parse_segment_at(message, end) {
                Segment::Label { start: _, end: next } => {
                    end = next;
                },
                Segment::Root => {
                    end = end + 1;
                    break ;
                },
                Segment::Pointer { target: _ } => {
                    end = end + 2;
                    break ;
                },
                Segment::Invalid => {
                    break ;
                },
            }
        }
        let mut name = DomainName { start: at, end: end, total_bytes: 0 };
        match name.segments(message) {
            Some(segments) => {
                proof {
                    lemma_labels_bounds(buf, at as int, MAX_POINTER_HOPS as nat, MAX_LABELS as nat);
                    assert forall|k: int| 0 <= k < segments@.len() implies #[trigger] segments@[k]@.len()
                        <= 63 by {
                        assert(slice_views(segments@)[k] == segments@[k]@);
                    }
                }
                let mut total: usize = 0;
                let mut i: usize = 0;
                while i < segments.len()
                    invariant
                        i <= segments.len(),
                        Some(slice_views(segments@)) == labels_at(buf, at as int),
                        segments@.len() <= MAX_LABELS,
                        forall|k: int|
                            0 <= k < segments@.len() ==> #[trigger] segments@[k]@.len() <= 63,
                        total == wire_size(slice_views(segments@).take(i as int)),
                        total <= 64 * i,
                    decreases segments.len() - i,
                {
                    proof {
                        let v = slice_views(segments@);
                        assert(v.take(i + 1).drop_last() =~= v.take(i as int));
                        assert(v.take(i + 1).last() == segments@[i as int]@);
                    }
                    total = total + segments[i].len() + 1;
                    i = i + 1;
                }
                proof {
                    let v = slice_views(segments@);
                    assert(v.take(i as int) =~= v);
                }
                name.total_bytes = total;
                Some(name)
            },
            None => None,
        }
    }

    pub fn max_encoding_size(&self) -> (r: usize)
        ensures
            r == self.max_size(),
    {
        self.total_bytes
    }

    /// The labels of this name in `message`, the root label last.
    pub fn segments<'d>(&self, message: &'d [u8]) -> (r: Option<Vec<&'d [u8]>>)
        ensures
            match r {
                Some(v) => labels_at(message@, self.start()) == Some(slice_views(v@)),
                None => labels_at(message@, self.start()) is None,
            },
    {
        let ghost buf = message@;
        let mut hops: u32 = MAX_POINTER_HOPS;
        let mut room: u32 = MAX_LABELS;
        let mut pos = self.start;
        let mut segments: Vec<&'d [u8]> = Vec::new();
        loop
            invariant
                hops <= MAX_POINTER_HOPS,
                room <= MAX_LABELS,
                buf == message@,
                labels_at(buf, self.start()) == match labels_from(
                    buf,
                    pos as int,
                    hops as nat,
                    room as nat,
                ) {
                    Some(rest) => Some(slice_views(segments@) + rest),
                    None => None,
                },
            decreases hops + room,
        {
            if room == 0 {
                return None;
            }
            match Self::parse_segment_at(message, pos) {
                Segment::Root => {
                    let root = &message[pos..pos];
                    proof {
                        assert(root@ =~= Seq::<u8>::empty());
                    }
                    let ghost before = segments@;
                    segments.push(root);
                    proof {
                        assert(slice_views(segments@) =~= slice_views(before) + seq![
                            Seq::<u8>::empty(),
                        ]);
                    }
                    return Some(segments);
                },
                Segment::Label { start, end } => {
                    let piece = &message[start..end];
                    let ghost before = segments@;
                    segments.push(piece);
                    proof {
                        let rest = labels_from(buf, end as int, hops as nat, (room - 1) as nat);
                        assert(slice_views(segments@) =~= slice_views(before) + seq![piece@]);
                        if let Some(tail) = rest {
                            assert(slice_views(segments@) + tail =~= slice_views(before) + (seq![
                                piece@,
                            ] + tail));
                        }
                    }
                    room = room - 1;
                    pos = end;
                },
                Segment::Pointer { target } => {
                    if hops == 0 {
                        return None;
                    }
                    hops = hops - 1;
                    pos = target;
                },
                Segment::Invalid => {
                    return None;
                },
            }
        }
    }

    fn parse_segment_at(message: &[u8], pos: usize) -> (r: Segment)
        ensures
            match r {
                Segment::Root => pos < message@.len() && message@[pos as int] == 0,
                Segment::Label { start, end } => {
                    &&& pos < message@.len()
                    &&& 0 < message@[pos as int] < 0x40
                    &&& start == pos + 1
                    &&& end == pos + 1 + message@[pos as int]
                    &&& end <= message@.len()
                },
                Segment::Pointer { target } => {
                    &&& pos + 1 < message@.len()
                    &&& message@[pos as int] >= 0xc0
                    &&& target == pointer_target(message@[pos as int], message@[pos + 1])
                },
                Segment::Invalid => {
                    ||| pos >= message@.len()
                    ||| (0x40 <= message@[pos as int] < 0xc0)
                    ||| (0 < message@[pos as int] < 0x40 && pos + 1 + message@[pos as int]
                        > message@.len())
                    ||| (message@[pos as int] >= 0xc0 && pos + 1 >= message@.len())
                },
            },
    {
        if pos >= message.len() {
            return Segment::Invalid;
        }
        let tag = message[pos];
        if tag == 0 {
            Segment::Root
        } else if tag < 0x40 {
            let len = tag as usize;
            if len < message.len() - pos {
                Segment::Label { start: pos + 1, end: pos + 1 + len }
            } else {
                Segment::Invalid
            }
        } else if tag >= 0xc0 {
            if pos + 1 < message.len() {
                let low = message[pos + 1];
                Segment::Pointer { target: ((tag - 0xc0) as usize) * 0x100 + (low as usize) }
            } else {
                Segment::Invalid
            }
        } else {
            Segment::Invalid
        }
    }

    pub fn end_offset(&self) -> (r: usize)
        ensures
            r == self.end(),
    {
        self.end
    }

    /// Writes `name` at the cursor's position, each label in full and then
    /// one root label; an explicit trailing root label in `name` is not
    /// written twice. Fails when a label is longer than 63 bytes or the cursor
    /// runs out of room; bytes written before that are left in place. On
    /// success the result is the name as parsed back from `data`.
    pub fn write_at(idx: &mut MessageCursor, data: &mut [u8], name: &[&[u8]]) -> (r: Option<
        DomainName,
    >)
        ensures
            final(idx).capacity() == old(idx).capacity(),
            old(idx).wf() ==> final(idx).wf(),
            old(idx).next() <= final(idx).next(),
            final(data)@.len() == old(data)@.len(),
            forall|i: int|
                0 <= i < old(data)@.len() && !(old(idx).next() <= i < final(idx).next())
                    ==> final(data)@[i] == old(data)@[i],
            ({
                let wire = name_wire(slice_views(name@));
                if labels_fit(slice_views(name@)) && old(idx).next() + wire.len()
                    <= old(idx).capacity() {
                    &&& final(data)@ == overwrite(old(data)@, old(idx).next() as int, wire)
                    &&& final(idx).next() == old(idx).next() + wire.len()
                    &&& parsed_name(r, final(data)@, old(idx).next() as int)
                } else {
                    r is None
                }
            }),
    {
        let ghost labels = slice_views(name@);
        let ghost body = without_root(labels);
        let ghost data0 = data@;
        let name_len = if name.len() > 0 && name[name.len() - 1].len() == 0 {
            name.len() - 1
        } else {
            name.len()
        };
        proof {
            assert(body.len() == name_len);
            assert forall|k: int| 0 <= k < name_len implies #[trigger] body[k] == name@[k]@ by {
                assert(labels[k] == name@[k]@);
            }
            lemma_labels_wire_size(body);
        }
        let start = idx.tell();
        let mut i: usize = 0;
        while i < name_len
            invariant
                i <= name_len,
                name_len <= name@.len(),
                body.len() == name_len,
                forall|k: int| 0 <= k < name_len ==> #[trigger] body[k] == name@[k]@,
                labels == slice_views(name@),
                body == without_root(labels),
                idx.capacity() == old(idx).capacity(),
                old(idx).wf() ==> idx.wf(),
                start == old(idx).next(),
                idx.next() == start + labels_wire(body.take(i as int)).len(),
                data@ == overwrite(data0, start as int, labels_wire(body.take(i as int))),
                data0 == old(data)@,
                forall|k: int| 0 <= k < i ==> #[trigger] body[k].len() <= 63,
                labels_wire(body).len() == wire_size(body),
            decreases name_len - i,
        {
            let label = name[i];
            if label.len() > MAX_LABEL_LEN {
                proof {
                    assert(without_root(labels)[i as int].len() > 63);
                }
                return None;
            }
            proof {
                lemma_wire_size_prefix(body, i + 1);
                lemma_labels_wire_size(body.take(i + 1));
                assert(body.take(i + 1).drop_last() =~= body.take(i as int));
                assert(body.take(i + 1).last() == label@);
            }
            match idx.allocate(1 + label.len()) {
                Some(range) => {
                    let ghost before = data@;
                    if range.start < data.len() {
                        data[range.start] = label.len() as u8;
                    }
                    proof {
                        lemma_overwrite_byte(before, range.start as int, label.len() as u8);
                    }
                    let ghost middle = data@;
                    put_bytes(data, range.start + 1, label);
                    proof {
                        let w = labels_wire(body.take(i as int));
                        lemma_overwrite_concat(data0, start as int, w, seq![label.len() as u8]);
                        lemma_overwrite_concat(
                            data0,
                            start as int,
                            w + seq![label.len() as u8],
                            label@,
                        );
                        assert(w + seq![label.len() as u8] + label@ =~= w + label_wire(label@));
                    }
                },
                None => {
                    return None;
                },
            }
            i = i + 1;
        }
        proof {
            assert(body.take(i as int) =~= body);
        }
        match idx.allocate(1) {
            Some(range) => {
                let ghost before = data@;
                if range.start < data.len() {
                    data[range.start] = 0;
                }
                proof {
                    lemma_overwrite_byte(before, range.start as int, 0u8);
                    lemma_overwrite_concat(data0, start as int, labels_wire(body), seq![0u8]);
                }
            },
            None => {
                return None;
            },
        }
        DomainName::from_message(data, start)
    }
}

/// Copies `bytes` into `data` from offset `at` on, dropping what falls past its end.
pub(crate) fn put_bytes(data: &mut [u8], at: usize, bytes: &[u8])
    requires
        at + bytes@.len() <= usize::MAX,
    ensures
        final(data)@ == overwrite(old(data)@, at as int, bytes@),
{
    let ghost data0 = data@;
    let mut j: usize = 0;
    while j < bytes.len()
        invariant
            j <= bytes@.len(),
            at + bytes@.len() <= usize::MAX,
            data@ == overwrite(data0, at as int, bytes@.take(j as int)),
            data0 == old(data)@,
        decreases bytes.len() - j,
    {
        let ghost before = data@;
        if at + j < data.len() {
            data[at + j] = bytes[j];
        }
        proof {
            lemma_overwrite_byte(before, at + j, bytes@[j as int]);
            lemma_overwrite_concat(data0, at as int, bytes@.take(j as int), seq![bytes@[j as int]]);
            assert(bytes@.take(j as int) + seq![bytes@[j as int]] =~= bytes@.take(j + 1));
        }
        j = j + 1;
    }
    proof {
        assert(bytes@.take(j as int) =~= bytes@);
    }
}

proof fn lemma_overwrite_byte(buf: Seq<u8>, at: int, v: u8)
    requires
        0 <= at,
    ensures
        overwrite(buf, at, seq![v]) == (if at < buf.len() {
            buf.update(at, v)
        } else {
            buf
        }),
{
    if at < buf.len() {
        assert(overwrite(buf, at, seq![v]) =~= buf.update(at, v));
    } else {
        assert(overwrite(buf, at, seq![v]) =~= buf);
    }
}

/// Bytes written over a buffer, read back up to their end: what came before, then them.
pub(crate) proof fn lemma_overwrite_prefix(buf: Seq<u8>, at: int, x: Seq<u8>)
    requires
        0 <= at,
        at + x.len() <= buf.len(),
    ensures
        overwrite(buf, at, x).take(at + x.len()) == buf.take(at) + x,
{
    assert(overwrite(buf, at, x).take(at + x.len()) =~= buf.take(at) + x);
}

pub(crate) proof fn lemma_overwrite_concat(buf: Seq<u8>, at: int, x: Seq<u8>, y: Seq<u8>)
    ensures
        overwrite(overwrite(buf, at, x), at + x.len(), y) == overwrite(buf, at, x + y),
{
    assert(overwrite(overwrite(buf, at, x), at + x.len(), y) =~= overwrite(buf, at, x + y));
}

proof fn lemma_labels_wire_size(labels: Seq<Seq<u8>>)
    ensures
        labels_wire(labels).len() == wire_size(labels),
    decreases labels.len(),
{
    if labels.len() > 0 {
        lemma_labels_wire_size(labels.drop_last());
    }
}

proof fn lemma_wire_size_prefix(labels: Seq<Seq<u8>>, n: int)
    requires
        0 <= n <= labels.len(),
    ensures
        wire_size(labels.take(n)) <= wire_size(labels),
    decreases labels.len(),
{
    if n < labels.len() {
        lemma_wire_size_prefix(labels.drop_last(), n);
        assert(labels.drop_last().take(n) =~= labels.take(n));
    } else {
        assert(labels.take(n) =~= labels);
    }
}

/// The decoder's labels end in the root label and, before it, hold 1 to 63
/// bytes each; there are at most `room` of them.
proof fn lemma_labels_shape(buf: Seq<u8>, pos: int, hops: nat, room: nat)
    ensures
        labels_from(buf, pos, hops, room) matches Some(l) ==> {
            &&& 1 <= l.len() <= room
            &&& l.last() == Seq::<u8>::empty()
            &&& forall|i: int| 0 <= i < l.len() - 1 ==> 1 <= #[trigger] l[i].len() <= 63
        },
    decreases hops + room,
{
    if room == 0 || !(0 <= pos < buf.len()) {
    } else if buf[pos] == 0 {
    } else if buf[pos] < 0x40 {
        let end = pos + 1 + buf[pos];
        if end <= buf.len() {
            lemma_labels_shape(buf, end, hops, (room - 1) as nat);
            if let Some(rest) = labels_from(buf, end, hops, (room - 1) as nat) {
                let l = seq![buf.subrange(pos + 1, end)] + rest;
                assert(l.last() == rest.last());
                assert forall|i: int| 0 <= i < l.len() - 1 implies 1 <= #[trigger] l[i].len() <= 63 by {
                    if i > 0 {
                        assert(l[i] == rest[i - 1]);
                    }
                }
            }
        }
    } else if buf[pos] >= 0xc0 {
        if hops == 0 || pos + 1 >= buf.len() {
        } else {
            lemma_labels_shape(buf, pointer_target(buf[pos], buf[pos + 1]), (hops - 1) as nat, room);
        }
    }
}

/// A name that parses, without its root label, is well formed, and writing
/// it back gives its labels.
pub proof fn lemma_parsed_name_well_formed(buf: Seq<u8>, pos: int)
    ensures
        labels_at(buf, pos) matches Some(l) ==> {
            &&& well_formed(l.drop_last())
            &&& with_root(l.drop_last()) == l
            &&& l.drop_last().push(Seq::<u8>::empty()) == l
        },
{
    lemma_labels_shape(buf, pos, MAX_POINTER_HOPS as nat, MAX_LABELS as nat);
    if let Some(l) = labels_at(buf, pos) {
        let n = l.drop_last();
        if n.len() > 0 {
            assert(n.last() == l[l.len() - 2]);
        }
        assert(without_root(n) == n);
        assert(n.push(Seq::<u8>::empty()) =~= l);
        assert forall|i: int| 0 <= i < without_root(n).len() implies 1 <= #[trigger] without_root(n)[i].len() <= 63 by {
            assert(n[i] == l[i]);
        }
    }
}

/// The decoder gives at most `room` labels, each at most 63 bytes long.
pub proof fn lemma_labels_bounds(buf: Seq<u8>, pos: int, hops: nat, room: nat)
    ensures
        labels_from(buf, pos, hops, room) matches Some(labels) ==> {
            &&& labels.len() <= room
            &&& forall|k: int| 0 <= k < labels.len() ==> #[trigger] labels[k].len() <= 63
        },
    decreases hops + room,
{
    if room == 0 || !(0 <= pos < buf.len()) {
    } else if buf[pos] == 0 {
    } else if buf[pos] < 0x40 {
        let end = pos + 1 + buf[pos];
        if end <= buf.len() {
            lemma_labels_bounds(buf, end, hops, (room - 1) as nat);
            if let Some(rest) = labels_from(buf, end, hops, (room - 1) as nat) {
                let labels = seq![buf.subrange(pos + 1, end)] + rest;
                assert forall|k: int| 0 <= k < labels.len() implies #[trigger] labels[k].len()
                    <= 63 by {
                    if k > 0 {
                        assert(labels[k] == rest[k - 1]);
                    }
                }
            }
        }
    } else if buf[pos] >= 0xc0 {
        if hops == 0 || pos + 1 >= buf.len() {
        } else {
            lemma_labels_bounds(
                buf,
                pointer_target(buf[pos], buf[pos + 1]),
                (hops - 1) as nat,
                room,
            );
        }
    }
}

proof fn lemma_labels_wire_front(labels: Seq<Seq<u8>>)
    requires
        labels.len() > 0,
    ensures
        labels_wire(labels) == label_wire(labels[0]) + labels_wire(labels.drop_first()),
    decreases labels.len(),
{
    if labels.len() == 1 {
        assert(labels.drop_last() =~= Seq::<Seq<u8>>::empty());
        assert(labels.drop_first() =~= Seq::<Seq<u8>>::empty());
        assert(labels_wire(labels.drop_last()) == Seq::<u8>::empty());
        assert(labels.last() == labels[0]);
        assert(labels_wire(labels) =~= label_wire(labels[0]));
    } else {
        let front = labels.drop_last();
        lemma_labels_wire_front(front);
        assert(front.drop_first() =~= labels.drop_first().drop_last());
        assert(labels.drop_first().last() == labels.last());
        assert(front[0] == labels[0]);
        assert(labels_wire(labels) =~= label_wire(labels[0]) + labels_wire(labels.drop_first()));
    }
}

/// Decoding the bytes of `labels_wire(body)` and a root, found at `p`.
proof fn lemma_decode_written(buf: Seq<u8>, p: int, body: Seq<Seq<u8>>, hops: nat, room: nat)
    requires
        forall|k: int| 0 <= k < body.len() ==> 1 <= #[trigger] body[k].len() <= 63,
        body.len() < room,
        0 <= p,
        p + labels_wire(body).len() + 1 <= buf.len(),
        buf.subrange(p, p + labels_wire(body).len() + 1) == labels_wire(body) + seq![0u8],
    ensures
        labels_from(buf, p, hops, room) == Some(body.push(Seq::<u8>::empty())),
        inline_end(buf, p) == p + labels_wire(body).len() + 1,
    decreases body.len(),
{
    let n = labels_wire(body).len();
    if body.len() == 0 {
        assert(buf[p] == buf.subrange(p, p + n + 1)[0]);
        assert(body.push(Seq::<u8>::empty()) =~= seq![Seq::<u8>::empty()]);
    } else {
        lemma_labels_wire_front(body);
        let first = body[0];
        let rest = body.drop_first();
        let len = first.len();
        let end = p + 1 + len;
        let w = labels_wire(body) + seq![0u8];
        assert(w == label_wire(first) + (labels_wire(rest) + seq![0u8]));
        assert(buf[p] == w[0]);
        assert(buf[p] == len as u8);
        assert(buf.subrange(p + 1, end) =~= first) by {
            assert forall|k: int| 0 <= k < len implies buf.subrange(p + 1, end)[k] == first[k] by {
                assert(buf.subrange(p + 1, end)[k] == buf[p + 1 + k]);
                assert(buf[p + 1 + k] == w[1 + k]);
            }
        }
        assert(buf.subrange(end, end + labels_wire(rest).len() + 1) =~= labels_wire(rest) + seq![
            0u8,
        ]) by {
            let m = labels_wire(rest).len() + 1;
            assert forall|k: int| 0 <= k < m implies buf.subrange(end, end + m)[k] == (labels_wire(
                rest,
            ) + seq![0u8])[k] by {
                assert(buf[end + k] == w[1 + len + k]);
            }
        }
        assert forall|k: int| 0 <= k < rest.len() implies 1 <= #[trigger] rest[k].len() <= 63 by {
            assert(rest[k] == body[k + 1]);
        }
        lemma_decode_written(buf, end, rest, hops, (room - 1) as nat);
        assert(seq![first] + rest.push(Seq::<u8>::empty()) =~= body.push(Seq::<u8>::empty()));
    }
}

/// Round trip: a well-formed name written in full at `at` decodes back to its
/// labels, ending in one root label (so a name that already ends in the root
/// label decodes to itself); its inline part ends right after the bytes
/// written, and its size estimate is the number of bytes written.
pub proof fn lemma_name_round_trip(labels: Seq<Seq<u8>>, buf: Seq<u8>, at: int)
    requires
        well_formed(labels),
        0 <= at,
        at + name_wire(labels).len() <= buf.len(),
    ensures
        labels_at(overwrite(buf, at, name_wire(labels)), at) == Some(with_root(labels)),
        inline_end(overwrite(buf, at, name_wire(labels)), at) == at + name_wire(labels).len(),
        wire_size(with_root(labels)) == name_wire(labels).len(),
        labels.len() > 0 && labels.last().len() == 0 ==> with_root(labels) == labels,
{
    let body = without_root(labels);
    let wire = name_wire(labels);
    let out = overwrite(buf, at, wire);
    assert(out.subrange(at, at + wire.len()) =~= wire);
    lemma_decode_written(out, at, body, MAX_POINTER_HOPS as nat, MAX_LABELS as nat);
    lemma_labels_wire_size(body);
    assert(with_root(labels).drop_last() =~= body);
    if labels.len() > 0 && labels.last().len() == 0 {
        assert(labels.last() =~= Seq::<u8>::empty());
        assert(with_root(labels) =~= labels);
    }
}

/// A name written after another one, in bytes of its own, decodes to what its
/// encoding decodes to alone, whatever the first name was: to its labels and
/// one root label.
pub proof fn lemma_later_name_decodes_alone(
    first: Seq<Seq<u8>>,
    second: Seq<Seq<u8>>,
    buf: Seq<u8>,
    a: int,
    b: int,
)
    requires
        well_formed(second),
        0 <= a,
        a + name_wire(first).len() <= b,
        b + name_wire(second).len() <= buf.len(),
    ensures
        labels_at(overwrite(overwrite(buf, a, name_wire(first)), b, name_wire(second)), b)
            == labels_at(name_wire(second), 0),
        labels_at(name_wire(second), 0) == Some(with_root(second)),
{
    let once = overwrite(buf, a, name_wire(first));
    lemma_name_round_trip(second, once, b);
    let alone = name_wire(second);
    lemma_name_round_trip(second, alone, 0);
    assert(overwrite(alone, 0, alone) =~= alone);
}

/// A pointer at offset 0 that points to offset 0 never yields a name.
pub proof fn lemma_self_pointer_fails(buf: Seq<u8>)
    requires
        buf.len() >= 2,
        buf[0] == 0xc0,
        buf[1] == 0,
    ensures
        labels_at(buf, 0) is None,
{
    lemma_self_pointer_fails_from(buf, MAX_POINTER_HOPS as nat, MAX_LABELS as nat);
}

proof fn lemma_self_pointer_fails_from(buf: Seq<u8>, hops: nat, room: nat)
    requires
        buf.len() >= 2,
        buf[0] == 0xc0,
        buf[1] == 0,
    ensures
        labels_from(buf, 0, hops, room) is None,
    decreases hops,
{
    if hops > 0 && room > 0 {
        assert(pointer_target(buf[0], buf[1]) == 0);
        lemma_self_pointer_fails_from(buf, (hops - 1) as nat, room);
    }
}

} // verus!
