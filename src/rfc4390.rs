//! Unicode domain names (RFC 3490): a dotted name in a string becomes the
//! ASCII label bytes that the wire format carries.
use crate::domain_name::slice_views;
use crate::cache_record::name_view;
use vstd::prelude::*;
use vstd::utf8::encode_utf8;
use vstd::utf8::is_ascii_chars;

verus! {

/// The pieces of `s` between its dots, in order: a string with no dot is one
/// piece, and each dot starts a new, possibly empty, piece.
pub open spec fn dot_pieces(s: Seq<char>) -> Seq<Seq<char>>
    decreases s.len(),
{
    if s.len() == 0 {
        seq![Seq::empty()]
    } else {
        let front = dot_pieces(s.drop_last());
        if s.last() == '.' {
            front.push(Seq::empty())
        } else {
            front.update(front.len() - 1, front.last().push(s.last()))
        }
    }
}

/// The Punycode that idna gives for a label's characters, or `None` when it
/// reports an overflow.
pub uninterp spec fn punycode_of(s: Seq<char>) -> Option<Seq<char>>;

/// The ACE prefix "xn--" that marks an encoded label (RFC 3490, section 5).
pub open spec fn ace_prefix() -> Seq<u8> {
    seq![0x78u8, 0x6eu8, 0x2du8, 0x2du8]
}

/// The bytes of a label as sent: ASCII labels as they are, others as the
/// ACE prefix and their Punycode.
pub open spec fn label_bytes(p: Seq<char>) -> Option<Seq<u8>> {
    if is_ascii_chars(p) {
        Some(encode_utf8(p))
    } else {
        match punycode_of(p) {
            Some(e) => Some(ace_prefix() + encode_utf8(e)),
            None => None,
        }
    }
}

/// Relies on `str::split` with a `char` pattern: the substrings of `name`
/// between occurrences of '.', in order, an empty one included wherever two
/// dots meet or a dot starts or ends the name.
#[verifier::external_body]
fn split_dots(name: &str) -> (r: Vec<&str>)
    ensures
        r@.map_values(|p: &str| p@) == dot_pieces(name@),
{
    name.split('.').collect()
}

/// Relies on `idna::punycode::encode_str`: the Punycode of the label's
/// characters, or `None` on overflow.
#[verifier::external_body]
fn punycode_encode(segment: &str) -> (r: Option<String>)
    ensures
        match r {
            Some(e) => punycode_of(segment@) == Some(e@),
            None => punycode_of(segment@) is None,
        },
{
    idna::punycode::encode_str(segment)
}

/// Copies the bytes of a string.
fn bytes_of(s: &str) -> (r: Vec<u8>)
    ensures
        r@ == encode_utf8(s@),
{
    let b = s.as_bytes();
    let mut out: Vec<u8> = Vec::new();
    let mut i: usize = 0;
    while i < b.len()
        invariant
            i <= b@.len(),
            out@ == b@.take(i as int),
        decreases b.len() - i,
    {
        out.push(b[i]);
        proof {
            assert(b@.take(i + 1) =~= b@.take(i as int).push(b@[i as int]));
        }
        i = i + 1;
    }
    proof {
        assert(b@.take(i as int) =~= b@);
    }
    out
}

/// The label bytes for an encoded label: the ACE prefix, then `punycode`.
pub fn ace_label(punycode: &str) -> (r: Vec<u8>)
    ensures
        r@ == ace_prefix() + encode_utf8(punycode@),
{
    let mut result: Vec<u8> = Vec::new();
    result.push(0x78);
    result.push(0x6e);
    result.push(0x2d);
    result.push(0x2d);
    let tail = bytes_of(punycode);
    let ghost head = result@;
    let mut i: usize = 0;
    while i < tail.len()
        invariant
            i <= tail@.len(),
            head == ace_prefix(),
            result@ == head + tail@.take(i as int),
        decreases tail.len() - i,
    {
        result.push(tail[i]);
        proof {
            assert(head + tail@.take(i + 1) =~= (head + tail@.take(i as int)).push(tail@[i as int]));
        }
        i = i + 1;
    }
    proof {
        assert(tail@.take(i as int) =~= tail@);
        assert(head =~= ace_prefix());
    }
    result
}

fn encode_segment(segment: &str) -> (r: Option<Vec<u8>>)
    ensures
        match r {
            Some(v) => label_bytes(segment@) == Some(v@),
            None => label_bytes(segment@) is None,
        },
{
    if segment.is_ascii() {
        Some(bytes_of(segment))
    } else {
        match punycode_encode(segment) {
            Some(encoded) => Some(ace_label(encoded.as_str())),
            None => None,
        }
    }
}

/// Encodes a dotted Unicode name ("foo.bar") into the ASCII label bytes
/// that DNS carries: one label per piece between dots, ASCII pieces as they
/// are and others in Punycode with the ACE prefix. `None` when a piece
/// cannot be encoded.
pub fn encode_dotted_name(name: &str) -> (r: Option<Vec<Vec<u8>>>)
    ensures
        r is Some <==> forall|i: int|
            0 <= i < dot_pieces(name@).len() ==> #[trigger] label_bytes(dot_pieces(name@)[i]) is Some,
        r matches Some(v) ==> {
            &&& v@.len() == dot_pieces(name@).len()
            &&& forall|i: int|
                0 <= i < v@.len() ==> label_bytes(dot_pieces(name@)[i]) == Some(#[trigger] v@[i]@)
        },
{
    let pieces = split_dots(name);
    let ghost want = dot_pieces(name@);
    let mut result: Vec<Vec<u8>> = Vec::new();
    let mut i: usize = 0;
    while i < pieces.len()
        invariant
            i <= pieces@.len(),
            pieces@.map_values(|p: &str| p@) == want,
            want == dot_pieces(name@),
            result@.len() == i,
            forall|k: int| 0 <= k < i ==> label_bytes(want[k]) == Some(#[trigger] result@[k]@),
        decreases pieces.len() - i,
    {
        proof {
            assert(want[i as int] == pieces@[i as int]@);
        }
        match encode_segment(pieces[i]) {
            Some(segment) => {
                result.push(segment);
            },
            None => {
                proof {
                    assert(!(label_bytes(want[i as int]) is Some));
                }
                return None;
            },
        }
        i = i + 1;
    }
    proof {
        assert(want.len() == pieces@.len());
        assert forall|k: int| 0 <= k < want.len() implies #[trigger] label_bytes(want[k]) is Some by {
            assert(label_bytes(want[k]) == Some(result@[k]@));
        }
    }
    Some(result)
}

/// The labels as slices of their own bytes, as the name writers take them.
pub fn vec_ref<'a>(segments: &'a Vec<Vec<u8>>) -> (r: Vec<&'a [u8]>)
    ensures
        slice_views(r@) == name_view(segments),
{
    let mut nref: Vec<&'a [u8]> = Vec::new();
    let mut i: usize = 0;
    while i < segments.len()
        invariant
            i <= segments@.len(),
            nref@.len() == i,
            forall|k: int| 0 <= k < i ==> #[trigger] nref@[k]@ == segments@[k]@,
        decreases segments.len() - i,
    {
        nref.push(segments[i].as_slice());
        i = i + 1;
    }
    proof {
        assert(slice_views(nref@) =~= name_view(segments));
    }
    nref
}

} // verus!
