use bueller::bits::{BEU16Field, BEU32Field, BitField};
use bueller::cache_record::{CacheRecord, CacheResource};
use bueller::domain_name::DomainName;
use bueller::header::{Header, RC_FORMAT_ERROR, RC_OK};
use bueller::local_cache::LocalCache;
use bueller::message::MessageCursor;
use bueller::question::QTYPE_MX;
use bueller::response::Response;

fn labels(v: &[&[u8]]) -> Vec<Vec<u8>> {
    v.iter().map(|l| l.to_vec()).collect()
}

#[test]
fn round_trip_without_root() {
    let mut buf = vec![0u8; 32];
    let mut idx = MessageCursor::new(buf.len());
    let name: &[&[u8]] = &[b"www", b"example", b"com"];
    let written = DomainName::write_at(&mut idx, &mut buf, name).unwrap();
    assert_eq!(17, idx.tell());
    assert_eq!(17, written.end_offset());
    assert_eq!(17, written.max_encoding_size());
    let decoded = written.segments(&buf).unwrap();
    let decoded: Vec<Vec<u8>> = decoded.iter().map(|l| l.to_vec()).collect();
    assert_eq!(labels(&[b"www", b"example", b"com", b""]), decoded);
}

#[test]
fn round_trip_with_root() {
    let mut buf = vec![0u8; 32];
    let mut idx = MessageCursor::new(buf.len());
    let name: &[&[u8]] = &[b"a", b"bc", b""];
    let written = DomainName::write_at(&mut idx, &mut buf, name).unwrap();
    let decoded = written.segments(&buf).unwrap();
    let decoded: Vec<Vec<u8>> = decoded.iter().map(|l| l.to_vec()).collect();
    assert_eq!(labels(name), decoded);
    assert_eq!(&[1u8, b'a', 2, b'b', b'c', 0][..], &buf[..6]);
}

#[test]
fn second_name_sharing_suffix_decodes_alone() {
    let mut buf = vec![0u8; 64];
    let mut idx = MessageCursor::new(buf.len());
    let first: &[&[u8]] = &[b"mail", b"example", b"com"];
    let second: &[&[u8]] = &[b"www", b"example", b"com"];
    DomainName::write_at(&mut idx, &mut buf, first).unwrap();
    let at = idx.tell();
    DomainName::write_at(&mut idx, &mut buf, second).unwrap();
    let again = DomainName::from_message(&buf, at).unwrap();
    let decoded: Vec<Vec<u8>> = again.segments(&buf).unwrap().iter().map(|l| l.to_vec()).collect();
    let mut alone = vec![0u8; 32];
    let mut idx2 = MessageCursor::new(alone.len());
    let solo = DomainName::write_at(&mut idx2, &mut alone, second).unwrap();
    let expected: Vec<Vec<u8>> = solo.segments(&alone).unwrap().iter().map(|l| l.to_vec()).collect();
    assert_eq!(expected, decoded);
    assert_eq!(labels(&[b"www", b"example", b"com", b""]), decoded);
}

#[test]
fn write_fails_on_long_label() {
    let mut buf = vec![0u8; 128];
    let mut idx = MessageCursor::new(buf.len());
    let long = [b'x'; 64];
    let name: &[&[u8]] = &[&long[..], b"com"];
    assert!(DomainName::write_at(&mut idx, &mut buf, name).is_none());
}

#[test]
fn write_fails_without_room() {
    let name: &[&[u8]] = &[b"com"];
    let mut buf = vec![0u8; 4];
    let mut idx = MessageCursor::new(buf.len());
    assert!(DomainName::write_at(&mut idx, &mut buf, name).is_none());
    let mut buf = vec![0u8; 5];
    let mut idx = MessageCursor::new(buf.len());
    assert!(DomainName::write_at(&mut idx, &mut buf, name).is_some());
    assert_eq!(vec![3u8, b'c', b'o', b'm', 0], buf);
}

#[test]
fn self_pointer_fails() {
    let data = &[0xc0, 0x00][..];
    assert!(DomainName::from_message(data, 0).is_none());
}

#[test]
fn sixty_five_chained_pointers_fail() {
    let mut data: Vec<u8> = Vec::new();
    for i in 0..65u16 {
        let next = 4 * (i + 1);
        data.extend_from_slice(&[1, b'x', 0xc0 | (next >> 8) as u8, (next & 0xff) as u8]);
    }
    data.push(0);
    assert!(DomainName::from_message(&data, 0).is_none());
}

#[test]
fn sixty_four_pointer_hops_parse() {
    let mut data: Vec<u8> = Vec::new();
    for i in 0..64u16 {
        let next = 2 * (i + 1);
        data.extend_from_slice(&[0xc0 | (next >> 8) as u8, (next & 0xff) as u8]);
    }
    data.push(0);
    let name = DomainName::from_message(&data, 0).unwrap();
    assert_eq!(2, name.end_offset());
    assert_eq!(1, name.segments(&data).unwrap().len());
}

#[test]
fn sixty_five_pointer_hops_fail() {
    let mut data: Vec<u8> = Vec::new();
    for i in 0..65u16 {
        let next = 2 * (i + 1);
        data.extend_from_slice(&[0xc0 | (next >> 8) as u8, (next & 0xff) as u8]);
    }
    data.push(0);
    assert!(DomainName::from_message(&data, 0).is_none());
}

#[test]
fn label_limit() {
    let mut ok: Vec<u8> = Vec::new();
    for _ in 0..63 {
        ok.extend_from_slice(&[1, b'x']);
    }
    ok.push(0);
    let name = DomainName::from_message(&ok, 0).unwrap();
    assert_eq!(64, name.segments(&ok).unwrap().len());
    assert_eq!(127, name.max_encoding_size());
    let mut too_many: Vec<u8> = Vec::new();
    for _ in 0..64 {
        too_many.extend_from_slice(&[1, b'x']);
    }
    too_many.push(0);
    assert!(DomainName::from_message(&too_many, 0).is_none());
}

#[test]
fn invalid_tag_fails() {
    assert!(DomainName::from_message(&[0x40, 0][..], 0).is_none());
    assert!(DomainName::from_message(&[0x80, 0][..], 0).is_none());
    assert!(DomainName::from_message(&[3, b'a', b'b'][..], 0).is_none());
    assert!(DomainName::from_message(&[0xc0][..], 0).is_none());
    assert!(DomainName::from_message(&[0][..], 1).is_none());
}

#[test]
fn bit_field_write_back_is_fixed_point() {
    let bytes: [u8; 4] = [0xab, 0x5c, 0x00, 0xff];
    for index in 0..4usize {
        for mask in [0x01u8, 0x80, 0x78, 0x70, 0x0f, 0xff, 0x3c, 0x00] {
            let mut data = bytes;
            let field = BitField { index, mask };
            let v = field.get(&data[..]).unwrap();
            field.set(&mut data[..], v);
            assert_eq!(bytes, data);
        }
    }
}

#[test]
fn bit_field_write_keeps_other_bits() {
    let mut data = [0b1010_1010u8];
    let field = BitField { index: 0, mask: 0b0011_1100 };
    field.set(&mut data[..], 0b1111_0101);
    assert_eq!(0b1001_0110, data[0]);
    assert_eq!(Some(0b0101), field.get(&data[..]));
    assert_eq!(Some(true), field.nonzero(&data[..]));
    let empty = BitField { index: 0, mask: 0 };
    assert_eq!(Some(0), empty.get(&data[..]));
    empty.set(&mut data[..], 0xff);
    assert_eq!(0b1001_0110, data[0]);
}

#[test]
fn multi_byte_fields_at_the_edge() {
    let data = [1u8, 2, 3, 4, 5];
    assert_eq!(Some(0x0405), BEU16Field { index: 3 }.get(&data[..]));
    assert_eq!(None, BEU16Field { index: 4 }.get(&data[..]));
    assert_eq!(None, BEU16Field { index: usize::MAX }.get(&data[..]));
    assert_eq!(Some(0x02030405), BEU32Field { index: 1 }.get(&data[..]));
    assert_eq!(None, BEU32Field { index: 2 }.get(&data[..]));
    let mut out = vec![9u8; 3];
    BEU32Field { index: 0 }.set(&mut out, 0x11223344);
    assert_eq!(vec![9u8, 9, 9], out);
}

#[test]
fn expiry_boundary() {
    let name = vec![b"example".to_vec(), b"com".to_vec()];
    let t = 100;
    let mut cache = LocalCache::new();
    let mut rec = CacheRecord::new(name.clone());
    rec.add(CacheResource { rcode: 1, data: Some(vec![10, 0, 0, 1]), absolute_ttl: t });
    cache.update(rec);
    cache.expire_after(t);
    let kept = cache.get(&name).unwrap();
    assert_eq!(vec![(1u16, t)], kept.entries());
    cache.expire_after(t + 1);
    assert!(cache.get(&name).is_none());
}

#[test]
fn merge_overrides_and_next_expiry() {
    let name = vec![b"example".to_vec(), b"com".to_vec()];
    let mut target = CacheRecord::new(name.clone());
    target.add(CacheResource { rcode: 1, data: None, absolute_ttl: 5 });
    let mut incoming = CacheRecord::new(name);
    incoming.add(CacheResource { rcode: 1, data: None, absolute_ttl: 9 });
    incoming.add(CacheResource { rcode: QTYPE_MX, data: None, absolute_ttl: 3 });
    assert!(target.merge_from(incoming));
    assert_eq!(vec![(1u16, 9u64), (QTYPE_MX, 3u64)], target.entries());
    assert_eq!(3, target.next_absolute_ttl());
}

fn example_query() -> Vec<u8> {
    let mut msg = vec![0x12, 0x34, 0x01, 0x00, 0x00, 0x01, 0x00, 0x00, 0x00, 0x00, 0x00, 0x00];
    msg.push(7);
    msg.extend_from_slice(b"example");
    msg.push(3);
    msg.extend_from_slice(b"com");
    msg.push(0);
    msg.extend_from_slice(&[0x00, 0x01, 0x00, 0x01]);
    msg
}

#[test]
fn response_to_whole_query() {
    let msg = example_query();
    let resp = Response::for_message(&msg);
    let bytes = resp.bytes();
    assert_eq!(12 + 13 + 4 + 4 + 6, bytes.len());
    let h = Header::at(bytes);
    assert_eq!(Some(true), h.qr());
    assert_eq!(Some(0x1234), h.id());
    assert_eq!(Some(true), h.rd());
    assert_eq!(Some(false), h.aa());
    assert_eq!(Some(false), h.ra());
    assert_eq!(Some(RC_OK), h.rc());
    assert_eq!(Some(0), h.op());
    assert_eq!(Some(0), h.qd());
    assert_eq!(12, resp.cursor().tell());
}

#[test]
fn response_to_partial_header() {
    let msg = vec![0x12, 0x34, 0x29, 0x00, 0x00];
    let resp = Response::for_message(&msg);
    let h = Header::at(resp.bytes());
    assert_eq!(12, resp.bytes().len());
    assert_eq!(Some(RC_FORMAT_ERROR), h.rc());
    assert_eq!(Some(0x1234), h.id());
    assert_eq!(Some(5), h.op());
    assert_eq!(Some(true), h.rd());
    assert_eq!(Some(true), h.qr());
    assert_eq!(Some(false), h.tc());
}

#[test]
fn response_to_tiny_request() {
    let msg = vec![0x12];
    let resp = Response::for_message(&msg);
    let h = Header::at(resp.bytes());
    assert_eq!(Some(0), h.id());
    assert_eq!(Some(true), h.qr());
    assert_eq!(Some(0), h.op());
    assert_eq!(Some(false), h.rd());
    assert_eq!(Some(RC_FORMAT_ERROR), h.rc());
}

#[test]
fn response_size_estimate_by_type() {
    let mut msg = example_query();
    msg[5] = 2;
    msg.push(0);
    msg.extend_from_slice(&[0x00, 16, 0x00, 0x01]);
    let resp = Response::for_message(&msg);
    assert_eq!(12 + (13 + 4 + 4 + 6) + (1 + 4 + 512 + 6), resp.bytes().len());
    msg[5] = 3;
    let resp = Response::for_message(&msg);
    assert_eq!(12 + (13 + 4 + 4 + 6) + (1 + 4 + 512 + 6), resp.bytes().len());
}
