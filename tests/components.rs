use bueller::cache_record::{CacheRecord, CacheResource, TIME_MAX};
use bueller::header::{Header, HeaderMut, RC_FORMAT_ERROR, RC_REFUSED};
use bueller::local_cache::LocalCache;
use bueller::message::MessageCursor;
use bueller::packet::Packet;
use bueller::question::{Question, QuestionMut, QTYPE_A, QTYPE_MX, QTYPE_NULL, QTYPE_WKS};
use bueller::question_iterator::over;
use bueller::record::{Record, ANY, AXFR, MAILA, MAILB};
use bueller::rfc4390::{ace_label, encode_dotted_name, vec_ref};
use bueller::session::{Dispatcher, Outcome, PeerAddr, SessionId};

#[test]
fn cursor_fills_to_capacity() {
    let mut idx = MessageCursor::new(4);
    assert_eq!(Some(0..3), idx.allocate(3));
    assert_eq!(Some(3..4), idx.allocate(1));
    assert_eq!(None, idx.allocate(1));
    assert_eq!(4, idx.tell());
    assert_eq!(Some(4..4), idx.allocate(0));
}

#[test]
fn header_at_takes_twelve_bytes() {
    let mut idx = MessageCursor::new(12);
    assert!(HeaderMut::at(&mut idx).is_some());
    assert!(HeaderMut::at(&mut idx).is_none());
    let mut short = MessageCursor::new(11);
    assert!(HeaderMut::at(&mut short).is_none());
}

#[test]
fn make_query_header() {
    let mut data = vec![0xffu8; 12];
    let h = HeaderMut::at_raw();
    h.make_query(&mut data, 0xbeef);
    assert_eq!(vec![0xbe, 0xef, 0x01, 0x70, 0xff, 0xff, 0xff, 0xff, 0xff, 0xff, 0xff, 0xff], data);
    let r = Header::at(&data);
    assert!(r.is_query());
    assert_eq!(Some(0), r.op());
    assert_eq!(Some(true), r.rd());
    assert_eq!(Some(0), r.rc());
    assert_eq!(Some(7), r.z());
    assert_eq!(12, h.end_offset());
}

#[test]
fn question_written_and_read_back() {
    let mut data = vec![0u8; 32];
    let mut idx = MessageCursor::new(data.len());
    let name: &[&[u8]] = &[b"example", b"com"];
    assert!(QuestionMut::at(&mut idx, &mut data, name, QTYPE_MX, 1).is_some());
    assert_eq!(17, idx.tell());
    let q = Question::from_message(&data, 0).unwrap();
    assert_eq!(Some(QTYPE_MX), q.qtype());
    assert_eq!(Some(1), q.qclass());
    assert_eq!(17, q.end_offset());
    assert_eq!(13 + 4 + 128, q.estimate_response_size());
    let mut small = vec![0u8; 16];
    let mut idx = MessageCursor::new(small.len());
    assert!(QuestionMut::at(&mut idx, &mut small, name, QTYPE_A, 1).is_none());
}

#[test]
fn questions_walked_in_order() {
    let mut msg = vec![0, 1, 0, 0, 0, 2, 0, 0, 0, 0, 0, 0];
    msg.extend_from_slice(&[1, b'a', 0, 0, 1, 0, 1]);
    msg.extend_from_slice(&[0xc0, 12, 0, 15, 0, 1]);
    let header = Header::at(&msg[..]);
    let mut walk = over(&header);
    let first = walk.next_question(&msg).unwrap();
    assert_eq!(Some(QTYPE_A), first.qtype());
    let second = walk.next_question(&msg).unwrap();
    assert_eq!(Some(QTYPE_MX), second.qtype());
    assert_eq!(msg.len(), second.end_offset());
    assert!(walk.next_question(&msg).is_none());
}

#[test]
fn packet_slices_are_cut_to_the_packet() {
    let data = [1u8, 2, 3, 4, 5];
    let mut p = Packet::new(&data);
    let piece = p.next_slice(2);
    assert_eq!(&[1u8, 2][..], piece.data());
    let rest = p.next_slice(10);
    assert_eq!(&[3u8, 4, 5][..], rest.data());
    assert_eq!(&data[..], rest.whole_packet());
    let past = p.data_slice(9, 2);
    assert!(past.data().is_empty());
    p.consume_data_range(0, 1);
    assert_eq!(&data[..], p.data());
}

#[test]
fn record_type_codes() {
    assert_eq!(10, Record::NULL.rtype());
    assert_eq!(QTYPE_NULL, Record::NULL.rtype());
    assert_eq!(QTYPE_WKS, Record::WKS.rtype());
    assert_eq!(11, Record::WKS.rtype());
    assert_eq!(1, Record::A([127, 0, 0, 1]).rtype());
    assert_eq!(28, Record::AAAA([0; 16]).rtype());
}

#[test]
fn record_query_matching() {
    assert!(Record::MG.matches_qtype(MAILB));
    assert!(Record::MF.matches_qtype(MAILB));
    assert!(Record::MR.matches_qtype(MAILB));
    assert!(!Record::MX.matches_qtype(MAILB));
    assert!(Record::MX.matches_qtype(MAILA));
    assert!(!Record::MG.matches_qtype(MAILA));
    assert!(Record::TXT.matches_qtype(ANY));
    assert!(!Record::TXT.matches_qtype(AXFR));
    assert!(Record::A([0; 4]).matches_qtype(QTYPE_A));
    assert!(!Record::A([0; 4]).matches_qtype(QTYPE_MX));
}

#[test]
fn cache_update_merges_by_name() {
    let name = vec![b"a".to_vec()];
    let other = vec![b"b".to_vec()];
    let mut cache = LocalCache::new();
    assert_eq!(TIME_MAX, cache.next_ttl());
    let mut rec = CacheRecord::new(name.clone());
    rec.add(CacheResource { rcode: 1, data: None, absolute_ttl: 50 });
    cache.update(rec);
    let mut rec = CacheRecord::new(name.clone());
    rec.add(CacheResource { rcode: 15, data: None, absolute_ttl: 20 });
    cache.update(rec);
    let mut rec = CacheRecord::new(other.clone());
    rec.add(CacheResource { rcode: 1, data: None, absolute_ttl: 70 });
    cache.update(rec);
    assert_eq!(vec![(1u16, 50u64), (15, 20)], cache.get(&name).unwrap().entries());
    assert_eq!(20, cache.next_ttl());
    cache.expire_after(30);
    assert_eq!(vec![(1u16, 50u64)], cache.get(&name).unwrap().entries());
    assert_eq!(50, cache.next_ttl());
    cache.expire_after(60);
    assert!(cache.get(&name).is_none());
    assert_eq!(vec![(1u16, 70u64)], cache.get(&other).unwrap().entries());
    cache.expire_after(71);
    assert!(cache.get(&other).is_none());
    assert_eq!(TIME_MAX, cache.next_ttl());
}

#[test]
fn empty_record_swept_after_time_zero() {
    let name = vec![b"a".to_vec()];
    let mut cache = LocalCache::new();
    cache.update(CacheRecord::new(name.clone()));
    cache.expire_after(0);
    assert!(cache.get(&name).is_some());
    cache.expire_after(1);
    assert!(cache.get(&name).is_none());
}

fn query(id: u16) -> Vec<u8> {
    vec![(id >> 8) as u8, id as u8, 0x01, 0, 0, 0, 0, 0, 0, 0, 0, 0]
}

#[test]
fn dispatcher_starts_and_refuses() {
    let peer = PeerAddr { ip: 0x7f00_0001, port: 5300 };
    let mut cache = LocalCache::new();
    let mut d = Dispatcher::new();
    match d.dispatch_message(&mut cache, 0, peer, query(7)) {
        Outcome::Started(id) => assert_eq!(SessionId::UdpId(peer, 7), id),
        other => panic!("unexpected {:?}", other),
    }
    match d.dispatch_message(&mut cache, 0, peer, query(7)) {
        Outcome::Refused(reply) => {
            assert_eq!(0, reply[0]);
            assert_eq!(7, reply[1]);
            assert_eq!(RC_REFUSED, reply[3] & 0x0f);
            assert_eq!(0x80, reply[2] & 0x80);
        },
        other => panic!("unexpected {:?}", other),
    }
    let elsewhere = PeerAddr { ip: 0x7f00_0002, port: 5300 };
    assert!(matches!(d.dispatch_message(&mut cache, 0, elsewhere, query(7)), Outcome::Started(_)));
    assert!(d.abandon(SessionId::UdpId(peer, 7)));
    assert!(!d.abandon(SessionId::UdpId(peer, 7)));
    assert!(matches!(d.dispatch_message(&mut cache, 0, peer, query(7)), Outcome::Started(_)));
}

#[test]
fn dispatcher_drops_and_ignores() {
    let peer = PeerAddr { ip: 1, port: 53 };
    let mut cache = LocalCache::new();
    let mut d = Dispatcher::new();
    assert!(matches!(d.dispatch_message(&mut cache, 0, peer, vec![0x12]), Outcome::Dropped));
    let mut reply = query(9);
    reply[2] = 0x81;
    assert!(matches!(d.dispatch_message(&mut cache, 0, peer, reply), Outcome::Ignored));
    assert!(matches!(d.dispatch_message(&mut cache, 0, peer, vec![0, 9]), Outcome::Ignored));
    assert!(matches!(d.dispatch_message(&mut cache, 0, peer, vec![0, 9, 0x01]), Outcome::Started(_)));
    match d.dispatch_message(&mut cache, 0, peer, vec![0, 9, 0x01]) {
        Outcome::Refused(reply) => assert_eq!(RC_FORMAT_ERROR, reply[3] & 0x0f),
        other => panic!("unexpected {:?}", other),
    }
}

#[test]
fn dotted_names_to_labels() {
    let ascii = encode_dotted_name("github.com").unwrap();
    assert_eq!(vec![b"github".to_vec(), b"com".to_vec()], ascii);
    let refs = vec_ref(&ascii);
    assert_eq!(vec![&b"github"[..], &b"com"[..]], refs);
    assert_eq!(vec![Vec::<u8>::new()], encode_dotted_name("").unwrap());
    assert_eq!(b"xn--abc".to_vec(), ace_label("abc"));
    let mixed = encode_dotted_name("bücher.de").unwrap();
    assert_eq!(vec![b"xn--bcher-kva".to_vec(), b"de".to_vec()], mixed);
}
