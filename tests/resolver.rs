use bueller::cache_record::{CacheRecord, CacheResource};
use bueller::header::{Header, RC_OK};
use bueller::local_cache::LocalCache;
use bueller::question::{Question, QTYPE_A, QTYPE_MX};
use bueller::resource::Resource;
use bueller::session::{Action, Dispatcher, Outcome, PeerAddr, SessionId};

const CLIENT: PeerAddr = PeerAddr { ip: 0xffff_0a00_0001, port: 40000 };
const UPSTREAM: PeerAddr = PeerAddr { ip: 0xffff_0808_0808, port: 53 };

fn example_name() -> Vec<Vec<u8>> {
    vec![b"example".to_vec(), b"com".to_vec()]
}

fn query_for(id: u16, qtype: u16) -> Vec<u8> {
    let mut msg = vec![(id >> 8) as u8, id as u8, 0x01, 0x00, 0x00, 0x01, 0, 0, 0, 0, 0, 0];
    msg.push(7);
    msg.extend_from_slice(b"example");
    msg.push(3);
    msg.extend_from_slice(b"com");
    msg.push(0);
    msg.extend_from_slice(&[0, qtype as u8, 0, 1]);
    msg
}

fn started(outcome: Outcome) -> SessionId {
    match outcome {
        Outcome::Started(id) => id,
        other => panic!("unexpected {:?}", other),
    }
}

#[test]
fn cached_answer_is_replied() {
    let mut cache = LocalCache::new();
    let mut rec = CacheRecord::new(example_name());
    rec.add(CacheResource { rcode: QTYPE_A, data: Some(vec![93, 184, 216, 34]), absolute_ttl: 1300 });
    cache.update(rec);
    let mut d = Dispatcher::new();
    let id = started(d.dispatch_message(&mut cache, 1000, CLIENT, query_for(0x1234, QTYPE_A)));
    let reply = match d.advance(&cache, id, 1000) {
        Action::Reply(bytes) => bytes,
        other => panic!("unexpected {:?}", other),
    };
    let h = Header::at(&reply[..]);
    assert_eq!(Some(0x1234), h.id());
    assert_eq!(Some(true), h.qr());
    assert_eq!(Some(RC_OK), h.rc());
    assert_eq!(Some(1), h.an());
    assert_eq!(Some(false), h.tc());
    let answer = Resource::from_message(&reply, 12).unwrap();
    assert_eq!(Some(QTYPE_A), answer.rtype());
    assert_eq!(Some(1), answer.rclass());
    assert_eq!(Some(300), answer.ttl());
    assert_eq!(&[93u8, 184, 216, 34][..], answer.payload(&reply).unwrap());
    assert_eq!(reply.len(), answer.end_offset());
    assert!(matches!(d.advance(&cache, id, 1000), Action::Wait));
}

#[test]
fn miss_goes_upstream_and_resumes() {
    let mut cache = LocalCache::new();
    let mut d = Dispatcher::new();
    let id = started(d.dispatch_message(&mut cache, 50, CLIENT, query_for(0x0101, QTYPE_MX)));
    let (name, qtype, qclass) = match d.advance(&cache, id, 50) {
        Action::Recurse { name, qtype, qclass } => (name, qtype, qclass),
        other => panic!("unexpected {:?}", other),
    };
    assert_eq!(example_name(), name);
    assert_eq!(QTYPE_MX, qtype);
    assert_eq!(1, qclass);
    let upstream_query = d.begin_recursive_lookup(id, UPSTREAM, 0x7777, &name, qtype, qclass).unwrap();
    assert!(d.begin_recursive_lookup(id, UPSTREAM, 0x7777, &name, qtype, qclass).is_none());
    let h = Header::at(&upstream_query[..]);
    assert_eq!(Some(0x7777), h.id());
    assert!(h.is_query());
    assert_eq!(Some(true), h.rd());
    assert_eq!(Some(1), h.qd());
    let q = Question::from_message(&upstream_query, 12).unwrap();
    assert_eq!(Some(QTYPE_MX), q.qtype());
    assert_eq!(upstream_query.len(), q.end_offset());

    // The upstream reply: the question echoed, one MX answer.
    let mut reply = upstream_query.clone();
    reply[2] = 0x81;
    reply[7] = 1;
    reply.extend_from_slice(&[0xc0, 12, 0, 15, 0, 1, 0, 0, 0, 60, 0, 3, 0, 10, 0]);
    match d.dispatch_message(&mut cache, 50, UPSTREAM, reply) {
        Outcome::Resumed(cause) => assert_eq!(id, cause),
        other => panic!("unexpected {:?}", other),
    }
    let stored = cache.get(&example_name()).unwrap();
    assert_eq!(vec![(QTYPE_MX, 110u64)], stored.entries());
    let answer = match d.advance(&cache, id, 50) {
        Action::Reply(bytes) => bytes,
        other => panic!("unexpected {:?}", other),
    };
    assert_eq!(Some(1), Header::at(&answer[..]).an());
    let rr = Resource::from_message(&answer, 12).unwrap();
    assert_eq!(Some(QTYPE_MX), rr.rtype());
    assert_eq!(Some(60), rr.ttl());
    assert_eq!(&[0u8, 10, 0][..], rr.payload(&answer).unwrap());
}

#[test]
fn unanswered_lookup_is_not_repeated() {
    let mut cache = LocalCache::new();
    let mut d = Dispatcher::new();
    let id = started(d.dispatch_message(&mut cache, 5, CLIENT, query_for(9, QTYPE_A)));
    let (name, qtype, qclass) = match d.advance(&cache, id, 5) {
        Action::Recurse { name, qtype, qclass } => (name, qtype, qclass),
        other => panic!("unexpected {:?}", other),
    };
    let mut reply = d.begin_recursive_lookup(id, UPSTREAM, 1, &name, qtype, qclass).unwrap();
    reply[2] = 0x81;
    assert!(matches!(d.dispatch_message(&mut cache, 5, UPSTREAM, reply), Outcome::Resumed(_)));
    match d.advance(&cache, id, 5) {
        Action::Reply(bytes) => {
            assert_eq!(12, bytes.len());
            assert_eq!(Some(0), Header::at(&bytes[..]).an());
        },
        other => panic!("unexpected {:?}", other),
    }
}

#[test]
fn stray_upstream_reply_is_ignored() {
    let mut cache = LocalCache::new();
    let mut d = Dispatcher::new();
    let mut reply = query_for(3, QTYPE_A);
    reply[2] = 0x81;
    assert!(matches!(d.dispatch_message(&mut cache, 0, UPSTREAM, reply), Outcome::Ignored));
    assert!(cache.get(&example_name()).is_none());
}
