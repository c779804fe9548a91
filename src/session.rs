use crate::cache_record::{
    copy_bytes, lists_answers, name_view, Answer, CacheRecord, CacheResource, Name, Stored, Timestamp,
    TIME_MAX,
};
use crate::bits::{u16_at, u32_at, with_bits, with_u16};
use crate::resource::{
    footer_wire, u16_bytes, LENGTH_AT, SIZE as RESOURCE_SIZE, TTL_AT, TYPE_AT as RESOURCE_TYPE_AT,
};
use crate::response::announced;
use crate::domain_name::{
    inline_end, labels_at, labels_fit, lemma_name_round_trip, overwrite, lemma_parsed_name_well_formed, name_wire, slice_views, well_formed, without_root, DomainName,
};
use crate::header::{
    id_in, qr_in, query_byte, Header, HeaderMut, AN_AT, FLAGS_AT, RC_FORMAT_ERROR, RC_REFUSED, RD_MASK,
    SIZE, TC_MASK,
};
use crate::question::SIZE as QUESTION_SIZE;
use crate::question::{question_end, question_parses, CLASS_AT, TYPE_AT};
use crate::local_cache::{updated, CacheView, LocalCache};
use crate::message::MessageCursor;
use crate::question::{Question, QuestionMut};
use crate::record::{code_answers, Maybe, AXFR};
use crate::resource::Resource;
use crate::response::Response;
use crate::rfc4390::vec_ref;
use vstd::prelude::*;

verus! {

/// The address a datagram came from: an IPv6 address (IPv4 ones mapped into
/// it) and a port.
#[derive(Debug, Copy, Clone, PartialEq, Eq, Hash, Structural)]
pub struct PeerAddr {
    pub ip: u128,
    pub port: u16,
}

/// A session is known by where its query came from and the query's ID.
#[derive(Debug, Copy, Clone, PartialEq, Eq, Hash, Structural)]
pub enum SessionId {
    UdpId(PeerAddr, u16),
}

#[derive(Debug, Copy, Clone, PartialEq, Eq, Hash, Structural)]
pub enum SessionState {
    Invalid,
    /// Waiting for the local cache to answer, from this question on.
    AwaitLocalLookup { next_question: u16 },
    /// Waiting for remote servers to answer a question of this message.
    AwaitRecursiveLookup,
    /// Waiting for a remote server to answer, on behalf of another session.
    RunningRecursiveLookup { cause: SessionId },
}

/// One query in flight: its state, the request, the reply being built, and
/// the session it serves, when it runs a lookup for another.
pub struct Session {
    id: SessionId,
    state: SessionState,
    message: Option<Vec<u8>>,
    response: Option<Response>,
    in_service_of: Option<SessionId>,
    /// Answer records written into the reply so far.
    answered: u16,
    /// The question that a recursive lookup was run for.
    recursed: Option<u16>,
}

impl Session {
    /// The reply being built, if any, can take records at its cursor.
    pub closed spec fn wf(&self) -> bool {
        &&& (self.response matches Some(r) ==> r.wf() && r.cursor_spec().next() >= SIZE)
        &&& (self.state is AwaitLocalLookup || self.state is AwaitRecursiveLookup) ==> self.message
            is Some && self.response is Some
    }

    /// The request that the session answers; empty for a lookup it runs.
    pub closed spec fn request_spec(&self) -> Seq<u8> {
        match self.message {
            Some(m) => m@,
            None => Seq::empty(),
        }
    }

    /// The bytes of the reply being built.
    pub closed spec fn reply_bytes(&self) -> Seq<u8> {
        match self.response {
            Some(r) => r.bytes_spec(),
            None => Seq::empty(),
        }
    }

    /// Where the next answer record goes in the reply.
    pub closed spec fn reply_next(&self) -> int {
        match self.response {
            Some(r) => r.cursor_spec().next() as int,
            None => 0,
        }
    }

    /// The room that the reply was sized with.
    pub closed spec fn reply_capacity(&self) -> int {
        match self.response {
            Some(r) => r.cursor_spec().capacity() as int,
            None => 0,
        }
    }

    /// Answer records written into the reply so far.
    pub closed spec fn answered_spec(&self) -> nat {
        self.answered as nat
    }

    /// The question that a recursive lookup was run for, if any.
    pub closed spec fn recursed_spec(&self) -> Option<u16> {
        self.recursed
    }

    pub closed spec fn id_spec(&self) -> SessionId {
        self.id
    }

    pub closed spec fn state_spec(&self) -> SessionState {
        self.state
    }

    /// A session with nothing in it yet.
    pub fn new(id: SessionId) -> (r: Session)
        ensures
            r.id_spec() == id,
            r.state_spec() == SessionState::Invalid,
            r.wf(),
    {
        Session {
            id: id,
            state: SessionState::Invalid,
            message: None,
            response: None,
            in_service_of: None,
            answered: 0,
            recursed: None,
        }
    }

    /// The session for a query just received: it starts at its first
    /// question, with the reply begun.
    pub fn new_for_message(from: SessionId, message: Vec<u8>) -> (r: Session)
        ensures
            r.id_spec() == from,
            r.state_spec() == (SessionState::AwaitLocalLookup { next_question: 0 }),
            r.wf(),
    {
        let response = Response::for_message(&message);
        Session {
            id: from,
            state: SessionState::AwaitLocalLookup { next_question: 0 },
            message: Some(message),
            response: Some(response),
            in_service_of: None,
            answered: 0,
            recursed: None,
        }
    }

    pub fn id(&self) -> (r: SessionId)
        ensures
            r == self.id_spec(),
    {
        self.id
    }

    pub fn state(&self) -> (r: SessionState)
        ensures
            r == self.state_spec(),
    {
        self.state
    }

    /// The session that this one runs a recursive lookup for, if any.
    pub fn in_service_of(&self) -> (r: Option<SessionId>)
        ensures
            r == self.cause_spec(),
    {
        self.in_service_of
    }

    pub closed spec fn cause_spec(&self) -> Option<SessionId> {
        self.in_service_of
    }
}

/// What the server does with a datagram.
#[derive(Debug)]
pub enum Outcome {
    /// Nothing: the datagram cannot be answered coherently.
    Dropped,
    /// A session was started for the query.
    Started(SessionId),
    /// The query clashes with one in flight: send back this error reply.
    Refused(Vec<u8>),
    /// A reply that no session is waiting for; it is let go.
    Ignored,
    /// A recursive lookup came back: its answers are in the cache, and the
    /// session it served is to be advanced again.
    Resumed(SessionId),
}

/// What a session asks for after it was advanced.
#[derive(Debug)]
pub enum Action {
    /// Nothing to send now.
    Wait,
    /// Send this reply to the session's peer; the session is over.
    Reply(Vec<u8>),
    /// Ask another server for this question; the session waits for it.
    Recurse { name: Name, qtype: u16, qclass: u16 },
}

/// Whether the cache cannot tell what a query for `n` of type `qtype` asks:
/// the name is not stored, or none of its resources is of a type asked for.
pub open spec fn cache_unknown(v: CacheView, n: Seq<Seq<u8>>, qtype: u16) -> bool {
    qtype != AXFR && (!v.contains_key(n) || !(exists|k: u16| v[n].contains_key(k) && code_answers(k, qtype)))
}

/// The sessions by ID that a list of sessions gives.
pub open spec fn sessions_map(s: Seq<Session>) -> Map<SessionId, SessionState>
    decreases s.len(),
{
    if s.len() == 0 {
        Map::empty()
    } else {
        sessions_map(s.drop_last()).insert(s.last().id_spec(), s.last().state_spec())
    }
}

pub open spec fn distinct_ids(s: Seq<Session>) -> bool {
    forall|i: int, j: int| 0 <= i < j < s.len() ==> s[i].id_spec() != s[j].id_spec()
}

/// The sessions in flight, and the decisions taken on each datagram.
pub struct Dispatcher {
    sessions: Vec<Session>,
}

impl Dispatcher {
    pub closed spec fn wf(&self) -> bool {
        &&& distinct_ids(self.sessions@)
        &&& forall|i: int| 0 <= i < self.sessions@.len() ==> #[trigger] self.sessions@[i].wf()
    }

    /// The state of each session in flight, by ID.
    pub closed spec fn view(&self) -> Map<SessionId, SessionState> {
        sessions_map(self.sessions@)
    }

    /// The session in flight with ID `id`.
    pub closed spec fn session_of(&self, id: SessionId) -> Session {
        self.sessions@[choose|i: int| 0 <= i < self.sessions@.len() && self.sessions@[i].id_spec() == id]
    }

    pub fn new() -> (r: Dispatcher)
        ensures
            r.wf(),
            r.view() == Map::<SessionId, SessionState>::empty(),
    {
        Dispatcher { sessions: Vec::new() }
    }

    fn find(&self, id: SessionId) -> (r: Option<usize>)
        requires
            self.wf(),
        ensures
            match r {
                Some(i) => i < self.sessions@.len() && self.sessions@[i as int].id_spec() == id
                    && self.view().contains_key(id),
                None => !self.view().contains_key(id),
            },
    {
        proof {
            lemma_sessions_map(self.sessions@);
        }
        let mut i: usize = 0;
        while i < self.sessions.len()
            invariant
                i <= self.sessions@.len(),
                distinct_ids(self.sessions@),
                forall|k: int| 0 <= k < i ==> self.sessions@[k].id_spec() != id,
            decreases self.sessions.len() - i,
        {
            let here = self.sessions[i].id();
            if here == id {
                proof {
                    assert(self.sessions@[i as int].id_spec() == id);
                    lemma_sessions_map(self.sessions@);
                    assert(sessions_map(self.sessions@).contains_key(self.sessions@[i as int].id_spec()));
                }
                return Some(i);
            }
            i = i + 1;
        }
        None
    }

    /// Decides what to do with a datagram from `from`. One whose ID cannot
    /// be read is dropped. A query starts a session, unless a session with
    /// the same peer and ID is in flight: then it is answered with an error
    /// reply (RCODE REFUSED, or FORMAT_ERROR when the query is shorter than a
    /// header) and the session in flight stays as it was. Anything else is a
    /// reply from another server: one that answers a recursive lookup in
    /// flight has its answers merged into `cache` (expiring relative to
    /// `now`) and resumes the session that waited for it.
    pub fn dispatch_message(
        &mut self,
        cache: &mut LocalCache,
        now: Timestamp,
        from: PeerAddr,
        message: Vec<u8>,
    ) -> (r: Outcome)
        requires
            old(self).wf(),
            old(cache).wf(),
        ensures
            final(self).wf(),
            final(cache).wf(),
            match id_in(message@, 0) {
                None => r is Dropped && final(self).view() == old(self).view() && final(cache).view() == old(cache).view(),
                Some(qid) => {
                    let sid = SessionId::UdpId(from, qid);
                    if qr_in(message@, 0) == Some(false) {
                        if old(self).view().contains_key(sid) {
                            &&& r matches Outcome::Refused(reply)
                            &&& reply@.len() >= SIZE
                            &&& reply@[0] == message@[0] && reply@[1] == message@[1]
                            &&& reply@[3] == (if message@.len() >= SIZE {
                                RC_REFUSED
                            } else {
                                RC_FORMAT_ERROR
                            })
                            &&& final(self).view() == old(self).view()
                        } else {
                            &&& r == Outcome::Started(sid)
                            &&& final(self).view() == old(self).view().insert(
                                sid,
                                SessionState::AwaitLocalLookup { next_question: 0 },
                            )
                        }
                    } else {
                        replied(old(self).view(), final(self).view(), sid, r)
                    }
                },
            },
            qr_in(message@, 0) == Some(false) ==> final(cache).view() == old(cache).view(),
    {
        let header = Header::at(&message);
        let qid = match header.id() {
            Some(qid) => qid,
            None => {
                return Outcome::Dropped;
            },
        };
        let id = SessionId::UdpId(from, qid);
        if header.is_query() {
            self.new_session_or_error(id, message)
        } else {
            self.update_session_or_drop(cache, now, id, message)
        }
    }

    fn new_session_or_error(&mut self, from: SessionId, message: Vec<u8>) -> (r: Outcome)
        requires
            old(self).wf(),
        ensures
            final(self).wf(),
            old(self).view().contains_key(from) ==> {
                &&& r matches Outcome::Refused(reply)
                &&& reply@.len() >= SIZE
                &&& reply@[0] == (if message@.len() >= 2 { message@[0] } else { 0 })
                &&& reply@[1] == (if message@.len() >= 2 { message@[1] } else { 0 })
                &&& reply@[3] == (if message@.len() >= SIZE { RC_REFUSED } else { RC_FORMAT_ERROR })
                &&& final(self).view() == old(self).view()
            },
            !old(self).view().contains_key(from) ==> {
                &&& r == Outcome::Started(from)
                &&& final(self).view() == old(self).view().insert(
                    from,
                    SessionState::AwaitLocalLookup { next_question: 0 },
                )
            },
    {
        match self.find(from) {
            Some(_) => {
                // A second query with an ID in flight: refuse it rather than
                // replace the session.
                self.send_client_error_reply(from, message)
            },
            None => {
                let session = Session::new_for_message(from, message);
                let ghost s0 = self.sessions@;
                self.sessions.push(session);
                proof {
                    let s1 = self.sessions@;
                    lemma_sessions_map(s0);
                    assert forall|a: int, b: int| 0 <= a < b < s1.len() implies s1[a].id_spec()
                        != s1[b].id_spec() by {
                        if b < s0.len() {
                            assert(s1[a] == s0[a] && s1[b] == s0[b]);
                        } else {
                            assert(s1[a] == s0[a]);
                            assert(sessions_map(s0).contains_key(s0[a].id_spec()));
                        }
                    }
                    assert(s1.drop_last() =~= s0);
                }
                Outcome::Started(from)
            },
        }
    }

    /// A reply from another server. When it answers a recursive lookup in
    /// flight, its answers are merged into the cache, the lookup's session
    /// ends, and the session it served goes back to the local cache from the
    /// question it was waiting on. Any other reply is let go.
    fn update_session_or_drop(
        &mut self,
        cache: &mut LocalCache,
        now: Timestamp,
        from: SessionId,
        message: Vec<u8>,
    ) -> (r: Outcome)
        requires
            old(self).wf(),
            old(cache).wf(),
        ensures
            final(self).wf(),
            final(cache).wf(),
            replied(old(self).view(), final(self).view(), from, r),
    {
        let k = match self.find(from) {
            Some(k) => k,
            None => {
                return Outcome::Ignored;
            },
        };
        let ghost s0 = self.sessions@;
        proof {
            lemma_sessions_map(s0);
            assert(sessions_map(s0)[from] == s0[k as int].state_spec());
        }
        let cause = match self.sessions[k].state {
            SessionState::RunningRecursiveLookup { cause } => cause,
            _ => {
                return Outcome::Ignored;
            },
        };
        merge_answers(cache, &message, now);
        self.sessions.remove(k);
        proof {
            lemma_session_removed(s0, k as int);
            assert forall|i: int| 0 <= i < self.sessions@.len() implies #[trigger] self.sessions@[i].wf() by {
                if i < k {
                    assert(self.sessions@[i] == s0[i]);
                } else {
                    assert(self.sessions@[i] == s0[i + 1]);
                }
            }
        }
        let ghost s1 = self.sessions@;
        match self.find(cause) {
            Some(c) => {
                proof {
                    lemma_sessions_map(s1);
                    assert(sessions_map(s1)[cause] == s1[c as int].state_spec());
                }
                match self.sessions[c].state {
                    SessionState::AwaitRecursiveLookup => {
                        let resume = match self.sessions[c].recursed {
                            Some(q) => q,
                            None => 0,
                        };
                        let ghost v1 = self.view();
                        self.set_state(c, SessionState::AwaitLocalLookup { next_question: resume });
                        proof {
                            assert(self.view().remove(cause) =~= v1.remove(cause));
                        }
                        Outcome::Resumed(cause)
                    },
                    _ => Outcome::Ignored,
                }
            },
            None => Outcome::Ignored,
        }
    }

    fn set_state(&mut self, k: usize, state: SessionState)
        requires
            old(self).wf(),
            k < old(self).sessions@.len(),
            state is AwaitLocalLookup || state is AwaitRecursiveLookup ==> old(self).sessions@[k as int].state_spec() is AwaitLocalLookup
                || old(self).sessions@[k as int].state_spec() is AwaitRecursiveLookup,
        ensures
            final(self).wf(),
            final(self).view() == old(self).view().insert(old(self).sessions@[k as int].id_spec(), state),
    {
        let ghost s0 = self.sessions@;
        proof {
            assert(s0[k as int].wf());
        }
        let mut sess = self.sessions.remove(k);
        sess.state = state;
        self.sessions.insert(k, sess);
        proof {
            lemma_session_replaced(s0, self.sessions@, k as int);
            assert forall|i: int| 0 <= i < self.sessions@.len() implies #[trigger] self.sessions@[i].wf() by {
                if i != k {
                    assert(self.sessions@[i] == s0[i]);
                }
            }
        }
    }

    /// Starts a recursive lookup of `name` for the session `cause`: a new
    /// session, known by the upstream server's address and `query_id`, waits
    /// for the answer, and the result is the query to send upstream (ID
    /// `query_id`, RD set, one question). `None` when a session with that ID
    /// is in flight already, or the query does not fit in 512 bytes.
    pub fn begin_recursive_lookup(
        &mut self,
        cause: SessionId,
        upstream: PeerAddr,
        query_id: u16,
        name: &Name,
        qtype: u16,
        qclass: u16,
    ) -> (r: Option<Vec<u8>>)
        requires
            old(self).wf(),
        ensures
            final(self).wf(),
            old(self).view().contains_key(SessionId::UdpId(upstream, query_id)) ==> r is None,
            r is None ==> final(self).view() == old(self).view(),
            !old(self).view().contains_key(SessionId::UdpId(upstream, query_id)) && well_formed(
                name_view(name),
            ) && SIZE + name_wire(name_view(name)).len() + QUESTION_SIZE <= MAX_QUERY ==> r is Some,
            r matches Some(q) ==> {
                &&& final(self).view() == old(self).view().insert(
                    SessionId::UdpId(upstream, query_id),
                    SessionState::RunningRecursiveLookup { cause: cause },
                )
                &&& q@.len() >= SIZE
                &&& q@[0] == (query_id / 0x100) as u8
                &&& q@[1] == (query_id % 0x100) as u8
                &&& q@[2] == RD_MASK
                &&& q@[4] == 0 && q@[5] == 1
                &&& q@.len() == SIZE + name_wire(name_view(name)).len() + QUESTION_SIZE
                &&& q@.subrange(SIZE as int, SIZE + name_wire(name_view(name)).len())
                    == name_wire(name_view(name))
                &&& q@.subrange(SIZE + name_wire(name_view(name)).len(), q@.len() as int)
                    == u16_bytes(qtype) + u16_bytes(qclass)
            },
    {
        let sid = SessionId::UdpId(upstream, query_id);
        match self.find(sid) {
            Some(_) => {
                return None;
            },
            None => {},
        }
        let mut buf: Vec<u8> = Vec::new();
        let mut i: usize = 0;
        while i < MAX_QUERY
            invariant
                i <= MAX_QUERY,
                buf@.len() == i,
            decreases MAX_QUERY - i,
        {
            buf.push(0);
            i = i + 1;
        }
        let mut idx = MessageCursor::new(MAX_QUERY);
        let h = match HeaderMut::at(&mut idx) {
            Some(h) => h,
            None => {
                return None;
            },
        };
        let ghost b0 = buf@;
        h.make_query(&mut buf, query_id);
        let ghost b1 = buf@;
        h.set_qd(&mut buf, 1);
        let ghost b2 = buf@;
        let refs = vec_ref(name);
        proof {
            assert(b1[0] == query_byte(b0, 0, query_id, 0));
            assert(b1[1] == query_byte(b0, 0, query_id, 1));
            assert(b1[2] == query_byte(b0, 0, query_id, 2));
            assert(b2[0] == b1[0] && b2[1] == b1[1] && b2[2] == b1[2]);
            if well_formed(name_view(name)) && SIZE + name_wire(name_view(name)).len() + QUESTION_SIZE
                <= MAX_QUERY {
                lemma_name_round_trip(name_view(name), b2, SIZE as int);
                let wire = name_wire(name_view(name));
                assert forall|j: int| 0 <= j < without_root(name_view(name)).len() implies #[trigger] without_root(name_view(name))[j].len() <= 63 by {
                }
            }
        }
        match QuestionMut::at(&mut idx, buf.as_mut_slice(), refs.as_slice(), qtype, qclass) {
            Some(_) => {},
            None => {
                return None;
            },
        }
        let ghost b3 = buf@;
        let end = idx.tell();
        buf.truncate(end);
        proof {
            let wire = name_wire(name_view(name));
            let w = SIZE + wire.len();
            assert(slice_views(refs@) == name_view(name));
            assert(b3 == with_u16(with_u16(overwrite(b2, SIZE as int, wire), w, qtype), w + 2, qclass));
            assert(b2[4] == 0 && b2[5] == 1);
            assert(buf@[4] == b3[4] && buf@[5] == b3[5]);
            assert(buf@.subrange(SIZE as int, w) =~= wire);
            assert(buf@.subrange(w, buf@.len() as int) =~= u16_bytes(qtype) + u16_bytes(qclass));
        }
        let ghost s0 = self.sessions@;
        self.sessions.push(
            Session {
                id: sid,
                state: SessionState::RunningRecursiveLookup { cause: cause },
                message: None,
                response: None,
                in_service_of: Some(cause),
                answered: 0,
                recursed: None,
            },
        );
        proof {
            let s1 = self.sessions@;
            lemma_sessions_map(s0);
            assert forall|a: int, b: int| 0 <= a < b < s1.len() implies s1[a].id_spec()
                != s1[b].id_spec() by {
                if b < s0.len() {
                    assert(s1[a] == s0[a] && s1[b] == s0[b]);
                } else {
                    assert(s1[a] == s0[a]);
                    assert(sessions_map(s0).contains_key(s0[a].id_spec()));
                }
            }
            assert forall|a: int| 0 <= a < s1.len() implies #[trigger] s1[a].wf() by {
                if a < s0.len() {
                    assert(s1[a] == s0[a]);
                }
            }
            assert(s1.drop_last() =~= s0);
        }
        Some(buf)
    }

    /// The error reply to a query that clashes with a session in flight.
    fn send_client_error_reply(&self, from: SessionId, message: Vec<u8>) -> (r: Outcome)
        ensures
            r matches Outcome::Refused(reply) && reply@.len() >= SIZE && reply@[0] == (if message@.len()
                >= 2 {
                message@[0]
            } else {
                0
            }) && reply@[1] == (if message@.len() >= 2 {
                message@[1]
            } else {
                0
            }) && reply@[3] == (if message@.len() >= SIZE {
                RC_REFUSED
            } else {
                RC_FORMAT_ERROR
            }),
    {
        let mut reply = Response::for_message(&message);
        if message.len() >= SIZE {
            reply.set_rcode(RC_REFUSED);
            proof {
                crate::header::lemma_header_masks(0, RC_REFUSED);
                assert(((0u8 & 0xf0) | (5u8 & 0xf)) == 5u8) by (bit_vector);
            }
        }
        Outcome::Refused(reply.into_bytes())
    }

    /// Advances the session `id` while it waits on the local cache. From its
    /// next question on, each question's answers are taken from the cache and
    /// written into the reply (`walk` says exactly what is written). A
    /// question that the cache cannot tell about, and that no recursive
    /// lookup has been run for yet, stops the walk: the session then waits
    /// for that lookup, which the result asks for. Otherwise the reply is
    /// handed out, with ANCOUNT set and TC set if the answers did not all
    /// fit, and the session ends.
    pub fn advance(&mut self, cache: &LocalCache, id: SessionId, now: Timestamp) -> (r: Action)
        requires
            old(self).wf(),
            cache.wf(),
        ensures
            final(self).wf(),
            !(old(self).view().contains_key(id) && old(self).view()[id] is AwaitLocalLookup) ==> r is Wait
                && final(self).view() == old(self).view(),
            old(self).view().contains_key(id) && old(self).view()[id] is AwaitLocalLookup ==> ({
                let s = old(self).session_of(id);
                let m = s.request_spec();
                exists|e: WalkEnd|
                    #[trigger] walk(
                        m,
                        SIZE as int,
                        0,
                        announced(m),
                        old(self).view()[id]->next_question as nat,
                        s.recursed_spec(),
                        cache.view(),
                        now,
                        s.reply_capacity(),
                        s.reply_next(),
                        Seq::empty(),
                        s.answered_spec(),
                        e,
                    ) && match e {
                        WalkEnd::Asks { name, qtype, qclass } => {
                            &&& r matches Action::Recurse { name: n, qtype: t, qclass: c }
                            &&& name_view(&n) == name && t == qtype && c == qclass
                            &&& final(self).view() == old(self).view().insert(
                                id,
                                SessionState::AwaitRecursiveLookup,
                            )
                        },
                        WalkEnd::Done { written, count, truncated } => {
                            &&& r matches Action::Reply(b)
                            &&& b@ == finalize(
                                s.reply_bytes().take(s.reply_next()) + written,
                                count,
                                truncated,
                            )
                            &&& final(self).view() == old(self).view().remove(id)
                        },
                    }
            }),
    {
        let k = match self.find(id) {
            Some(k) => k,
            None => {
                return Action::Wait;
            },
        };
        let next_question = match self.sessions[k].state {
            SessionState::AwaitLocalLookup { next_question } => next_question,
            _ => {
                proof {
                    lemma_sessions_map(self.sessions@);
                    assert(sessions_map(self.sessions@).contains_key(self.sessions@[k as int].id_spec()));
                }
                return Action::Wait;
            },
        };
        let ghost s0 = self.sessions@;
        proof {
            lemma_sessions_map(s0);
            assert(sessions_map(s0).contains_key(s0[k as int].id_spec()));
            assert(sessions_map(s0)[id] == s0[k as int].state_spec());
            assert(s0[k as int].wf());
            let j = choose|i: int| 0 <= i < s0.len() && s0[i].id_spec() == id;
            assert(j == k);
        }
        let ghost sess0 = s0[k as int];
        let sess = self.sessions.remove(k);
        proof {
            lemma_session_removed(s0, k as int);
            assert forall|i: int| 0 <= i < self.sessions@.len() implies #[trigger] self.sessions@[i].wf() by {
                if i < k {
                    assert(self.sessions@[i] == s0[i]);
                } else {
                    assert(self.sessions@[i] == s0[i + 1]);
                }
            }
        }
        let Session { id: sid, state: _, message, response, in_service_of, answered, recursed } = sess;
        let (message, mut response) = match (message, response) {
            (Some(m), Some(r)) => (m, r),
            _ => {
                proof {
                    assert(false);
                }
                return Action::Wait;
            },
        };
        let ghost m = message@;
        let ghost v = cache.view();
        let ghost cap = response.cursor_spec().capacity() as int;
        let ghost used0 = response.cursor_spec().next() as int;
        let ghost prefix0 = response.bytes_spec().take(used0);
        proof {
            let j = choose|i: int| 0 <= i < s0.len() && s0[i].id_spec() == id;
            assert(j == k);
            assert(old(self).session_of(id) == sess0);
            assert(sess0.request_spec() == m);
            assert(sess0.reply_bytes() == response.bytes_spec());
        }
        let qd = match Header::at(&message).qd() {
            Some(n) => n,
            None => 0,
        };
        let mut count = answered;
        let mut truncated = false;
        let mut offset: usize = SIZE;
        let mut q: u16 = 0;
        let ghost mut acc: Seq<u8> = Seq::empty();
        loop
            invariant_except_break
                !truncated,
                forall|e: WalkEnd|
                    #[trigger] walk(
                        m,
                        offset as int,
                        q as nat,
                        qd as nat,
                        next_question as nat,
                        recursed,
                        v,
                        now,
                        cap,
                        used0 + acc.len(),
                        acc,
                        count as nat,
                        e,
                    ) ==> walk(
                        m,
                        SIZE as int,
                        0,
                        qd as nat,
                        next_question as nat,
                        recursed,
                        v,
                        now,
                        cap,
                        used0,
                        Seq::empty(),
                        answered as nat,
                        e,
                    ),
            invariant
                response.wf(),
                response.cursor_spec().next() >= SIZE,
                cache.wf(),
                v == cache.view(),
                m == message@,
                qd as nat == announced(m),
                q <= qd,
                cap == response.cursor_spec().capacity(),
                response.cursor_spec().next() == used0 + acc.len(),
                response.bytes_spec().take(used0 + acc.len()) == prefix0 + acc,
                self.sessions@ == s0.remove(k as int),
                k < s0.len(),
                distinct_ids(s0),
                s0[k as int].id_spec() == sid,
                sid == id,
                forall|i: int| 0 <= i < s0.len() ==> #[trigger] s0[i].wf(),
                s0 == old(self).sessions@,
                sessions_map(s0).contains_key(id),
                sessions_map(s0)[id] is AwaitLocalLookup,
                sessions_map(s0.remove(k as int)) == sessions_map(s0).remove(id),
                old(self).session_of(id) == sess0,
                sess0.request_spec() == m,
                sess0.recursed_spec() == recursed,
                sess0.reply_capacity() == cap,
                sess0.reply_next() == used0,
                sess0.answered_spec() == answered as nat,
                prefix0 == sess0.reply_bytes().take(used0),
                old(self).view()[id] == (SessionState::AwaitLocalLookup { next_question: next_question }),
            ensures
                walk(
                    m,
                    SIZE as int,
                    0,
                    qd as nat,
                    next_question as nat,
                    recursed,
                    v,
                    now,
                    cap,
                    used0,
                    Seq::empty(),
                    answered as nat,
                    WalkEnd::Done { written: acc, count: count as nat, truncated: truncated },
                ),
            decreases qd - q,
        {
            if q >= qd {
                proof {
                    assert(walk(
                        m,
                        offset as int,
                        q as nat,
                        qd as nat,
                        next_question as nat,
                        recursed,
                        v,
                        now,
                        cap,
                        used0 + acc.len(),
                        acc,
                        count as nat,
                        WalkEnd::Done { written: acc, count: count as nat, truncated: false },
                    ));
                }
                break ;
            }
            let ghost cur_acc = acc;
            let ghost cur_count = count as nat;
            let ghost cur_offset = offset as int;
            let question = match Question::from_message(message.as_slice(), offset) {
                Some(question) => question,
                None => {
                    proof {
                        assert(walk(
                        m,
                        offset as int,
                        q as nat,
                        qd as nat,
                        next_question as nat,
                        recursed,
                        v,
                        now,
                        cap,
                        used0 + acc.len(),
                        acc,
                        count as nat,
                        WalkEnd::Done { written: acc, count: count as nat, truncated: false },
                    ));
                    }
                    break ;
                },
            };
            let ghost next_offset = question_end(m, cur_offset);
            if q >= next_question {
                let dn = question.name().unwrap();
                proof {
                    lemma_parsed_name_well_formed(m, cur_offset);
                }
                let name = match name_of(message.as_slice(), dn) {
                    Some(name) => name,
                    None => {
                        proof {
                            assert(false);
                        }
                        break ;
                    },
                };
                let ghost labels = name_view(&name);
                proof {
                    assert(labels_at(m, cur_offset).unwrap().drop_last() =~= labels);
                }
                let qtype = match question.qtype() {
                    Some(t) => t,
                    None => {
                        proof {
                            assert(false);
                        }
                        break ;
                    },
                };
                let qclass = match question.qclass() {
                    Some(c) => c,
                    None => {
                        proof {
                            assert(false);
                        }
                        break ;
                    },
                };
                proof {
                    assert(question_parses(m, cur_offset));
                    assert(question_name(m, cur_offset) == labels);
                    assert(question_type(m, cur_offset) == qtype);
                    assert(question_class(m, cur_offset) == qclass);
                }
                match cache.lookup(&name, qtype) {
                    Maybe::Have(answers) => {
                        let refs = vec_ref(&name);
                        let ghost used_q = used0 + cur_acc.len();
                        let ghost whole = write_records(
                            labels,
                            qclass,
                            now,
                            answers@,
                            used_q,
                            cap,
                            cur_count,
                        );
                        let ghost mut wq: Seq<u8> = Seq::empty();
                        proof {
                            assert(answers@.skip(0) =~= answers@);
                            assert(wq + whole.0 =~= whole.0);
                            assert(prefix0 + cur_acc + wq =~= prefix0 + cur_acc);
                        }
                        let mut a: usize = 0;
                        while a < answers.len()
                            invariant_except_break
                                !truncated,
                            invariant
                                a <= answers@.len(),
                                response.wf(),
                                response.cursor_spec().next() >= SIZE,
                                cap == response.cursor_spec().capacity(),
                                slice_views(refs@) == labels,
                                well_formed(labels),
                                ({
                                    let rest = write_records(
                                        labels,
                                        qclass,
                                        now,
                                        answers@.skip(a as int),
                                        used_q + wq.len(),
                                        cap,
                                        count as nat,
                                    );
                                    &&& whole.0 == wq + rest.0
                                    &&& whole.1 == rest.1
                                    &&& whole.2 == rest.2
                                }),
                                response.cursor_spec().next() == used_q + wq.len(),
                                response.bytes_spec().take(used_q + wq.len()) == prefix0 + cur_acc
                                    + wq,
                                used_q == used0 + cur_acc.len(),
                            ensures
                                truncated ==> whole == (wq, count as nat, true),
                                !truncated ==> whole == (wq, count as nat, false),
                                response.wf(),
                                response.cursor_spec().next() >= SIZE,
                                cap == response.cursor_spec().capacity(),
                                response.cursor_spec().next() == used_q + wq.len(),
                                response.bytes_spec().take(used_q + wq.len()) == prefix0 + cur_acc
                                    + wq,
                            decreases answers.len() - a,
                        {
                            let ans = &answers[a];
                            proof {
                                assert(answers@.skip(a as int)[0] == answers@[a as int]);
                                assert(answers@.skip(a as int).drop_first() =~= answers@.skip(a + 1));
                            }
                            if count == 0xffff {
                                truncated = true;
                                break ;
                            }
                            let ttl = remaining_ttl(ans.absolute_ttl, now);
                            let empty: Vec<u8> = Vec::new();
                            let rdata: &[u8] = match &ans.data {
                                Some(d) => d.as_slice(),
                                None => empty.as_slice(),
                            };
                            let ghost b_before = response.bytes_spec();
                            let ghost at = response.cursor_spec().next() as int;
                            proof {
                                assert(rdata@ == rdata_of(*ans));
                                let wire = name_wire(labels);
                                if at + wire.len() <= b_before.len() {
                                    lemma_name_round_trip(labels, b_before, at);
                                }
                                assert(labels_fit(labels));
                            }
                            let written = response.append_answer(
                                refs.as_slice(),
                                ans.rtype,
                                qclass,
                                ttl,
                                rdata,
                            );
                            if !written {
                                truncated = true;
                                break ;
                            }
                            proof {
                                let rw = record_wire(labels, *ans, qclass, now);
                                assert(prefix0 + cur_acc + wq + rw =~= prefix0 + cur_acc + (wq + rw));
                                assert(wq + rw + write_records(
                                    labels,
                                    qclass,
                                    now,
                                    answers@.skip(a + 1),
                                    used_q + wq.len() + rw.len(),
                                    cap,
                                    (count + 1) as nat,
                                ).0 =~= wq + (rw + write_records(
                                    labels,
                                    qclass,
                                    now,
                                    answers@.skip(a + 1),
                                    used_q + wq.len() + rw.len(),
                                    cap,
                                    (count + 1) as nat,
                                ).0));
                                wq = wq + rw;
                            }
                            count = count + 1;
                            a = a + 1;
                        }
                        proof {
                            if !truncated {
                                assert(answers@.skip(a as int) =~= Seq::<Answer>::empty());
                            }
                            assert(lists_answers(v[labels], qtype, answers@));
                            assert(prefix0 + cur_acc + wq =~= prefix0 + (cur_acc + wq));
                            acc = cur_acc + wq;
                        }
                        if truncated {
                            proof {
                                let e = WalkEnd::Done { written: acc, count: count as nat, truncated: true };
                                assert(walk(
                                    m,
                                    cur_offset,
                                    q as nat,
                                    qd as nat,
                                    next_question as nat,
                                    recursed,
                                    v,
                                    now,
                                    cap,
                                    used0 + cur_acc.len(),
                                    cur_acc,
                                    cur_count,
                                    e,
                                ));
                                assert(walk(
                                    m,
                                    SIZE as int,
                                    0,
                                    qd as nat,
                                    next_question as nat,
                                    recursed,
                                    v,
                                    now,
                                    cap,
                                    used0,
                                    Seq::empty(),
                                    answered as nat,
                                    e,
                                ));
                            }
                            break ;
                        }
                    },
                    Maybe::Unknown => {
                        if recursed != Some(q) {
                            let back = Session {
                                id: sid,
                                state: SessionState::AwaitRecursiveLookup,
                                message: Some(message),
                                response: Some(response),
                                in_service_of: in_service_of,
                                answered: count,
                                recursed: Some(q),
                            };
                            self.sessions.insert(k, back);
                            proof {
                                lemma_session_replaced(s0, self.sessions@, k as int);
                                assert forall|i: int| 0 <= i < self.sessions@.len() implies #[trigger] self.sessions@[i].wf() by {
                                    if i != k {
                                        assert(self.sessions@[i] == s0[i]);
                                    }
                                }
                                let e = WalkEnd::Asks { name: labels, qtype: qtype, qclass: qclass };
                                assert(walk(
                                    m,
                                    cur_offset,
                                    q as nat,
                                    qd as nat,
                                    next_question as nat,
                                    recursed,
                                    v,
                                    now,
                                    cap,
                                    used0 + cur_acc.len(),
                                    cur_acc,
                                    cur_count,
                                    e,
                                ));
                                assert(walk(
                                    m,
                                    SIZE as int,
                                    0,
                                    qd as nat,
                                    next_question as nat,
                                    recursed,
                                    v,
                                    now,
                                    cap,
                                    used0,
                                    Seq::empty(),
                                    answered as nat,
                                    e,
                                ));
                            }
                            proof {
                                let e = WalkEnd::Asks { name: labels, qtype: qtype, qclass: qclass };
                                let so = old(self).session_of(id);
                                assert(so.request_spec() == m);
                                assert(old(self).view()[id]->next_question == next_question);
                                assert(walk(
                                    so.request_spec(),
                                    SIZE as int,
                                    0,
                                    announced(so.request_spec()),
                                    old(self).view()[id]->next_question as nat,
                                    so.recursed_spec(),
                                    cache.view(),
                                    now,
                                    so.reply_capacity(),
                                    so.reply_next(),
                                    Seq::empty(),
                                    so.answered_spec(),
                                    e,
                                ));
                                assert(self.view() == old(self).view().insert(id, SessionState::AwaitRecursiveLookup));
                            }
                            return Action::Recurse { name: name, qtype: qtype, qclass: qclass };
                        }
                    },
                    Maybe::NoneSuch => {},
                }
            }
            offset = question.end_offset();
            q = q + 1;
            proof {
                assert forall|e: WalkEnd|
                    #[trigger] walk(
                        m,
                        offset as int,
                        q as nat,
                        qd as nat,
                        next_question as nat,
                        recursed,
                        v,
                        now,
                        cap,
                        used0 + acc.len(),
                        acc,
                        count as nat,
                        e,
                    ) implies walk(
                    m,
                    SIZE as int,
                    0,
                    qd as nat,
                    next_question as nat,
                    recursed,
                    v,
                    now,
                    cap,
                    used0,
                    Seq::empty(),
                    answered as nat,
                    e,
                ) by {
                    assert(walk(
                        m,
                        cur_offset,
                        (q - 1) as nat,
                        qd as nat,
                        next_question as nat,
                        recursed,
                        v,
                        now,
                        cap,
                        used0 + cur_acc.len(),
                        cur_acc,
                        cur_count,
                        e,
                    ));
                }
            }
        }
        let ghost before = response.bytes_spec();
        if truncated {
            response.set_truncated();
        }
        response.set_answer_count(count);
        let bytes = response.finish();
        proof {
            lemma_finalize_take(before, used0 + acc.len(), count as nat, truncated);
            assert(prefix0 =~= sess0.reply_bytes().take(sess0.reply_next()));
        }
        Action::Reply(bytes)
    }

    /// Ends the session `id`, if it is in flight; the others stay.
    pub fn abandon(&mut self, id: SessionId) -> (r: bool)
        requires
            old(self).wf(),
        ensures
            final(self).wf(),
            r == old(self).view().contains_key(id),
            final(self).view() == old(self).view().remove(id),
    {
        match self.find(id) {
            Some(i) => {
                let ghost s0 = self.sessions@;
                self.sessions.remove(i);
                proof {
                    lemma_session_removed(s0, i as int);
                }
                true
            },
            None => {
                proof {
                    assert(sessions_map(self.sessions@).remove(id) =~= sessions_map(self.sessions@));
                }
                false
            },
        }
    }
}

/// Largest recursive query built, the classic UDP limit.
pub const MAX_QUERY: usize = 512;

/// Whether `r` and the sessions `after` are what a reply for the session
/// `sid` leads to, from the sessions `before`: a reply that answers a
/// recursive lookup in flight ends that lookup, and when the session it
/// served waits for it, that session waits on the local cache again and is
/// named by the result; any other reply changes nothing.
pub open spec fn replied(
    before: Map<SessionId, SessionState>,
    after: Map<SessionId, SessionState>,
    sid: SessionId,
    r: Outcome,
) -> bool {
    if before.contains_key(sid) && before[sid] is RunningRecursiveLookup {
        let cause = before[sid]->cause;
        let rest = before.remove(sid);
        if rest.contains_key(cause) && rest[cause] is AwaitRecursiveLookup {
            &&& r == Outcome::Resumed(cause)
            &&& after.contains_key(cause)
            &&& after[cause] is AwaitLocalLookup
            &&& after.remove(cause) == rest.remove(cause)
        } else {
            r is Ignored && after == rest
        }
    } else {
        r is Ignored && after == before
    }
}

/// Offset just past the questions from number `q` to `qd` that start at
/// `offset`, or `None` when one of them does not parse.
pub open spec fn skip_questions(m: Seq<u8>, offset: int, q: nat, qd: nat) -> Option<int>
    decreases qd - q,
{
    if q >= qd {
        Some(offset)
    } else if !question_parses(m, offset) {
        None
    } else {
        skip_questions(m, question_end(m, offset), q + 1, qd)
    }
}

/// Whether a resource record parses at `at`: a name, then a whole footer.
pub open spec fn record_parses(m: Seq<u8>, at: int) -> bool {
    labels_at(m, at) is Some && 0 <= inline_end(m, at) && inline_end(m, at) + RESOURCE_SIZE <= m.len()
}

/// The resource that the record at `at` stores: its type code, expiring its
/// TTL after `now` (held to the clock's maximum), with its RDATA when the
/// message holds all of it.
pub open spec fn record_stored(m: Seq<u8>, at: int, now: Timestamp) -> Map<u16, Stored> {
    let f = inline_end(m, at);
    let ttl = u32_at(m, f + TTL_AT).unwrap();
    let len = u16_at(m, f + LENGTH_AT).unwrap();
    let expiry = if now + ttl > TIME_MAX { TIME_MAX } else { (now + ttl) as Timestamp };
    let data = if f + RESOURCE_SIZE + len <= m.len() {
        Some(m.subrange(f + RESOURCE_SIZE, f + RESOURCE_SIZE + len))
    } else {
        None
    };
    Map::<u16, Stored>::empty().insert(u16_at(m, f + RESOURCE_TYPE_AT).unwrap(), (expiry, data))
}

/// Offset just past the record at `at`, held to `usize::MAX`.
pub open spec fn record_end(m: Seq<u8>, at: int) -> int {
    let e = inline_end(m, at) + RESOURCE_SIZE + u16_at(m, inline_end(m, at) + LENGTH_AT).unwrap();
    if e <= usize::MAX {
        e
    } else {
        usize::MAX as int
    }
}

/// The cache after the records from number `a` to `an`, starting at
/// `offset`, were merged in one by one, up to the first that does not parse.
pub open spec fn merged(v: CacheView, m: Seq<u8>, offset: int, a: nat, an: nat, now: Timestamp) -> CacheView
    decreases an - a,
{
    if a >= an || !record_parses(m, offset) {
        v
    } else {
        merged(
            updated(v, question_name(m, offset), record_stored(m, offset, now)),
            m,
            record_end(m, offset),
            a + 1,
            an,
            now,
        )
    }
}

/// The cache after the answer section of reply `m` was merged in: nothing
/// changes when a question of the reply does not parse.
pub open spec fn with_answers(v: CacheView, m: Seq<u8>, now: Timestamp) -> CacheView {
    let an = match u16_at(m, AN_AT as int) {
        Some(n) => n as nat,
        None => 0,
    };
    match skip_questions(m, SIZE as int, 0, announced(m)) {
        Some(o) => merged(v, m, o, 0, an, now),
        None => v,
    }
}

/// Merges the answer section of a reply into the cache: each answer record
/// becomes a resource of its name, expiring its TTL after `now`. The walk
/// stops at the first record that does not parse.
fn merge_answers(cache: &mut LocalCache, message: &Vec<u8>, now: Timestamp)
    requires
        old(cache).wf(),
    ensures
        final(cache).wf(),
        final(cache).view() == with_answers(old(cache).view(), message@, now),
{
    let ghost m = message@;
    let ghost v0 = cache.view();
    let header = Header::at(message);
    let qd = match header.qd() {
        Some(n) => n,
        None => 0,
    };
    let an = match header.an() {
        Some(n) => n,
        None => 0,
    };
    let mut offset: usize = SIZE;
    let mut q: u16 = 0;
    while q < qd
        invariant
            cache.wf(),
            cache.view() == v0,
            m == message@,
            q <= qd,
            qd as nat == announced(m),
            skip_questions(m, offset as int, q as nat, qd as nat) == skip_questions(
                m,
                SIZE as int,
                0,
                qd as nat,
            ),
        decreases qd - q,
    {
        match Question::from_message(message.as_slice(), offset) {
            Some(question) => {
                offset = question.end_offset();
            },
            None => {
                proof {
                    assert(skip_questions(m, offset as int, q as nat, qd as nat) is None);
                    assert(with_answers(v0, m, now) == v0);
                }
                return ;
            },
        }
        q = q + 1;
    }
    proof {
        assert(skip_questions(m, offset as int, q as nat, qd as nat) == Some(offset as int));
    }
    let mut a: u16 = 0;
    while a < an
        invariant
            cache.wf(),
            m == message@,
            v0 == old(cache).view(),
            a <= an,
            merged(cache.view(), m, offset as int, a as nat, an as nat, now) == with_answers(
                v0,
                m,
                now,
            ),
        decreases an - a,
    {
        let rec = match Resource::from_message(message.as_slice(), offset) {
            Some(rec) => rec,
            None => {
                proof {
                    assert(!record_parses(m, offset as int));
                    assert(merged(cache.view(), m, offset as int, a as nat, an as nat, now) == cache.view());
                }
                return ;
            },
        };
        let dn = rec.name().unwrap();
        proof {
            lemma_parsed_name_well_formed(m, offset as int);
        }
        let name = match name_of(message.as_slice(), dn) {
            Some(name) => name,
            None => {
                proof {
                    assert(false);
                }
                return ;
            },
        };
        let (rtype, ttl) = match (rec.rtype(), rec.ttl()) {
            (Some(t), Some(ttl)) => (t, ttl),
            _ => {
                proof {
                    assert(false);
                }
                return ;
            },
        };
        let mlen = message.len();
        let data = match rec.payload(message.as_slice()) {
            Some(p) => Some(copy_bytes(p)),
            None => None,
        };
        let mut record = CacheRecord::new(name);
        let expiry = now.saturating_add(ttl as u64);
        let ghost f = inline_end(m, offset as int);
        proof {
            assert(name_view(&name) == question_name(m, offset as int));
            assert(u16_at(rec.footer(), 0) == u16_at(m, f + RESOURCE_TYPE_AT));
            assert(u32_at(rec.footer(), TTL_AT as int) == u32_at(m, f + TTL_AT));
            assert(u16_at(rec.footer(), LENGTH_AT as int) == u16_at(m, f + LENGTH_AT));
        }
        record.add(CacheResource { rcode: rtype, data: data, absolute_ttl: expiry });
        proof {
            let st = record_stored(m, offset as int, now);
            let key = u16_at(m, f + RESOURCE_TYPE_AT).unwrap();
            assert(key == rtype);
            assert(expiry == st[key].0);
            assert(rec.payload_start() == f + RESOURCE_SIZE);
            assert(mlen == m.len());
            assert(rec.length_spec() == u16_at(m, f + LENGTH_AT).unwrap());
            assert(match data { Some(d) => Some(d@), None => None } == st[key].1);
            assert(record.resources() =~= st);
        }
        cache.update(record);
        offset = rec.end_offset();
        a = a + 1;
    }
}

/// Seconds left before `expiry`, as a record's TTL: none once it has
/// passed, and at most what the TTL field holds.
pub open spec fn ttl_left(expiry: Timestamp, now: Timestamp) -> u32 {
    if expiry <= now {
        0
    } else if expiry - now > 0xffff_ffff {
        0xffff_ffff
    } else {
        (expiry - now) as u32
    }
}

/// The RDATA of a stored answer; none stored is empty.
pub open spec fn rdata_of(a: Answer) -> Seq<u8> {
    match a.data {
        Some(d) => d@,
        None => Seq::empty(),
    }
}

/// An answer record as written for a question of class `qclass`.
pub open spec fn record_wire(name: Seq<Seq<u8>>, a: Answer, qclass: u16, now: Timestamp) -> Seq<u8> {
    name_wire(name) + footer_wire(a.rtype, qclass, ttl_left(a.absolute_ttl, now), rdata_of(a).len() as u16)
        + rdata_of(a)
}

/// The records written for `answers`, in order, from offset `used` within a
/// reply of `cap` bytes, when `count` records were written before: the bytes
/// written, the count after, and whether a record did not fit (or the count
/// was full), which ends the writing.
pub open spec fn write_records(
    name: Seq<Seq<u8>>,
    qclass: u16,
    now: Timestamp,
    answers: Seq<Answer>,
    used: int,
    cap: int,
    count: nat,
) -> (Seq<u8>, nat, bool)
    decreases answers.len(),
{
    if answers.len() == 0 {
        (Seq::empty(), count, false)
    } else {
        let w = record_wire(name, answers[0], qclass, now);
        if rdata_of(answers[0]).len() <= 0xffff && used + w.len() <= cap && count < 0xffff {
            let rest = write_records(
                name,
                qclass,
                now,
                answers.drop_first(),
                used + w.len(),
                cap,
                count + 1,
            );
            (w + rest.0, rest.1, rest.2)
        } else {
            (Seq::empty(), count, true)
        }
    }
}

/// How a walk over a request's questions ends.
pub enum WalkEnd {
    /// Every question was done: these records were written.
    Done { written: Seq<u8>, count: nat, truncated: bool },
    /// This question needs a recursive lookup.
    Asks { name: Seq<Seq<u8>>, qtype: u16, qclass: u16 },
}

/// The name, without its root label, of the question at `at`.
pub open spec fn question_name(m: Seq<u8>, at: int) -> Seq<Seq<u8>> {
    labels_at(m, at).unwrap().drop_last()
}

pub open spec fn question_type(m: Seq<u8>, at: int) -> u16 {
    u16_at(m, inline_end(m, at) + TYPE_AT).unwrap()
}

pub open spec fn question_class(m: Seq<u8>, at: int) -> u16 {
    u16_at(m, inline_end(m, at) + CLASS_AT).unwrap()
}

/// Whether `end` is how the walk over the questions of `m` goes on from the
/// question at `offset`, number `q` of `qd`. Questions before `q0` were done
/// already. For each other question: a zone transfer gets no records; a
/// question the cache cannot tell about asks for a recursive lookup, unless
/// `recursed` says one was run for it, and then it gets no records; any
/// other gets the records of the resources the cache lists for it, written
/// after `acc` at `used` within `cap` bytes, `count` records written so far.
/// The walk ends at the last question, or at the first that does not parse.
pub open spec fn walk(
    m: Seq<u8>,
    offset: int,
    q: nat,
    qd: nat,
    q0: nat,
    recursed: Option<u16>,
    v: CacheView,
    now: Timestamp,
    cap: int,
    used: int,
    acc: Seq<u8>,
    count: nat,
    end: WalkEnd,
) -> bool
    decreases qd - q,
{
    if q >= qd || !question_parses(m, offset) {
        end == WalkEnd::Done { written: acc, count: count, truncated: false }
    } else {
        let next = question_end(m, offset);
        let name = question_name(m, offset);
        let qtype = question_type(m, offset);
        let qclass = question_class(m, offset);
        if q < q0 || qtype == AXFR || (cache_unknown(v, name, qtype) && recursed == Some(q as u16)) {
            walk(m, next, q + 1, qd, q0, recursed, v, now, cap, used, acc, count, end)
        } else if cache_unknown(v, name, qtype) {
            end == WalkEnd::Asks { name: name, qtype: qtype, qclass: qclass }
        } else {
            exists|ans: Seq<Answer>|
                #[trigger] lists_answers(v[name], qtype, ans) && ({
                    let w = write_records(name, qclass, now, ans, used, cap, count);
                    if w.2 {
                        end == WalkEnd::Done { written: acc + w.0, count: w.1, truncated: true }
                    } else {
                        walk(
                            m,
                            next,
                            q + 1,
                            qd,
                            q0,
                            recursed,
                            v,
                            now,
                            cap,
                            used + w.0.len(),
                            acc + w.0,
                            w.1,
                            end,
                        )
                    }
                })
        }
    }
}

/// The reply as sent: its header with ANCOUNT set to `count`, and TC set when `truncated`.
pub open spec fn finalize(p: Seq<u8>, count: nat, truncated: bool) -> Seq<u8> {
    with_u16(
        if truncated {
            with_bits(p, FLAGS_AT as int, TC_MASK, 1)
        } else {
            p
        },
        AN_AT as int,
        count as u16,
    )
}

proof fn lemma_finalize_take(b: Seq<u8>, n: int, count: nat, truncated: bool)
    requires
        SIZE <= n <= b.len(),
    ensures
        with_u16(
            if truncated {
                with_bits(b, FLAGS_AT as int, TC_MASK, 1)
            } else {
                b
            },
            AN_AT as int,
            count as u16,
        ).take(n) == finalize(b.take(n), count, truncated),
{
    let t = if truncated {
        with_bits(b, FLAGS_AT as int, TC_MASK, 1)
    } else {
        b
    };
    let tt = if truncated {
        with_bits(b.take(n), FLAGS_AT as int, TC_MASK, 1)
    } else {
        b.take(n)
    };
    assert(t.take(n) =~= tt);
    assert(with_u16(t, AN_AT as int, count as u16).take(n) =~= with_u16(tt, AN_AT as int, count as u16));
}

/// Seconds left before `expiry`, as a record's TTL: none once it has passed,
/// and at most what the TTL field holds.
fn remaining_ttl(expiry: Timestamp, now: Timestamp) -> (r: u32)
    ensures
        r == ttl_left(expiry, now),
{
    if expiry <= now {
        0
    } else if expiry - now > 0xffff_ffff {
        0xffff_ffff
    } else {
        (expiry - now) as u32
    }
}

/// The labels of the name `dn` in `message`, the root label left out.
fn name_of(message: &[u8], dn: &DomainName) -> (r: Option<Name>)
    ensures
        r is Some <==> labels_at(message@, dn.start()) is Some,
        r matches Some(n) ==> labels_at(message@, dn.start()) == Some(name_view(&n).push(Seq::<u8>::empty())),
{
    let segments = match dn.segments(message) {
        Some(v) => v,
        None => {
            return None;
        },
    };
    proof {
        lemma_parsed_name_well_formed(message@, dn.start());
        let l = labels_at(message@, dn.start()).unwrap();
        assert(l.len() >= 1 && l.last() =~= Seq::<u8>::empty()) by {
            assert(l.drop_last().push(Seq::<u8>::empty()).len() == l.len());
            assert(l.drop_last().push(Seq::<u8>::empty()).last() == l.last());
        }
        assert(slice_views(segments@).len() == segments@.len());
        assert(slice_views(segments@)[segments@.len() - 1] == segments@[segments@.len() - 1]@);
    }
    if segments.len() == 0 {
        return None;
    }
    let ghost views = slice_views(segments@);
    let last = segments.len() - 1;
    if segments[last].len() != 0 {
        return None;
    }
    let mut name: Name = Vec::new();
    let mut i: usize = 0;
    while i < last
        invariant
            i <= last,
            last == segments@.len() - 1,
            views == slice_views(segments@),
            name@.len() == i,
            forall|k: int| 0 <= k < i ==> #[trigger] name@[k]@ == views[k],
        decreases last - i,
    {
        let seg = segments[i];
        let mut label: Vec<u8> = Vec::new();
        let mut j: usize = 0;
        while j < seg.len()
            invariant
                j <= seg@.len(),
                label@ == seg@.take(j as int),
            decreases seg.len() - j,
        {
            label.push(seg[j]);
            proof {
                assert(seg@.take(j + 1) =~= seg@.take(j as int).push(seg@[j as int]));
            }
            j = j + 1;
        }
        proof {
            assert(seg@.take(j as int) =~= seg@);
            assert(views[i as int] == seg@);
        }
        name.push(label);
        i = i + 1;
    }
    proof {
        assert(views[last as int] =~= Seq::<u8>::empty());
        assert(name_view(&name).push(Seq::<u8>::empty()) =~= views);
    }
    Some(name)
}

/// Replacing the session at `k` by one with the same ID changes its state only.
proof fn lemma_session_replaced(s0: Seq<Session>, s1: Seq<Session>, k: int)
    requires
        distinct_ids(s0),
        0 <= k < s0.len(),
        s1.len() == s0.len(),
        s1[k].id_spec() == s0[k].id_spec(),
        forall|i: int| 0 <= i < s0.len() && i != k ==> s1[i] == s0[i],
    ensures
        distinct_ids(s1),
        sessions_map(s1) == sessions_map(s0).insert(s0[k].id_spec(), s1[k].state_spec()),
{
    assert forall|a: int, b: int| 0 <= a < b < s1.len() implies s1[a].id_spec() != s1[b].id_spec() by {
        if a != k && b != k {
            assert(s1[a] == s0[a] && s1[b] == s0[b]);
        } else if a == k {
            assert(s1[b] == s0[b]);
        } else {
            assert(s1[a] == s0[a]);
        }
    }
    lemma_sessions_map(s0);
    lemma_sessions_map(s1);
    let want = sessions_map(s0).insert(s0[k].id_spec(), s1[k].state_spec());
    assert forall|id: SessionId| #[trigger] sessions_map(s1).contains_key(id) implies want.contains_key(id)
        && sessions_map(s1)[id] == want[id] by {
        let a = choose|a: int| 0 <= a < s1.len() && s1[a].id_spec() == id;
        if a != k {
            assert(s1[a] == s0[a]);
            assert(sessions_map(s0).contains_key(s0[a].id_spec()));
        }
    }
    assert forall|id: SessionId| #[trigger] want.contains_key(id) implies sessions_map(s1).contains_key(id) by {
        if id != s0[k].id_spec() {
            let b = choose|b: int| 0 <= b < s0.len() && s0[b].id_spec() == id;
            assert(s1[b] == s0[b]);
        } else {
            assert(sessions_map(s1).contains_key(s1[k].id_spec()));
        }
    }
    assert(sessions_map(s1) =~= want);
}

/// What the map of a list of sessions holds when their IDs are distinct.
proof fn lemma_sessions_map(s: Seq<Session>)
    requires
        distinct_ids(s),
    ensures
        forall|i: int|
            0 <= i < s.len() ==> #[trigger] sessions_map(s).contains_key(s[i].id_spec())
                && sessions_map(s)[s[i].id_spec()] == s[i].state_spec(),
        forall|id: SessionId|
            sessions_map(s).contains_key(id) ==> exists|i: int| 0 <= i < s.len() && s[i].id_spec() == id,
    decreases s.len(),
{
    if s.len() > 0 {
        let front = s.drop_last();
        lemma_sessions_map(front);
        assert forall|i: int| 0 <= i < s.len() implies #[trigger] sessions_map(s).contains_key(
            s[i].id_spec(),
        ) && sessions_map(s)[s[i].id_spec()] == s[i].state_spec() by {
            if i < s.len() - 1 {
                assert(front[i] == s[i]);
                assert(sessions_map(front).contains_key(front[i].id_spec()));
            } else {
                assert(s[i] == s.last());
            }
        }
        assert forall|id: SessionId| sessions_map(s).contains_key(id) implies exists|i: int|
            0 <= i < s.len() && s[i].id_spec() == id by {
            if id != s.last().id_spec() {
                assert(sessions_map(front).contains_key(id));
                let i = choose|i: int| 0 <= i < front.len() && front[i].id_spec() == id;
                assert(s[i] == front[i]);
            } else {
                assert(s[s.len() - 1].id_spec() == id);
            }
        }
    }
}

/// Removing the session at `k` removes its ID from the map.
proof fn lemma_session_removed(s0: Seq<Session>, k: int)
    requires
        distinct_ids(s0),
        0 <= k < s0.len(),
    ensures
        distinct_ids(s0.remove(k)),
        sessions_map(s0.remove(k)) == sessions_map(s0).remove(s0[k].id_spec()),
{
    let s1 = s0.remove(k);
    assert forall|a: int, b: int| 0 <= a < b < s1.len() implies s1[a].id_spec() != s1[b].id_spec() by {
        let a0 = if a < k { a } else { a + 1 };
        let b0 = if b < k { b } else { b + 1 };
        assert(s1[a] == s0[a0] && s1[b] == s0[b0]);
    }
    lemma_sessions_map(s0);
    lemma_sessions_map(s1);
    let want = sessions_map(s0).remove(s0[k].id_spec());
    assert forall|id: SessionId| #[trigger] sessions_map(s1).contains_key(id) implies want.contains_key(id)
        && sessions_map(s1)[id] == want[id] by {
        let a = choose|a: int| 0 <= a < s1.len() && s1[a].id_spec() == id;
        let b = if a < k { a } else { a + 1 };
        assert(s1[a] == s0[b]);
        assert(sessions_map(s0).contains_key(s0[b].id_spec()));
    }
    assert forall|id: SessionId| #[trigger] want.contains_key(id) implies sessions_map(s1).contains_key(id) by {
        let b = choose|b: int| 0 <= b < s0.len() && s0[b].id_spec() == id;
        let a = if b < k { b } else { b - 1 };
        assert(s1[a] == s0[b]);
    }
    assert(sessions_map(s1) =~= want);
}

} // verus!
