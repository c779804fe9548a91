use crate::record::{code_answers, Maybe, AXFR};
use crate::cache_record::{
    lists_answers, Answer, copy_name, live_at, name_view, names_equal, CacheRecord, Name, Stored, Timestamp, TIME_MAX,
    is_next_expiry, holds_none,
};
use vstd::prelude::*;

verus! {

/// What the cache holds: for each name, its resources by type code.
pub type CacheView = Map<Seq<Seq<u8>>, Map<u16, Stored>>;

/// An entry of the expiry queue: a time, and the name to look at then.
pub type Deadline = (Timestamp, Name);

/// The map that a list of records gives, by name.
pub open spec fn records_map(s: Seq<CacheRecord>) -> CacheView
    decreases s.len(),
{
    if s.len() == 0 {
        Map::empty()
    } else {
        records_map(s.drop_last()).insert(s.last().name_spec(), s.last().resources())
    }
}

pub open spec fn distinct_names(s: Seq<CacheRecord>) -> bool {
    forall|i: int, j: int| 0 <= i < j < s.len() ==> s[i].name_spec() != s[j].name_spec()
}

pub open spec fn queue_sorted(q: Seq<Deadline>) -> bool {
    forall|i: int, j: int| 0 <= i <= j < q.len() ==> q[i].0 <= q[j].0
}

/// Whether looking at a record at time `t` is early enough: no later than
/// its earliest expiry (at 0 for a record that holds nothing).
pub open spec fn early_enough(m: Map<u16, Stored>, t: Timestamp) -> bool {
    if holds_none(m) {
        t == 0
    } else {
        forall|k: u16| m.contains_key(k) ==> t <= m[k].0
    }
}

/// Whether the queue holds an entry for name `n` early enough for resources `m`.
pub open spec fn scheduled(q: Seq<Deadline>, n: Seq<Seq<u8>>, m: Map<u16, Stored>) -> bool {
    exists|j: int| 0 <= j < q.len() && name_view(&q[j].1) == n && early_enough(m, #[trigger] q[j].0)
}

/// The cache after a sweep at `now`: each record keeps the resources still
/// live at `now`; a record left with none is dropped. (A record that held
/// nothing to begin with is dropped by any sweep after time 0.)
pub open spec fn swept(v: CacheView, now: Timestamp) -> CacheView {
    Map::new(
        |n: Seq<Seq<u8>>|
            v.contains_key(n) && (!holds_none(live_at(v[n], now)) || (holds_none(v[n]) && now
                == 0)),
        |n: Seq<Seq<u8>>| live_at(v[n], now),
    )
}

/// Whether the queue, or the names from `from` on in `due`, still lead to name `n`.
pub open spec fn covered(q: Seq<Deadline>, due: Seq<Name>, from: int, n: Seq<Seq<u8>>, m: Map<u16, Stored>) -> bool {
    scheduled(q, n, m) || exists|j: int| from <= j < due.len() && #[trigger] name_view(&due[j]) == n
}

/// The cache after `rec` was merged in: its resources replace those stored
/// under the same name and type code.
pub open spec fn updated(v: CacheView, n: Seq<Seq<u8>>, m: Map<u16, Stored>) -> CacheView {
    if v.contains_key(n) {
        v.insert(n, v[n].union_prefer_right(m))
    } else {
        v.insert(n, m)
    }
}

/// Resource records by name, with the times at which each name is next to be
/// looked at for expired resources. Expired resources are removed lazily, by
/// `expire_after`; queue entries made stale by later updates stay until then.
pub struct LocalCache {
    records: Vec<CacheRecord>,
    queue: Vec<Deadline>,
}

impl LocalCache {
    pub closed spec fn wf(&self) -> bool {
        &&& forall|i: int| 0 <= i < self.records@.len() ==> #[trigger] self.records@[i].wf()
        &&& distinct_names(self.records@)
        &&& queue_sorted(self.queue@)
        &&& forall|i: int|
            0 <= i < self.records@.len() ==> scheduled(
                self.queue@,
                #[trigger] self.records@[i].name_spec(),
                self.records@[i].resources(),
            )
    }

    pub closed spec fn view(&self) -> CacheView {
        records_map(self.records@)
    }

    /// The earliest time in the queue.
    pub closed spec fn first_deadline(&self) -> Timestamp {
        if self.queue@.len() == 0 {
            TIME_MAX
        } else {
            self.queue@[0].0
        }
    }

    pub fn new() -> (r: LocalCache)
        ensures
            r.wf(),
            r.view() == CacheView::empty(),
    {
        LocalCache { records: Vec::new(), queue: Vec::new() }
    }

    fn find(&self, key: &Name) -> (r: Option<usize>)
        requires
            distinct_names(self.records@),
        ensures
            match r {
                Some(i) => i < self.records@.len() && self.records@[i as int].name_spec()
                    == name_view(key),
                None => !self.view().contains_key(name_view(key)),
            },
    {
        proof {
            lemma_records_map(self.records@);
        }
        let mut i: usize = 0;
        while i < self.records.len()
            invariant
                i <= self.records@.len(),
                forall|k: int| 0 <= k < i ==> self.records@[k].name_spec() != name_view(key),
            decreases self.records.len() - i,
        {
            if names_equal(self.records[i].name(), key) {
                return Some(i);
            }
            i = i + 1;
        }
        None
    }

    /// The record stored for `key`, if any.
    pub fn get(&self, key: &Name) -> (r: Option<&CacheRecord>)
        requires
            self.wf(),
        ensures
            match r {
                Some(rec) => {
                    &&& self.view().contains_key(name_view(key))
                    &&& rec.resources() == self.view()[name_view(key)]
                    &&& rec.name_spec() == name_view(key)
                    &&& rec.wf()
                },
                None => !self.view().contains_key(name_view(key)),
            },
    {
        proof {
            lemma_records_map(self.records@);
        }
        match self.find(key) {
            Some(i) => {
                proof {
                    assert(self.records@[i as int].wf());
                    assert(records_map(self.records@).contains_key(
                        self.records@[i as int].name_spec(),
                    ));
                }
                Some(&self.records[i])
            },
            None => None,
        }
    }

    /// The earliest time at which a stored resource may expire: no stored
    /// resource expires before it. `TIME_MAX` when nothing is queued.
    pub fn next_ttl(&self) -> (r: Timestamp)
        requires
            self.wf(),
        ensures
            r == self.first_deadline(),
            forall|n: Seq<Seq<u8>>, k: u16|
                self.view().contains_key(n) && #[trigger] self.view()[n].contains_key(k) ==> r
                    <= self.view()[n][k].0,
    {
        proof {
            lemma_records_map(self.records@);
            assert forall|n: Seq<Seq<u8>>, k: u16|
                self.view().contains_key(n) && #[trigger] self.view()[n].contains_key(
                    k,
                ) implies self.first_deadline() <= self.view()[n][k].0 by {
                let i = choose|i: int|
                    0 <= i < self.records@.len() && self.records@[i].name_spec() == n;
                assert(scheduled(self.queue@, self.records@[i].name_spec(), self.records@[i].resources()));
                let j = choose|j: int|
                    0 <= j < self.queue@.len() && name_view(&self.queue@[j].1) == n
                        && early_enough(self.records@[i].resources(), #[trigger] self.queue@[j].0);
                assert(self.records@[i].resources().dom().contains(k));
                assert(self.queue@[0].0 <= self.queue@[j].0);
            }
        }
        if self.queue.len() > 0 {
            self.queue[0].0
        } else {
            TIME_MAX
        }
    }

    /// Sweeps the cache at `now`: every queue entry earlier than `now` is
    /// taken, and the record of its name, if any, loses the resources that
    /// expired before `now`; a record left with none is removed, any other is
    /// queued again at its new earliest expiry. Afterwards no stored resource
    /// expires before `now`, and nothing queued is earlier than `now`.
    pub fn expire_after(&mut self, now: Timestamp)
        requires
            old(self).wf(),
        ensures
            final(self).wf(),
            final(self).view() == swept(old(self).view(), now),
            final(self).first_deadline() >= now,
    {
        let ghost m0 = self.view();
        let ghost s_start = self.records@;
        let mut due: Vec<Name> = Vec::new();
        while self.queue.len() > 0 && self.queue[0].0 < now
            invariant
                self.records@ == s_start,
                forall|k: int| 0 <= k < self.records@.len() ==> #[trigger] self.records@[k].wf(),
                distinct_names(self.records@),
                queue_sorted(self.queue@),
                forall|k: int|
                    0 <= k < self.records@.len() ==> covered(
                        self.queue@,
                        due@,
                        0,
                        #[trigger] self.records@[k].name_spec(),
                        self.records@[k].resources(),
                    ),
                due@.len() > 0 ==> now > 0,
            decreases self.queue@.len(),
        {
            let ghost q0 = self.queue@;
            let ghost d0 = due@;
            let e = self.queue.remove(0);
            due.push(e.1);
            proof {
                let q1 = self.queue@;
                assert forall|a: int, b: int| 0 <= a <= b < q1.len() implies q1[a].0 <= q1[b].0 by {
                    assert(q1[a] == q0[a + 1] && q1[b] == q0[b + 1]);
                }
                assert forall|k: int| 0 <= k < self.records@.len() implies covered(
                    q1,
                    due@,
                    0,
                    #[trigger] self.records@[k].name_spec(),
                    self.records@[k].resources(),
                ) by {
                    let n = self.records@[k].name_spec();
                    let m = self.records@[k].resources();
                    if scheduled(q0, n, m) {
                        let j = choose|j: int|
                            0 <= j < q0.len() && name_view(&q0[j].1) == n && early_enough(
                                m,
                                #[trigger] q0[j].0,
                            );
                        if j == 0 {
                            assert(name_view(&due@[d0.len() as int]) == n);
                        } else {
                            assert(q1[j - 1] == q0[j]);
                        }
                    } else {
                        let j = choose|j: int| 0 <= j < d0.len() && #[trigger] name_view(&d0[j]) == n;
                        assert(due@[j] == d0[j]);
                    }
                }
            }
        }
        proof {
            assert forall|j: int| 0 <= j < self.queue@.len() implies self.queue@[j].0 >= now by {
                assert(self.queue@[0].0 <= self.queue@[j].0);
            }
            lemma_records_map(self.records@);
        }
        let mut i: usize = 0;
        while i < due.len()
            invariant
                i <= due@.len(),
                forall|k: int| 0 <= k < self.records@.len() ==> #[trigger] self.records@[k].wf(),
                distinct_names(self.records@),
                queue_sorted(self.queue@),
                forall|j: int| 0 <= j < self.queue@.len() ==> #[trigger] self.queue@[j].0 >= now,
                forall|k: int|
                    0 <= k < self.records@.len() ==> covered(
                        self.queue@,
                        due@,
                        i as int,
                        #[trigger] self.records@[k].name_spec(),
                        self.records@[k].resources(),
                    ),
                due@.len() > 0 ==> now > 0,
                forall|n: Seq<Seq<u8>>|
                    #[trigger] records_map(self.records@).contains_key(n) ==> m0.contains_key(n)
                        && live_at(records_map(self.records@)[n], now) == live_at(m0[n], now),
                forall|n: Seq<Seq<u8>>|
                    #[trigger] m0.contains_key(n) && !records_map(self.records@).contains_key(n)
                        ==> holds_none(live_at(m0[n], now)) && now > 0,
            decreases due.len() - i,
        {
            let ghost s0 = self.records@;
            let ghost q0 = self.queue@;
            let ghost n = name_view(&due@[i as int]);
            proof {
                lemma_records_map(s0);
            }
            match self.find(&due[i]) {
                Some(k) => {
                    let mut rec = self.records.remove(k);
                    let ghost before = rec.resources();
                    rec.expire_after(now);
                    proof {
                        assert(records_map(s0).contains_key(s0[k as int].name_spec()));
                        lemma_live_at_idempotent(before, now);
                    }
                    if rec.empty() {
                        proof {
                            let s1 = self.records@;
                            assert(s1 == s0.remove(k as int));
                            lemma_view_removed(s0, k as int);
                            lemma_records_map(s1);
                            assert forall|a: int| 0 <= a < s1.len() implies #[trigger] s1[a].wf()
                                && covered(
                                self.queue@,
                                due@,
                                i + 1,
                                s1[a].name_spec(),
                                s1[a].resources(),
                            ) by {
                                let b = if a < k { a } else { a + 1 };
                                assert(s1[a] == s0[b]);
                                assert(covered(q0, due@, i as int, s0[b].name_spec(), s0[b].resources()));
                                assert(s0[b].name_spec() != s0[k as int].name_spec());
                            }
                            assert forall|a: int, b: int| 0 <= a < b < s1.len() implies s1[a].name_spec()
                                != s1[b].name_spec() by {
                                let a0 = if a < k { a } else { a + 1 };
                                let b0 = if b < k { b } else { b + 1 };
                                assert(s1[a] == s0[a0] && s1[b] == s0[b0]);
                            }
                            assert(holds_none(live_at(m0[n], now)));
                        }
                    } else {
                        let t = rec.next_absolute_ttl();
                        let key = copy_name(rec.name());
                        push_sorted(&mut self.queue, (t, key));
                        self.records.insert(k, rec);
                        proof {
                            let s1 = self.records@;
                            assert(s1 =~= s0.update(k as int, rec));
                            let live = rec.resources();
                            assert(!holds_none(live));
                            let kk = choose|kk: u16| live.contains_key(kk) && live[kk].0 == t;
                            assert(t >= now);
                            lemma_schedule_kept(q0, self.queue@, (t, key));
                            let p = choose|p: int|
                                0 <= p <= q0.len() && self.queue@ == q0.insert(p, (t, key));
                            assert(self.queue@[p] == (t, key));
                            assert forall|j: int| 0 <= j < self.queue@.len() implies #[trigger] self.queue@[j].0 >= now by {
                                if j < p {
                                    assert(self.queue@[j] == q0[j]);
                                } else if j > p {
                                    assert(self.queue@[j] == q0[j - 1]);
                                }
                            }
                            assert forall|a: int, b: int| 0 <= a < b < s1.len() implies s1[a].name_spec()
                                != s1[b].name_spec() by {
                                if a != k && b != k {
                                    assert(s1[a] == s0[a] && s1[b] == s0[b]);
                                } else if a == k {
                                    assert(s1[b] == s0[b]);
                                } else {
                                    assert(s1[a] == s0[a]);
                                }
                            }
                            assert forall|a: int| 0 <= a < s1.len() implies #[trigger] s1[a].wf()
                                && covered(
                                self.queue@,
                                due@,
                                i + 1,
                                s1[a].name_spec(),
                                s1[a].resources(),
                            ) by {
                                if a != k {
                                    assert(s1[a] == s0[a]);
                                    assert(covered(q0, due@, i as int, s0[a].name_spec(), s0[a].resources()));
                                    assert(s0[a].name_spec() != s0[k as int].name_spec());
                                    if scheduled(q0, s0[a].name_spec(), s0[a].resources()) {
                                        assert(scheduled(self.queue@, s0[a].name_spec(), s0[a].resources()));
                                    } else {
                                        let j = choose|j: int|
                                            i <= j < due@.len() && #[trigger] name_view(&due@[j]) == s0[a].name_spec();
                                        assert(j != i);
                                    }
                                } else {
                                    lemma_next_expiry_early_enough(live, t);
                                    assert(s1[a] == rec);
                                    assert(name_view(&self.queue@[p].1) == s1[a].name_spec());
                                    assert(early_enough(s1[a].resources(), self.queue@[p].0));
                                    assert(scheduled(self.queue@, s1[a].name_spec(), s1[a].resources()));
                                }
                            }
                            lemma_view_replaced(s0, s1, k as int);
                            lemma_records_map(s1);
                        }
                    }
                },
                None => {
                    proof {
                        assert forall|a: int| 0 <= a < s0.len() implies covered(
                            q0,
                            due@,
                            i + 1,
                            #[trigger] s0[a].name_spec(),
                            s0[a].resources(),
                        ) by {
                            assert(records_map(s0).contains_key(s0[a].name_spec()));
                        }
                    }
                },
            }
            i = i + 1;
        }
        proof {
            let s = self.records@;
            let v = records_map(s);
            lemma_records_map(s);
            let want = swept(m0, now);
            assert forall|nn: Seq<Seq<u8>>| #[trigger] v.contains_key(nn) implies want.contains_key(nn)
                && v[nn] == want[nn] by {
                let a = choose|a: int| 0 <= a < s.len() && s[a].name_spec() == nn;
                assert(covered(self.queue@, due@, due@.len() as int, s[a].name_spec(), s[a].resources()));
                let j = choose|j: int|
                    0 <= j < self.queue@.len() && name_view(&self.queue@[j].1) == nn && early_enough(
                        s[a].resources(),
                        #[trigger] self.queue@[j].0,
                    );
                assert(self.queue@[j].0 >= now);
                lemma_live_at_all(v[nn], now);
                if holds_none(v[nn]) {
                    lemma_live_at_all(m0[nn], 0);
                    assert(live_at(m0[nn], now) =~= v[nn]);
                }
            }
            assert forall|nn: Seq<Seq<u8>>| #[trigger] want.contains_key(nn) implies v.contains_key(nn) by {
                if !v.contains_key(nn) {
                    assert(holds_none(live_at(m0[nn], now)) && now > 0);
                }
            }
            assert(v =~= want);
        }
    }

    /// What the cache can say to a query for `name` of type `qtype`: the
    /// stored resources that it asks for; `Unknown` when the name is not
    /// stored or none of its resources is of a type asked for, which a
    /// recursive lookup may settle; `NoneSuch` for a zone transfer, which
    /// this cache never answers.
    pub fn lookup(&self, name: &Name, qtype: u16) -> (r: Maybe<Vec<Answer>>)
        requires
            self.wf(),
        ensures
            qtype == AXFR ==> r is NoneSuch,
            qtype != AXFR && !self.view().contains_key(name_view(name)) ==> r is Unknown,
            qtype != AXFR && self.view().contains_key(name_view(name)) ==> {
                let m = self.view()[name_view(name)];
                if exists|k: u16| m.contains_key(k) && code_answers(k, qtype) {
                    r matches Maybe::Have(v) && lists_answers(m, qtype, v@)
                } else {
                    r is Unknown
                }
            },
    {
        if qtype == AXFR {
            return Maybe::NoneSuch;
        }
        match self.get(name) {
            Some(rec) => {
                let found = rec.matching(qtype);
                if found.len() == 0 {
                    proof {
                        let m = self.view()[name_view(name)];
                        assert forall|k: u16| !(m.contains_key(k) && code_answers(k, qtype)) by {
                            if m.contains_key(k) && code_answers(k, qtype) {
                                let i = choose|i: int| 0 <= i < found@.len() && #[trigger] found@[i].rtype == k;
                            }
                        }
                    }
                    Maybe::Unknown
                } else {
                    proof {
                        let m = self.view()[name_view(name)];
                        assert(rec.resources() == m);
                        assert(lists_answers(m, qtype, found@));
                        assert(m.contains_key(found@[0].rtype));
                        assert(code_answers(found@[0].rtype, qtype));
                    }
                    Maybe::Have(found)
                }
            },
            None => Maybe::Unknown,
        }
    }

    /// Merges `rec` into the cache: stored as it is under a new name, or
    /// merged into the record already there, its resources replacing those
    /// of the same type. Its earliest expiry is queued either way; older
    /// queue entries for the name stay.
    pub fn update(&mut self, rec: CacheRecord)
        requires
            old(self).wf(),
            rec.wf(),
        ensures
            final(self).wf(),
            final(self).view() == updated(old(self).view(), rec.name_spec(), rec.resources()),
    {
        proof {
            lemma_records_map(self.records@);
        }
        let ghost s0 = self.records@;
        let ghost q0 = self.queue@;
        let ghost n = rec.name_spec();
        let ghost m = rec.resources();
        match self.find(rec.name()) {
            Some(i) => {
                let mut merged = self.records.remove(i);
                let ghost before = merged.resources();
                merged.merge_from(rec);
                let t = merged.next_absolute_ttl();
                let key = copy_name(merged.name());
                push_sorted(&mut self.queue, (t, key));
                self.records.insert(i, merged);
                proof {
                    let s1 = self.records@;
                    assert forall|a: int, b: int| 0 <= a < b < s1.len() implies s1[a].name_spec()
                        != s1[b].name_spec() by {
                        if a != i && b != i {
                            assert(s1[a] == s0[a] && s1[b] == s0[b]);
                        } else if a == i {
                            assert(s1[b] == s0[b]);
                        } else {
                            assert(s1[a] == s0[a]);
                        }
                    }
                    lemma_records_map(s1);
                    lemma_schedule_kept(q0, self.queue@, (t, key));
                    assert forall|k: int| 0 <= k < s1.len() implies #[trigger] s1[k].wf()
                        && scheduled(self.queue@, s1[k].name_spec(), s1[k].resources()) by {
                        if k != i {
                            assert(s1[k] == s0[k]);
                            assert(scheduled(q0, s0[k].name_spec(), s0[k].resources()));
                        } else {
                            lemma_next_expiry_early_enough(merged.resources(), t);
                            let p = choose|p: int|
                                0 <= p <= q0.len() && self.queue@ == q0.insert(p, (t, key));
                            assert(self.queue@[p] == (t, key));
                        }
                    }
                    assert(records_map(s1) =~= updated(records_map(s0), n, m)) by {
                        assert(records_map(s0).contains_key(s0[i as int].name_spec()));
                        assert(records_map(s0)[n] == before);
                        lemma_view_replaced(s0, s1, i as int);
                    }
                }
            },
            None => {
                let t = rec.next_absolute_ttl();
                let key = copy_name(rec.name());
                push_sorted(&mut self.queue, (t, key));
                self.records.push(rec);
                proof {
                    let s1 = self.records@;
                    assert forall|a: int, b: int| 0 <= a < b < s1.len() implies s1[a].name_spec()
                        != s1[b].name_spec() by {
                        if b < s0.len() {
                            assert(s1[a] == s0[a] && s1[b] == s0[b]);
                        } else {
                            assert(s1[a] == s0[a]);
                            assert(records_map(s0).contains_key(s0[a].name_spec()));
                        }
                    }
                    lemma_schedule_kept(q0, self.queue@, (t, key));
                    assert forall|k: int| 0 <= k < s1.len() implies #[trigger] s1[k].wf()
                        && scheduled(self.queue@, s1[k].name_spec(), s1[k].resources()) by {
                        if k < s0.len() {
                            assert(s1[k] == s0[k]);
                            assert(scheduled(q0, s0[k].name_spec(), s0[k].resources()));
                        } else {
                            lemma_next_expiry_early_enough(m, t);
                            let p = choose|p: int|
                                0 <= p <= q0.len() && self.queue@ == q0.insert(p, (t, key));
                            assert(self.queue@[p] == (t, key));
                        }
                    }
                    assert(s1.drop_last() =~= s0);
                    assert(records_map(s1) =~= updated(records_map(s0), n, m));
                }
            },
        }
    }
}

/// Inserts `e` into the sorted queue after every entry that is not later than it.
fn push_sorted(q: &mut Vec<Deadline>, e: Deadline)
    requires
        queue_sorted(old(q)@),
    ensures
        queue_sorted(final(q)@),
        exists|p: int| 0 <= p <= old(q)@.len() && final(q)@ == old(q)@.insert(p, e),
{
    let ghost q0 = q@;
    let mut i: usize = 0;
    while i < q.len() && q[i].0 <= e.0
        invariant
            i <= q@.len(),
            q@ == q0,
            forall|k: int| 0 <= k < i ==> #[trigger] q0[k].0 <= e.0,
        decreases q.len() - i,
    {
        i = i + 1;
    }
    q.insert(i, e);
    proof {
        let q1 = q@;
        assert(q1 == q0.insert(i as int, e));
        assert forall|a: int, b: int| 0 <= a <= b < q1.len() implies q1[a].0 <= q1[b].0 by {
            if b < i {
                assert(q1[a] == q0[a] && q1[b] == q0[b]);
            } else if b == i {
                if a < i {
                    assert(q1[a] == q0[a]);
                }
            } else if a < i {
                assert(q1[a] == q0[a] && q1[b] == q0[b - 1]);
            } else if a == i {
                assert(q1[b] == q0[b - 1]);
                assert(q0[i as int].0 > e.0);
            } else {
                assert(q1[a] == q0[a - 1] && q1[b] == q0[b - 1]);
            }
        }
    }
}

/// A queue entry for a name stays (at some index) when another entry is inserted.
proof fn lemma_schedule_kept(q0: Seq<Deadline>, q1: Seq<Deadline>, e: Deadline)
    requires
        exists|p: int| 0 <= p <= q0.len() && q1 == q0.insert(p, e),
    ensures
        forall|n: Seq<Seq<u8>>, m: Map<u16, Stored>| scheduled(q0, n, m) ==> scheduled(q1, n, m),
{
    let p = choose|p: int| 0 <= p <= q0.len() && q1 == q0.insert(p, e);
    assert forall|n: Seq<Seq<u8>>, m: Map<u16, Stored>| scheduled(q0, n, m) implies scheduled(
        q1,
        n,
        m,
    ) by {
        let j = choose|j: int|
            0 <= j < q0.len() && name_view(&q0[j].1) == n && early_enough(m, #[trigger] q0[j].0);
        if j < p {
            assert(q1[j] == q0[j]);
        } else {
            assert(q1[j + 1] == q0[j]);
        }
    }
}

/// The earliest expiry of a record is early enough to look at it.
proof fn lemma_next_expiry_early_enough(m: Map<u16, Stored>, t: Timestamp)
    requires
        is_next_expiry(m, t),
    ensures
        early_enough(m, t),
{
}

/// What the map of a list of records holds when their names are distinct:
/// exactly their names, each with its record's resources.
proof fn lemma_records_map(s: Seq<CacheRecord>)
    requires
        distinct_names(s),
    ensures
        forall|i: int|
            0 <= i < s.len() ==> #[trigger] records_map(s).contains_key(s[i].name_spec())
                && records_map(s)[s[i].name_spec()] == s[i].resources(),
        forall|n: Seq<Seq<u8>>|
            records_map(s).contains_key(n) ==> exists|i: int|
                0 <= i < s.len() && s[i].name_spec() == n,
    decreases s.len(),
{
    if s.len() > 0 {
        let front = s.drop_last();
        lemma_records_map(front);
        assert forall|i: int| 0 <= i < s.len() implies #[trigger] records_map(s).contains_key(
            s[i].name_spec(),
        ) && records_map(s)[s[i].name_spec()] == s[i].resources() by {
            if i < s.len() - 1 {
                assert(front[i] == s[i]);
                assert(records_map(front).contains_key(front[i].name_spec()));
            } else {
                assert(s[i] == s.last());
            }
        }
        assert forall|n: Seq<Seq<u8>>| records_map(s).contains_key(n) implies exists|i: int|
            0 <= i < s.len() && s[i].name_spec() == n by {
            if n != s.last().name_spec() {
                assert(records_map(front).contains_key(n));
                let i = choose|i: int| 0 <= i < front.len() && front[i].name_spec() == n;
                assert(s[i] == front[i]);
            } else {
                assert(s[s.len() - 1].name_spec() == n);
            }
        }
    }
}

/// Replacing the record at `i` by one of the same name changes the map at that name only.
proof fn lemma_view_replaced(s0: Seq<CacheRecord>, s1: Seq<CacheRecord>, i: int)
    requires
        distinct_names(s0),
        distinct_names(s1),
        0 <= i < s0.len(),
        s1.len() == s0.len(),
        s1[i].name_spec() == s0[i].name_spec(),
        forall|k: int| 0 <= k < s0.len() && k != i ==> s1[k] == s0[k],
    ensures
        records_map(s1) == records_map(s0).insert(s0[i].name_spec(), s1[i].resources()),
{
    lemma_records_map(s0);
    lemma_records_map(s1);
    let want = records_map(s0).insert(s0[i].name_spec(), s1[i].resources());
    assert forall|n: Seq<Seq<u8>>| #[trigger] records_map(s1).contains_key(n) implies want.contains_key(n)
        && records_map(s1)[n] == want[n] by {
        let k = choose|k: int| 0 <= k < s1.len() && s1[k].name_spec() == n;
        if k != i {
            assert(s1[k] == s0[k]);
            assert(records_map(s0).contains_key(s0[k].name_spec()));
        }
    }
    assert forall|n: Seq<Seq<u8>>| #[trigger] want.contains_key(n) implies records_map(s1).contains_key(n) by {
        if n != s0[i].name_spec() {
            let k = choose|k: int| 0 <= k < s0.len() && s0[k].name_spec() == n;
            assert(s1[k] == s0[k]);
        } else {
            assert(records_map(s1).contains_key(s1[i].name_spec()));
        }
    }
    assert(records_map(s1) =~= want);
}

/// Removing the record at `k` removes its name from the map.
proof fn lemma_view_removed(s0: Seq<CacheRecord>, k: int)
    requires
        distinct_names(s0),
        0 <= k < s0.len(),
    ensures
        records_map(s0.remove(k)) == records_map(s0).remove(s0[k].name_spec()),
{
    let s1 = s0.remove(k);
    assert forall|a: int, b: int| 0 <= a < b < s1.len() implies s1[a].name_spec()
        != s1[b].name_spec() by {
        let a0 = if a < k { a } else { a + 1 };
        let b0 = if b < k { b } else { b + 1 };
        assert(s1[a] == s0[a0] && s1[b] == s0[b0]);
    }
    lemma_records_map(s0);
    lemma_records_map(s1);
    let want = records_map(s0).remove(s0[k].name_spec());
    assert forall|n: Seq<Seq<u8>>| #[trigger] records_map(s1).contains_key(n) implies want.contains_key(n)
        && records_map(s1)[n] == want[n] by {
        let a = choose|a: int| 0 <= a < s1.len() && s1[a].name_spec() == n;
        let b = if a < k { a } else { a + 1 };
        assert(s1[a] == s0[b]);
        assert(records_map(s0).contains_key(s0[b].name_spec()));
    }
    assert forall|n: Seq<Seq<u8>>| #[trigger] want.contains_key(n) implies records_map(s1).contains_key(n) by {
        let b = choose|b: int| 0 <= b < s0.len() && s0[b].name_spec() == n;
        let a = if b < k { b } else { b - 1 };
        assert(s1[a] == s0[b]);
    }
    assert(records_map(s1) =~= want);
}

proof fn lemma_live_at_idempotent(m: Map<u16, Stored>, now: Timestamp)
    ensures
        live_at(live_at(m, now), now) == live_at(m, now),
{
    assert(live_at(live_at(m, now), now) =~= live_at(m, now));
}

/// Nothing is removed from resources that all expire at `now` or later.
proof fn lemma_live_at_all(m: Map<u16, Stored>, now: Timestamp)
    requires
        forall|k: u16| m.contains_key(k) ==> m[k].0 >= now,
    ensures
        live_at(m, now) == m,
{
    assert(live_at(m, now) =~= m);
}

/// A resource stored with expiry time `t` is still there after a sweep at
/// `t`, and gone after a sweep at `t + 1`, whatever the cache held before.
pub proof fn lemma_expiry_boundary(
    v: CacheView,
    n: Seq<Seq<u8>>,
    m: Map<u16, Stored>,
    code: u16,
    t: Timestamp,
)
    requires
        m.contains_key(code),
        m[code].0 == t,
        t < TIME_MAX,
    ensures
        swept(updated(v, n, m), t).contains_key(n),
        swept(updated(v, n, m), t)[n].contains_key(code),
        swept(updated(v, n, m), t)[n][code] == m[code],
        !(swept(updated(v, n, m), (t + 1) as Timestamp).contains_key(n) && swept(
            updated(v, n, m),
            (t + 1) as Timestamp,
        )[n].contains_key(code)),
{
    let u = updated(v, n, m);
    assert(u.contains_key(n));
    assert(u[n].contains_key(code) && u[n][code] == m[code]);
    assert(live_at(u[n], t).contains_key(code));
    assert(!holds_none(live_at(u[n], t)));
}

} // verus!
