use crate::record::{code_answers, code_matches};
use vstd::prelude::*;

verus! {

/// A domain name as its labels.
pub type Name = Vec<Vec<u8>>;

/// Seconds on the clock that expiry times are measured with.
pub type Timestamp = u64;

pub const TIME_MAX: Timestamp = 0xffff_ffff_ffff_ffff;

/// The labels of a name, as sequences of bytes.
pub open spec fn name_view(n: &Name) -> Seq<Seq<u8>> {
    n@.map_values(|l: Vec<u8>| l@)
}

/// What the cache holds for one record type of a name: its absolute expiry
/// time and its RDATA, if any.
pub type Stored = (Timestamp, Option<Seq<u8>>);

/// One record type's data for a name.
pub struct CacheResource {
    pub data: Option<Vec<u8>>,
    pub absolute_ttl: Timestamp,
    pub rcode: u16,
}

impl CacheResource {
    pub open spec fn stored(&self) -> Stored {
        (
            self.absolute_ttl,
            match self.data {
                Some(v) => Some(v@),
                None => None,
            },
        )
    }
}

/// A stored resource handed out in answer to a query.
pub struct Answer {
    pub rtype: u16,
    pub absolute_ttl: Timestamp,
    pub data: Option<Vec<u8>>,
}

impl Answer {
    pub open spec fn stored(&self) -> Stored {
        (
            self.absolute_ttl,
            match self.data {
                Some(v) => Some(v@),
                None => None,
            },
        )
    }
}

/// Whether `v` lists, in increasing order of type code, exactly the
/// resources of `m` that a query of type `qtype` asks for.
pub open spec fn lists_answers(m: Map<u16, Stored>, qtype: u16, v: Seq<Answer>) -> bool {
    &&& forall|i: int, j: int| 0 <= i < j < v.len() ==> v[i].rtype < v[j].rtype
    &&& forall|i: int|
        0 <= i < v.len() ==> #[trigger] m.contains_key(v[i].rtype) && code_answers(v[i].rtype, qtype)
            && m[v[i].rtype] == v[i].stored()
    &&& forall|k: u16|
        m.contains_key(k) && code_answers(k, qtype) ==> exists|i: int| 0 <= i < v.len() && #[trigger] v[i].rtype == k
}

/// The map from type code to stored data that a list of resources gives; a
/// later entry for a code replaces an earlier one.
pub open spec fn resources_map(s: Seq<CacheResource>) -> Map<u16, Stored>
    decreases s.len(),
{
    if s.len() == 0 {
        Map::empty()
    } else {
        resources_map(s.drop_last()).insert(s.last().rcode, s.last().stored())
    }
}

/// Whether the type codes increase strictly along `s`.
pub open spec fn sorted_codes(s: Seq<CacheResource>) -> bool {
    forall|i: int, j: int| 0 <= i < j < s.len() ==> s[i].rcode < s[j].rcode
}

/// Whether `m` stores nothing.
pub open spec fn holds_none(m: Map<u16, Stored>) -> bool {
    forall|k: u16| !m.contains_key(k)
}

/// The earliest expiry among the stored resources, or 0 when there are none.
pub open spec fn is_next_expiry(m: Map<u16, Stored>, t: Timestamp) -> bool {
    if holds_none(m) {
        t == 0
    } else {
        &&& exists|k: u16| m.contains_key(k) && m[k].0 == t
        &&& forall|k: u16| m.contains_key(k) ==> t <= m[k].0
    }
}

/// The resources of `m` that are still live at `now`: those expiring at `now` or later.
pub open spec fn live_at(m: Map<u16, Stored>, now: Timestamp) -> Map<u16, Stored> {
    m.restrict(Set::new(|k: u16| m.contains_key(k) && m[k].0 >= now))
}

/// A name with its resources, at most one per record type, kept in order of type code.
pub struct CacheRecord {
    name: Name,
    resources: Vec<CacheResource>,
}

impl CacheRecord {
    /// Type codes are distinct and kept in increasing order.
    pub closed spec fn wf(&self) -> bool {
        sorted_codes(self.resources@)
    }

    pub closed spec fn name_spec(&self) -> Seq<Seq<u8>> {
        name_view(&self.name)
    }

    pub closed spec fn resources(&self) -> Map<u16, Stored> {
        resources_map(self.resources@)
    }

    pub fn new(name: Name) -> (r: CacheRecord)
        ensures
            r.wf(),
            r.name_spec() == name_view(&name),
            r.resources() == Map::<u16, Stored>::empty(),
    {
        CacheRecord { name: name, resources: Vec::new() }
    }

    pub fn name(&self) -> (r: &Name)
        ensures
            name_view(r) == self.name_spec(),
    {
        &self.name
    }

    /// Stores `r` under its type code, replacing what was stored there.
    pub fn add(&mut self, r: CacheResource)
        requires
            old(self).wf(),
        ensures
            final(self).wf(),
            final(self).resources() == old(self).resources().insert(r.rcode, r.stored()),
            final(self).name_spec() == old(self).name_spec(),
    {
        proof {
            lemma_resources_map(self.resources@);
        }
        let ghost s0 = self.resources@;
        let mut i: usize = 0;
        while i < self.resources.len() && self.resources[i].rcode < r.rcode
            invariant
                i <= self.resources@.len(),
                self.resources@ == s0,
                forall|k: int| 0 <= k < i ==> #[trigger] s0[k].rcode < r.rcode,
            decreases self.resources.len() - i,
        {
            i = i + 1;
        }
        let ghost code = r.rcode;
        let ghost val = r.stored();
        if i < self.resources.len() && self.resources[i].rcode == r.rcode {
            self.resources.set(i, r);
            proof {
                let s1 = self.resources@;
                assert(sorted_codes(s1));
                lemma_resources_map(s1);
                assert(resources_map(s1) =~= resources_map(s0).insert(code, val)) by {
                    assert forall|k: u16| #[trigger]
                        resources_map(s1).contains_key(k) implies resources_map(
                        s0,
                    ).insert(code, val).contains_key(k) by {
                        let j = choose|j: int| 0 <= j < s1.len() && s1[j].rcode == k;
                        if j != i {
                            assert(s0[j] == s1[j]);
                        }
                    }
                    assert forall|k: u16| #[trigger]
                        resources_map(s0).insert(code, val).contains_key(k) implies resources_map(
                        s1,
                    ).contains_key(k) by {
                        if k != code {
                            let j = choose|j: int| 0 <= j < s0.len() && s0[j].rcode == k;
                            assert(s1[j] == s0[j]);
                        } else {
                            assert(s1[i as int].rcode == code);
                        }
                    }
                    assert forall|k: u16| #[trigger]
                        resources_map(s1).contains_key(k) implies resources_map(s1)[k]
                        == resources_map(s0).insert(code, val)[k] by {
                        let j = choose|j: int| 0 <= j < s1.len() && s1[j].rcode == k;
                        if j != i {
                            assert(s0[j] == s1[j]);
                        }
                    }
                }
            }
        } else {
            self.resources.insert(i, r);
            proof {
                let s1 = self.resources@;
                assert forall|a: int, b: int| 0 <= a < b < s1.len() implies s1[a].rcode
                    < s1[b].rcode by {
                    if b < i {
                        assert(s1[a] == s0[a] && s1[b] == s0[b]);
                    } else if b == i {
                        assert(s1[a] == s0[a]);
                    } else if a < i {
                        assert(s1[a] == s0[a] && s1[b] == s0[b - 1]);
                    } else if a == i {
                        assert(s1[b] == s0[b - 1]);
                        assert(s0[i as int].rcode >= code);
                        assert(s0[i as int].rcode != code);
                        if b - 1 > i {
                            assert(s0[i as int].rcode < s0[b - 1].rcode);
                        }
                    } else {
                        assert(s1[a] == s0[a - 1] && s1[b] == s0[b - 1]);
                    }
                }
                assert(sorted_codes(s1));
                lemma_resources_map(s1);
                assert(resources_map(s1) =~= resources_map(s0).insert(code, val)) by {
                    assert forall|k: u16| #[trigger]
                        resources_map(s1).contains_key(k) implies resources_map(
                        s0,
                    ).insert(code, val).contains_key(k) by {
                        let j = choose|j: int| 0 <= j < s1.len() && s1[j].rcode == k;
                        if j < i {
                            assert(s0[j] == s1[j]);
                        } else if j > i {
                            assert(s0[j - 1] == s1[j]);
                        }
                    }
                    assert forall|k: u16| #[trigger]
                        resources_map(s0).insert(code, val).contains_key(k) implies resources_map(
                        s1,
                    ).contains_key(k) by {
                        if k != code {
                            let j = choose|j: int| 0 <= j < s0.len() && s0[j].rcode == k;
                            if j < i {
                                assert(s1[j] == s0[j]);
                            } else {
                                assert(s1[j + 1] == s0[j]);
                            }
                        } else {
                            assert(s1[i as int].rcode == code);
                        }
                    }
                    assert forall|k: u16| #[trigger]
                        resources_map(s1).contains_key(k) implies resources_map(s1)[k]
                        == resources_map(s0).insert(code, val)[k] by {
                        let j = choose|j: int| 0 <= j < s1.len() && s1[j].rcode == k;
                        if j < i {
                            assert(s0[j] == s1[j]);
                        } else if j > i {
                            assert(s0[j - 1] == s1[j]);
                        }
                    }
                }
            }
        }
    }

    /// Merges `other` into this record: each of its resources replaces what
    /// this record stored for the same type code, and the others stay. The
    /// record's next expiry is then to be scheduled again, which the result
    /// (always `true`) asks for.
    pub fn merge_from(&mut self, other: CacheRecord) -> (r: bool)
        requires
            old(self).wf(),
        ensures
            final(self).wf(),
            final(self).resources() == old(self).resources().union_prefer_right(other.resources()),
            final(self).name_spec() == old(self).name_spec(),
            r,
    {
        let ghost s0 = other.resources@;
        let ghost m0 = self.resources();
        let mut rest = other.resources;
        let ghost mut pos: int = 0;
        while rest.len() > 0
            invariant
                0 <= pos <= s0.len(),
                rest@ == s0.subrange(pos, s0.len() as int),
                self.wf(),
                self.name_spec() == old(self).name_spec(),
                self.resources() == m0.union_prefer_right(resources_map(s0.take(pos))),
            decreases rest@.len(),
        {
            let r = rest.remove(0);
            proof {
                assert(r == s0[pos]);
                assert(s0.take(pos + 1).drop_last() =~= s0.take(pos));
                assert(s0.take(pos + 1).last() == r);
                let m2 = resources_map(s0.take(pos));
                assert(m0.union_prefer_right(m2.insert(r.rcode, r.stored())) =~= m0.union_prefer_right(
                    m2,
                ).insert(r.rcode, r.stored()));
            }
            self.add(r);
            proof {
                pos = pos + 1;
            }
        }
        proof {
            assert(s0.take(pos) =~= s0);
        }
        true
    }

    /// The resources that a query of type `qtype` asks for, in order of type code.
    #[verifier::rlimit(50)]
    pub fn matching(&self, qtype: u16) -> (r: Vec<Answer>)
        requires
            self.wf(),
        ensures
            lists_answers(self.resources(), qtype, r@),
    {
        proof {
            lemma_resources_map(self.resources@);
        }
        let ghost s = self.resources@;
        let mut out: Vec<Answer> = Vec::new();
        let mut i: usize = 0;
        while i < self.resources.len()
            invariant
                i <= s.len(),
                s == self.resources@,
                sorted_codes(s),
                forall|a: int, b: int| 0 <= a < b < out@.len() ==> out@[a].rtype < out@[b].rtype,
                forall|a: int| #![trigger out@[a]] 0 <= a < out@.len() ==> exists|j: int| 0 <= j < i && #[trigger] s[j].rcode == out@[a].rtype && code_answers(s[j].rcode, qtype) && s[j].stored() == out@[a].stored(),
                forall|j: int| #![trigger s[j]] 0 <= j < i && code_answers(s[j].rcode, qtype) ==> exists|a: int| 0 <= a < out@.len() && #[trigger] out@[a].rtype == s[j].rcode,
                forall|a: int| 0 <= a < out@.len() && i < s.len() ==> #[trigger] out@[a].rtype < s[i as int].rcode,
            decreases s.len() - i,
        {
            let res = &self.resources[i];
            if code_matches(res.rcode, qtype) {
                let data = match &res.data {
                    Some(v) => Some(copy_bytes(v.as_slice())),
                    None => None,
                };
                let ghost before = out@;
                out.push(Answer { rtype: res.rcode, absolute_ttl: res.absolute_ttl, data: data });
                proof {
                    assert(out@.last().stored() == s[i as int].stored());
                    assert forall|a: int| #![trigger out@[a]] 0 <= a < out@.len() implies exists|j: int| 0 <= j < i + 1 && #[trigger] s[j].rcode == out@[a].rtype && code_answers(s[j].rcode, qtype) && s[j].stored() == out@[a].stored() by {
                        if a < before.len() {
                            assert(out@[a] == before[a]);
                        } else {
                            assert(s[i as int].rcode == out@[a].rtype);
                        }
                    }
                    assert forall|j: int| #![trigger s[j]] 0 <= j < i + 1 && code_answers(s[j].rcode, qtype) implies exists|a: int| 0 <= a < out@.len() && #[trigger] out@[a].rtype == s[j].rcode by {
                        if j < i {
                            let a = choose|a: int| 0 <= a < before.len() && #[trigger] before[a].rtype == s[j].rcode;
                            assert(out@[a] == before[a]);
                        } else {
                            assert(out@[before.len() as int].rtype == s[j].rcode);
                        }
                    }
                }
            }
            proof {
                if i + 1 < s.len() {
                    assert forall|a: int| 0 <= a < out@.len() implies #[trigger] out@[a].rtype < s[i + 1].rcode by {
                        let j = choose|j: int| 0 <= j < i + 1 && #[trigger] s[j].rcode == out@[a].rtype && code_answers(s[j].rcode, qtype) && s[j].stored() == out@[a].stored();
                        assert(s[j].rcode < s[i + 1].rcode);
                    }
                }
            }
            i = i + 1;
        }
        proof {
            assert forall|a: int| #![trigger out@[a]] 0 <= a < out@.len() implies self.resources().contains_key(out@[a].rtype)
                && code_answers(out@[a].rtype, qtype) && self.resources()[out@[a].rtype]
                == out@[a].stored() by {
                let j = choose|j: int| 0 <= j < i && #[trigger] s[j].rcode == out@[a].rtype && code_answers(s[j].rcode, qtype) && s[j].stored() == out@[a].stored();
                assert(resources_map(s).contains_key(s[j].rcode));
            }
            assert forall|k: u16| self.resources().contains_key(k) && code_answers(k, qtype) implies exists|a: int|
                0 <= a < out@.len() && #[trigger] out@[a].rtype == k by {
                let j = choose|j: int| 0 <= j < s.len() && s[j].rcode == k;
            }
        }
        out
    }

    /// The earliest expiry time among the resources, or 0 when there are none.
    pub fn next_absolute_ttl(&self) -> (r: Timestamp)
        requires
            self.wf(),
        ensures
            is_next_expiry(self.resources(), r),
    {
        proof {
            lemma_resources_map(self.resources@);
        }
        if self.resources.len() == 0 {
            proof {
                assert(self.resources() =~= Map::<u16, Stored>::empty());
            }
            return 0;
        }
        proof {
            assert(self.resources().contains_key(self.resources@[0].rcode));
        }
        let mut best = self.resources[0].absolute_ttl;
        let mut i: usize = 1;
        let ghost mut at: int = 0;
        while i < self.resources.len()
            invariant
                1 <= i <= self.resources@.len(),
                0 <= at < i,
                self.resources@[at].absolute_ttl == best,
                forall|k: int| 0 <= k < i ==> best <= #[trigger] self.resources@[k].absolute_ttl,
            decreases self.resources.len() - i,
        {
            if self.resources[i].absolute_ttl < best {
                best = self.resources[i].absolute_ttl;
                proof {
                    at = i as int;
                }
            }
            i = i + 1;
        }
        proof {
            let s = self.resources@;
            let m = resources_map(s);
            assert(m.contains_key(s[at].rcode));
            assert forall|k: u16| m.contains_key(k) implies best <= m[k].0 by {
                let j = choose|j: int| 0 <= j < s.len() && s[j].rcode == k;
                assert(m[s[j].rcode] == s[j].stored());
            }
        }
        best
    }

    /// Removes every resource whose expiry time is earlier than `now`.
    pub fn expire_after(&mut self, now: Timestamp)
        requires
            old(self).wf(),
        ensures
            final(self).wf(),
            final(self).resources() == live_at(old(self).resources(), now),
            final(self).name_spec() == old(self).name_spec(),
    {
        let ghost s0 = self.resources@;
        let mut kept: Vec<CacheResource> = Vec::new();
        let mut rest: Vec<CacheResource> = Vec::new();
        std::mem::swap(&mut rest, &mut self.resources);
        let ghost mut pos: int = 0;
        while rest.len() > 0
            invariant
                0 <= pos <= s0.len(),
                rest@ == s0.subrange(pos, s0.len() as int),
                sorted_codes(s0),
                sorted_codes(kept@),
                forall|a: int| 0 <= a < kept@.len() && pos < s0.len() ==> #[trigger] kept@[a].rcode < s0[pos].rcode,
                resources_map(kept@) == live_at(resources_map(s0.take(pos)), now),
            decreases rest@.len(),
        {
            let r = rest.remove(0);
            proof {
                assert(r == s0[pos]);
                let m = resources_map(s0.take(pos));
                assert(s0.take(pos + 1).drop_last() =~= s0.take(pos));
                assert(s0.take(pos + 1).last() == r);
                lemma_resources_map(s0.take(pos));
                assert(!m.contains_key(r.rcode)) by {
                    if m.contains_key(r.rcode) {
                        let j = choose|j: int| 0 <= j < pos && s0.take(pos)[j].rcode == r.rcode;
                        assert(s0[j].rcode < s0[pos].rcode);
                    }
                }
            }
            let ghost before = kept@;
            if r.absolute_ttl >= now {
                kept.push(r);
                proof {
                    let m = resources_map(s0.take(pos));
                    assert(kept@.drop_last() =~= before);
                    assert(live_at(m.insert(r.rcode, r.stored()), now) =~= live_at(m, now).insert(
                        r.rcode,
                        r.stored(),
                    ));
                }
            } else {
                proof {
                    let m = resources_map(s0.take(pos));
                    assert(live_at(m.insert(r.rcode, r.stored()), now) =~= live_at(m, now));
                }
            }
            proof {
                pos = pos + 1;
                if pos < s0.len() {
                    assert forall|a: int| 0 <= a < kept@.len() implies #[trigger] kept@[a].rcode
                        < s0[pos].rcode by {
                        if a < before.len() {
                            assert(kept@[a] == before[a]);
                        }
                        assert(s0[pos - 1].rcode < s0[pos].rcode);
                    }
                }
            }
        }
        self.resources = kept;
        proof {
            assert(s0.take(pos) =~= s0);
        }
    }

    /// Whether the record holds no resource.
    pub fn empty(&self) -> (r: bool)
        requires
            self.wf(),
        ensures
            r == holds_none(self.resources()),
    {
        proof {
            lemma_resources_map(self.resources@);
            if self.resources@.len() == 0 {
                assert(self.resources() =~= Map::<u16, Stored>::empty());
            } else {
                assert(self.resources().contains_key(self.resources@[0].rcode));
            }
        }
        self.resources.len() == 0
    }

    /// Each type code with its expiry time, in increasing order of code.
    pub fn entries(&self) -> (r: Vec<(u16, Timestamp)>)
        requires
            self.wf(),
        ensures
            forall|i: int, j: int| 0 <= i < j < r@.len() ==> r@[i].0 < r@[j].0,
            forall|i: int|
                0 <= i < r@.len() ==> #[trigger] self.resources().contains_key(r@[i].0)
                    && self.resources()[r@[i].0].0 == r@[i].1,
            forall|k: u16|
                self.resources().contains_key(k) ==> exists|i: int| 0 <= i < r@.len() && #[trigger] r@[i].0 == k,
    {
        proof {
            lemma_resources_map(self.resources@);
        }
        let mut out: Vec<(u16, Timestamp)> = Vec::new();
        let mut i: usize = 0;
        while i < self.resources.len()
            invariant
                i <= self.resources@.len(),
                out@.len() == i,
                forall|a: int|
                    0 <= a < i ==> #[trigger] out@[a] == (
                        self.resources@[a].rcode,
                        self.resources@[a].absolute_ttl,
                    ),
            decreases self.resources.len() - i,
        {
            out.push((self.resources[i].rcode, self.resources[i].absolute_ttl));
            i = i + 1;
        }
        proof {
            let s = self.resources@;
            assert forall|i: int, j: int| 0 <= i < j < out@.len() implies out@[i].0 < out@[j].0 by {
                assert(out@[i].0 == s[i].rcode && out@[j].0 == s[j].rcode);
            }
            assert forall|k: u16| self.resources().contains_key(k) implies exists|i: int|
                0 <= i < out@.len() && #[trigger] out@[i].0 == k by {
                let j = choose|j: int| 0 <= j < s.len() && s[j].rcode == k;
                assert(out@[j].0 == k);
            }
        }
        out
    }
}

/// What the map of a list of resources holds when their codes are distinct:
/// exactly their codes, each with its entry's data.
proof fn lemma_resources_map(s: Seq<CacheResource>)
    requires
        sorted_codes(s),
    ensures
        forall|i: int|
            0 <= i < s.len() ==> #[trigger] resources_map(s).contains_key(s[i].rcode)
                && resources_map(s)[s[i].rcode] == s[i].stored(),
        forall|k: u16|
            resources_map(s).contains_key(k) ==> exists|i: int| 0 <= i < s.len() && s[i].rcode == k,
    decreases s.len(),
{
    if s.len() > 0 {
        let front = s.drop_last();
        lemma_resources_map(front);
        assert forall|i: int| 0 <= i < s.len() implies #[trigger] resources_map(s).contains_key(
            s[i].rcode,
        ) && resources_map(s)[s[i].rcode] == s[i].stored() by {
            if i < s.len() - 1 {
                assert(front[i] == s[i]);
                assert(resources_map(front).contains_key(front[i].rcode));
                assert(s[i].rcode < s.last().rcode);
            } else {
                assert(s[i] == s.last());
            }
        }
        assert forall|k: u16| resources_map(s).contains_key(k) implies exists|i: int|
            0 <= i < s.len() && s[i].rcode == k by {
            if k != s.last().rcode {
                assert(resources_map(front).contains_key(k));
                let i = choose|i: int| 0 <= i < front.len() && front[i].rcode == k;
                assert(s[i] == front[i]);
            } else {
                assert(s[s.len() - 1].rcode == k);
            }
        }
    }
}

/// A copy of a byte string.
pub(crate) fn copy_bytes(v: &[u8]) -> (r: Vec<u8>)
    ensures
        r@ == v@,
{
    let mut out: Vec<u8> = Vec::new();
    let mut j: usize = 0;
    while j < v.len()
        invariant
            j <= v@.len(),
            out@ == v@.take(j as int),
        decreases v.len() - j,
    {
        out.push(v[j]);
        proof {
            assert(v@.take(j + 1) =~= v@.take(j as int).push(v@[j as int]));
        }
        j = j + 1;
    }
    proof {
        assert(v@.take(j as int) =~= v@);
    }
    out
}

/// Whether two labels hold the same bytes.
fn labels_equal(a: &Vec<u8>, b: &Vec<u8>) -> (r: bool)
    ensures
        r == (a@ == b@),
{
    if a.len() != b.len() {
        return false;
    }
    let mut i: usize = 0;
    while i < a.len()
        invariant
            i <= a@.len(),
            a@.len() == b@.len(),
            forall|k: int| 0 <= k < i ==> a@[k] == b@[k],
        decreases a.len() - i,
    {
        if a[i] != b[i] {
            return false;
        }
        i = i + 1;
    }
    proof {
        assert(a@ =~= b@);
    }
    true
}

/// Whether two names have the same labels.
pub(crate) fn names_equal(a: &Name, b: &Name) -> (r: bool)
    ensures
        r == (name_view(a) == name_view(b)),
{
    if a.len() != b.len() {
        return false;
    }
    let mut i: usize = 0;
    while i < a.len()
        invariant
            i <= a@.len(),
            a@.len() == b@.len(),
            forall|k: int| 0 <= k < i ==> a@[k]@ == b@[k]@,
        decreases a.len() - i,
    {
        if !labels_equal(&a[i], &b[i]) {
            proof {
                assert(name_view(a)[i as int] == a@[i as int]@);
                assert(name_view(b)[i as int] == b@[i as int]@);
            }
            return false;
        }
        i = i + 1;
    }
    proof {
        assert(name_view(a) =~= name_view(b));
    }
    true
}

/// A copy of a name.
pub(crate) fn copy_name(n: &Name) -> (r: Name)
    ensures
        name_view(&r) == name_view(n),
{
    let mut out: Name = Vec::new();
    let mut i: usize = 0;
    while i < n.len()
        invariant
            i <= n@.len(),
            out@.len() == i,
            forall|k: int| 0 <= k < i ==> #[trigger] out@[k]@ == n@[k]@,
        decreases n.len() - i,
    {
        let src = &n[i];
        let mut label: Vec<u8> = Vec::new();
        let mut j: usize = 0;
        while j < src.len()
            invariant
                j <= src@.len(),
                label@ == src@.take(j as int),
            decreases src.len() - j,
        {
            label.push(src[j]);
            proof {
                assert(src@.take(j + 1) =~= src@.take(j as int).push(src@[j as int]));
            }
            j = j + 1;
        }
        proof {
            assert(src@.take(j as int) =~= src@);
        }
        out.push(label);
        i = i + 1;
    }
    proof {
        assert(name_view(&out) =~= name_view(n));
    }
    out
}

} // verus!
