//! Sorted sets on the heap: members with their scores, and the members in
//! the order of their scores.
use vstd::prelude::*;
use crate::bytes::copy_bytes;
use crate::payload::Payload;
use crate::score::Score;
use crate::segrows::comes_before;
use crate::table::FlatTable;

verus! {

/// Bytes that a member of a sorted set costs besides its heap bytes.
pub const ZSET_SLOT_BYTES: u64 = 64;

impl Payload for Score {
    open spec fn model(&self) -> Seq<u8> {
        crate::le::le_bytes(self.rank() as nat, 8)
    }

    open spec fn slot_spec() -> nat {
        ZSET_SLOT_BYTES as nat
    }

    proof fn lemma_clone(a: &Self, b: &Self) {
    }

    fn slot_bytes() -> (r: u64) {
        ZSET_SLOT_BYTES
    }

    fn heap_bytes(&self) -> (r: u64) {
        proof {
            crate::le::lemma_le_len(self.rank() as nat, 8);
        }
        0
    }
}

/// Two scores with the same bytes are the same score.
proof fn lemma_score_model(a: Score, b: Score)
    requires
        a.model() == b.model(),
    ensures
        a == b,
{
    crate::le::lemma_pow256();
    crate::le::lemma_le_roundtrip(a.rank() as nat, 8);
    crate::le::lemma_le_roundtrip(b.rank() as nat, 8);
    Score::lemma_rank(a, b);
}

/// Whether one member of a sorted set goes before another: by score, and
/// under the same score byte by byte.
pub open spec fn goes_before(a: (Seq<u8>, Score), b: (Seq<u8>, Score)) -> bool {
    a.1.rank() < b.1.rank() || (a.1 == b.1 && crate::segrows::lex_before(a.0, b.0))
}

/// Whether one member of a sorted set goes before another.
fn before(am: &[u8], ascore: Score, bm: &[u8], bscore: Score) -> (r: bool)
    ensures
        r == goes_before((am@, ascore), (bm@, bscore)),
{
    proof {
        Score::lemma_rank(ascore, bscore);
    }
    if ascore.precedes(bscore) {
        true
    } else if bscore.precedes(ascore) {
        false
    } else {
        comes_before(am, bm)
    }
}

/// No member goes before itself, of two that differ one goes before the
/// other, but not both, and the order carries over.
pub proof fn lemma_goes_before(a: (Seq<u8>, Score), b: (Seq<u8>, Score), c: (Seq<u8>, Score))
    ensures
        !goes_before(a, a),
        a != b ==> goes_before(a, b) != goes_before(b, a),
        goes_before(a, b) && goes_before(b, c) ==> goes_before(a, c),
{
    Score::lemma_rank(a.1, b.1);
    Score::lemma_rank(b.1, c.1);
    crate::segrows::lemma_lex_total(a.0, b.0);
    if goes_before(a, b) && goes_before(b, c) && a.1 == b.1 && b.1 == c.1 {
        crate::segrows::lemma_lex_chain(a.0, b.0, c.0);
    }
}

/// Whether a sequence lists the members of a sorted set in their order.
pub open spec fn is_ranking(s: Seq<(Seq<u8>, Score)>, m: Map<Seq<u8>, Score>) -> bool {
    &&& forall|i: int, j: int|
        #![trigger s[i], s[j]]
        0 <= i < j < s.len() ==> goes_before(s[i], s[j])
    &&& forall|i: int|
        0 <= i < s.len() ==> m.dom().contains((#[trigger] s[i]).0) && m[s[i].0] == s[i].1
    &&& forall|k: Seq<u8>| #[trigger] m.dom().contains(k) ==> s.contains((k, m[k]))
}

/// The members of a sorted set in their order.
pub open spec fn ranked(m: Map<Seq<u8>, Score>) -> Seq<(Seq<u8>, Score)> {
    choose|s: Seq<(Seq<u8>, Score)>| is_ranking(s, m)
}

/// Where a place of one listing is found in another one of the same sorted
/// set.
proof fn lemma_listed_in(
    s: Seq<(Seq<u8>, Score)>,
    t: Seq<(Seq<u8>, Score)>,
    m: Map<Seq<u8>, Score>,
    i: int,
) -> (j: int)
    requires
        is_ranking(s, m),
        is_ranking(t, m),
        0 <= i < s.len(),
    ensures
        0 <= j < t.len(),
        t[j] == s[i],
{
    assert(m.dom().contains(s[i].0));
    assert(t.contains((s[i].0, m[s[i].0])));
    choose|j: int| 0 <= j < t.len() && t[j] == (s[i].0, m[s[i].0])
}

proof fn lemma_same_start(
    s: Seq<(Seq<u8>, Score)>,
    t: Seq<(Seq<u8>, Score)>,
    m: Map<Seq<u8>, Score>,
    n: int,
)
    requires
        is_ranking(s, m),
        is_ranking(t, m),
        0 <= n <= s.len(),
        n <= t.len(),
    ensures
        forall|i: int| 0 <= i < n ==> s[i] == t[i],
    decreases n,
{
    if n > 0 {
        lemma_same_start(s, t, m, n - 1);
        let i = n - 1;
        let j = lemma_listed_in(s, t, m, i);
        let k = lemma_listed_in(t, s, m, i);
        lemma_goes_before(s[i], t[i], s[i]);
        lemma_goes_before(t[i], s[i], t[i]);
        if j < i {
            assert(s[j] == t[j]);
            assert(goes_before(s[j], s[i]));
        }
        if k < i {
            assert(s[k] == t[k]);
            assert(goes_before(t[k], t[i]));
        }
        if j > i && k > i {
            assert(goes_before(t[i], t[j]));
            assert(goes_before(s[i], s[k]));
        }
    }
}

/// There is only one such listing, and it is as long as there are members.
pub proof fn lemma_ranking(s: Seq<(Seq<u8>, Score)>, m: Map<Seq<u8>, Score>)
    requires
        is_ranking(s, m),
    ensures
        s == ranked(m),
        m.dom().finite(),
        m.dom().len() == s.len(),
{
    let t = ranked(m);
    assert(is_ranking(t, m));
    let n = if s.len() < t.len() {
        s.len() as int
    } else {
        t.len() as int
    };
    lemma_same_start(s, t, m, n);
    if s.len() < t.len() {
        let j = lemma_listed_in(t, s, m, n);
        assert(s[j] == t[j]);
        assert(goes_before(t[j], t[n]));
        lemma_goes_before(t[n], t[n], t[n]);
    }
    if t.len() < s.len() {
        let j = lemma_listed_in(s, t, m, n);
        assert(s[j] == t[j]);
        assert(goes_before(s[j], s[n]));
        lemma_goes_before(s[n], s[n], s[n]);
    }
    assert(s =~= t);
    lemma_ranking_members(s, m);
}

proof fn lemma_ranking_members(s: Seq<(Seq<u8>, Score)>, m: Map<Seq<u8>, Score>)
    requires
        is_ranking(s, m),
    ensures
        m.dom().finite(),
        m.dom().len() == s.len(),
{
    let names = Seq::new(s.len(), |i: int| s[i].0);
    assert forall|k: Seq<u8>| names.to_set().contains(k) == m.dom().contains(k) by {
        if names.contains(k) {
            let i = choose|i: int| 0 <= i < names.len() && names[i] == k;
            assert(s[i].0 == k);
        }
        if m.dom().contains(k) {
            assert(s.contains((k, m[k])));
            let i = choose|i: int| 0 <= i < s.len() && s[i] == (k, m[k]);
            assert(names[i] == k);
        }
    }
    assert(names.to_set() =~= m.dom());
    assert forall|i: int, j: int| 0 <= i < j < names.len() implies names[i] != names[j] by {
        assert(goes_before(s[i], s[j]));
        lemma_goes_before(s[i], s[j], s[i]);
    }
    assert(names.no_duplicates());
    names.unique_seq_to_set();
}

/// A listing without one of its places lists the sorted set without that
/// member.
proof fn lemma_rank_remove(s: Seq<(Seq<u8>, Score)>, m: Map<Seq<u8>, Score>, p: int)
    requires
        is_ranking(s, m),
        0 <= p < s.len(),
    ensures
        is_ranking(s.remove(p), m.remove(s[p].0)),
{
    let t = s.remove(p);
    let n = m.remove(s[p].0);
    assert forall|i: int| 0 <= i < t.len() implies n.dom().contains((#[trigger] t[i]).0)
        && n[t[i].0] == t[i].1 by {
        let j = if i < p {
            i
        } else {
            i + 1
        };
        assert(t[i] == s[j]);
        if j < p {
            assert(goes_before(s[j], s[p]));
        } else {
            assert(goes_before(s[p], s[j]));
        }
        lemma_goes_before(s[j], s[p], s[j]);
        lemma_goes_before(s[p], s[j], s[p]);
    }
    assert forall|k: Seq<u8>| #[trigger] n.dom().contains(k) implies t.contains((k, n[k])) by {
        assert(m.dom().contains(k));
        assert(s.contains((k, m[k])));
        let j = choose|j: int| 0 <= j < s.len() && s[j] == (k, m[k]);
        let i = if j < p {
            j
        } else {
            j - 1
        };
        assert(t[i] == s[j]);
    }
    assert forall|i: int, j: int|
        #![trigger t[i], t[j]]
        0 <= i < j < t.len() implies goes_before(t[i], t[j]) by {
        let a = if i < p {
            i
        } else {
            i + 1
        };
        let b = if j < p {
            j
        } else {
            j + 1
        };
        assert(t[i] == s[a] && t[j] == s[b]);
        assert(goes_before(s[a], s[b]));
    }
}

/// A listing with a new member at its place lists the sorted set with it.
proof fn lemma_rank_insert(
    s: Seq<(Seq<u8>, Score)>,
    m: Map<Seq<u8>, Score>,
    q: int,
    x: (Seq<u8>, Score),
)
    requires
        is_ranking(s, m),
        0 <= q <= s.len(),
        !m.dom().contains(x.0),
        forall|i: int| 0 <= i < s.len() ==> goes_before(#[trigger] s[i], x) == (i < q),
    ensures
        is_ranking(s.insert(q, x), m.insert(x.0, x.1)),
{
    let t = s.insert(q, x);
    let n = m.insert(x.0, x.1);
    assert forall|i: int| 0 <= i < t.len() implies n.dom().contains((#[trigger] t[i]).0)
        && n[t[i].0] == t[i].1 by {
        if i < q {
            assert(t[i] == s[i]);
        } else if i > q {
            assert(t[i] == s[i - 1]);
        }
    }
    assert forall|k: Seq<u8>| #[trigger] n.dom().contains(k) implies t.contains((k, n[k])) by {
        if k == x.0 {
            assert(t[q] == x);
        } else {
            assert(m.dom().contains(k));
            assert(s.contains((k, m[k])));
            let j = choose|j: int| 0 <= j < s.len() && s[j] == (k, m[k]);
            let i = if j < q {
                j
            } else {
                j + 1
            };
            assert(t[i] == s[j]);
        }
    }
    assert forall|i: int, j: int|
        #![trigger t[i], t[j]]
        0 <= i < j < t.len() implies goes_before(t[i], t[j]) by {
        let a = if i < q {
            i
        } else {
            i - 1
        };
        let b = if j < q {
            j
        } else {
            j - 1
        };
        if i == q {
            assert(t[j] == s[b]);
            assert(m.dom().contains(s[b].0));
            assert(!goes_before(s[b], x));
            lemma_goes_before(x, s[b], x);
        } else if j == q {
            assert(t[i] == s[a]);
            assert(goes_before(s[a], x));
        } else {
            assert(t[i] == s[a] && t[j] == s[b]);
            assert(goes_before(s[a], s[b]));
        }
    }
}

/// How many of the first `n` places of a listing go before a member.
proof fn lemma_some_place(
    s: Seq<(Seq<u8>, Score)>,
    m: Map<Seq<u8>, Score>,
    x: (Seq<u8>, Score),
    n: int,
) -> (q: int)
    requires
        is_ranking(s, m),
        0 <= n <= s.len(),
    ensures
        0 <= q <= n,
        forall|i: int| 0 <= i < n ==> goes_before(#[trigger] s[i], x) == (i < q),
    decreases n,
{
    if n == 0 {
        0
    } else {
        let q = lemma_some_place(s, m, x, n - 1);
        if q == n - 1 && goes_before(s[n - 1], x) {
            n
        } else {
            if q < n - 1 {
                assert(!goes_before(s[q], x));
                assert(goes_before(s[q], s[n - 1]));
                lemma_goes_before(s[q], s[n - 1], x);
            }
            q
        }
    }
}

/// Finitely many members have an order, whatever their scores.
pub proof fn lemma_has_ranking(m: Map<Seq<u8>, Score>)
    requires
        m.dom().finite(),
    ensures
        is_ranking(ranked(m), m),
        ranked(m).len() == m.dom().len(),
    decreases m.dom().len(),
{
    if m.dom().len() == 0 {
        assert(m.dom() =~= Set::empty());
        assert(is_ranking(Seq::empty(), m));
    } else {
        let k = m.dom().choose();
        let rest = m.remove(k);
        assert(rest.dom() =~= m.dom().remove(k));
        lemma_has_ranking(rest);
        let s = ranked(rest);
        let x = (k, m[k]);
        let q = lemma_some_place(s, rest, x, s.len() as int);
        lemma_rank_insert(s, rest, q, x);
        assert(rest.insert(k, m[k]) =~= m);
        assert(is_ranking(s.insert(q, x), m));
    }
    lemma_ranking(ranked(m), m);
}

/// Members with their scores, as their byte strings.
pub open spec fn pairs(v: Seq<(Vec<u8>, Score)>) -> Seq<(Seq<u8>, Score)> {
    Seq::new(v.len(), |i: int| (v[i].0@, v[i].1))
}

/// What a sorted set's members cost, with the bytes that stand for their
/// scores.
pub open spec fn score_bytes(m: Map<Seq<u8>, Score>) -> Map<Seq<u8>, Seq<u8>> {
    Map::new(|k: Seq<u8>| m.dom().contains(k), |k: Seq<u8>| m[k].model())
}

/// What a sorted set on the heap costs.
pub open spec fn zset_cost(m: Map<Seq<u8>, Score>) -> nat {
    crate::table::table_cost::<Score>(score_bytes(m))
}

/// A sorted set on the heap.
pub struct ZSetData {
    table: FlatTable<Score>,
    order: Vec<(Vec<u8>, Score)>,
    scores: Ghost<Map<Seq<u8>, Score>>,
}

impl View for ZSetData {
    type V = Map<Seq<u8>, Score>;

    /// The members with their scores.
    closed spec fn view(&self) -> Map<Seq<u8>, Score> {
        self.scores@
    }
}

impl ZSetData {
    /// The table and the order hold the same members.
    pub closed spec fn wf(&self) -> bool {
        &&& self.table.wf()
        &&& self.table@ == score_bytes(self@)
        &&& is_ranking(pairs(self.order@), self@)
    }

    /// There are finitely many members, and they have an order.
    pub proof fn lemma_wf(&self)
        requires
            self.wf(),
        ensures
            self@.dom().finite(),
            is_ranking(ranked(self@), self@),
            ranked(self@).len() == self@.dom().len(),
    {
        lemma_ranking(pairs(self.order@), self@);
    }

    /// A sorted set without members.
    pub fn new() -> (r: ZSetData)
        ensures
            r.wf(),
            r@ == Map::<Seq<u8>, Score>::empty(),
    {
        let r = ZSetData {
            table: FlatTable::new(),
            order: Vec::new(),
            scores: Ghost(Map::empty()),
        };
        assert(score_bytes(r@) =~= Map::empty());
        r
    }

    /// Number of members.
    pub fn len(&self) -> (r: usize)
        requires
            self.wf(),
        ensures
            r == self@.dom().len(),
            r == ranked(self@).len(),
            self@.dom().finite(),
    {
        proof {
            lemma_ranking(pairs(self.order@), self@);
        }
        self.order.len()
    }

    /// The bytes that the members cost, at most `u64::MAX`.
    pub fn weight(&self) -> (r: u64)
        requires
            self.wf(),
        ensures
            r == crate::list_data::capped(zset_cost(self@)),
    {
        self.table.weight()
    }

    /// A member's score.
    pub fn get(&self, member: &[u8]) -> (r: Option<Score>)
        requires
            self.wf(),
        ensures
            match r {
                Some(s) => self@.dom().contains(member@) && self@[member@] == s,
                None => !self@.dom().contains(member@),
            },
    {
        match self.table.get(member) {
            Some(s) => {
                proof {
                    lemma_score_model(*s, self@[member@]);
                }
                Some(*s)
            },
            None => None,
        }
    }

    /// Where a member with a score belongs: how many go before it.
    fn place(&self, member: &[u8], score: Score) -> (r: usize)
        requires
            self.wf(),
        ensures
            r <= self.order@.len(),
            forall|i: int|
                0 <= i < self.order@.len() ==> goes_before(
                    #[trigger] pairs(self.order@)[i],
                    (member@, score),
                ) == (i < r),
    {
        let ghost s = pairs(self.order@);
        let ghost x = (member@, score);
        let mut lo: usize = 0;
        let mut hi: usize = self.order.len();
        while lo < hi
            invariant
                lo <= hi <= s.len(),
                s == pairs(self.order@),
                x == (member@, score),
                is_ranking(s, self@),
                forall|i: int| 0 <= i < lo ==> goes_before(#[trigger] s[i], x),
                forall|i: int| hi <= i < s.len() ==> !goes_before(#[trigger] s[i], x),
            decreases hi - lo,
        {
            let mid: usize = lo + (hi - lo) / 2;
            let e = &self.order[mid];
            assert(s[mid as int] == (e.0@, e.1));
            if before(e.0.as_slice(), e.1, member, score) {
                proof {
                    assert forall|i: int| 0 <= i < mid + 1 implies goes_before(
                        #[trigger] s[i],
                        x,
                    ) by {
                        if i < mid {
                            assert(goes_before(s[i], s[mid as int]));
                            lemma_goes_before(s[i], s[mid as int], x);
                        }
                    }
                }
                lo = mid + 1;
            } else {
                proof {
                    assert forall|i: int| mid <= i < s.len() implies !goes_before(
                        #[trigger] s[i],
                        x,
                    ) by {
                        if i > mid {
                            assert(goes_before(s[mid as int], s[i]));
                            lemma_goes_before(s[mid as int], s[i], x);
                        }
                    }
                }
                hi = mid;
            }
        }
        lo
    }

    /// How many members go before a member.
    pub fn rank(&self, member: &[u8]) -> (r: Option<usize>)
        requires
            self.wf(),
        ensures
            match r {
                Some(i) => i < ranked(self@).len() && ranked(self@)[i as int].0 == member@,
                None => !self@.dom().contains(member@),
            },
    {
        match self.get(member) {
            None => None,
            Some(score) => {
                let i: usize = self.place(member, score);
                proof {
                    self.lemma_at_place(member@, i as int);
                    lemma_ranking(pairs(self.order@), self@);
                }
                Some(i)
            },
        }
    }

    /// A member stands where as many go before it.
    proof fn lemma_at_place(&self, k: Seq<u8>, p: int)
        requires
            self.wf(),
            self@.dom().contains(k),
            0 <= p <= self.order@.len(),
            forall|i: int|
                0 <= i < self.order@.len() ==> goes_before(
                    #[trigger] pairs(self.order@)[i],
                    (k, self@[k]),
                ) == (i < p),
        ensures
            p < self.order@.len(),
            pairs(self.order@)[p] == (k, self@[k]),
    {
        let s = pairs(self.order@);
        assert(s.contains((k, self@[k])));
        let j = choose|j: int| 0 <= j < s.len() && s[j] == (k, self@[k]);
        lemma_goes_before(s[j], s[j], s[j]);
        if p < j {
            assert(goes_before(s[p], s[j]));
        }
    }

    /// Gives a member a score and hands back the one that it had.
    pub fn insert(&mut self, member: &[u8], score: Score) -> (r: Option<Score>)
        requires
            old(self).wf(),
        ensures
            final(self).wf(),
            final(self)@ == old(self)@.insert(member@, score),
            match r {
                Some(s) => old(self)@.dom().contains(member@) && old(self)@[member@] == s,
                None => !old(self)@.dom().contains(member@),
            },
    {
        let ghost m = self@;
        match self.get(member) {
            Some(was) => {
                if !was.precedes(score) && !score.precedes(was) {
                    proof {
                        Score::lemma_rank(was, score);
                        assert(m.insert(member@, score) =~= m);
                    }
                    return Some(was);
                }
                self.remove(member);
                assert(m.remove(member@).insert(member@, score) =~= m.insert(member@, score));
                self.add(member, score);
                Some(was)
            },
            None => {
                self.add(member, score);
                None
            },
        }
    }

    /// Adds a member that is not there.
    fn add(&mut self, member: &[u8], score: Score)
        requires
            old(self).wf(),
            !old(self)@.dom().contains(member@),
        ensures
            final(self).wf(),
            final(self)@ == old(self)@.insert(member@, score),
    {
        let ghost m = self@;
        let ghost s = pairs(self.order@);
        let at: usize = self.place(member, score);
        self.order.insert(at, (copy_bytes(member), score));
        self.table.insert(copy_bytes(member), score);
        self.scores = Ghost(m.insert(member@, score));
        proof {
            lemma_rank_insert(s, m, at as int, (member@, score));
            assert(pairs(self.order@) =~= s.insert(at as int, (member@, score)));
            assert(score_bytes(self@) =~= score_bytes(m).insert(member@, score.model()));
        }
    }

    /// Removes a member and hands back its score.
    pub fn remove(&mut self, member: &[u8]) -> (r: Option<Score>)
        requires
            old(self).wf(),
        ensures
            final(self).wf(),
            final(self)@ == old(self)@.remove(member@),
            match r {
                Some(s) => old(self)@.dom().contains(member@) && old(self)@[member@] == s,
                None => !old(self)@.dom().contains(member@),
            },
    {
        let ghost m = self@;
        let ghost s = pairs(self.order@);
        match self.get(member) {
            None => {
                assert(m.remove(member@) =~= m);
                None
            },
            Some(score) => {
                let at: usize = self.place(member, score);
                proof {
                    self.lemma_at_place(member@, at as int);
                    lemma_rank_remove(s, m, at as int);
                }
                self.order.remove(at);
                self.table.remove(member);
                self.scores = Ghost(m.remove(member@));
                proof {
                    assert(pairs(self.order@) =~= s.remove(at as int));
                    assert(score_bytes(self@) =~= score_bytes(m).remove(member@));
                }
                Some(score)
            },
        }
    }

    /// The member at a place of the order.
    pub fn at(&self, i: usize) -> (r: (&Vec<u8>, Score))
        requires
            self.wf(),
            i < ranked(self@).len(),
        ensures
            (r.0@, r.1) == ranked(self@)[i as int],
    {
        proof {
            lemma_ranking(pairs(self.order@), self@);
            assert(pairs(self.order@)[i as int] == (self.order@[i as int].0@, self.order@[i as int].1));
        }
        let e = &self.order[i];
        (&e.0, e.1)
    }

    /// The members from one place of the order up to another, copied out.
    pub fn slice(&self, from: usize, to: usize) -> (r: Vec<(Vec<u8>, Score)>)
        requires
            self.wf(),
            from <= to <= ranked(self@).len(),
        ensures
            pairs(r@) == ranked(self@).subrange(from as int, to as int),
    {
        let ghost s = ranked(self@);
        let mut out: Vec<(Vec<u8>, Score)> = Vec::new();
        let mut i: usize = from;
        assert(pairs(out@) =~= s.subrange(from as int, from as int));
        while i < to
            invariant
                self.wf(),
                s == ranked(self@),
                from <= i <= to <= s.len(),
                pairs(out@) == s.subrange(from as int, i as int),
            decreases to - i,
        {
            let (m, score) = self.at(i);
            let ghost was = out@;
            out.push((copy_bytes(m.as_slice()), score));
            proof {
                assert(pairs(out@) =~= pairs(was).push(s[i as int]));
                assert(s.subrange(from as int, i + 1) =~= s.subrange(from as int, i as int).push(
                    s[i as int],
                ));
            }
            i = i + 1;
        }
        out
    }
}

impl Clone for ZSetData {
    fn clone(&self) -> (r: Self)
        ensures
            self.wf() ==> r.wf(),
            self.wf() ==> r@ == self@,
    {
        let table = self.table.clone();
        let n: usize = self.order.len();
        let mut order: Vec<(Vec<u8>, Score)> = Vec::new();
        let mut i: usize = 0;
        assert(pairs(order@) =~= pairs(self.order@).take(0));
        while i < n
            invariant
                n == self.order@.len(),
                i <= n,
                pairs(order@) == pairs(self.order@).take(i as int),
            decreases n - i,
        {
            let ghost was = order@;
            order.push((copy_bytes(self.order[i].0.as_slice()), self.order[i].1));
            proof {
                assert(pairs(order@) =~= pairs(was).push(pairs(self.order@)[i as int]));
                assert(pairs(self.order@).take(i + 1) =~= pairs(self.order@).take(i as int).push(
                    pairs(self.order@)[i as int],
                ));
            }
            i = i + 1;
        }
        assert(pairs(self.order@).take(n as int) =~= pairs(self.order@));
        ZSetData { table, order, scores: self.scores }
    }
}

} // verus!
