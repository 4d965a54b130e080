//! Sorted sets, whatever their encoding.
use vstd::prelude::*;
use std::sync::Arc;
use crate::score::Score;
use crate::shared::unshare;
use crate::small_zset::{promote, AddResult, SmallZSetData};
use crate::sorted::ZSetData;
use crate::value::Value;

verus! {

/// One end of a range of scores.
#[derive(Clone, Copy, Debug, PartialEq, Eq, Structural)]
pub struct ScoreBound {
    /// The score at the end.
    pub value: Score,
    /// Whether the score itself is left out.
    pub exclusive: bool,
}

/// Whether a score is within two bounds, compared as a number.
pub open spec fn in_bounds(s: Score, min: ScoreBound, max: ScoreBound) -> bool {
    &&& if min.exclusive {
        min.value.level() < s.level()
    } else {
        min.value.level() <= s.level()
    }
    &&& if max.exclusive {
        s.level() < max.value.level()
    } else {
        s.level() <= max.value.level()
    }
}

fn is_in_bounds(s: Score, min: ScoreBound, max: ScoreBound) -> (r: bool)
    ensures
        r == in_bounds(s, min, max),
{
    let n: u64 = s.number();
    let low: u64 = min.value.number();
    let high: u64 = max.value.number();
    (low < n || (low == n && !min.exclusive)) && (n < high || (n == high && !max.exclusive))
}

/// The members of a sorted set with scores within two bounds, in their
/// order.
pub open spec fn between(
    m: Map<Seq<u8>, Score>,
    min: ScoreBound,
    max: ScoreBound,
) -> Seq<(Seq<u8>, Score)> {
    crate::sorted::ranked(m).filter(|p: (Seq<u8>, Score)| in_bounds(p.1, min, max))
}

/// A clone of a sorted set is well-formed and holds the same.
proof fn lemma_zset_clone(a: Arc<ZSetData>, b: ZSetData)
    requires
        a.wf(),
        *a == b || cloned(*a, b),
    ensures
        b.wf(),
        b@ == a@,
{
}

/// What changing a list of members does to the map that it stands for.
proof fn lemma_members_map(ps: Seq<(Seq<u8>, u64)>, m: Seq<u8>, bits: u64)
    requires
        crate::small_zset::members_unique(ps),
    ensures
        !crate::small_zset::has_member(ps, m) ==> crate::small_zset::members_map(
            ps.push((m, bits)),
        ) == crate::small_zset::members_map(ps).insert(m, Score::of_bits(bits)),
        crate::small_zset::has_member(ps, m) ==> crate::small_zset::members_map(
            ps.update(crate::small_zset::member_index(ps, m), (m, bits)),
        ) == crate::small_zset::members_map(ps).insert(m, Score::of_bits(bits)),
        crate::small_zset::has_member(ps, m) ==> crate::small_zset::members_map(
            ps.remove(crate::small_zset::member_index(ps, m)),
        ) == crate::small_zset::members_map(ps).remove(m),
{
    let a = crate::small_zset::members_map(ps);
    if !crate::small_zset::has_member(ps, m) {
        let qs = ps.push((m, bits));
        assert(crate::small_zset::members_unique(qs)) by {
            assert forall|i: int, j: int|
                0 <= i < qs.len() && 0 <= j < qs.len() && i != j implies #[trigger] qs[i].0
                != #[trigger] qs[j].0 by {
                assert(!crate::small_zset::member_at(ps, m, i));
                assert(!crate::small_zset::member_at(ps, m, j));
                if i < ps.len() && j < ps.len() {
                    assert(ps[i].0 != ps[j].0);
                }
            }
        }
        assert forall|p: (Seq<u8>, u64)| p.0 != m implies #[trigger] ps.contains(p)
            == qs.contains(p) by {
            crate::value_set::lemma_push_contains(ps, (m, bits), p);
        }
        lemma_same_members(ps, qs, m);
        assert(crate::small_zset::member_at(qs, m, ps.len() as int));
        crate::small_zset::lemma_member_index(qs, m, ps.len() as int);
        assert(crate::small_zset::members_map(qs) =~= a.insert(m, Score::of_bits(bits)));
    } else {
        let at = crate::small_zset::member_index(ps, m);
        assert(crate::small_zset::member_at(ps, m, at));
        let qs = ps.update(at, (m, bits));
        assert(crate::small_zset::members_unique(qs)) by {
            assert forall|i: int, j: int|
                0 <= i < qs.len() && 0 <= j < qs.len() && i != j implies #[trigger] qs[i].0
                != #[trigger] qs[j].0 by {
                assert(ps[i].0 != ps[j].0);
            }
        }
        assert forall|p: (Seq<u8>, u64)| p.0 != m implies #[trigger] ps.contains(p)
            == qs.contains(p) by {
            if ps.contains(p) {
                let i = choose|i: int| 0 <= i < ps.len() && ps[i] == p;
                assert(qs[i] == p);
            }
            if qs.contains(p) {
                let i = choose|i: int| 0 <= i < qs.len() && qs[i] == p;
                assert(ps[i] == p);
            }
        }
        lemma_same_members(ps, qs, m);
        assert(crate::small_zset::member_at(qs, m, at));
        crate::small_zset::lemma_member_index(qs, m, at);
        assert(crate::small_zset::members_map(qs) =~= a.insert(m, Score::of_bits(bits)));
        let rs = ps.remove(at);
        assert(crate::small_zset::members_unique(rs)) by {
            assert forall|i: int, j: int|
                0 <= i < rs.len() && 0 <= j < rs.len() && i != j implies #[trigger] rs[i].0
                != #[trigger] rs[j].0 by {
                let x = if i < at {
                    i
                } else {
                    i + 1
                };
                let y = if j < at {
                    j
                } else {
                    j + 1
                };
                assert(rs[i] == ps[x] && rs[j] == ps[y]);
                assert(ps[x].0 != ps[y].0);
            }
        }
        assert forall|p: (Seq<u8>, u64)| p.0 != m implies #[trigger] ps.contains(p)
            == rs.contains(p) by {
            if ps.contains(p) {
                let i = choose|i: int| 0 <= i < ps.len() && ps[i] == p;
                let j = if i < at {
                    i
                } else {
                    i - 1
                };
                assert(rs[j] == p);
            }
            if rs.contains(p) {
                let j = choose|j: int| 0 <= j < rs.len() && rs[j] == p;
                let i = if j < at {
                    j
                } else {
                    j + 1
                };
                assert(ps[i] == p);
            }
        }
        lemma_same_members(ps, rs, m);
        assert(!crate::small_zset::has_member(rs, m)) by {
            if crate::small_zset::has_member(rs, m) {
                let j = crate::small_zset::member_index(rs, m);
                assert(crate::small_zset::member_at(rs, m, j));
                let y = if j < at {
                    j
                } else {
                    j + 1
                };
                assert(rs[j] == ps[y]);
                assert(ps[y].0 != ps[at].0);
            }
        }
        assert(crate::small_zset::members_map(rs) =~= a.remove(m));
    }
}

/// Two lists that agree on every member but one bind those members alike.
proof fn lemma_same_members(ps: Seq<(Seq<u8>, u64)>, qs: Seq<(Seq<u8>, u64)>, m: Seq<u8>)
    requires
        crate::small_zset::members_unique(ps),
        crate::small_zset::members_unique(qs),
        forall|p: (Seq<u8>, u64)|
            p.0 != m ==> #[trigger] ps.contains(p) == qs.contains(p),
    ensures
        forall|k: Seq<u8>|
            k != m ==> #[trigger] crate::small_zset::has_member(ps, k)
                == crate::small_zset::has_member(qs, k),
        forall|k: Seq<u8>|
            k != m && #[trigger] crate::small_zset::has_member(ps, k)
                ==> ps[crate::small_zset::member_index(ps, k)] == qs[crate::small_zset::member_index(
                qs,
                k,
            )],
{
    assert forall|k: Seq<u8>| k != m implies #[trigger] crate::small_zset::has_member(ps, k)
        == crate::small_zset::has_member(qs, k) && (crate::small_zset::has_member(ps, k)
        ==> ps[crate::small_zset::member_index(ps, k)] == qs[crate::small_zset::member_index(
        qs,
        k,
    )]) by {
        if crate::small_zset::has_member(ps, k) {
            let i = crate::small_zset::member_index(ps, k);
            assert(crate::small_zset::member_at(ps, k, i));
            assert(ps.contains(ps[i]));
            let j = choose|j: int| 0 <= j < qs.len() && qs[j] == ps[i];
            assert(crate::small_zset::member_at(qs, k, j));
            crate::small_zset::lemma_member_index(qs, k, j);
        }
        if crate::small_zset::has_member(qs, k) {
            let j = crate::small_zset::member_index(qs, k);
            assert(crate::small_zset::member_at(qs, k, j));
            assert(qs.contains(qs[j]));
            assert(ps.contains(qs[j]));
            let i = choose|i: int| 0 <= i < ps.len() && ps[i] == qs[j];
            assert(crate::small_zset::member_at(ps, k, i));
        }
    }
}

impl Value {
    /// The members of a sorted set with their scores, mathematically.
    pub open spec fn scores(&self) -> Map<Seq<u8>, Score> {
        self@->Sorted_0
    }

    /// A sorted set has finitely many members, and they have an order.
    pub proof fn lemma_scores(&self)
        requires
            self.wf(),
            self@ is Sorted,
        ensures
            self.scores().dom().finite(),
            crate::sorted::is_ranking(crate::sorted::ranked(self.scores()), self.scores()),
            crate::sorted::ranked(self.scores()).len() == self.scores().dom().len(),
    {
        match self {
            Value::ZSet(z) => {
                z.lemma_wf();
            },
            Value::SmallZSetInline(z) => {
                let names = Seq::new(z@.len(), |i: int| z@[i].0);
                assert forall|k: Seq<u8>| self.scores().dom().contains(k) implies names.to_set().contains(
                    k,
                ) by {
                    let i = crate::small_zset::member_index(z@, k);
                    assert(crate::small_zset::member_at(z@, k, i));
                    assert(names[i] == k);
                }
                assert(self.scores().dom().subset_of(names.to_set()));
                vstd::set_lib::lemma_len_subset(self.scores().dom(), names.to_set());
                crate::sorted::lemma_has_ranking(self.scores());
            },
            _ => {},
        }
    }

    /// A member's score.
    pub fn zset_score(&self, member: &[u8]) -> (r: Option<Score>)
        requires
            self.wf(),
            self@ is Sorted,
        ensures
            match r {
                Some(s) => self.scores().dom().contains(member@) && self.scores()[member@] == s,
                None => !self.scores().dom().contains(member@),
            },
    {
        match self {
            Value::ZSet(z) => z.get(member),
            Value::SmallZSetInline(z) => match z.score(member) {
                Some(bits) => Some(Score::from_bits(bits)),
                None => None,
            },
            _ => None,
        }
    }

    /// Number of members of a sorted set.
    pub fn zset_len(&self) -> (r: usize)
        requires
            self.wf(),
            self@ is Sorted,
        ensures
            r == self.scores().dom().len(),
            self.scores().dom().finite(),
    {
        match self {
            Value::ZSet(z) => z.len(),
            Value::SmallZSetInline(z) => promote(z).len(),
            _ => 0,
        }
    }

    /// How many members of a sorted set go before one.
    pub fn zset_rank(&self, member: &[u8]) -> (r: Option<usize>)
        requires
            self.wf(),
            self@ is Sorted,
        ensures
            match r {
                Some(i) => i < crate::sorted::ranked(self.scores()).len()
                    && crate::sorted::ranked(self.scores())[i as int].0 == member@,
                None => !self.scores().dom().contains(member@),
            },
    {
        match self {
            Value::ZSet(z) => z.rank(member),
            Value::SmallZSetInline(z) => promote(z).rank(member),
            _ => None,
        }
    }

    /// The members of a sorted set from one place of the order up to
    /// another, copied out.
    pub fn zset_slice(&self, from: usize, to: usize) -> (r: Vec<(Vec<u8>, Score)>)
        requires
            self.wf(),
            self@ is Sorted,
            from <= to <= self.scores().dom().len(),
        ensures
            crate::sorted::pairs(r@) == crate::sorted::ranked(self.scores()).subrange(
                from as int,
                to as int,
            ),
    {
        proof {
            self.lemma_scores();
        }
        match self {
            Value::ZSet(z) => z.slice(from, to),
            Value::SmallZSetInline(z) => promote(z).slice(from, to),
            _ => Vec::new(),
        }
    }

    /// The members of a sorted set with scores within two bounds, copied
    /// out in their order.
    pub fn zset_between(&self, min: ScoreBound, max: ScoreBound) -> (r: Vec<(Vec<u8>, Score)>)
        requires
            self.wf(),
            self@ is Sorted,
        ensures
            crate::sorted::pairs(r@) == between(self.scores(), min, max),
    {
        let n: usize = self.zset_len();
        let all = self.zset_slice(0, n);
        let ghost s = crate::sorted::ranked(self.scores());
        let ghost fits = |p: (Seq<u8>, Score)| in_bounds(p.1, min, max);
        let mut out: Vec<(Vec<u8>, Score)> = Vec::new();
        let mut i: usize = 0;
        proof {
            self.lemma_scores();
            assert(s.subrange(0, n as int) =~= s);
            assert(s.take(0) =~= Seq::empty());
            assert(crate::sorted::pairs(out@) =~= s.take(0).filter(fits));
        }
        while i < n
            invariant
                n == s.len(),
                n == all@.len(),
                i <= n,
                crate::sorted::pairs(all@) == s,
                fits == (|p: (Seq<u8>, Score)| in_bounds(p.1, min, max)),
                crate::sorted::pairs(out@) == s.take(i as int).filter(fits),
            decreases n - i,
        {
            let e = &all[i];
            proof {
                assert(s[i as int] == (e.0@, e.1));
                assert(s.take(i + 1).drop_last() =~= s.take(i as int));
                assert(s.take(i + 1).last() == s[i as int]);
                reveal(Seq::filter);
            }
            if is_in_bounds(e.1, min, max) {
                let ghost was = out@;
                out.push((crate::bytes::copy_bytes(e.0.as_slice()), e.1));
                assert(crate::sorted::pairs(out@) =~= crate::sorted::pairs(was).push(s[i as int]));
            }
            i = i + 1;
        }
        assert(s.take(n as int) =~= s);
        out
    }

    /// A sorted set of one member.
    pub fn zset_of(member: &[u8], score: Score) -> (r: Value)
        ensures
            r.wf(),
            r@ == crate::value::Val::Sorted(Map::<Seq<u8>, Score>::empty().insert(member@, score)),
    {
        match SmallZSetData::with_one(member, score.to_bits()) {
            Some(z) => {
                proof {
                    let ps = Seq::<(Seq<u8>, u64)>::empty();
                    let bits = z@[0].1;
                    assert(z@ =~= ps.push((member@, bits)));
                    lemma_members_map(ps, member@, bits);
                    assert(crate::small_zset::members_map(ps) =~= Map::empty());
                }
                Value::SmallZSetInline(z)
            },
            None => {
                let mut z = ZSetData::new();
                z.insert(member, score);
                Value::ZSet(Arc::new(z))
            },
        }
    }

    /// Turns an inline sorted set into one on the heap.
    fn zset_to_heap(&mut self)
        requires
            old(self).wf(),
            old(self)@ is Sorted,
        ensures
            final(self).wf(),
            final(self)@ == old(self)@,
            *final(self) is ZSet,
    {
        let heap = match self {
            Value::SmallZSetInline(z) => promote(z),
            _ => {
                return ;
            },
        };
        *self = Value::ZSet(Arc::new(heap));
    }

    /// Gives a member of a sorted set a score; says whether it was new.
    pub fn zset_set(&mut self, member: &[u8], score: Score) -> (r: bool)
        requires
            old(self).wf(),
            old(self)@ is Sorted,
        ensures
            final(self).wf(),
            final(self)@ == crate::value::Val::Sorted(old(self).scores().insert(member@, score)),
            r == !old(self).scores().dom().contains(member@),
    {
        let bits: u64 = score.to_bits();
        match self {
            Value::SmallZSetInline(z) => {
                proof {
                    z.lemma_wf();
                    lemma_members_map(z@, member@, bits);
                }
                match z.try_set(member, bits) {
                    AddResult::Added => {
                        return true;
                    },
                    AddResult::Updated => {
                        return false;
                    },
                    AddResult::NoRoom => {},
                }
            },
            _ => {},
        }
        self.zset_to_heap();
        match self {
            Value::ZSet(z) => {
                let ghost arc = *z;
                let t = unshare(z);
                proof {
                    lemma_zset_clone(arc, *t);
                }
                t.insert(member, score).is_none()
            },
            _ => false,
        }
    }

    /// Removes a member from a sorted set; says whether it was there.
    pub fn zset_remove(&mut self, member: &[u8]) -> (r: bool)
        requires
            old(self).wf(),
            old(self)@ is Sorted,
        ensures
            final(self).wf(),
            final(self)@ == crate::value::Val::Sorted(old(self).scores().remove(member@)),
            r == old(self).scores().dom().contains(member@),
    {
        let ghost before = self.scores();
        match self {
            Value::SmallZSetInline(z) => {
                proof {
                    z.lemma_wf();
                    lemma_members_map(z@, member@, 0);
                }
                let r: bool = z.try_remove(member);
                assert(!r ==> before.remove(member@) =~= before);
                r
            },
            Value::ZSet(z) => {
                let ghost arc = *z;
                let t = unshare(z);
                proof {
                    lemma_zset_clone(arc, *t);
                }
                t.remove(member).is_some()
            },
            _ => false,
        }
    }
}

} // verus!
