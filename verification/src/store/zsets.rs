//! Sorted-set commands. No score is one of the patterns that stand for no
//! number.
use vstd::prelude::*;
use super::Store;
use crate::score::Score;
use crate::text::range_bounds;
use crate::types::StoreError;
use crate::value::Value;
use crate::value_zset::ScoreBound;

verus! {

/// The sorted set under a key, if there is one.
pub open spec fn zset_at(s: super::StoreModel, key: Seq<u8>) -> Result<
    Option<Map<Seq<u8>, Score>>,
    StoreError,
> {
    if !s.slots.dom().contains(key) {
        Ok(None)
    } else {
        match s.slots[key].value {
            crate::value::Val::Sorted(m) => Ok(Some(m)),
            _ => Err(StoreError::WrongType),
        }
    }
}

/// A sorted set in place of the one under a key; an empty one takes the key
/// along.
pub open spec fn resorted(
    s: super::StoreModel,
    key: Seq<u8>,
    m: Map<Seq<u8>, Score>,
) -> super::StoreModel {
    if m == Map::<Seq<u8>, Score>::empty() {
        super::dropped(s, key)
    } else {
        super::revalued(s, key, crate::value::Val::Sorted(m))
    }
}

/// Scored members that a slice of them refers to.
pub open spec fn scored(v: Seq<(Score, &[u8])>) -> Seq<(Seq<u8>, Score)> {
    Seq::new(v.len(), |i: int| (v[i].1@, v[i].0))
}

/// A sorted set with members given scores, one after the other.
pub open spec fn overlaid(m: Map<Seq<u8>, Score>, ps: Seq<(Seq<u8>, Score)>) -> Map<
    Seq<u8>,
    Score,
>
    decreases ps.len(),
{
    if ps.len() == 0 {
        m
    } else {
        overlaid(m, ps.drop_last()).insert(ps.last().0, ps.last().1)
    }
}

/// Pairs of a sorted set, laid over nothing, give back what they name of it.
pub proof fn lemma_overlaid(m: Map<Seq<u8>, Score>, ps: Seq<(Seq<u8>, Score)>)
    requires
        forall|i: int|
            0 <= i < ps.len() ==> m.dom().contains((#[trigger] ps[i]).0) && m[ps[i].0] == ps[i].1,
    ensures
        forall|k: Seq<u8>| #[trigger]
            overlaid(Map::empty(), ps).dom().contains(k) ==> m.dom().contains(k) && overlaid(
                Map::empty(),
                ps,
            )[k] == m[k],
        forall|i: int|
            0 <= i < ps.len() ==> overlaid(Map::empty(), ps).dom().contains((#[trigger] ps[i]).0),
    decreases ps.len(),
{
    if ps.len() > 0 {
        let d = ps.drop_last();
        assert forall|i: int| 0 <= i < d.len() implies m.dom().contains((#[trigger] d[i]).0)
            && m[d[i].0] == d[i].1 by {
            assert(d[i] == ps[i]);
        }
        lemma_overlaid(m, d);
        assert(ps[ps.len() - 1] == ps.last());
        let all = overlaid(Map::empty(), ps);
        let part = overlaid(Map::empty(), d);
        assert(all == part.insert(ps.last().0, ps.last().1));
        assert forall|k: Seq<u8>| #[trigger] all.dom().contains(k) implies m.dom().contains(k)
            && all[k] == m[k] by {
            if k != ps.last().0 {
                assert(part.dom().contains(k));
            }
        }
        assert forall|i: int| 0 <= i < ps.len() implies overlaid(
            Map::empty(),
            ps,
        ).dom().contains((#[trigger] ps[i]).0) by {
            if i < d.len() {
                assert(d[i] == ps[i]);
            }
        }
    }
}

/// The members without their scores.
pub open spec fn names(ps: Seq<(Seq<u8>, Score)>) -> Seq<Seq<u8>> {
    Seq::new(ps.len(), |i: int| ps[i].0)
}

/// The members at the places of the order that a range covers.
pub open spec fn zrange_spec(m: Map<Seq<u8>, Score>, start: i64, stop: i64) -> Seq<
    (Seq<u8>, Score),
> {
    let s = crate::sorted::ranked(m);
    match crate::text::range_bounds_spec(start, stop, s.len()) {
        Some((a, b)) => s.subrange(a as int, (b + 1) as int),
        None => Seq::empty(),
    }
}

/// The members at the places of the order that a range covers, counted from
/// the last one.
pub open spec fn zrevrange_spec(m: Map<Seq<u8>, Score>, start: i64, stop: i64) -> Seq<
    (Seq<u8>, Score),
> {
    let s = crate::sorted::ranked(m).reverse();
    match crate::text::range_bounds_spec(start, stop, s.len()) {
        Some((a, b)) => s.subrange(a as int, (b + 1) as int),
        None => Seq::empty(),
    }
}

proof fn lemma_remove_more(m: Map<Seq<u8>, Score>, ks: Seq<Seq<u8>>, i: int)
    requires
        0 <= i < ks.len(),
    ensures
        m.remove_keys(ks.take(i).to_set()).remove(ks[i]) == m.remove_keys(ks.take(i + 1).to_set()),
{
    crate::value_set::lemma_take_set(ks, i);
    assert(m.remove_keys(ks.take(i).to_set()).remove(ks[i]) =~= m.remove_keys(
        ks.take(i + 1).to_set(),
    ));
}

/// Removes members from a sorted set.
fn take_out(v: &mut Value, gone: &Vec<(Vec<u8>, Score)>)
    requires
        old(v).wf(),
        old(v)@ is Sorted,
    ensures
        final(v).wf(),
        final(v)@ == crate::value::Val::Sorted(
            old(v).scores().remove_keys(names(crate::sorted::pairs(gone@)).to_set()),
        ),
{
    let ghost m = v.scores();
    let ghost ks = names(crate::sorted::pairs(gone@));
    let mut i: usize = 0;
    proof {
        assert(ks.take(0).to_set() =~= Set::<Seq<u8>>::empty());
        assert(m.remove_keys(ks.take(0).to_set()) =~= m);
    }
    while i < gone.len()
        invariant
            v.wf(),
            ks == names(crate::sorted::pairs(gone@)),
            i <= gone@.len(),
            v@ == crate::value::Val::Sorted(m.remove_keys(ks.take(i as int).to_set())),
        decreases gone@.len() - i,
    {
        assert(ks[i as int] == gone@[i as int].0@);
        v.zset_remove(gone[i].0.as_slice());
        proof {
            lemma_remove_more(m, ks, i as int);
        }
        i = i + 1;
    }
    assert(ks.take(gone@.len() as int) =~= ks);
}

impl Store {
    /// Gives members of the sorted set under a key their scores, one after
    /// the other. Gives how many were new.
    pub fn zadd(&mut self, key: &[u8], pairs: &[(Score, &[u8])]) -> (r: Result<usize, StoreError>)
        requires
            old(self).wf(),
        ensures
            match zset_at(super::seen(old(self)@, key@), key@) {
                _ if pairs@.len() == 0 => r == Ok::<usize, StoreError>(0) && *final(self)
                    == *old(self),
                Err(e) => r == Err::<usize, StoreError>(e) && final(self).became(
                    *old(self),
                    super::seen(old(self)@, key@),
                ),
                Ok(None) => {
                    let m = overlaid(Map::empty(), scored(pairs@));
                    &&& r matches Ok(n)
                    &&& n == m.dom().len()
                    &&& final(self).became(
                        *old(self),
                        super::put(
                            super::seen(old(self)@, key@),
                            key@,
                            crate::entry::Slot {
                                value: crate::value::Val::Sorted(m),
                                expire: None,
                            },
                        ),
                    )
                },
                Ok(Some(m0)) => {
                    let m = overlaid(m0, scored(pairs@));
                    &&& r matches Ok(n)
                    &&& n == m.dom().len() - m0.dom().len()
                    &&& final(self).became(
                        *old(self),
                        super::revalued(
                            super::seen(old(self)@, key@),
                            key@,
                            crate::value::Val::Sorted(m),
                        ),
                    )
                },
            },
            final(self).kept_others(*old(self), key@),
            pairs@.len() == 0 ==> *final(self) == *old(self),
            pairs@.len() > 0 ==> final(self).used_at(*old(self), key@),
    {
        let n: usize = pairs.len();
        if n == 0 {
            return Ok(0);
        }
        let ghost all = scored(pairs@);
        let there: bool = self.live(key);
        let ghost t = self@;
        let mut v = if there {
            let fits: bool = match self.value_ref(key) {
                Some(v) => v.is_zset(),
                None => false,
            };
            if !fits {
                return Err(StoreError::WrongType);
            }
            self.lend(key)
        } else {
            Value::zset_of(pairs[0].1, pairs[0].0)
        };
        let ghost m0: Map<Seq<u8>, Score> = if there {
            v.scores()
        } else {
            Map::empty()
        };
        let mut i: usize = if there {
            0
        } else {
            1
        };
        let mut added: usize = i;
        proof {
            v.lemma_scores();
            assert(all.take(0) =~= Seq::empty());
            assert(all.take(1).drop_last() =~= Seq::empty());
            assert(all.take(1).last() == all[0]);
            reveal_with_fuel(overlaid, 2);
            assert(m0.dom().finite());
            if !there {
                let one = Map::<Seq<u8>, Score>::empty().insert(all[0].0, all[0].1);
                assert(one.dom() =~= Set::<Seq<u8>>::empty().insert(all[0].0));
            }
        }
        while i < n
            invariant
                n == pairs@.len(),
                all == scored(pairs@),
                i <= n,
                added <= i,
                v.wf(),
                v@ is Sorted,
                m0.dom().finite(),
                v.scores().dom().finite(),
                v.scores() == overlaid(m0, all.take(i as int)),
                added + m0.dom().len() == v.scores().dom().len(),
            decreases n - i,
        {
            let ghost before = v.scores();
            assert(all[i as int] == (pairs@[i as int].1@, pairs@[i as int].0));
            if v.zset_set(pairs[i].1, pairs[i].0) {
                added = added + 1;
            }
            proof {
                assert(all.take(i + 1).drop_last() =~= all.take(i as int));
                assert(all.take(i + 1).last() == all[i as int]);
                assert(v.scores().dom() =~= before.dom().insert(all[i as int].0));
            }
            i = i + 1;
        }
        proof {
            assert(all.take(n as int) =~= all);
        }
        if there {
            self.restore(key, v);
            proof {
                super::lists::lemma_revalue_twice(
                    t,
                    key@,
                    crate::value::Val::Str(crate::text::decimal(0)),
                    v@,
                );
            }
        } else {
            self.insert_entry(key, v, None);
        }
        Ok(added)
    }

    /// Puts a sorted set that was lent back, or drops the key if it is
    /// empty.
    fn restore_zset(&mut self, key: &[u8], v: Value)
        requires
            old(self).wf(),
            old(self)@.slots.dom().contains(key@),
            v.wf(),
            v@ is Sorted,
        ensures
            final(self).became(*old(self), resorted(old(self)@, key@, v.scores())),
            final(self).kept_others(*old(self), key@),
            final(self).use_clock() == old(self).use_clock(),
            final(self)@.slots.dom().contains(key@) ==> final(self).held(key@) == v
                && final(self).mark(key@) == old(self).mark(key@),
    {
        let n: usize = v.zset_len();
        proof {
            if n == 0 {
                assert(v.scores().dom() =~= Set::empty());
                assert(v.scores() =~= Map::empty());
            }
            assert(Map::<Seq<u8>, Score>::empty().dom() =~= Set::empty());
        }
        if n == 0 {
            self.remove_entry(key);
        } else {
            self.restore(key, v);
        }
    }

    /// Removes members from the sorted set under a key. Gives how many went.
    pub fn zrem(&mut self, key: &[u8], members: &[&[u8]]) -> (r: Result<usize, StoreError>)
        requires
            old(self).wf(),
        ensures
            match zset_at(super::seen(old(self)@, key@), key@) {
                Err(e) => r == Err::<usize, StoreError>(e) && final(self).became(
                    *old(self),
                    super::seen(old(self)@, key@),
                ),
                Ok(None) => r == Ok::<usize, StoreError>(0) && final(self).became(
                    *old(self),
                    super::seen(old(self)@, key@),
                ),
                Ok(Some(m0)) => {
                    let m = m0.remove_keys(super::lists::referred(members@).to_set());
                    &&& r matches Ok(n)
                    &&& n == m0.dom().len() - m.dom().len()
                    &&& final(self).became(
                        *old(self),
                        resorted(super::seen(old(self)@, key@), key@, m),
                    )
                },
            },
            final(self).kept_others(*old(self), key@),
            final(self).used_at(*old(self), key@),
    {
        if !self.live(key) {
            return Ok(0);
        }
        let ghost t = self@;
        let fits: bool = match self.value_ref(key) {
            Some(v) => v.is_zset(),
            None => false,
        };
        if !fits {
            return Err(StoreError::WrongType);
        }
        let n: usize = members.len();
        let mut v = self.lend(key);
        let ghost all = super::lists::referred(members@);
        let ghost m0 = v.scores();
        let mut removed: usize = 0;
        let mut i: usize = 0;
        proof {
            v.lemma_scores();
            assert(all.take(0).to_set() =~= Set::<Seq<u8>>::empty());
            assert(m0.remove_keys(all.take(0).to_set()) =~= m0);
        }
        while i < n
            invariant
                n == members@.len(),
                all == super::lists::referred(members@),
                i <= n,
                removed <= i,
                v.wf(),
                v@ is Sorted,
                m0.dom().finite(),
                v.scores().dom().finite(),
                v.scores() == m0.remove_keys(all.take(i as int).to_set()),
                removed + v.scores().dom().len() == m0.dom().len(),
            decreases n - i,
        {
            let ghost before = v.scores();
            if v.zset_remove(members[i]) {
                removed = removed + 1;
            }
            proof {
                lemma_remove_more(m0, all, i as int);
                assert(v.scores().dom() =~= before.dom().remove(all[i as int]));
                if !before.dom().contains(all[i as int]) {
                    assert(v.scores() =~= before);
                }
            }
            i = i + 1;
        }
        proof {
            assert(all.take(n as int) =~= all);
            super::lists::lemma_revalue_twice(
                t,
                key@,
                crate::value::Val::Str(crate::text::decimal(0)),
                v@,
            );
        }
        self.restore_zset(key, v);
        Ok(removed)
    }

    /// The score of a member of the sorted set under a key.
    pub fn zscore(&mut self, key: &[u8], member: &[u8]) -> (r: Result<Option<Score>, StoreError>)
        requires
            old(self).wf(),
        ensures
            final(self).became(*old(self), super::seen(old(self)@, key@)),
            match zset_at(super::seen(old(self)@, key@), key@) {
                Ok(Some(m)) => r == Ok::<Option<Score>, StoreError>(
                    if m.dom().contains(member@) {
                        Some(m[member@])
                    } else {
                        None
                    },
                ),
                Ok(None) => r == Ok::<Option<Score>, StoreError>(None),
                Err(e) => r == Err::<Option<Score>, StoreError>(e),
            },
            final(self).kept_others(*old(self), key@),
            final(self).used_at(*old(self), key@),
    {
        if !self.live(key) {
            return Ok(None);
        }
        match self.value_ref(key) {
            None => Ok(None),
            Some(v) => if v.is_zset() {
                Ok(v.zset_score(member))
            } else {
                Err(StoreError::WrongType)
            },
        }
    }

    /// How many members the sorted set under a key has, 0 if there is none.
    pub fn zcard(&mut self, key: &[u8]) -> (r: Result<usize, StoreError>)
        requires
            old(self).wf(),
        ensures
            final(self).became(*old(self), super::seen(old(self)@, key@)),
            match zset_at(super::seen(old(self)@, key@), key@) {
                Ok(Some(m)) => r matches Ok(n) && n == m.dom().len(),
                Ok(None) => r == Ok::<usize, StoreError>(0),
                Err(e) => r == Err::<usize, StoreError>(e),
            },
            final(self).kept_others(*old(self), key@),
            final(self).used_at(*old(self), key@),
    {
        if !self.live(key) {
            return Ok(0);
        }
        match self.value_ref(key) {
            None => Ok(0),
            Some(v) => if v.is_zset() {
                Ok(v.zset_len())
            } else {
                Err(StoreError::WrongType)
            },
        }
    }

    /// How many members of the sorted set under a key go before a member.
    pub fn zrank(&mut self, key: &[u8], member: &[u8]) -> (r: Result<Option<usize>, StoreError>)
        requires
            old(self).wf(),
        ensures
            final(self).became(*old(self), super::seen(old(self)@, key@)),
            match zset_at(super::seen(old(self)@, key@), key@) {
                Ok(Some(m)) => match r {
                    Ok(Some(i)) => i < crate::sorted::ranked(m).len() && crate::sorted::ranked(
                        m,
                    )[i as int].0 == member@,
                    Ok(None) => !m.dom().contains(member@),
                    Err(_) => false,
                },
                Ok(None) => r == Ok::<Option<usize>, StoreError>(None),
                Err(e) => r == Err::<Option<usize>, StoreError>(e),
            },
            final(self).kept_others(*old(self), key@),
            final(self).used_at(*old(self), key@),
    {
        if !self.live(key) {
            return Ok(None);
        }
        match self.value_ref(key) {
            None => Ok(None),
            Some(v) => if v.is_zset() {
                Ok(v.zset_rank(member))
            } else {
                Err(StoreError::WrongType)
            },
        }
    }

    /// The members of the sorted set under a key at the places `start ..=
    /// stop` of the order, with their scores. Either end may count from the
    /// last one.
    pub fn zrange(&mut self, key: &[u8], start: i64, stop: i64) -> (r: Result<
        Vec<(Vec<u8>, Score)>,
        StoreError,
    >)
        requires
            old(self).wf(),
        ensures
            final(self).became(*old(self), super::seen(old(self)@, key@)),
            match zset_at(super::seen(old(self)@, key@), key@) {
                Ok(Some(m)) => r matches Ok(v) && crate::sorted::pairs(v@) == zrange_spec(
                    m,
                    start,
                    stop,
                ),
                Ok(None) => r matches Ok(v) && v@.len() == 0,
                Err(e) => r == Err::<Vec<(Vec<u8>, Score)>, StoreError>(e),
            },
            final(self).kept_others(*old(self), key@),
            final(self).used_at(*old(self), key@),
    {
        if !self.live(key) {
            return Ok(Vec::new());
        }
        match self.value_ref(key) {
            None => Ok(Vec::new()),
            Some(v) => if v.is_zset() {
                proof {
                    v.lemma_scores();
                }
                match range_bounds(start, stop, v.zset_len()) {
                    None => {
                        let out: Vec<(Vec<u8>, Score)> = Vec::new();
                        assert(crate::sorted::pairs(out@) =~= Seq::empty());
                        Ok(out)
                    },
                    Some((a, b)) => Ok(v.zset_slice(a, b + 1)),
                }
            } else {
                Err(StoreError::WrongType)
            },
        }
    }

    /// The members of the sorted set under a key at the places `start ..=
    /// stop` of the order counted from the last one, last one first, with
    /// their scores.
    pub fn zrevrange(&mut self, key: &[u8], start: i64, stop: i64) -> (r: Result<
        Vec<(Vec<u8>, Score)>,
        StoreError,
    >)
        requires
            old(self).wf(),
        ensures
            final(self).became(*old(self), super::seen(old(self)@, key@)),
            match zset_at(super::seen(old(self)@, key@), key@) {
                Ok(Some(m)) => r matches Ok(v) && crate::sorted::pairs(v@) == zrevrange_spec(
                    m,
                    start,
                    stop,
                ),
                Ok(None) => r matches Ok(v) && v@.len() == 0,
                Err(e) => r == Err::<Vec<(Vec<u8>, Score)>, StoreError>(e),
            },
            final(self).kept_others(*old(self), key@),
            final(self).used_at(*old(self), key@),
    {
        if !self.live(key) {
            return Ok(Vec::new());
        }
        match self.value_ref(key) {
            None => Ok(Vec::new()),
            Some(v) => if v.is_zset() {
                proof {
                    v.lemma_scores();
                }
                let n: usize = v.zset_len();
                match range_bounds(start, stop, n) {
                    None => {
                        let out: Vec<(Vec<u8>, Score)> = Vec::new();
                        assert(crate::sorted::pairs(out@) =~= Seq::empty());
                        Ok(out)
                    },
                    Some((a, b)) => {
                        let ghost s = crate::sorted::ranked(v.scores());
                        let up = v.zset_slice(n - 1 - b, n - a);
                        let out = turned(up);
                        assert(crate::sorted::pairs(out@) =~= s.reverse().subrange(a as int, b + 1));
                        Ok(out)
                    },
                }
            } else {
                Err(StoreError::WrongType)
            },
        }
    }

    /// The members of the sorted set under a key with scores within two
    /// bounds, in their order, with their scores.
    pub fn zrange_by_score(&mut self, key: &[u8], min: ScoreBound, max: ScoreBound) -> (r: Result<
        Vec<(Vec<u8>, Score)>,
        StoreError,
    >)
        requires
            old(self).wf(),
        ensures
            final(self).became(*old(self), super::seen(old(self)@, key@)),
            match zset_at(super::seen(old(self)@, key@), key@) {
                Ok(Some(m)) => r matches Ok(v) && crate::sorted::pairs(v@)
                    == crate::value_zset::between(m, min, max),
                Ok(None) => r matches Ok(v) && v@.len() == 0,
                Err(e) => r == Err::<Vec<(Vec<u8>, Score)>, StoreError>(e),
            },
            final(self).kept_others(*old(self), key@),
            final(self).used_at(*old(self), key@),
    {
        if !self.live(key) {
            return Ok(Vec::new());
        }
        match self.value_ref(key) {
            None => Ok(Vec::new()),
            Some(v) => if v.is_zset() {
                Ok(v.zset_between(min, max))
            } else {
                Err(StoreError::WrongType)
            },
        }
    }

    /// How many members of the sorted set under a key have scores within two
    /// bounds.
    pub fn zcount(&mut self, key: &[u8], min: ScoreBound, max: ScoreBound) -> (r: Result<
        usize,
        StoreError,
    >)
        requires
            old(self).wf(),
        ensures
            final(self).became(*old(self), super::seen(old(self)@, key@)),
            match zset_at(super::seen(old(self)@, key@), key@) {
                Ok(Some(m)) => r matches Ok(n) && n == crate::value_zset::between(
                    m,
                    min,
                    max,
                ).len(),
                Ok(None) => r == Ok::<usize, StoreError>(0),
                Err(e) => r == Err::<usize, StoreError>(e),
            },
            final(self).kept_others(*old(self), key@),
            final(self).used_at(*old(self), key@),
    {
        match self.zrange_by_score(key, min, max) {
            Ok(v) => {
                let n: usize = v.len();
                assert(crate::sorted::pairs(v@).len() == n);
                Ok(n)
            },
            Err(e) => Err(e),
        }
    }

    /// Removes the first `count` members of the sorted set under a key, or
    /// all of them if there are fewer, and gives them with their scores.
    pub fn zpopmin(&mut self, key: &[u8], count: usize) -> (r: Result<
        Vec<(Vec<u8>, Score)>,
        StoreError,
    >)
        requires
            old(self).wf(),
        ensures
            match zset_at(super::seen(old(self)@, key@), key@) {
                Err(e) => r == Err::<Vec<(Vec<u8>, Score)>, StoreError>(e) && final(self).became(
                    *old(self),
                    super::seen(old(self)@, key@),
                ),
                Ok(None) => (r matches Ok(v) && v@.len() == 0) && final(self).became(
                    *old(self),
                    super::seen(old(self)@, key@),
                ),
                Ok(Some(m)) => {
                    let k = super::lists::lesser(count as nat, m.dom().len());
                    let gone = crate::sorted::ranked(m).take(k as int);
                    &&& r matches Ok(v)
                    &&& crate::sorted::pairs(v@) == gone
                    &&& final(self).became(
                        *old(self),
                        resorted(
                            super::seen(old(self)@, key@),
                            key@,
                            m.remove_keys(names(gone).to_set()),
                        ),
                    )
                },
            },
            final(self).kept_others(*old(self), key@),
            final(self).used_at(*old(self), key@),
    {
        if !self.live(key) {
            return Ok(Vec::new());
        }
        let ghost t = self@;
        let fits: bool = match self.value_ref(key) {
            Some(v) => v.is_zset(),
            None => false,
        };
        if !fits {
            return Err(StoreError::WrongType);
        }
        let mut v = self.lend(key);
        proof {
            v.lemma_scores();
        }
        let n: usize = v.zset_len();
        let k: usize = if count < n {
            count
        } else {
            n
        };
        let out = v.zset_slice(0, k);
        let ghost m = v.scores();
        take_out(&mut v, &out);
        proof {
            assert(crate::sorted::ranked(m).subrange(0, k as int) =~= crate::sorted::ranked(m).take(
                k as int,
            ));
            super::lists::lemma_revalue_twice(
                t,
                key@,
                crate::value::Val::Str(crate::text::decimal(0)),
                v@,
            );
        }
        self.restore_zset(key, v);
        Ok(out)
    }

    /// Removes the members of the sorted set under a key at the places
    /// `start ..= stop` of the order. Gives how many went.
    pub fn zrem_range_by_rank(&mut self, key: &[u8], start: i64, stop: i64) -> (r: Result<
        usize,
        StoreError,
    >)
        requires
            old(self).wf(),
        ensures
            match zset_at(super::seen(old(self)@, key@), key@) {
                Err(e) => r == Err::<usize, StoreError>(e) && final(self).became(
                    *old(self),
                    super::seen(old(self)@, key@),
                ),
                Ok(None) => r == Ok::<usize, StoreError>(0) && final(self).became(
                    *old(self),
                    super::seen(old(self)@, key@),
                ),
                Ok(Some(m)) => {
                    let gone = zrange_spec(m, start, stop);
                    &&& r matches Ok(n)
                    &&& n == gone.len()
                    &&& gone.len() == 0 ==> final(self).became(
                        *old(self),
                        super::seen(old(self)@, key@),
                    )
                    &&& gone.len() > 0 ==> final(self).became(
                        *old(self),
                        resorted(
                            super::seen(old(self)@, key@),
                            key@,
                            m.remove_keys(names(gone).to_set()),
                        ),
                    )
                },
            },
            final(self).kept_others(*old(self), key@),
            final(self).used_at(*old(self), key@),
    {
        if !self.live(key) {
            return Ok(0);
        }
        let ghost t = self@;
        let n: usize = match self.value_ref(key) {
            Some(v) => if v.is_zset() {
                proof {
                    v.lemma_scores();
                }
                v.zset_len()
            } else {
                return Err(StoreError::WrongType);
            },
            None => 0,
        };
        match range_bounds(start, stop, n) {
            None => Ok(0),
            Some((a, b)) => {
                let mut v = self.lend(key);
                let gone = v.zset_slice(a, b + 1);
                take_out(&mut v, &gone);
                proof {
                    super::lists::lemma_revalue_twice(
                        t,
                        key@,
                        crate::value::Val::Str(crate::text::decimal(0)),
                        v@,
                    );
                }
                self.restore_zset(key, v);
                Ok(b + 1 - a)
            },
        }
    }
}

/// The other way round.
fn turned(v: Vec<(Vec<u8>, Score)>) -> (r: Vec<(Vec<u8>, Score)>)
    ensures
        crate::sorted::pairs(r@) == crate::sorted::pairs(v@).reverse(),
{
    let mut out: Vec<(Vec<u8>, Score)> = Vec::new();
    let mut i: usize = v.len();
    let ghost s = crate::sorted::pairs(v@);
    assert(crate::sorted::pairs(out@) =~= s.reverse().take(0));
    while i > 0
        invariant
            i <= v@.len(),
            s == crate::sorted::pairs(v@),
            crate::sorted::pairs(out@) == s.reverse().take(s.len() - i),
        decreases i,
    {
        let ghost was = out@;
        let ghost k = s.len() - i;
        i = i - 1;
        out.push((crate::bytes::copy_bytes(v[i].0.as_slice()), v[i].1));
        proof {
            assert(s.reverse()[k] == s[i as int]);
            assert(crate::sorted::pairs(out@) =~= crate::sorted::pairs(was).push(s[i as int]));
            assert(s.reverse().take(k + 1) =~= s.reverse().take(k).push(s.reverse()[k]));
        }
    }
    assert(s.reverse().take(s.len() as int) =~= s.reverse());
    out
}

/// The score that was given last is the one that a member has, whatever the
/// other members are given.
pub proof fn lemma_zadd_zscore(
    m: Map<Seq<u8>, Score>,
    ps: Seq<(Seq<u8>, Score)>,
    i: int,
)
    requires
        0 <= i < ps.len(),
        forall|j: int| i < j < ps.len() ==> (#[trigger] ps[j]).0 != ps[i].0,
    ensures
        overlaid(m, ps).dom().contains(ps[i].0),
        overlaid(m, ps)[ps[i].0] == ps[i].1,
    decreases ps.len(),
{
    if i < ps.len() - 1 {
        let qs = ps.drop_last();
        assert(forall|j: int| i < j < qs.len() ==> (#[trigger] qs[j]) == ps[j]);
        lemma_zadd_zscore(m, qs, i);
        assert(ps[ps.len() - 1].0 != ps[i].0);
    }
}

/// What is popped goes before everything that stays.
pub proof fn lemma_pop_lowest(m: Map<Seq<u8>, Score>, k: int, i: int, q: Seq<u8>)
    requires
        m.dom().finite(),
        0 <= i < k <= m.dom().len(),
        m.remove_keys(names(crate::sorted::ranked(m).take(k)).to_set()).dom().contains(q),
    ensures
        crate::sorted::goes_before(crate::sorted::ranked(m)[i], (q, m[q])),
{
    let s = crate::sorted::ranked(m);
    crate::sorted::lemma_has_ranking(m);
    let gone = names(s.take(k));
    assert(m.dom().contains(q) && !gone.contains(q));
    assert(s.contains((q, m[q])));
    let j = choose|j: int| 0 <= j < s.len() && s[j] == (q, m[q]);
    if j < k {
        assert(gone[j] == q);
    }
    assert(crate::sorted::goes_before(s[i], s[j]));
}

/// The member at a place of the order has as many members before it, and no
/// other place.
pub proof fn lemma_zrange_zrank(m: Map<Seq<u8>, Score>, i: int, j: int)
    requires
        m.dom().finite(),
        0 <= i < m.dom().len(),
        0 <= j < m.dom().len(),
    ensures
        m.dom().contains(crate::sorted::ranked(m)[i].0),
        m[crate::sorted::ranked(m)[i].0] == crate::sorted::ranked(m)[i].1,
        crate::sorted::ranked(m)[i].0 == crate::sorted::ranked(m)[j].0 ==> i == j,
{
    let s = crate::sorted::ranked(m);
    crate::sorted::lemma_has_ranking(m);
    if i < j {
        assert(crate::sorted::goes_before(s[i], s[j]));
    }
    if j < i {
        assert(crate::sorted::goes_before(s[j], s[i]));
    }
    crate::sorted::lemma_goes_before(s[i], s[i], s[i]);
}

/// Giving a member the score that it has changes nothing.
pub proof fn lemma_same_score(m: Map<Seq<u8>, Score>, k: Seq<u8>)
    requires
        m.dom().contains(k),
    ensures
        overlaid(m, seq![(k, m[k])]) == m,
{
    let ps = seq![(k, m[k])];
    assert(ps.drop_last() =~= Seq::empty());
    reveal_with_fuel(overlaid, 2);
    assert(overlaid(m, ps) =~= m);
}

/// Negative zero goes before positive zero: moving a member from one to the
/// other is a change.
pub proof fn lemma_zeros_differ(m: Map<Seq<u8>, Score>, k: Seq<u8>)
    requires
        m.dom().contains(k),
        m[k] == Score::of_bits(0x8000_0000_0000_0000),
    ensures
        overlaid(m, seq![(k, Score::of_bits(0))]) != m,
        crate::sorted::goes_before((k, m[k]), (k, Score::of_bits(0))),
{
    let ps = seq![(k, Score::of_bits(0))];
    Score::lemma_of_bits(0);
    Score::lemma_of_bits(0x8000_0000_0000_0000);
    assert(ps.drop_last() =~= Seq::empty());
    reveal_with_fuel(overlaid, 2);
    assert(overlaid(m, ps)[k] == Score::of_bits(0));
}

} // verus!
