//! Commands on sorted sets.
use vstd::prelude::*;
use crate::score::Score;
use crate::sorted::goes_before;
use crate::store::Store;
use crate::types::StoreError;
use crate::value::Val;
use crate::value_zset::ScoreBound;
use super::{deadline_kept, holds, lacks, others_kept};

verus! {

/// A member is given a score; it counts if it is new, and the others keep
/// theirs.
pub proof fn lemma_zadd(
    s: &mut Store,
    key: &[u8],
    pairs: &[(Score, &[u8])],
    r: Result<usize, StoreError>,
    m: Map<Seq<u8>, Score>,
)
    requires
        call_ensures(Store::zadd, (s, key, pairs), r),
        pairs@.len() == 1,
        m.dom().finite(),
    ensures
        holds(*old(s), key@, Val::Sorted(m)) ==> final(s)@.slots[key@].value == Val::Sorted(
            m.insert(pairs@[0].1@, pairs@[0].0),
        ) && deadline_kept(*old(s), *final(s), key@) && r == Ok::<usize, StoreError>(
            if m.dom().contains(pairs@[0].1@) {
                0
            } else {
                1
            },
        ),
        lacks(*old(s), key@) ==> final(s)@.slots[key@].value == Val::Sorted(
            map![pairs@[0].1@ => pairs@[0].0],
        ) && final(s)@.slots[key@].expire is None && r == Ok::<usize, StoreError>(1),
        others_kept(*old(s), *final(s), key@),
{
    let ps = crate::store::zsets::scored(pairs@);
    let k = pairs@[0].1@;
    let x = pairs@[0].0;
    assert(ps.len() == 1 && ps.last() == (k, x));
    assert(ps.drop_last() =~= Seq::empty());
    reveal_with_fuel(crate::store::zsets::overlaid, 2);
    assert(Map::<Seq<u8>, Score>::empty().insert(k, x) =~= map![k => x]);
    assert(map![k => x].dom() =~= set![k]);
    if m.dom().contains(k) {
        assert(m.insert(k, x).dom() =~= m.dom());
    } else {
        assert(m.insert(k, x).dom() =~= m.dom().insert(k));
    }
}

/// A member tells its score.
pub proof fn lemma_zscore(
    s: &mut Store,
    key: &[u8],
    member: &[u8],
    r: Result<Option<Score>, StoreError>,
    m: Map<Seq<u8>, Score>,
)
    requires
        call_ensures(Store::zscore, (s, key, member), r),
    ensures
        holds(*old(s), key@, Val::Sorted(m)) && m.dom().contains(member@) ==> r == Ok::<
            Option<Score>,
            StoreError,
        >(Some(m[member@])),
        holds(*old(s), key@, Val::Sorted(m)) && !m.dom().contains(member@) ==> r == Ok::<
            Option<Score>,
            StoreError,
        >(None),
        lacks(*old(s), key@) ==> r == Ok::<Option<Score>, StoreError>(None),
{
}

/// How many members there are.
pub proof fn lemma_zcard(
    s: &mut Store,
    key: &[u8],
    r: Result<usize, StoreError>,
    m: Map<Seq<u8>, Score>,
)
    requires
        call_ensures(Store::zcard, (s, key), r),
    ensures
        holds(*old(s), key@, Val::Sorted(m)) ==> (r matches Ok(n) && n == m.dom().len()),
        lacks(*old(s), key@) ==> r == Ok::<usize, StoreError>(0),
{
}

/// The rank of a member is how many members go before it.
pub proof fn lemma_zrank(
    s: &mut Store,
    key: &[u8],
    member: &[u8],
    r: Result<Option<usize>, StoreError>,
    m: Map<Seq<u8>, Score>,
)
    requires
        call_ensures(Store::zrank, (s, key, member), r),
        holds(*old(s), key@, Val::Sorted(m)),
        m.dom().finite(),
    ensures
        m.dom().contains(member@) ==> (r matches Ok(Some(i)) && i == m.dom().filter(
            |k: Seq<u8>| goes_before((k, m[k]), (member@, m[member@])),
        ).len()),
        !m.dom().contains(member@) ==> r == Ok::<Option<usize>, StoreError>(None),
{
    let q = crate::sorted::ranked(m);
    crate::sorted::lemma_has_ranking(m);
    if let Ok(Some(i)) = r {
        let i = i as int;
        assert(q[i].0 == member@);
        assert(m.dom().contains(q[i].0));
        let f = |k: Seq<u8>| goes_before((k, m[k]), (member@, m[member@]));
        let before = m.dom().filter(f);
        let names = Seq::new(i as nat, |j: int| q[j].0);
        assert forall|k: Seq<u8>| names.to_set().contains(k) <==> before.contains(k) by {
            if before.contains(k) {
                crate::laws::sorted::lemma_place(m, i, k);
                let t = q.take(i);
                let j = choose|j: int| 0 <= j < t.len() && t[j] == (k, m[k]);
                assert(names[j] == k);
            }
            if names.contains(k) {
                let j = choose|j: int| 0 <= j < names.len() && names[j] == k;
                assert(m.dom().contains(q[j].0) && m[q[j].0] == q[j].1);
                assert(goes_before(q[j], q[i]));
            }
        }
        assert(names.to_set() =~= before);
        assert forall|a: int, b: int|
            0 <= a < names.len() && 0 <= b < names.len() && a != b implies names[a] != names[b] by {
            crate::store::zsets::lemma_zrange_zrank(m, a, b);
        }
        names.unique_seq_to_set();
    } else if m.dom().contains(member@) {
        assert(q.contains((member@, m[member@])));
    }
}

/// Removed members are gone and the others keep their scores.
pub proof fn lemma_zrem(
    s: &mut Store,
    key: &[u8],
    members: &[&[u8]],
    r: Result<usize, StoreError>,
    m: Map<Seq<u8>, Score>,
    x: Seq<u8>,
)
    requires
        call_ensures(Store::zrem, (s, key, members), r),
        holds(*old(s), key@, Val::Sorted(m)),
        m.dom().contains(x),
    ensures
        (forall|i: int| 0 <= i < members@.len() ==> (#[trigger] members@[i])@ != x) ==> (
        final(s)@.slots[key@].value matches Val::Sorted(n) && n.dom().contains(x) && n[x] == m[x]),
        (exists|i: int| 0 <= i < members@.len() && (#[trigger] members@[i])@ == x) ==> (
        final(s)@.slots.dom().contains(key@) ==> (final(s)@.slots[key@].value matches Val::Sorted(n)
            && !n.dom().contains(x))),
        r is Ok,
        others_kept(*old(s), *final(s), key@),
{
    let ms = crate::store::lists::referred(members@);
    let n = m.remove_keys(ms.to_set());
    if forall|i: int| 0 <= i < members@.len() ==> (#[trigger] members@[i])@ != x {
        if ms.contains(x) {
            let i = choose|i: int| 0 <= i < ms.len() && ms[i] == x;
            assert(members@[i]@ == x);
        }
        assert(n.dom().contains(x));
        assert(n != Map::<Seq<u8>, Score>::empty());
    }
    if exists|i: int| 0 <= i < members@.len() && (#[trigger] members@[i])@ == x {
        let i = choose|i: int| 0 <= i < members@.len() && (#[trigger] members@[i])@ == x;
        assert(ms[i] == x);
        assert(ms.to_set().contains(x));
    }
}

/// A listing by score, in terms of the scores' bits: it holds a member just if
/// the score is within the bounds, and lower scores come first.
pub proof fn lemma_zrange_by_score(
    s: &mut Store,
    key: &[u8],
    min: ScoreBound,
    max: ScoreBound,
    r: Result<Vec<(Vec<u8>, Score)>, StoreError>,
    m: Map<Seq<u8>, Score>,
    k: Seq<u8>,
)
    requires
        call_ensures(Store::zrange_by_score, (s, key, min, max), r),
        holds(*old(s), key@, Val::Sorted(m)),
        m.dom().finite(),
        m.dom().contains(k),
    ensures
        r matches Ok(v) && ((exists|i: int| 0 <= i < v@.len() && (#[trigger] v@[i]).0@ == k)
            <==> crate::value_zset::in_bounds(m[k], min, max)) && (forall|i: int, j: int|
            #![trigger v@[i], v@[j]]
            0 <= i < j < v@.len() ==> goes_before((v@[i].0@, v@[i].1), (v@[j].0@, v@[j].1))),
        final(s)@ == old(s)@,
{
    let v = r->Ok_0;
    let d = crate::sorted::pairs(v@);
    crate::laws::sorted::lemma_by_score(m, min, max, k);
    assert(d.len() == v@.len());
    assert forall|i: int| 0 <= i < v@.len() implies d[i] == ((#[trigger] v@[i]).0@, v@[i].1) by {}
    if crate::value_zset::in_bounds(m[k], min, max) {
        let i = choose|i: int| 0 <= i < d.len() && d[i] == (k, m[k]);
        assert(v@[i].0@ == k);
    }
    if exists|i: int| 0 <= i < v@.len() && (#[trigger] v@[i]).0@ == k {
        let i = choose|i: int| 0 <= i < v@.len() && (#[trigger] v@[i]).0@ == k;
        assert(d[i] == (k, m[k]));
        assert(d.contains((k, m[k])));
    }
    assert forall|i: int, j: int|
        #![trigger v@[i], v@[j]]
        0 <= i < j < v@.len() implies goes_before((v@[i].0@, v@[i].1), (v@[j].0@, v@[j].1)) by {
        assert(goes_before(d[i], d[j]));
    }
}

/// Members that are popped go before all that stay.
pub proof fn lemma_zpopmin(
    s: &mut Store,
    key: &[u8],
    count: usize,
    r: Result<Vec<(Vec<u8>, Score)>, StoreError>,
    m: Map<Seq<u8>, Score>,
    i: int,
    k: Seq<u8>,
)
    requires
        call_ensures(Store::zpopmin, (s, key, count), r),
        holds(*old(s), key@, Val::Sorted(m)),
        m.dom().finite(),
    ensures
        r matches Ok(v) && v@.len() == (if count < m.dom().len() {
            count as nat
        } else {
            m.dom().len()
        }),
        0 <= i < r->Ok_0@.len() ==> m.dom().contains(r->Ok_0@[i].0@) && m[r->Ok_0@[i].0@]
            == r->Ok_0@[i].1,
        0 <= i < r->Ok_0@.len() && final(s)@.slots.dom().contains(key@) ==> (
        final(s)@.slots[key@].value matches Val::Sorted(n) && (n.dom().contains(k)
            ==> m.dom().contains(k) && n[k] == m[k] && goes_before(
            (r->Ok_0@[i].0@, r->Ok_0@[i].1),
            (k, m[k]),
        ))),
        others_kept(*old(s), *final(s), key@),
{
    let q = crate::sorted::ranked(m);
    crate::sorted::lemma_has_ranking(m);
    let v = r->Ok_0;
    let d = crate::sorted::pairs(v@);
    let c = if count < m.dom().len() {
        count as nat
    } else {
        m.dom().len()
    };
    assert(d == q.take(c as int));
    assert(d.len() == v@.len());
    if 0 <= i < v@.len() {
        assert(d[i] == (v@[i].0@, v@[i].1));
        assert(d[i] == q[i]);
        if final(s)@.slots.dom().contains(key@) {
            if let Val::Sorted(n) = final(s)@.slots[key@].value {
                if n.dom().contains(k) {
                    crate::store::zsets::lemma_pop_lowest(m, c as int, i, k);
                }
            }
        }
    }
}

/// A range by place gives the members at those places, the lowest first, and
/// counted from the highest where it is turned round.
pub proof fn lemma_zrange(
    s: &mut Store,
    key: &[u8],
    a: i64,
    b: i64,
    r: Result<Vec<(Vec<u8>, Score)>, StoreError>,
    m: Map<Seq<u8>, Score>,
    i: int,
    j: int,
)
    requires
        call_ensures(Store::zrange, (s, key, a, b), r),
        holds(*old(s), key@, Val::Sorted(m)),
        m.dom().finite(),
        m.dom().len() <= i64::MAX,
    ensures
        r is Ok,
        0 <= a <= b < m.dom().len() ==> r->Ok_0@.len() == b - a + 1,
        a == 0 && b == -1 ==> r->Ok_0@.len() == m.dom().len(),
        0 <= i < j < r->Ok_0@.len() ==> goes_before(
            (r->Ok_0@[i].0@, r->Ok_0@[i].1),
            (r->Ok_0@[j].0@, r->Ok_0@[j].1),
        ),
        0 <= i < r->Ok_0@.len() ==> m.dom().contains(r->Ok_0@[i].0@) && m[r->Ok_0@[i].0@]
            == r->Ok_0@[i].1,
        final(s)@ == old(s)@,
{
    let q = crate::sorted::ranked(m);
    crate::sorted::lemma_has_ranking(m);
    let v = r->Ok_0;
    let d = crate::sorted::pairs(v@);
    assert(d.len() == v@.len());
    if let Some((x, y)) = crate::text::range_bounds_spec(a, b, q.len()) {
        if 0 <= i < v@.len() {
            assert(d[i] == q[x + i]);
            assert(d[i] == (v@[i].0@, v@[i].1));
        }
        if 0 <= i < j < v@.len() {
            assert(d[j] == q[x + j]);
            assert(d[j] == (v@[j].0@, v@[j].1));
            assert(goes_before(q[x + i], q[x + j]));
        }
    }
}

/// Turned round, the highest come first.
pub proof fn lemma_zrevrange(
    s: &mut Store,
    key: &[u8],
    a: i64,
    b: i64,
    r: Result<Vec<(Vec<u8>, Score)>, StoreError>,
    m: Map<Seq<u8>, Score>,
    i: int,
    j: int,
)
    requires
        call_ensures(Store::zrevrange, (s, key, a, b), r),
        holds(*old(s), key@, Val::Sorted(m)),
        m.dom().finite(),
        m.dom().len() <= i64::MAX,
    ensures
        r is Ok,
        0 <= a <= b < m.dom().len() ==> r->Ok_0@.len() == b - a + 1,
        a == 0 && b == -1 ==> r->Ok_0@.len() == m.dom().len(),
        0 <= i < j < r->Ok_0@.len() ==> goes_before(
            (r->Ok_0@[j].0@, r->Ok_0@[j].1),
            (r->Ok_0@[i].0@, r->Ok_0@[i].1),
        ),
        final(s)@ == old(s)@,
{
    let q = crate::sorted::ranked(m);
    let t = q.reverse();
    crate::sorted::lemma_has_ranking(m);
    let v = r->Ok_0;
    let d = crate::sorted::pairs(v@);
    assert(d.len() == v@.len());
    if let Some((x, _y)) = crate::text::range_bounds_spec(a, b, t.len()) {
        if 0 <= i < j < v@.len() {
            assert(d[i] == t[x + i] && d[j] == t[x + j]);
            assert(d[i] == (v@[i].0@, v@[i].1));
            assert(d[j] == (v@[j].0@, v@[j].1));
            assert(t[x + i] == q[q.len() - 1 - (x + i)]);
            assert(t[x + j] == q[q.len() - 1 - (x + j)]);
            assert(goes_before(q[q.len() - 1 - (x + j)], q[q.len() - 1 - (x + i)]));
        }
    }
}

/// A count by score is how many members a listing by score has.
pub proof fn lemma_zcount(
    s: &mut Store,
    key: &[u8],
    min: ScoreBound,
    max: ScoreBound,
    r: Result<usize, StoreError>,
    m: Map<Seq<u8>, Score>,
)
    requires
        call_ensures(Store::zcount, (s, key, min, max), r),
        holds(*old(s), key@, Val::Sorted(m)),
        m.dom().finite(),
    ensures
        r matches Ok(n) && n == m.dom().filter(
            |k: Seq<u8>| crate::value_zset::in_bounds(m[k], min, max),
        ).len(),
        final(s)@ == old(s)@,
{
    let f = |k: Seq<u8>| crate::value_zset::in_bounds(m[k], min, max);
    let b = crate::value_zset::between(m, min, max);
    let names = Seq::new(b.len(), |i: int| b[i].0);
    let want = m.dom().filter(f);
    crate::laws::sorted::lemma_by_score(m, min, max, Seq::empty());
    assert forall|k: Seq<u8>| names.to_set().contains(k) <==> want.contains(k) by {
        crate::laws::sorted::lemma_by_score(m, min, max, k);
        if want.contains(k) {
            let i = choose|i: int| 0 <= i < b.len() && b[i] == (k, m[k]);
            assert(names[i] == k);
        }
        if names.contains(k) {
            let i = choose|i: int| 0 <= i < names.len() && names[i] == k;
            assert(b[i] == (k, m[k]));
            assert(b.contains((k, m[k])));
        }
    }
    assert(names.to_set() =~= want);
    assert forall|i: int, j: int|
        0 <= i < names.len() && 0 <= j < names.len() && i != j implies names[i] != names[j] by {
        if i < j {
            assert(goes_before(b[i], b[j]));
        } else {
            assert(goes_before(b[j], b[i]));
        }
        crate::sorted::lemma_goes_before(b[i], b[i], b[i]);
        assert(m[b[i].0] == b[i].1 && m[b[j].0] == b[j].1);
    }
    names.unique_seq_to_set();
}

} // verus!
