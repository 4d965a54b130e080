//! Sorted sets: the order of members, ranges by place and by score.
use vstd::prelude::*;
use crate::score::Score;
use crate::segrows::lex_before;
use crate::sorted::{goes_before, ranked};
use crate::store::zsets::{overlaid, zrange_spec, zrevrange_spec};
use crate::value_zset::{between, in_bounds, ScoreBound};

verus! {

/// The number that the bits of a score stand for, as far as its order goes:
/// the highest bit is the sign, and the others grow with the size. Both zeros
/// are 0.
pub open spec fn size(bits: u64) -> int {
    if bits < 0x8000_0000_0000_0000u64 {
        bits as int
    } else {
        0x8000_0000_0000_0000 - bits as int
    }
}

/// Byte strings are ordered by the first byte in which they differ, and one
/// that is the beginning of another comes before it.
pub proof fn lemma_byte_order(p: Seq<u8>, x: u8, y: u8, a: Seq<u8>, b: Seq<u8>)
    ensures
        x < y ==> lex_before(p + seq![x] + a, p + seq![y] + b),
        x > y ==> !lex_before(p + seq![x] + a, p + seq![y] + b),
        lex_before(p, p + seq![x] + a),
        !lex_before(p + seq![x] + a, p),
        !lex_before(p, p),
    decreases p.len(),
{
    let l = p + seq![x] + a;
    let r = p + seq![y] + b;
    crate::segrows::lemma_lex_total(p, p);
    if p.len() == 0 {
        assert(l[0] == x && r[0] == y);
    } else {
        let q = p.skip(1);
        lemma_byte_order(q, x, y, a, b);
        assert(l[0] == p[0] && r[0] == p[0]);
        assert(l.subrange(1, l.len() as int) =~= q + seq![x] + a);
        assert(r.subrange(1, r.len() as int) =~= q + seq![y] + b);
        assert(p.subrange(1, p.len() as int) =~= q);
    }
}

/// Of two members the one with the lower score goes first, whatever they are
/// called; under one score their names decide.
pub proof fn lemma_lower_score_first(k: Seq<u8>, l: Seq<u8>, x: u64, y: u64)
    ensures
        size(x) < size(y) ==> goes_before((k, Score::of_bits(x)), (l, Score::of_bits(y)))
            && !goes_before((l, Score::of_bits(y)), (k, Score::of_bits(x))),
        goes_before((k, Score::of_bits(x)), (l, Score::of_bits(x))) <==> lex_before(k, l),
{
    Score::lemma_of_bits(x);
    Score::lemma_of_bits(y);
    crate::score::lemma_rank_order(x, y);
    crate::score::lemma_rank_order(y, x);
    Score::lemma_rank(Score::of_bits(x), Score::of_bits(y));
}

/// A score is within bounds just if its number is: a bound that is exclusive
/// leaves its own number out, one that is not takes it in.
pub proof fn lemma_bounds(x: u64, min: u64, max: u64, no_min: bool, no_max: bool)
    ensures
        in_bounds(
            Score::of_bits(x),
            ScoreBound { value: Score::of_bits(min), exclusive: no_min },
            ScoreBound { value: Score::of_bits(max), exclusive: no_max },
        ) <==> (size(min) < size(x) || (size(min) == size(x) && !no_min)) && (size(x) < size(max)
            || (size(x) == size(max) && !no_max)),
{
    lemma_level(x, min);
    lemma_level(x, max);
    lemma_level(min, x);
    lemma_level(max, x);
}

proof fn lemma_level(x: u64, y: u64)
    ensures
        Score::of_bits(x).level() < Score::of_bits(y).level() <==> size(x) < size(y),
{
    Score::lemma_of_bits(x);
    Score::lemma_of_bits(y);
}

/// A listing by score holds just the members whose scores are within the
/// bounds, in the order of the set.
pub proof fn lemma_by_score(
    m: Map<Seq<u8>, Score>,
    min: ScoreBound,
    max: ScoreBound,
    k: Seq<u8>,
)
    requires
        m.dom().finite(),
    ensures
        ({
            let v = between(m, min, max);
            &&& m.dom().contains(k) ==> (v.contains((k, m[k])) <==> in_bounds(m[k], min, max))
            &&& forall|i: int|
                0 <= i < v.len() ==> m.dom().contains((#[trigger] v[i]).0) && m[v[i].0] == v[i].1
            &&& forall|i: int, j: int|
                #![trigger v[i], v[j]]
                0 <= i < j < v.len() ==> goes_before(v[i], v[j])
        }),
{
    let s = ranked(m);
    let pred = |p: (Seq<u8>, Score)| in_bounds(p.1, min, max);
    crate::sorted::lemma_has_ranking(m);
    lemma_filtered(s, pred);
    let v = between(m, min, max);
    assert(v == s.filter(pred));
    if m.dom().contains(k) {
        assert(s.contains((k, m[k])));
    }
    assert forall|i: int| 0 <= i < v.len() implies m.dom().contains((#[trigger] v[i]).0)
        && m[v[i].0] == v[i].1 by {
        assert(v.contains(v[i]));
        let j = choose|j: int| 0 <= j < s.len() && s[j] == v[i];
        assert(s[j] == v[i]);
    }
}

proof fn lemma_filtered(s: Seq<(Seq<u8>, Score)>, pred: spec_fn((Seq<u8>, Score)) -> bool)
    requires
        forall|i: int, j: int|
            #![trigger s[i], s[j]]
            0 <= i < j < s.len() ==> goes_before(s[i], s[j]),
    ensures
        forall|x: (Seq<u8>, Score)| #[trigger]
            s.filter(pred).contains(x) <==> s.contains(x) && pred(x),
        forall|i: int, j: int|
            #![trigger s.filter(pred)[i], s.filter(pred)[j]]
            0 <= i < j < s.filter(pred).len() ==> goes_before(s.filter(pred)[i], s.filter(pred)[j]),
    decreases s.len(),
{
    let f = s.filter(pred);
    reveal(Seq::filter);
    if s.len() > 0 {
        let d = s.drop_last();
        assert forall|i: int, j: int|
            #![trigger d[i], d[j]]
            0 <= i < j < d.len() implies goes_before(d[i], d[j]) by {
            assert(goes_before(s[i], s[j]));
        }
        lemma_filtered(d, pred);
        let g = d.filter(pred);
        assert(s =~= d.push(s.last()));
        assert forall|x: (Seq<u8>, Score)| #[trigger] f.contains(x) <==> s.contains(x) && pred(x) by {
            crate::value_set::lemma_push_contains(d, s.last(), x);
            crate::value_set::lemma_push_contains(g, s.last(), x);
        }
        assert forall|i: int, j: int|
            #![trigger f[i], f[j]]
            0 <= i < j < f.len() implies goes_before(f[i], f[j]) by {
            assert(f[i] == g[i]);
            if j < g.len() {
                assert(f[j] == g[j]);
            } else {
                assert(g.contains(g[i]));
                let a = choose|a: int| 0 <= a < d.len() && d[a] == g[i];
                assert(goes_before(s[a], s[s.len() - 1]));
            }
        }
    }
}

/// A member stands behind just those that go before it: its place is as many
/// members behind the first as go before it.
pub proof fn lemma_place(m: Map<Seq<u8>, Score>, i: int, k: Seq<u8>)
    requires
        m.dom().finite(),
        0 <= i < ranked(m).len(),
        m.dom().contains(k),
    ensures
        goes_before((k, m[k]), ranked(m)[i]) <==> ranked(m).take(i).contains((k, m[k])),
{
    let s = ranked(m);
    crate::sorted::lemma_has_ranking(m);
    let x = (k, m[k]);
    assert(s.contains(x));
    let j = choose|j: int| 0 <= j < s.len() && s[j] == x;
    crate::sorted::lemma_goes_before(x, s[i], s[i]);
    crate::sorted::lemma_goes_before(s[i], x, x);
    if j < i {
        assert(goes_before(s[j], s[i]));
        assert(s.take(i)[j] == x);
    } else if j > i {
        assert(goes_before(s[i], s[j]));
    }
    if s.take(i).contains(x) {
        let a = choose|a: int| 0 <= a < i && s.take(i)[a] == x;
        assert(s[a] == x);
        assert(goes_before(s[a], s[i]));
    }
}

/// A range by place: the whole, one place, two ranges that meet, and the same
/// range counted from the other end and turned round.
pub proof fn lemma_by_place(m: Map<Seq<u8>, Score>, i: i64, start: i64, stop: i64)
    requires
        ranked(m).len() <= i64::MAX,
        start > i64::MIN,
        stop > i64::MIN,
    ensures
        zrange_spec(m, 0, (-1) as i64) == ranked(m),
        0 <= i < ranked(m).len() ==> zrange_spec(m, i, i) == seq![ranked(m)[i as int]]
            && zrange_spec(m, 0, i) + zrange_spec(m, (i + 1) as i64, (-1) as i64) == ranked(m),
        -(ranked(m).len() as int) <= i < 0 ==> zrange_spec(m, i, i) == seq![
            ranked(m)[ranked(m).len() + i],
        ],
        zrevrange_spec(m, start, stop) == zrange_spec(
            m,
            (-1 - stop) as i64,
            (-1 - start) as i64,
        ).reverse(),
{
    let s = ranked(m);
    assert(zrange_spec(m, 0, (-1) as i64) =~= s);
    if 0 <= i < s.len() {
        assert(zrange_spec(m, i, i) =~= seq![s[i as int]]);
        assert(zrange_spec(m, 0, i) + zrange_spec(m, (i + 1) as i64, (-1) as i64) =~= s);
    }
    if -(s.len() as int) <= i < 0 {
        assert(zrange_spec(m, i, i) =~= seq![s[s.len() + i]]);
    }
    assert(zrevrange_spec(m, start, stop) =~= zrange_spec(
        m,
        (-1 - stop) as i64,
        (-1 - start) as i64,
    ).reverse());
}

/// Members that are given no score keep theirs, and none is made or lost.
pub proof fn lemma_others_keep(m: Map<Seq<u8>, Score>, ps: Seq<(Seq<u8>, Score)>, k: Seq<u8>)
    ensures
        (forall|j: int| 0 <= j < ps.len() ==> (#[trigger] ps[j]).0 != k) ==> overlaid(
            m,
            ps,
        ).dom().contains(k) == m.dom().contains(k) && (m.dom().contains(k) ==> overlaid(m, ps)[k]
            == m[k]),
        overlaid(m, ps).dom().contains(k) ==> m.dom().contains(k) || exists|j: int|
            0 <= j < ps.len() && (#[trigger] ps[j]).0 == k,
    decreases ps.len(),
{
    if ps.len() > 0 {
        let d = ps.drop_last();
        lemma_others_keep(m, d, k);
        assert forall|j: int| 0 <= j < d.len() implies #[trigger] d[j] == ps[j] by {}
        assert(ps.last() == ps[ps.len() - 1]);
        if overlaid(m, ps).dom().contains(k) && !m.dom().contains(k) && ps.last().0 != k {
            let j = choose|j: int| 0 <= j < d.len() && (#[trigger] d[j]).0 == k;
            assert(ps[j].0 == k);
        }
    }
}

} // verus!
