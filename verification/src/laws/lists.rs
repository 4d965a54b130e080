//! Lists: where elements come to stand and which ones go.
use vstd::prelude::*;
use crate::list_data::{
    occurrences, rem_limit, rem_result, taken, without_first, without_last,
};
use crate::store::lists::{
    after_move, after_pop, after_push, first_place, hits, inserted, list_at, lpos_spec, lrange_spec,
    moved, popped, pushed, unpopped,
};
use crate::store::StoreModel;
use crate::text::{norm_index_spec, range_bounds_spec};

verus! {

/// An element that is put in before another stands right before its first
/// occurrence, one that is put in behind it right behind; nothing else moves,
/// and without the new element the list is what it was.
pub proof fn lemma_insert(l: Seq<Seq<u8>>, before: bool, pivot: Seq<u8>, v: Seq<u8>)
    requires
        l.contains(pivot),
    ensures
        first_place(l, pivot) is Some,
        ({
            let i = first_place(l, pivot)->Some_0 as int;
            let m = inserted(l, before, i as nat, v);
            let at = if before {
                i
            } else {
                i + 1
            };
            &&& 0 <= i < l.len()
            &&& m.len() == l.len() + 1
            &&& forall|j: int| 0 <= j < i ==> #[trigger] l[j] != pivot && m[j] == l[j]
            &&& before ==> m[i] == v && m[i + 1] == pivot
            &&& !before ==> m[i] == pivot && m[i + 1] == v
            &&& forall|j: int| i + 1 <= j < l.len() ==> #[trigger] l[j] == m[j + 1]
            &&& m.remove(at) == l
        }),
{
    crate::store::lists::lemma_first_place(l, pivot);
    let j = choose|j: int| 0 <= j < l.len() && l[j] == pivot;
    assert(l[j] == pivot);
    let i = first_place(l, pivot)->Some_0 as int;
    let m = inserted(l, before, i as nat, v);
    let at = if before {
        i
    } else {
        i + 1
    };
    assert(m.remove(at) =~= l);
}

/// Where the pivot does not occur there is no place to put an element.
pub proof fn lemma_insert_nowhere(l: Seq<Seq<u8>>, pivot: Seq<u8>)
    ensures
        first_place(l, pivot) is None <==> !l.contains(pivot),
{
    crate::store::lists::lemma_first_place(l, pivot);
    if l.contains(pivot) {
        let j = choose|j: int| 0 <= j < l.len() && l[j] == pivot;
        assert(l[j] == pivot);
    }
    if let Some(i) = first_place(l, pivot) {
        assert(l[i as int] == pivot);
    }
}

/// Values pushed one after the other: the last one is the outermost at its
/// end, the list itself stays together at the other end.
pub proof fn lemma_push(l: Seq<Seq<u8>>, values: Seq<Seq<u8>>, v: Seq<u8>)
    ensures
        pushed(l, values.push(v), true) == seq![v] + pushed(l, values, true),
        pushed(l, values.push(v), false) == pushed(l, values, false).push(v),
        pushed(l, Seq::empty(), true) == l,
        pushed(l, Seq::empty(), false) == l,
{
    assert(pushed(l, values.push(v), true) =~= seq![v] + pushed(l, values, true));
    assert(pushed(l, values.push(v), false) =~= pushed(l, values, false).push(v));
    assert(pushed(l, Seq::empty(), true) =~= l);
    assert(pushed(l, Seq::empty(), false) =~= l);
}

/// What is popped and what stays make up the list: as many elements as were
/// asked for go, from the asked end, the outermost first.
pub proof fn lemma_pop(l: Seq<Seq<u8>>, count: nat)
    ensures
        popped(l, count, true) + unpopped(l, count, true) == l,
        unpopped(l, count, false) + popped(l, count, false).reverse() == l,
        count <= l.len() ==> popped(l, count, true).len() == count && popped(
            l,
            count,
            false,
        ).len() == count,
        count >= l.len() ==> unpopped(l, count, true).len() == 0 && unpopped(
            l,
            count,
            false,
        ).len() == 0,
{
    assert(popped(l, count, true) + unpopped(l, count, true) =~= l);
    assert(unpopped(l, count, false) + popped(l, count, false).reverse() =~= l);
}

/// A list that loses its last element takes its key along, and no other way
/// does a key go: no command finds an empty list.
pub proof fn lemma_no_empty_list(s: StoreModel, key: Seq<u8>, count: nat, front: bool)
    requires
        list_at(crate::store::seen(s, key), key) matches Ok(Some(l)) && l.len() > 0,
    ensures
        ({
            let l = list_at(crate::store::seen(s, key), key)->Ok_0->Some_0;
            let t = after_pop(s, key, count, front);
            &&& t.slots.dom().contains(key) <==> count < l.len()
            &&& t.slots.dom().contains(key) ==> (list_at(t, key) matches Ok(Some(m)) && m.len()
                == l.len() - count) && t.slots[key].expire == crate::store::seen(
                s,
                key,
            ).slots[key].expire
        }),
{
}

/// A push under a key that is not there makes the list, without a deadline;
/// under one that is, the deadline stays.
pub proof fn lemma_push_makes(s: StoreModel, key: Seq<u8>, values: Seq<Seq<u8>>, front: bool)
    requires
        values.len() > 0,
    ensures
        ({
            let t = crate::store::seen(s, key);
            let u = after_push(s, key, values, front);
            &&& !t.slots.dom().contains(key) ==> u.slots.dom().contains(key)
                && u.slots[key].expire is None && (list_at(u, key) matches Ok(Some(m)) && m.len()
                == values.len())
            &&& list_at(t, key) matches Ok(Some(l)) ==> u.slots[key].expire
                == t.slots[key].expire && (list_at(u, key) matches Ok(Some(m)) && m.len() == l.len()
                + values.len())
            &&& list_at(t, key) is Err ==> u == t
        }),
{
}

/// An element that moves leaves the asked end of its list and comes to stand
/// at the asked end of the other one; no other element of either list moves,
/// and a list that is empty by then is gone.
pub proof fn lemma_move(
    s: StoreModel,
    src: Seq<u8>,
    dst: Seq<u8>,
    from_left: bool,
    to_left: bool,
    a: Seq<Seq<u8>>,
    b: Seq<Seq<u8>>,
)
    requires
        src != dst,
        list_at(crate::store::seen(s, src), src) == Ok::<Option<Seq<Seq<u8>>>, crate::types::StoreError>(
            Some(a),
        ),
        list_at(crate::store::seen(s, dst), dst) == Ok::<Option<Seq<Seq<u8>>>, crate::types::StoreError>(
            Some(b),
        ),
        a.len() > 0,
    ensures
        ({
            let t = after_move(s, src, dst, from_left, to_left);
            let v = if from_left {
                a[0]
            } else {
                a[a.len() - 1]
            };
            let rest = if from_left {
                a.skip(1)
            } else {
                a.take(a.len() - 1)
            };
            &&& moved(s, src, dst, from_left) == Ok::<Option<Seq<u8>>, crate::types::StoreError>(
                Some(v),
            )
            &&& list_at(t, dst) == Ok::<Option<Seq<Seq<u8>>>, crate::types::StoreError>(
                Some(
                    if to_left {
                        seq![v] + b
                    } else {
                        b.push(v)
                    },
                ),
            )
            &&& list_at(t, src) == Ok::<Option<Seq<Seq<u8>>>, crate::types::StoreError>(
                if rest.len() == 0 {
                    None
                } else {
                    Some(rest)
                },
            )
        }),
{
    let t = crate::store::seen(s, dst);
    let u = after_pop(t, src, 1, from_left);
    assert(crate::store::seen(t, src).slots[src] == s.slots[src]);
    assert(list_at(crate::store::seen(t, src), src) == list_at(crate::store::seen(s, src), src));
    assert(u.slots.dom().contains(dst));
    assert(u.slots[dst] == t.slots[dst]);
    let v = moved(s, src, dst, from_left)->Ok_0->Some_0;
    if to_left {
        assert(pushed(b, seq![v], true) =~= seq![v] + b);
    } else {
        assert(pushed(b, seq![v], false) =~= b.push(v));
    }
    if from_left {
        assert(unpopped(a, 1, true) =~= a.skip(1));
    } else {
        assert(unpopped(a, 1, false) =~= a.take(a.len() - 1));
    }
}

/// Nothing is popped if there is nothing to move or if the other key holds
/// something else: every live key holds what it held, but for an empty list.
pub proof fn lemma_move_refused(
    s: StoreModel,
    src: Seq<u8>,
    dst: Seq<u8>,
    from_left: bool,
    to_left: bool,
    k: Seq<u8>,
)
    requires
        !(moved(s, src, dst, from_left) matches Ok(Some(_v))),
        crate::store::key_live(s, k, crate::store::read_now(s)),
        list_at(s, k) != Ok::<Option<Seq<Seq<u8>>>, crate::types::StoreError>(Some(Seq::empty())),
    ensures
        after_move(s, src, dst, from_left, to_left).slots.dom().contains(k),
        after_move(s, src, dst, from_left, to_left).slots[k] == s.slots[k],
{
    let t = crate::store::seen(s, dst);
    if list_at(t, dst) is Ok {
        if let Ok(Some(l)) = list_at(crate::store::seen(t, src), src) {
            assert(l =~= Seq::empty());
        }
    }
}

/// An inclusive range covers just the places that neither end excludes, each
/// end counting from the front, or from the back if it is negative.
pub proof fn lemma_range_covers(start: i64, stop: i64, len: nat, i: int)
    requires
        0 <= i < len,
    ensures
        (range_bounds_spec(start, stop, len) matches Some((s, e)) && s <= i <= e) <==> (if start
            >= 0 {
            start <= i
        } else {
            len + start <= i
        }) && (if stop >= 0 {
            i <= stop
        } else {
            i <= len + stop
        }),
{
}

/// A range of a list: the whole of it, a single place, and two ranges that
/// meet, from either end.
pub proof fn lemma_range_pieces(l: Seq<Seq<u8>>, i: i64)
    requires
        l.len() <= i64::MAX,
    ensures
        lrange_spec(l, 0, (-1) as i64) == l,
        0 <= i < l.len() ==> lrange_spec(l, i, i) == seq![l[i as int]] && lrange_spec(
            l,
            0,
            i,
        ) + lrange_spec(l, (i + 1) as i64, (-1) as i64) == l,
        -(l.len() as int) <= i < 0 ==> lrange_spec(l, i, i) == seq![l[l.len() + i]] && lrange_spec(
            l,
            i,
            (-1) as i64,
        ).len() == -i,
        i >= l.len() ==> lrange_spec(l, i, (-1) as i64).len() == 0 && lrange_spec(l, 0, i) == l,
        i < -(l.len() as int) ==> lrange_spec(l, i, (-1) as i64) == l && lrange_spec(l, 0, i).len() == 0,
{
    assert(lrange_spec(l, 0, (-1) as i64) =~= l);
    if 0 <= i < l.len() {
        assert(lrange_spec(l, i, i) =~= seq![l[i as int]]);
        assert(lrange_spec(l, 0, i) + lrange_spec(l, (i + 1) as i64, (-1) as i64) =~= l);
    }
    if -(l.len() as int) <= i < 0 {
        assert(lrange_spec(l, i, i) =~= seq![l[l.len() + i]]);
    }
    if i >= l.len() {
        assert(lrange_spec(l, 0, i) =~= l);
    }
    if i < -(l.len() as int) {
        assert(lrange_spec(l, i, (-1) as i64) =~= l);
    }
}

/// What a range gives is the stretch of the list that it covers: its `j`th
/// element is the one `j` places behind the first that is covered.
pub proof fn lemma_range_stretch(l: Seq<Seq<u8>>, start: i64, stop: i64, j: int)
    requires
        0 <= j < lrange_spec(l, start, stop).len(),
    ensures
        ({
            let s = if start >= 0 {
                start as int
            } else if l.len() + start < 0 {
                0
            } else {
                l.len() + start
            };
            &&& s + j < l.len()
            &&& lrange_spec(l, start, stop)[j] == l[s + j]
        }),
{
}

/// An index counts from the front, or from the back if it is negative, and
/// names a place just if it is not past either end.
pub proof fn lemma_index(i: i64, len: nat)
    ensures
        0 <= i < len ==> norm_index_spec(i, len) == Some(i as nat),
        -(len as int) <= i < 0 ==> norm_index_spec(i, len) == Some((len + i) as nat),
        i >= len || i < -(len as int) ==> norm_index_spec(i, len) is None,
{
}

/// How many elements equal one: each occurrence counts once.
pub proof fn lemma_occurrences(s: Seq<Seq<u8>>, x: Seq<u8>, v: Seq<u8>)
    ensures
        occurrences(Seq::empty(), v) == 0,
        occurrences(s.push(x), v) == occurrences(s, v) + (if x == v {
            1int
        } else {
            0
        }),
        occurrences(s, v) == s.to_multiset().count(v),
    decreases s.len(),
{
    assert(s.push(x).drop_last() =~= s);
    s.to_multiset_ensures();
    if s.len() == 0 {
        assert(!s.contains(v));
    } else {
        let d = s.drop_last();
        lemma_occurrences(d, s.last(), v);
        assert(s =~= d.push(s.last()));
        d.to_multiset_ensures();
        assert(s.to_multiset() =~= d.to_multiset().insert(s.last()));
    }
}

/// The elements that differ from one, in order.
pub open spec fn others(s: Seq<Seq<u8>>, v: Seq<u8>) -> Seq<Seq<u8>>
    decreases s.len(),
{
    if s.len() == 0 {
        s
    } else if s.last() == v {
        others(s.drop_last(), v)
    } else {
        others(s.drop_last(), v).push(s.last())
    }
}

/// Taking occurrences out from the front: where a stretch at the front holds
/// as many as are to go, they all go from there, the rest of it stays in
/// order, and what is behind it stays as it is.
pub proof fn lemma_remove_first(a: Seq<Seq<u8>>, b: Seq<Seq<u8>>, v: Seq<u8>, count: i64)
    requires
        count > 0,
        occurrences(a, v) == count,
    ensures
        rem_result(a + b, v, count) == others(a, v) + b,
{
    crate::list_data::lemma_without_first_add(a, b, v, count as nat);
    lemma_all_first(a, v, count as nat);
}

/// Taking occurrences out from the back, likewise.
pub proof fn lemma_remove_last(a: Seq<Seq<u8>>, b: Seq<Seq<u8>>, v: Seq<u8>, count: i64)
    requires
        count < 0,
        occurrences(b, v) == -count,
    ensures
        rem_result(a + b, v, count) == a + others(b, v),
{
    let n = (-(count as int)) as nat;
    crate::list_data::lemma_without_last_add(a, b, v, n);
    lemma_all_last(b, v, n);
}

/// Where no more occur than are to go, or all are to go, none is left and
/// every other element stays, in order.
pub proof fn lemma_remove_all(s: Seq<Seq<u8>>, v: Seq<u8>, count: i64)
    requires
        s.len() <= usize::MAX,
        count == 0 || occurrences(s, v) <= count || occurrences(s, v) <= -count,
    ensures
        rem_result(s, v, count) == others(s, v),
        taken(s, v, rem_limit(count)) == occurrences(s, v),
{
    crate::list_data::lemma_occurrences_add(s, Seq::empty(), v);
    if count >= 0 {
        lemma_all_first(s, v, rem_limit(count));
    } else {
        lemma_all_last(s, v, rem_limit(count));
    }
}

/// What is told to have gone is what is missing afterwards.
pub proof fn lemma_remove_count(s: Seq<Seq<u8>>, v: Seq<u8>, count: i64)
    requires
        s.len() <= usize::MAX,
    ensures
        rem_result(s, v, count).len() + taken(s, v, rem_limit(count)) == s.len(),
        others(rem_result(s, v, count), v) == others(s, v),
        occurrences(rem_result(s, v, count), v) + taken(s, v, rem_limit(count)) == occurrences(s, v),
        count > 0 ==> taken(s, v, rem_limit(count)) <= count,
        count < 0 ==> taken(s, v, rem_limit(count)) <= -count,
{
    if count >= 0 {
        lemma_first_count(s, v, rem_limit(count));
    } else {
        lemma_last_count(s, v, rem_limit(count));
    }
    crate::list_data::lemma_occurrences_add(s, Seq::empty(), v);
}

proof fn lemma_others_front(x: Seq<u8>, rest: Seq<Seq<u8>>, v: Seq<u8>)
    ensures
        others(seq![x] + rest, v) == (if x == v {
            others(rest, v)
        } else {
            seq![x] + others(rest, v)
        }),
        occurrences(seq![x] + rest, v) == occurrences(rest, v) + (if x == v {
            1int
        } else {
            0
        }),
    decreases rest.len(),
{
    let s = seq![x] + rest;
    if rest.len() == 0 {
        assert(s.drop_last() =~= Seq::empty());
        assert(others(s.drop_last(), v) =~= Seq::empty());
        assert(others(rest, v) =~= Seq::empty());
        assert(others(s, v) =~= if x == v {
            others(rest, v)
        } else {
            seq![x] + others(rest, v)
        });
    } else {
        lemma_others_front(x, rest.drop_last(), v);
        assert(s.drop_last() =~= seq![x] + rest.drop_last());
        assert(s.last() == rest.last());
        assert(others(s, v) =~= if x == v {
            others(rest, v)
        } else {
            seq![x] + others(rest, v)
        });
    }
}

proof fn lemma_all_first(s: Seq<Seq<u8>>, v: Seq<u8>, n: nat)
    requires
        occurrences(s, v) <= n,
    ensures
        without_first(s, v, n) == others(s, v),
    decreases s.len(),
{
    if s.len() > 0 {
        let rest = s.subrange(1, s.len() as int);
        assert(s =~= seq![s[0]] + rest);
        lemma_others_front(s[0], rest, v);
        if n == 0 {
            lemma_none(s, v);
        } else if s[0] == v {
            lemma_all_first(rest, v, (n - 1) as nat);
        } else {
            lemma_all_first(rest, v, n);
        }
    }
}

proof fn lemma_none(s: Seq<Seq<u8>>, v: Seq<u8>)
    requires
        occurrences(s, v) == 0,
    ensures
        others(s, v) == s,
    decreases s.len(),
{
    if s.len() > 0 {
        lemma_none(s.drop_last(), v);
        assert(others(s, v) =~= s);
    }
}

proof fn lemma_all_last(s: Seq<Seq<u8>>, v: Seq<u8>, n: nat)
    requires
        occurrences(s, v) <= n,
    ensures
        without_last(s, v, n) == others(s, v),
    decreases s.len(),
{
    if s.len() > 0 {
        if n == 0 {
            lemma_none(s, v);
        } else if s.last() == v {
            lemma_all_last(s.drop_last(), v, (n - 1) as nat);
        } else {
            lemma_all_last(s.drop_last(), v, n);
        }
    }
}

proof fn lemma_first_count(s: Seq<Seq<u8>>, v: Seq<u8>, n: nat)
    ensures
        without_first(s, v, n).len() + taken(s, v, n) == s.len(),
        others(without_first(s, v, n), v) == others(s, v),
        occurrences(without_first(s, v, n), v) + taken(s, v, n) == occurrences(s, v),
    decreases s.len(),
{
    if s.len() > 0 && n > 0 {
        let rest = s.subrange(1, s.len() as int);
        assert(s =~= seq![s[0]] + rest);
        lemma_others_front(s[0], rest, v);
        if s[0] == v {
            lemma_first_count(rest, v, (n - 1) as nat);
        } else {
            lemma_first_count(rest, v, n);
            lemma_others_front(s[0], without_first(rest, v, n), v);
        }
    }
}

proof fn lemma_last_count(s: Seq<Seq<u8>>, v: Seq<u8>, n: nat)
    ensures
        without_last(s, v, n).len() + taken(s, v, n) == s.len(),
        others(without_last(s, v, n), v) == others(s, v),
        occurrences(without_last(s, v, n), v) + taken(s, v, n) == occurrences(s, v),
    decreases s.len(),
{
    if s.len() > 0 && n > 0 {
        let rest = s.drop_last();
        if s.last() == v {
            lemma_last_count(rest, v, (n - 1) as nat);
        } else {
            lemma_last_count(rest, v, n);
            let w = without_last(rest, v, n);
            assert(w.push(s.last()).drop_last() =~= w);
        }
    }
}

/// The places that a search tells hold the element. They lie in the part of
/// the list that is searched, in the order of the search: from the front, or
/// from the back for a negative rank.
pub proof fn lemma_search_hits(
    l: Seq<Seq<u8>>,
    v: Seq<u8>,
    rank: i64,
    count: Option<i64>,
    maxlen: nat,
)
    requires
        rank != 0,
        count matches Some(c) ==> c >= 0,
        l.len() <= i64::MAX,
    ensures
        ({
            let r = lpos_spec(l, v, rank, count, maxlen);
            &&& forall|i: int|
                0 <= i < r.len() ==> 0 <= #[trigger] r[i] < l.len() && l[r[i] as int] == v && (maxlen
                    > 0 ==> if rank > 0 {
                    r[i] < maxlen
                } else {
                    r[i] >= l.len() - maxlen
                })
            &&& forall|i: int, j: int|
                #![trigger r[i], r[j]]
                0 <= i < j < r.len() ==> if rank > 0 {
                    r[i] < r[j]
                } else {
                    r[i] > r[j]
                }
            &&& count is None ==> r.len() <= 1
            &&& count matches Some(c) ==> c > 0 ==> r.len() <= c
        }),
{
    let steps = steps_of(l, maxlen);
    lemma_hits(l, v, rank < 0, steps);
}

/// A search without limits tells every place that holds the element.
pub proof fn lemma_search_all(l: Seq<Seq<u8>>, v: Seq<u8>, i: int)
    requires
        0 <= i < l.len() <= i64::MAX,
        l[i] == v,
    ensures
        lpos_spec(l, v, 1, Some(0), 0).contains(i as i64),
        lpos_spec(l, v, (-1) as i64, Some(0), 0).contains(i as i64),
{
    lemma_hits_all(l, v, false, l.len(), i);
    lemma_hits_all(l, v, true, l.len(), i);
    assert(hits(l, v, false, l.len()).skip(0) =~= hits(l, v, false, l.len()));
    assert(hits(l, v, true, l.len()).skip(0) =~= hits(l, v, true, l.len()));
}

/// A rank passes over as many places as it says, less one, and a count keeps
/// the first of the rest: with rank `n` the first place told is the `n`th of
/// a search without limits, and one place is told if no count is given.
pub proof fn lemma_search_rank(
    l: Seq<Seq<u8>>,
    v: Seq<u8>,
    rank: i64,
    count: Option<i64>,
    maxlen: nat,
    i: int,
)
    requires
        rank != 0,
        rank != i64::MIN,
        count matches Some(c) ==> c >= 0,
        0 <= i,
    ensures
        ({
            let all = lpos_spec(
                l,
                v,
                if rank > 0 {
                    1i64
                } else {
                    (-1) as i64
                },
                Some(0),
                maxlen,
            );
            let r = lpos_spec(l, v, rank, count, maxlen);
            let at = i + (if rank > 0 {
                rank as int
            } else {
                -(rank as int)
            }) - 1;
            let kept = match count {
                None => i < 1,
                Some(c) => c == 0 || i < c,
            };
            &&& i < r.len() <==> at < all.len() && kept
            &&& i < r.len() ==> r[i] == all[at]
        }),
{
    let all = hits(l, v, rank < 0, steps_of(l, maxlen));
    assert(all.skip(0) =~= all);
}

spec fn steps_of(l: Seq<Seq<u8>>, maxlen: nat) -> nat {
    if maxlen == 0 || maxlen >= l.len() {
        l.len()
    } else {
        maxlen
    }
}

proof fn lemma_hits(l: Seq<Seq<u8>>, v: Seq<u8>, backward: bool, k: nat)
    requires
        k <= l.len() <= i64::MAX,
    ensures
        forall|i: int|
            0 <= i < hits(l, v, backward, k).len() ==> 0 <= #[trigger] hits(l, v, backward, k)[i]
                < l.len() && l[hits(l, v, backward, k)[i] as int] == v && (if backward {
                hits(l, v, backward, k)[i] >= l.len() - k
            } else {
                hits(l, v, backward, k)[i] < k
            }),
        forall|i: int, j: int|
            #![trigger hits(l, v, backward, k)[i], hits(l, v, backward, k)[j]]
            0 <= i < j < hits(l, v, backward, k).len() ==> if backward {
                hits(l, v, backward, k)[i] > hits(l, v, backward, k)[j]
            } else {
                hits(l, v, backward, k)[i] < hits(l, v, backward, k)[j]
            },
    decreases k,
{
    if k > 0 {
        lemma_hits(l, v, backward, (k - 1) as nat);
        let b = hits(l, v, backward, (k - 1) as nat);
        let h = hits(l, v, backward, k);
        assert forall|i: int| 0 <= i < h.len() implies 0 <= #[trigger] h[i] < l.len()
            && l[h[i] as int] == v && (if backward {
            h[i] >= l.len() - k
        } else {
            h[i] < k
        }) by {
            if i < b.len() {
                assert(h[i] == b[i]);
            }
        }
        assert forall|i: int, j: int|
            #![trigger h[i], h[j]]
            0 <= i < j < h.len() implies if backward {
            h[i] > h[j]
        } else {
            h[i] < h[j]
        } by {
            assert(h[i] == b[i]);
            if j < b.len() {
                assert(h[j] == b[j]);
            }
        }
    }
}

proof fn lemma_hits_all(l: Seq<Seq<u8>>, v: Seq<u8>, backward: bool, k: nat, i: int)
    requires
        k <= l.len() <= i64::MAX,
        0 <= i < l.len(),
        if backward {
            i >= l.len() - k
        } else {
            i < k
        },
        l[i] == v,
    ensures
        hits(l, v, backward, k).contains(i as i64),
    decreases k,
{
    let b = hits(l, v, backward, (k - 1) as nat);
    let h = hits(l, v, backward, k);
    let last = if backward {
        l.len() - k
    } else {
        k - 1
    };
    if i == last {
        assert(h[h.len() - 1] == i as i64);
    } else {
        lemma_hits_all(l, v, backward, (k - 1) as nat, i);
        let j = choose|j: int| 0 <= j < b.len() && b[j] == i as i64;
        assert(h[j] == i as i64);
    }
}

} // verus!
