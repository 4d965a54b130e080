//! Commands on lists.
use vstd::prelude::*;
use crate::store::Store;
use crate::types::StoreError;
use crate::value::Val;
use super::{deadline_kept, holds, lacks, others_kept};

verus! {

/// Values pushed at the front stand there in turn, the last one first, before
/// what was there.
pub proof fn lemma_lpush(
    s: &mut Store,
    key: &[u8],
    values: &[&[u8]],
    r: Result<usize, StoreError>,
    l: Seq<Seq<u8>>,
)
    requires
        call_ensures(Store::lpush, (s, key, values), r),
        holds(*old(s), key@, Val::List(l)),
        values@.len() > 0,
        l.len() + values@.len() <= usize::MAX,
    ensures
        r == Ok::<usize, StoreError>((l.len() + values@.len()) as usize),
        final(s)@.slots[key@].value matches Val::List(n) && n.len() == l.len() + values@.len() && (
        forall|i: int| 0 <= i < values@.len() ==> n[i] == #[trigger] values@[values@.len() - 1 - i]@)
            && (forall|i: int| 0 <= i < l.len() ==> n[values@.len() + i] == #[trigger] l[i]),
        deadline_kept(*old(s), *final(s), key@),
        others_kept(*old(s), *final(s), key@),
{
}

/// Values pushed at the back stand there in turn, behind what was there.
pub proof fn lemma_rpush(
    s: &mut Store,
    key: &[u8],
    values: &[&[u8]],
    r: Result<usize, StoreError>,
    l: Seq<Seq<u8>>,
)
    requires
        call_ensures(Store::rpush, (s, key, values), r),
        holds(*old(s), key@, Val::List(l)),
        values@.len() > 0,
        l.len() + values@.len() <= usize::MAX,
    ensures
        r == Ok::<usize, StoreError>((l.len() + values@.len()) as usize),
        final(s)@.slots[key@].value matches Val::List(n) && n.len() == l.len() + values@.len() && (
        forall|i: int| 0 <= i < l.len() ==> n[i] == #[trigger] l[i]) && (forall|i: int|
            0 <= i < values@.len() ==> n[l.len() + i] == #[trigger] values@[i]@),
        deadline_kept(*old(s), *final(s), key@),
        others_kept(*old(s), *final(s), key@),
{
}

/// A push onto a key that is not there makes a list of its values, without a
/// deadline.
pub proof fn lemma_push_anew(
    s: &mut Store,
    key: &[u8],
    values: &[&[u8]],
    r: Result<usize, StoreError>,
    front: bool,
)
    requires
        front ==> call_ensures(Store::lpush, (s, key, values), r),
        !front ==> call_ensures(Store::rpush, (s, key, values), r),
        lacks(*old(s), key@),
        0 < values@.len() <= usize::MAX,
    ensures
        r == Ok::<usize, StoreError>(values@.len() as usize),
        final(s)@.slots.dom().contains(key@),
        final(s)@.slots[key@].expire is None,
        final(s)@.slots[key@].value matches Val::List(n) && n.len() == values@.len() && forall|i: int|
            0 <= i < n.len() ==> n[if front {
                n.len() - 1 - i
            } else {
                i
            }] == #[trigger] values@[i]@,
        others_kept(*old(s), *final(s), key@),
{
}

/// Pops give the first elements in their order and leave the rest.
pub proof fn lemma_lpop(
    s: &mut Store,
    key: &[u8],
    count: usize,
    r: Result<Vec<Vec<u8>>, StoreError>,
    l: Seq<Seq<u8>>,
)
    requires
        call_ensures(Store::lpop, (s, key, count), r),
        holds(*old(s), key@, Val::List(l)),
    ensures
        r matches Ok(v) && v@.len() == (if count < l.len() {
            count as int
        } else {
            l.len() as int
        }) && forall|i: int| 0 <= i < v@.len() ==> (#[trigger] v@[i])@ == l[i],
        count < l.len() ==> (final(s)@.slots[key@].value matches Val::List(n) && n == l.skip(
            count as int,
        )),
        count >= l.len() ==> !final(s)@.slots.dom().contains(key@),
        others_kept(*old(s), *final(s), key@),
{
    let v = r->Ok_0;
    assert(crate::bytes::deep(v@).len() == v@.len());
    assert forall|i: int| 0 <= i < v@.len() implies (#[trigger] v@[i])@ == l[i] by {
        assert(crate::bytes::deep(v@)[i] == v@[i]@);
    }
}

/// Pops at the back give the last element first, and leave the rest.
pub proof fn lemma_rpop(
    s: &mut Store,
    key: &[u8],
    count: usize,
    r: Result<Vec<Vec<u8>>, StoreError>,
    l: Seq<Seq<u8>>,
)
    requires
        call_ensures(Store::rpop, (s, key, count), r),
        holds(*old(s), key@, Val::List(l)),
    ensures
        r matches Ok(v) && v@.len() == (if count < l.len() {
            count as int
        } else {
            l.len() as int
        }) && forall|i: int| 0 <= i < v@.len() ==> (#[trigger] v@[i])@ == l[l.len() - 1 - i],
        count < l.len() ==> (final(s)@.slots[key@].value matches Val::List(n) && n == l.take(
            l.len() - count,
        )),
        count >= l.len() ==> !final(s)@.slots.dom().contains(key@),
        others_kept(*old(s), *final(s), key@),
{
    let v = r->Ok_0;
    assert(crate::bytes::deep(v@).len() == v@.len());
    assert forall|i: int| 0 <= i < v@.len() implies (#[trigger] v@[i])@ == l[l.len() - 1 - i] by {
        assert(crate::bytes::deep(v@)[i] == v@[i]@);
    }
}

/// An element is put right before, or right behind, the first that equals the
/// pivot; without such an element nothing changes.
pub proof fn lemma_linsert(
    s: &mut Store,
    key: &[u8],
    before: bool,
    pivot: &[u8],
    val: &[u8],
    r: Result<i64, StoreError>,
    l: Seq<Seq<u8>>,
    i: int,
)
    requires
        call_ensures(Store::linsert, (s, key, before, pivot, val), r),
        holds(*old(s), key@, Val::List(l)),
        l.len() < i64::MAX,
    ensures
        0 <= i < l.len() && l[i] == pivot@ && (forall|j: int|
            0 <= j < i ==> #[trigger] l[j] != pivot@) ==> r == Ok::<i64, StoreError>(
            (l.len() + 1) as i64,
        ) && (final(s)@.slots[key@].value matches Val::List(n) && n == (if before {
            l.take(i) + seq![val@, pivot@] + l.skip(i + 1)
        } else {
            l.take(i) + seq![pivot@, val@] + l.skip(i + 1)
        })) && deadline_kept(*old(s), *final(s), key@),
        !l.contains(pivot@) ==> r == Ok::<i64, StoreError>((-1) as i64) && final(s)@ == old(s)@,
        others_kept(*old(s), *final(s), key@),
{
    crate::store::lists::lemma_first_place(l, pivot@);
    if let Some(k) = crate::store::lists::first_place(l, pivot@) {
        if 0 <= i < l.len() && l[i] == pivot@ && (forall|j: int|
            0 <= j < i ==> #[trigger] l[j] != pivot@) {
            if k < i {
                assert(l[k as int] != pivot@);
            }
            assert(k == i);
            let n = final(s)@.slots[key@].value->List_0;
            assert(n =~= (if before {
                l.take(i) + seq![val@, pivot@] + l.skip(i + 1)
            } else {
                l.take(i) + seq![pivot@, val@] + l.skip(i + 1)
            }));
        }
        assert(l.contains(pivot@));
    } else if 0 <= i < l.len() {
        assert(l[i] != pivot@);
    }
}

/// An element is set at a place, counted from the end where it is negative;
/// the others stay. Beyond either end nothing changes.
pub proof fn lemma_lset(
    s: &mut Store,
    key: &[u8],
    idx: i64,
    val: &[u8],
    r: Result<(), StoreError>,
    l: Seq<Seq<u8>>,
)
    requires
        call_ensures(Store::lset, (s, key, idx, val), r),
        holds(*old(s), key@, Val::List(l)),
        l.len() <= i64::MAX,
    ensures
        -(l.len() as int) <= idx < l.len() ==> r is Ok && (final(s)@.slots[key@].value matches Val::List(
            n,
        ) && n.len() == l.len() && n[if idx < 0 {
            l.len() + idx
        } else {
            idx as int
        }] == val@ && forall|j: int|
            0 <= j < l.len() && j != idx && j != l.len() + idx ==> n[j] == #[trigger] l[j]),
        !(-(l.len() as int) <= idx < l.len()) ==> r == Err::<(), StoreError>(StoreError::OutOfRange)
            && final(s)@ == old(s)@,
        others_kept(*old(s), *final(s), key@),
{
}

/// The element at a place is read, counted from the end where it is negative.
pub proof fn lemma_lindex(
    s: &mut Store,
    key: &[u8],
    idx: i64,
    r: Result<Option<Vec<u8>>, StoreError>,
    l: Seq<Seq<u8>>,
)
    requires
        call_ensures(Store::lindex, (s, key, idx), r),
        holds(*old(s), key@, Val::List(l)),
        l.len() <= i64::MAX,
    ensures
        0 <= idx < l.len() ==> (r matches Ok(Some(v)) && v@ == l[idx as int]),
        -(l.len() as int) <= idx < 0 ==> (r matches Ok(Some(v)) && v@ == l[l.len() + idx]),
        !(-(l.len() as int) <= idx < l.len()) ==> r == Ok::<Option<Vec<u8>>, StoreError>(None),
        final(s)@ == old(s)@,
{
}

/// A list tells its length, and a key that is not there tells 0.
pub proof fn lemma_llen(
    s: &mut Store,
    key: &[u8],
    r: Result<usize, StoreError>,
    l: Seq<Seq<u8>>,
)
    requires
        call_ensures(Store::llen, (s, key), r),
    ensures
        holds(*old(s), key@, Val::List(l)) ==> (r matches Ok(n) && n == l.len()) && final(s)@
            == old(s)@,
        lacks(*old(s), key@) ==> r == Ok::<usize, StoreError>(0),
{
}

/// A range gives the elements from one place to another, both with them.
pub proof fn lemma_lrange(
    s: &mut Store,
    key: &[u8],
    a: i64,
    b: i64,
    r: Result<Vec<Vec<u8>>, StoreError>,
    l: Seq<Seq<u8>>,
)
    requires
        call_ensures(Store::lrange, (s, key, a, b), r),
        holds(*old(s), key@, Val::List(l)),
    ensures
        0 <= a <= b < l.len() ==> (r matches Ok(v) && v@.len() == b - a + 1 && forall|i: int|
            0 <= i < v@.len() ==> (#[trigger] v@[i])@ == l[a + i]),
        a > b && 0 <= b ==> (r matches Ok(v) && v@.len() == 0),
        a == 0 && b == -1 && l.len() <= i64::MAX ==> (r matches Ok(v) && v@.len() == l.len()
            && forall|i: int| 0 <= i < v@.len() ==> (#[trigger] v@[i])@ == l[i]),
        final(s)@ == old(s)@,
{
    let v = r->Ok_0;
    let d = crate::bytes::deep(v@);
    assert(d.len() == v@.len());
    assert forall|i: int| 0 <= i < v@.len() implies (#[trigger] v@[i])@ == d[i] by {}
}

/// A trim leaves what the same range gives, and no key where that is nothing.
pub proof fn lemma_ltrim(
    s: &mut Store,
    key: &[u8],
    a: i64,
    b: i64,
    r: Result<(), StoreError>,
    l: Seq<Seq<u8>>,
)
    requires
        call_ensures(Store::ltrim, (s, key, a, b), r),
        holds(*old(s), key@, Val::List(l)),
    ensures
        r is Ok,
        0 <= a <= b < l.len() ==> (final(s)@.slots[key@].value matches Val::List(n) && n
            == l.subrange(a as int, b + 1)) && deadline_kept(*old(s), *final(s), key@),
        a > b && 0 <= b ==> !final(s)@.slots.dom().contains(key@),
        others_kept(*old(s), *final(s), key@),
{
}

/// A removal without a count takes every element that equals the value, tells
/// how many, and leaves the others in their order.
pub proof fn lemma_lrem_all(
    s: &mut Store,
    key: &[u8],
    val: &[u8],
    r: Result<usize, StoreError>,
    l: Seq<Seq<u8>>,
)
    requires
        call_ensures(Store::lrem, (s, key, 0i64, val), r),
        holds(*old(s), key@, Val::List(l)),
        l.len() <= usize::MAX,
    ensures
        ({
            let left = crate::laws::lists::others(l, val@);
            &&& r matches Ok(n) && n == l.len() - left.len()
            &&& left.len() > 0 ==> final(s)@.slots[key@].value == Val::List(left)
            &&& left.len() == 0 ==> !final(s)@.slots.dom().contains(key@)
        }),
        others_kept(*old(s), *final(s), key@),
{
    crate::laws::lists::lemma_remove_all(l, val@, 0i64);
    crate::laws::lists::lemma_remove_count(l, val@, 0i64);
}

/// A move takes an element from one end of a list to one end of another, and
/// gives it back.
pub proof fn lemma_lmove(
    s: &mut Store,
    src: &[u8],
    dst: &[u8],
    from_left: bool,
    to_left: bool,
    r: Result<Option<Vec<u8>>, StoreError>,
    l: Seq<Seq<u8>>,
    k: Seq<Seq<u8>>,
)
    requires
        call_ensures(Store::lmove, (s, src, dst, from_left, to_left), r),
        holds(*old(s), src@, Val::List(l)),
        holds(*old(s), dst@, Val::List(k)),
        src@ != dst@,
        l.len() > 1,
    ensures
        ({
            let x = if from_left {
                l.first()
            } else {
                l.last()
            };
            &&& r matches Ok(Some(v)) && v@ == x
            &&& final(s)@.slots[src@].value == Val::List(
                if from_left {
                    l.drop_first()
                } else {
                    l.drop_last()
                },
            )
            &&& final(s)@.slots[dst@].value == Val::List(
                if to_left {
                    seq![x] + k
                } else {
                    k.push(x)
                },
            )
        }),
{
    let x = if from_left {
        l.first()
    } else {
        l.last()
    };
    assert(seq![x].reverse() =~= seq![x]);
    assert(k + seq![x] =~= k.push(x));
    assert(l.skip(1) =~= l.drop_first());
    assert(l.take(l.len() - 1) =~= l.drop_last());
}

/// Where the first element that equals a value stands, if one does.
pub proof fn lemma_lpos(
    s: &mut Store,
    key: &[u8],
    val: &[u8],
    r: Result<Vec<i64>, StoreError>,
    l: Seq<Seq<u8>>,
    i: int,
)
    requires
        call_ensures(Store::lpos, (s, key, val, 1i64, None::<i64>, 0usize), r),
        holds(*old(s), key@, Val::List(l)),
        l.len() <= i64::MAX,
    ensures
        0 <= i < l.len() && l[i] == val@ && (forall|j: int| 0 <= j < i ==> #[trigger] l[j] != val@)
            ==> (r matches Ok(v) && v@.len() == 1 && v@[0] == i),
        !l.contains(val@) ==> (r matches Ok(v) && v@.len() == 0),
        final(s)@ == old(s)@,
{
    if 0 <= i < l.len() && l[i] == val@ && (forall|j: int| 0 <= j < i ==> #[trigger] l[j] != val@) {
        lemma_no_hit(l, val@, i as nat);
        lemma_hits_grow(l, val@, (i + 1) as nat, l.len());
    }
    if !l.contains(val@) {
        assert forall|j: int| 0 <= j < l.len() implies #[trigger] l[j] != val@ by {
            assert(l.contains(l[j]));
        }
        lemma_no_hit(l, val@, l.len());
    }
}

proof fn lemma_no_hit(l: Seq<Seq<u8>>, v: Seq<u8>, n: nat)
    requires
        n <= l.len(),
        forall|j: int| 0 <= j < n ==> #[trigger] l[j] != v,
    ensures
        crate::store::lists::hits(l, v, false, n).len() == 0,
    decreases n,
{
    if n > 0 {
        lemma_no_hit(l, v, (n - 1) as nat);
        assert(l[n - 1] != v);
    }
}

proof fn lemma_hits_grow(l: Seq<Seq<u8>>, v: Seq<u8>, a: nat, b: nat)
    requires
        a <= b <= l.len(),
    ensures
        crate::store::lists::hits(l, v, false, a).is_prefix_of(
            crate::store::lists::hits(l, v, false, b),
        ),
    decreases b - a,
{
    if a < b {
        lemma_hits_grow(l, v, a, (b - 1) as nat);
        let p = crate::store::lists::hits(l, v, false, a);
        let q = crate::store::lists::hits(l, v, false, (b - 1) as nat);
        let r = crate::store::lists::hits(l, v, false, b);
        assert(r.take(p.len() as int) =~= q.take(p.len() as int));
    }
}

} // verus!
