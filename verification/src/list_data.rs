//! Flat lists: a deque of byte strings, its weight, and the walks that
//! `LREM` and `LTRIM` make over it.
use vstd::prelude::*;
use std::collections::VecDeque;
use crate::bytes::bytes_eq;

verus! {

/// A flat list.
pub type ListData = VecDeque<Vec<u8>>;

/// The elements of a flat list, front to back.
pub open spec fn list_view(d: VecDeque<Vec<u8>>) -> Seq<Seq<u8>> {
    crate::bytes::deep(d@)
}

/// A clone of a flat list holds the same elements.
pub proof fn lemma_cloned_list(a: ListData, b: ListData)
    requires
        cloned(a, b),
    ensures
        list_view(a) == list_view(b),
{
    assert(a@.len() == b@.len());
    assert forall|i: int| 0 <= i < a@.len() implies a@[i]@ == b@[i]@ by {
        assert(cloned(a@[i], b@[i]));
        crate::bytes::lemma_cloned_bytes(a@[i], b@[i]);
    }
    assert(list_view(a) =~= list_view(b));
}

/// Bytes that a list charges for an element of `len` bytes: the element and
/// the cell that points at it.
pub open spec fn item_weight(len: nat) -> nat {
    24 + len
}

/// Bytes that a list charges for its elements.
pub open spec fn items_weight(s: Seq<Seq<u8>>) -> nat
    decreases s.len(),
{
    if s.len() == 0 {
        0
    } else {
        items_weight(s.drop_last()) + item_weight(s.last().len())
    }
}

/// `n` held to what fits in a `u64`.
pub open spec fn capped(n: nat) -> u64 {
    if n <= u64::MAX {
        n as u64
    } else {
        u64::MAX
    }
}

/// The change of an account from which `freed` bytes go, held to what fits
/// in an `i64`.
pub open spec fn freed_delta(freed: nat) -> int {
    if freed <= i64::MAX {
        -(freed as int)
    } else {
        -(i64::MAX as int)
    }
}

pub proof fn lemma_items_weight_add(a: Seq<Seq<u8>>, b: Seq<Seq<u8>>)
    ensures
        items_weight(a + b) == items_weight(a) + items_weight(b),
    decreases b.len(),
{
    if b.len() == 0 {
        assert(a + b =~= a);
    } else {
        lemma_items_weight_add(a, b.drop_last());
        assert((a + b).drop_last() =~= a + b.drop_last());
    }
}

pub proof fn lemma_items_weight_one(x: Seq<u8>)
    ensures
        items_weight(seq![x]) == item_weight(x.len()),
{
    assert(seq![x].drop_last() =~= Seq::empty());
    assert(items_weight(seq![x].drop_last()) == 0);
}

/// Bytes that a list charges for an element of `len` bytes.
pub fn list_item_weight(len: usize) -> (r: u64)
    ensures
        r == capped(item_weight(len as nat)),
{
    (len as u64).saturating_add(24)
}

/// `freed` as a negative change.
pub fn freed_as_delta(freed: u64) -> (r: i64)
    ensures
        r == freed_delta(freed as nat),
{
    if freed <= i64::MAX as u64 {
        -(freed as i64)
    } else {
        -i64::MAX
    }
}

/// Bytes that a flat list charges for its elements.
pub fn list_weight(d: &ListData) -> (r: u64)
    ensures
        r == capped(items_weight(list_view(*d))),
{
    let mut acc: u64 = 0;
    let mut i: usize = 0;
    let ghost s = list_view(*d);
    while i < d.len()
        invariant
            s == list_view(*d),
            i <= d@.len(),
            acc == capped(items_weight(s.subrange(0, i as int))),
        decreases d@.len() - i,
    {
        proof {
            assert(s.subrange(0, i + 1).drop_last() =~= s.subrange(0, i as int));
        }
        acc = acc.saturating_add(list_item_weight(d[i].len()));
        i = i + 1;
    }
    assert(s.subrange(0, i as int) =~= s);
    acc
}

/// What is left of `s` when the first `n` occurrences of `v` are taken out.
pub open spec fn without_first(s: Seq<Seq<u8>>, v: Seq<u8>, n: nat) -> Seq<Seq<u8>>
    decreases s.len(),
{
    if s.len() == 0 || n == 0 {
        s
    } else {
        let rest = s.subrange(1, s.len() as int);
        if s[0] == v {
            without_first(rest, v, (n - 1) as nat)
        } else {
            seq![s[0]] + without_first(rest, v, n)
        }
    }
}

/// What is left of `s` when the last `n` occurrences of `v` are taken out.
pub open spec fn without_last(s: Seq<Seq<u8>>, v: Seq<u8>, n: nat) -> Seq<Seq<u8>>
    decreases s.len(),
{
    if s.len() == 0 || n == 0 {
        s
    } else {
        let rest = s.drop_last();
        if s.last() == v {
            without_last(rest, v, (n - 1) as nat)
        } else {
            without_last(rest, v, n).push(s.last())
        }
    }
}

/// Number of occurrences of `v` in `s`.
pub open spec fn occurrences(s: Seq<Seq<u8>>, v: Seq<u8>) -> nat
    decreases s.len(),
{
    if s.len() == 0 {
        0
    } else {
        occurrences(s.drop_last(), v) + (if s.last() == v {
            1nat
        } else {
            0nat
        })
    }
}

/// Number of occurrences that are taken out when at most `n` are.
pub open spec fn taken(s: Seq<Seq<u8>>, v: Seq<u8>, n: nat) -> nat {
    if occurrences(s, v) <= n {
        occurrences(s, v)
    } else {
        n
    }
}

pub proof fn lemma_occurrences_add(a: Seq<Seq<u8>>, b: Seq<Seq<u8>>, v: Seq<u8>)
    ensures
        occurrences(a + b, v) == occurrences(a, v) + occurrences(b, v),
        occurrences(a, v) <= a.len(),
    decreases b.len() + a.len(),
{
    if b.len() > 0 {
        lemma_occurrences_add(a, b.drop_last(), v);
        assert((a + b).drop_last() =~= a + b.drop_last());
    } else {
        assert(a + b =~= a);
        if a.len() > 0 {
            lemma_occurrences_add(a.drop_last(), b, v);
        }
    }
}

pub proof fn lemma_occurrences_one(x: Seq<u8>, v: Seq<u8>)
    ensures
        occurrences(seq![x], v) == (if x == v { 1nat } else { 0nat }),
{
    assert(seq![x].drop_last() =~= Seq::empty());
    assert(occurrences(seq![x].drop_last(), v) == 0);
}

/// Taking from the front of two lists laid end to end.
pub proof fn lemma_without_first_add(a: Seq<Seq<u8>>, b: Seq<Seq<u8>>, v: Seq<u8>, n: nat)
    ensures
        without_first(a + b, v, n) == without_first(a, v, n) + without_first(
            b,
            v,
            (n - taken(a, v, n)) as nat,
        ),
    decreases a.len(),
{
    if a.len() == 0 {
        assert(a + b =~= b);
        assert(without_first(a, v, n) =~= Seq::empty());
        assert(without_first(a, v, n) + without_first(b, v, n) =~= without_first(b, v, n));
    } else if n == 0 {
        assert(without_first(b, v, 0) =~= b);
    } else {
        let ra = a.subrange(1, a.len() as int);
        let all = a + b;
        assert(all.subrange(1, all.len() as int) =~= ra + b);
        assert(a =~= seq![a[0]] + ra);
        lemma_occurrences_add(seq![a[0]], ra, v);
        lemma_occurrences_one(a[0], v);
        if a[0] == v {
            lemma_without_first_add(ra, b, v, (n - 1) as nat);
        } else {
            lemma_without_first_add(ra, b, v, n);
            assert(without_first(all, v, n) =~= without_first(a, v, n) + without_first(
                b,
                v,
                (n - taken(a, v, n)) as nat,
            ));
        }
    }
}

/// Taking from the back of two lists laid end to end.
pub proof fn lemma_without_last_add(a: Seq<Seq<u8>>, b: Seq<Seq<u8>>, v: Seq<u8>, n: nat)
    ensures
        without_last(a + b, v, n) == without_last(a, v, (n - taken(b, v, n)) as nat)
            + without_last(b, v, n),
    decreases b.len(),
{
    if b.len() == 0 {
        assert(a + b =~= a);
        assert(without_last(a, v, n) + without_last(b, v, n) =~= without_last(a, v, n));
    } else if n == 0 {
        assert(without_last(a, v, 0) =~= a);
    } else {
        let rb = b.drop_last();
        let all = a + b;
        assert(all.drop_last() =~= a + rb);
        if b.last() == v {
            lemma_without_last_add(a, rb, v, (n - 1) as nat);
        } else {
            lemma_without_last_add(a, rb, v, n);
            assert(without_last(all, v, n) =~= without_last(a, v, (n - taken(b, v, n)) as nat)
                + without_last(b, v, n));
        }
    }
}

/// Nothing to take out.
pub proof fn lemma_without_none(s: Seq<Seq<u8>>, v: Seq<u8>, n: nat)
    requires
        occurrences(s, v) == 0,
    ensures
        without_first(s, v, n) == s,
        without_last(s, v, n) == s,
    decreases s.len(),
{
    if s.len() > 0 && n > 0 {
        let rest = s.subrange(1, s.len() as int);
        assert(s =~= seq![s[0]] + rest);
        lemma_occurrences_add(seq![s[0]], rest, v);
        lemma_occurrences_one(s[0], v);
        lemma_without_none(rest, v, n);
        lemma_without_none(s.drop_last(), v, n);
        assert(s.drop_last().push(s.last()) =~= s);
    }
}

/// How many occurrences a `LREM` count asks for.
pub open spec fn rem_limit(count: i64) -> nat {
    if count == 0 {
        usize::MAX as nat
    } else if count > 0 {
        count as nat
    } else {
        (-(count as int)) as nat
    }
}

/// What `LREM` leaves.
pub open spec fn rem_result(s: Seq<Seq<u8>>, v: Seq<u8>, count: i64) -> Seq<Seq<u8>> {
    if count >= 0 {
        without_first(s, v, rem_limit(count))
    } else {
        without_last(s, v, rem_limit(count))
    }
}

/// How many occurrences a `LREM` count asks for, as far as a length goes.
pub fn rem_limit_of(count: i64) -> (r: usize)
    ensures
        r == rem_limit(count) || (r == usize::MAX && rem_limit(count) >= usize::MAX),
{
    if count == 0 {
        usize::MAX
    } else {
        let m: u64 = if count > 0 {
            count as u64
        } else if count == i64::MIN {
            0x8000_0000_0000_0000u64
        } else {
            (-count) as u64
        };
        if m > usize::MAX as u64 {
            usize::MAX
        } else {
            m as usize
        }
    }
}

/// A limit past the length takes out every occurrence.
pub proof fn lemma_limit_irrelevant(s: Seq<Seq<u8>>, v: Seq<u8>, n: nat, m: nat)
    requires
        s.len() <= n,
        s.len() <= m,
    ensures
        without_first(s, v, n) == without_first(s, v, m),
        without_last(s, v, n) == without_last(s, v, m),
        taken(s, v, n) == taken(s, v, m),
    decreases s.len(),
{
    lemma_occurrences_add(s, Seq::empty(), v);
    if s.len() > 0 {
        let rest = s.subrange(1, s.len() as int);
        let init = s.drop_last();
        if s[0] == v {
            lemma_limit_irrelevant(rest, v, (n - 1) as nat, (m - 1) as nat);
        } else {
            lemma_limit_irrelevant(rest, v, n, m);
        }
        if s.last() == v {
            lemma_limit_irrelevant(init, v, (n - 1) as nat, (m - 1) as nat);
        } else {
            lemma_limit_irrelevant(init, v, n, m);
        }
    }
}

/// Whether `val` occurs in a flat list.
pub fn list_contains(d: &ListData, val: &[u8]) -> (r: bool)
    ensures
        r == (occurrences(list_view(*d), val@) > 0),
{
    let mut i: usize = 0;
    let ghost s = list_view(*d);
    while i < d.len()
        invariant
            s == list_view(*d),
            i <= d@.len(),
            occurrences(s.subrange(0, i as int), val@) == 0,
        decreases d@.len() - i,
    {
        proof {
            assert(s.subrange(0, i + 1).drop_last() =~= s.subrange(0, i as int));
        }
        if bytes_eq(d[i].as_slice(), val) {
            proof {
                let a = s.subrange(0, i + 1);
                let b = s.subrange(i + 1, s.len() as int);
                assert(a + b =~= s);
                lemma_occurrences_add(a, b, val@);
            }
            return true;
        }
        i = i + 1;
    }
    assert(s.subrange(0, i as int) =~= s);
    false
}

/// Takes up to `limit` occurrences of `val` out of a flat list, from the
/// front or from the back. Returns how many went, and the bytes freed.
pub fn flat_lrem(d: &mut ListData, val: &[u8], limit: usize, from_back: bool) -> (r: (usize, u64))
    ensures
        r.0 == taken(list_view(*old(d)), val@, limit as nat),
        list_view(*final(d)) == (if from_back {
            without_last(list_view(*old(d)), val@, limit as nat)
        } else {
            without_first(list_view(*old(d)), val@, limit as nat)
        }),
        r.1 == capped(r.0 as nat * item_weight(val@.len())),
        final(d)@.len() == old(d)@.len() - r.0,
{
    let ghost s = list_view(*d);
    let ghost v = val@;
    let each: u64 = list_item_weight(val.len());
    let mut removed: usize = 0;
    let mut freed: u64 = 0;
    if !from_back {
        let mut i: usize = 0;
        assert(s.subrange(0, s.len() as int) =~= s);
        assert(0 * item_weight(v.len()) == 0);
        while i < d.len() && removed < limit
            invariant
                v == val@,
                each == capped(item_weight(v.len())),
                i <= d@.len(),
                removed <= limit,
                removed + d@.len() == s.len(),
                taken(s, v, limit as nat) == removed + taken(
                    list_view(*d).subrange(i as int, d@.len() as int),
                    v,
                    (limit - removed) as nat,
                ),
                without_first(s, v, limit as nat) == list_view(*d).subrange(0, i as int)
                    + without_first(
                    list_view(*d).subrange(i as int, d@.len() as int),
                    v,
                    (limit - removed) as nat,
                ),
                freed == capped(removed as nat * item_weight(v.len())),
            decreases d@.len() - i,
        {
            let ghost cur = list_view(*d);
            let ghost tail = cur.subrange(i as int, cur.len() as int);
            let ghost rest = tail.subrange(1, tail.len() as int);
            proof {
                assert(tail =~= seq![tail[0]] + rest);
                lemma_occurrences_add(seq![tail[0]], rest, v);
                lemma_occurrences_one(tail[0], v);
            }
            if bytes_eq(d[i].as_slice(), val) {
                let _gone = d.remove(i);
                proof {
                    assert(list_view(*d) =~= cur.remove(i as int));
                    assert(list_view(*d).subrange(0, i as int) =~= cur.subrange(0, i as int));
                    assert(list_view(*d).subrange(i as int, d@.len() as int) =~= rest);
                    lemma_capped_step(removed as nat, item_weight(v.len()));
                }
                removed = removed + 1;
                freed = freed.saturating_add(each);
            } else {
                proof {
                    assert(cur.subrange(i + 1, cur.len() as int) =~= rest);
                    assert(cur.subrange(0, i + 1) =~= cur.subrange(0, i as int).push(tail[0]));
                    let w = without_first(rest, v, (limit - removed) as nat);
                    assert(cur.subrange(0, i as int) + (seq![tail[0]] + w) =~= cur.subrange(
                        0,
                        i + 1,
                    ) + w);
                }
                i = i + 1;
            }
        }
        proof {
            let cur = list_view(*d);
            let tail = cur.subrange(i as int, cur.len() as int);
            assert(without_first(tail, v, (limit - removed) as nat) == tail);
            assert(cur.subrange(0, i as int) + tail =~= cur);
            lemma_occurrences_add(tail, Seq::empty(), v);
            assert(taken(tail, v, (limit - removed) as nat) == 0);
        }
    } else {
        let mut i: usize = d.len();
        assert(s.subrange(0, s.len() as int) =~= s);
        assert(s.subrange(i as int, s.len() as int) =~= Seq::empty());
        assert(0 * item_weight(v.len()) == 0);
        assert(without_last(s, v, limit as nat) + Seq::empty() =~= without_last(
            s,
            v,
            limit as nat,
        ));
        while i > 0 && removed < limit
            invariant
                v == val@,
                each == capped(item_weight(v.len())),
                i <= d@.len(),
                removed <= limit,
                removed + d@.len() == s.len(),
                taken(s, v, limit as nat) == removed + taken(
                    list_view(*d).subrange(0, i as int),
                    v,
                    (limit - removed) as nat,
                ),
                without_last(s, v, limit as nat) == without_last(
                    list_view(*d).subrange(0, i as int),
                    v,
                    (limit - removed) as nat,
                ) + list_view(*d).subrange(i as int, d@.len() as int),
                freed == capped(removed as nat * item_weight(v.len())),
            decreases i,
        {
            let ghost cur = list_view(*d);
            let ghost head = cur.subrange(0, i as int);
            let ghost rest = head.drop_last();
            i = i - 1;
            assert(rest =~= cur.subrange(0, i as int));
            if bytes_eq(d[i].as_slice(), val) {
                let _gone = d.remove(i);
                proof {
                    assert(list_view(*d) =~= cur.remove(i as int));
                    assert(list_view(*d).subrange(0, i as int) =~= rest);
                    assert(list_view(*d).subrange(i as int, d@.len() as int) =~= cur.subrange(
                        i + 1,
                        cur.len() as int,
                    ));
                    lemma_capped_step(removed as nat, item_weight(v.len()));
                }
                removed = removed + 1;
                freed = freed.saturating_add(each);
            } else {
                proof {
                    let w = without_last(rest, v, (limit - removed) as nat);
                    assert(w.push(head.last()) + cur.subrange(i + 1, cur.len() as int) =~= w
                        + cur.subrange(i as int, cur.len() as int));
                }
            }
        }
        proof {
            let cur = list_view(*d);
            let head = cur.subrange(0, i as int);
            assert(without_last(head, v, (limit - removed) as nat) == head);
            assert(head + cur.subrange(i as int, cur.len() as int) =~= cur);
            lemma_occurrences_add(head, Seq::empty(), v);
            assert(taken(head, v, (limit - removed) as nat) == 0);
        }
    }
    (removed, freed)
}

proof fn lemma_capped_step(n: nat, w: nat)
    ensures
        capped(n * w + w) == capped((n + 1) * w),
        capped(n * w + w) == (if capped(n * w) as int + capped(w) as int <= u64::MAX {
            (capped(n * w) + capped(w)) as u64
        } else {
            u64::MAX
        }),
{
    assert((n + 1) * w == n * w + w) by (nonlinear_arith);
}

} // verus!
