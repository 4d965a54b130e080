//! Sums over the keys of a map.
use vstd::prelude::*;

verus! {

/// The sum of a map's values.
pub open spec fn total<K>(m: Map<K, nat>) -> nat
    decreases m.dom().len(),
    when m.dom().finite()
{
    if m.dom().len() == 0 {
        0
    } else {
        let k = m.dom().choose();
        m[k] + total(m.remove(k))
    }
}

/// Taking a key out takes its value off the sum.
pub proof fn lemma_total_remove<K>(m: Map<K, nat>, k: K)
    requires
        m.dom().finite(),
        m.dom().contains(k),
    ensures
        total(m) == m[k] + total(m.remove(k)),
    decreases m.dom().len(),
{
    let c = m.dom().choose();
    assert(m.dom().contains(c));
    if c != k {
        lemma_total_remove(m.remove(c), k);
        lemma_total_remove(m.remove(k), c);
        assert(m.remove(c).remove(k) =~= m.remove(k).remove(c));
    }
}

/// Binding a key puts its value on the sum in place of the one it had.
pub proof fn lemma_total_insert<K>(m: Map<K, nat>, k: K, n: nat)
    requires
        m.dom().finite(),
    ensures
        total(m.insert(k, n)) == n + total(m.remove(k)),
        m.dom().contains(k) ==> total(m) == m[k] + total(m.remove(k)),
        !m.dom().contains(k) ==> total(m) == total(m.remove(k)),
{
    let i = m.insert(k, n);
    lemma_total_remove(i, k);
    assert(i.remove(k) =~= m.remove(k));
    if m.dom().contains(k) {
        lemma_total_remove(m, k);
    } else {
        assert(m.remove(k) =~= m);
    }
}

/// An empty map sums to nothing.
pub proof fn lemma_total_empty<K>()
    ensures
        total(Map::<K, nat>::empty()) == 0,
{
    assert(Map::<K, nat>::empty().dom() =~= Set::empty());
}

/// The sum of the values under the keys `q`.
pub open spec fn sum_of<K>(m: Map<K, nat>, q: Seq<K>) -> nat
    decreases q.len(),
{
    if q.len() == 0 {
        0
    } else {
        sum_of(m, q.drop_last()) + m[q.last()]
    }
}

/// A walk over all keys sums to the total.
pub proof fn lemma_sum_of<K>(m: Map<K, nat>, q: Seq<K>)
    requires
        m.dom().finite(),
        q.no_duplicates(),
        q.to_set() == m.dom(),
    ensures
        sum_of(m, q) == total(m),
    decreases q.len(),
{
    if q.len() == 0 {
        assert(m.dom() =~= Set::empty());
    } else {
        let d = q.drop_last();
        let k = q.last();
        assert(q.to_set().contains(k));
        let r = m.remove(k);
        assert forall|x: K| d.to_set().contains(x) == r.dom().contains(x) by {
            if d.contains(x) {
                let i = choose|i: int| 0 <= i < d.len() && d[i] == x;
                assert(q[i] == x);
                assert(q.to_set().contains(x));
            }
            if r.dom().contains(x) {
                assert(q.to_set().contains(x));
                let i = choose|i: int| 0 <= i < q.len() && q[i] == x;
                assert(d[i] == x);
            }
        }
        assert(d.to_set() =~= r.dom());
        assert(d.no_duplicates());
        lemma_sum_of(r, d);
        lemma_sum_same(m, r, d);
        lemma_total_remove(m, k);
    }
}

proof fn lemma_sum_same<K>(a: Map<K, nat>, b: Map<K, nat>, q: Seq<K>)
    requires
        forall|i: int| 0 <= i < q.len() ==> a[#[trigger] q[i]] == b[q[i]],
    ensures
        sum_of(a, q) == sum_of(b, q),
    decreases q.len(),
{
    if q.len() > 0 {
        let d = q.drop_last();
        assert forall|i: int| 0 <= i < d.len() implies a[#[trigger] d[i]] == b[d[i]] by {
            assert(d[i] == q[i]);
        }
        lemma_sum_same(a, b, d);
        assert(q.last() == q[q.len() - 1]);
    }
}

/// Taking the first keys of a walk out takes their values off the sum.
pub proof fn lemma_total_remove_keys<K>(m: Map<K, nat>, q: Seq<K>)
    requires
        m.dom().finite(),
        q.no_duplicates(),
        forall|i: int| 0 <= i < q.len() ==> m.dom().contains(#[trigger] q[i]),
    ensures
        total(m) == sum_of(m, q) + total(m.remove_keys(q.to_set())),
    decreases q.len(),
{
    if q.len() == 0 {
        assert(m.remove_keys(q.to_set()) =~= m);
    } else {
        let d = q.drop_last();
        let k = q.last();
        assert forall|i: int| 0 <= i < d.len() implies m.dom().contains(#[trigger] d[i]) by {
            assert(d[i] == q[i]);
        }
        lemma_total_remove_keys(m, d);
        let r = m.remove_keys(d.to_set());
        assert(r.dom().finite()) by {
            vstd::set_lib::lemma_len_subset(r.dom(), m.dom());
        }
        assert(!d.to_set().contains(k)) by {
            if d.contains(k) {
                let i = choose|i: int| 0 <= i < d.len() && d[i] == k;
                assert(q[i] == q[q.len() - 1]);
            }
        }
        assert(m.dom().contains(q[q.len() - 1]));
        assert(r.dom().contains(k));
        lemma_total_remove(r, k);
        assert forall|x: K| q.to_set().contains(x) == (d.to_set().contains(x) || x == k) by {
            if d.contains(x) {
                let i = choose|i: int| 0 <= i < d.len() && d[i] == x;
                assert(q[i] == x);
            }
            if x == k {
                assert(q[q.len() - 1] == x);
            }
            if q.contains(x) && x != k {
                let i = choose|i: int| 0 <= i < q.len() && q[i] == x;
                assert(d[i] == x);
            }
        }
        assert(r.remove(k) =~= m.remove_keys(q.to_set()));
    }
}

} // verus!
