//! A hash table keyed by byte strings.
use vstd::prelude::*;
use crate::bytes::{bytes_eq, rank_bytes};
use crate::count::Count;

verus! {

/// A hash table from byte strings to `V`, with separate chaining.
pub struct ByteMap<V> {
    buckets: Vec<Vec<(Vec<u8>, V)>>,
    len: Count,
}

/// Position of `k` in a bucket.
spec fn at_pos<V>(bucket: Seq<(Vec<u8>, V)>, k: Seq<u8>, i: int) -> bool {
    0 <= i < bucket.len() && bucket[i].0@ == k
}

spec fn bucket_has<V>(bucket: Seq<(Vec<u8>, V)>, k: Seq<u8>) -> bool {
    exists|i: int| at_pos(bucket, k, i)
}

spec fn bucket_pos<V>(bucket: Seq<(Vec<u8>, V)>, k: Seq<u8>) -> int {
    choose|i: int| at_pos(bucket, k, i)
}

spec fn bucket_unique<V>(bucket: Seq<(Vec<u8>, V)>) -> bool {
    forall|i: int, j: int|
        0 <= i < bucket.len() && 0 <= j < bucket.len() && #[trigger] bucket[i].0@
            == #[trigger] bucket[j].0@ ==> i == j
}

/// The bucket of a table of `n` that rank `r` belongs to: the buckets share
/// the ranks out evenly, in order.
pub open spec fn bucket_of_rank(r: u64, n: nat) -> int {
    (r as int * n as int) / 0x1_0000_0000_0000_0000
}

/// The bucket that `k` belongs to in a table of `n` buckets.
pub open spec fn home(k: Seq<u8>, n: nat) -> int {
    bucket_of_rank(crate::bytes::rank_of(k), n)
}

/// Ranks belong to buckets of the table.
pub proof fn lemma_bucket_of_rank(r: u64, n: nat)
    requires
        n > 0,
    ensures
        0 <= bucket_of_rank(r, n) < n,
{
    assert(0 <= r as int * n as int) by (nonlinear_arith);
    assert((r as int * n as int) < 0x1_0000_0000_0000_0000 * n) by (nonlinear_arith)
        requires
            r as int <= 0xffff_ffff_ffff_ffff,
            n > 0,
    ;
}

spec fn table_placed<V>(t: Seq<Vec<(Vec<u8>, V)>>) -> bool {
    forall|b: int, i: int|
        0 <= b < t.len() && 0 <= i < t[b]@.len() ==> home((#[trigger] t[b]@[i]).0@, t.len()) == b
}

spec fn table_unique<V>(t: Seq<Vec<(Vec<u8>, V)>>) -> bool {
    forall|b: int| 0 <= b < t.len() ==> bucket_unique(#[trigger] t[b]@)
}

spec fn table_has<V>(t: Seq<Vec<(Vec<u8>, V)>>, k: Seq<u8>) -> bool {
    t.len() > 0 && bucket_has(t[home(k, t.len())]@, k)
}

spec fn table_get<V>(t: Seq<Vec<(Vec<u8>, V)>>, k: Seq<u8>) -> V {
    let b = t[home(k, t.len())]@;
    b[bucket_pos(b, k)].1
}

spec fn table_map<V>(t: Seq<Vec<(Vec<u8>, V)>>) -> Map<Seq<u8>, V> {
    Map::new(|k: Seq<u8>| table_has(t, k), |k: Seq<u8>| table_get(t, k))
}

impl<V> View for ByteMap<V> {
    type V = Map<Seq<u8>, V>;

    closed spec fn view(&self) -> Map<Seq<u8>, V> {
        table_map(self.buckets@)
    }
}

proof fn lemma_home_range(k: Seq<u8>, n: nat)
    requires
        n > 0,
    ensures
        0 <= home(k, n) < n,
{
    lemma_bucket_of_rank(crate::bytes::rank_of(k), n);
}

/// A table that agrees with `t` except that bucket `h`, the home of `k`,
/// now binds `k` to `v`, holds the map of `t` with that one binding changed.
proof fn lemma_table_insert<V>(
    t: Seq<Vec<(Vec<u8>, V)>>,
    u: Seq<Vec<(Vec<u8>, V)>>,
    k: Seq<u8>,
    v: V,
)
    requires
        t.len() > 0,
        u.len() == t.len(),
        table_placed(t),
        table_unique(t),
        table_unique(u),
        forall|b: int| 0 <= b < t.len() && b != home(k, t.len()) ==> u[b] == t[b],
        bucket_has(u[home(k, t.len())]@, k),
        u[home(k, t.len())]@[bucket_pos(u[home(k, t.len())]@, k)].1 == v,
        forall|k2: Seq<u8>|
            k2 != k ==> bucket_has(u[home(k, t.len())]@, k2) == bucket_has(
                t[home(k, t.len())]@,
                k2,
            ),
        forall|k2: Seq<u8>|
            k2 != k && bucket_has(t[home(k, t.len())]@, k2) ==> u[home(
                k,
                t.len(),
            )]@[bucket_pos(u[home(k, t.len())]@, k2)].1 == t[home(
                k,
                t.len(),
            )]@[bucket_pos(t[home(k, t.len())]@, k2)].1,
    ensures
        table_map(u) == table_map(t).insert(k, v),
{
    assert(table_map(u) =~= table_map(t).insert(k, v)) by {
        assert forall|k2: Seq<u8>| table_has(u, k2) == (k2 == k || table_has(t, k2)) by {
            lemma_home_range(k2, t.len());
        }
        assert forall|k2: Seq<u8>| #[trigger] table_has(u, k2) && k2 != k implies table_get(u, k2)
            == table_get(t, k2) by {
            lemma_home_range(k2, t.len());
        }
    }
}

proof fn lemma_pos_unique<V>(bucket: Seq<(Vec<u8>, V)>, k: Seq<u8>, i: int)
    requires
        bucket_unique(bucket),
        at_pos(bucket, k, i),
    ensures
        bucket_has(bucket, k),
        bucket_pos(bucket, k) == i,
{
    let j = bucket_pos(bucket, k);
    assert(at_pos(bucket, k, j));
    assert(bucket[i].0@ == bucket[j].0@);
}

/// Replacing the value at one position changes that one binding only.
proof fn lemma_table_replace<V>(
    t: Seq<Vec<(Vec<u8>, V)>>,
    u: Seq<Vec<(Vec<u8>, V)>>,
    k: Seq<u8>,
    i: int,
    v: V,
)
    requires
        t.len() > 0,
        u.len() == t.len(),
        table_placed(t),
        table_unique(t),
        at_pos(t[home(k, t.len())]@, k, i),
        forall|b: int| 0 <= b < t.len() && b != home(k, t.len()) ==> u[b] == t[b],
        u[home(k, t.len())]@ == t[home(k, t.len())]@.update(
            i,
            (t[home(k, t.len())]@[i].0, v),
        ),
    ensures
        table_placed(u),
        table_unique(u),
        table_map(u) == table_map(t).insert(k, v),
        table_map(t).dom().contains(k),
        table_map(u).dom() == table_map(t).dom(),
{
    let h = home(k, t.len());
    lemma_home_range(k, t.len());
    let tb = t[h]@;
    let ub = u[h]@;
    assert forall|j: int| 0 <= j < tb.len() implies #[trigger] ub[j].0@ == tb[j].0@ by {}
    assert(bucket_unique(ub));
    assert(table_unique(u)) by {
        assert forall|b: int| 0 <= b < u.len() implies bucket_unique(#[trigger] u[b]@) by {
            if b != h {
                assert(u[b] == t[b]);
            }
        }
    }
    assert(table_placed(u)) by {
        assert forall|b: int, j: int| 0 <= b < u.len() && 0 <= j < u[b]@.len() implies home(
            (#[trigger] u[b]@[j]).0@,
            u.len(),
        ) == b by {
            assert(u[b]@[j].0@ == t[b]@[j].0@);
        }
    }
    lemma_pos_unique(tb, k, i);
    assert(at_pos(ub, k, i));
    lemma_pos_unique(ub, k, i);
    assert forall|k2: Seq<u8>| k2 != k implies bucket_has(ub, k2) == bucket_has(tb, k2) by {
        if bucket_has(tb, k2) {
            let j = bucket_pos(tb, k2);
            assert(at_pos(ub, k2, j));
        }
        if bucket_has(ub, k2) {
            let j = bucket_pos(ub, k2);
            assert(at_pos(tb, k2, j));
        }
    }
    assert forall|k2: Seq<u8>| k2 != k && bucket_has(tb, k2) implies ub[bucket_pos(ub, k2)].1
        == tb[bucket_pos(tb, k2)].1 by {
        let j = bucket_pos(tb, k2);
        assert(at_pos(ub, k2, j));
        lemma_pos_unique(ub, k2, j);
    }
    lemma_table_insert(t, u, k, v);
    assert(table_map(u).dom() =~= table_map(t).dom());
}

/// Appending an absent key to its home bucket adds that one binding.
proof fn lemma_table_push<V>(
    t: Seq<Vec<(Vec<u8>, V)>>,
    u: Seq<Vec<(Vec<u8>, V)>>,
    e: (Vec<u8>, V),
)
    requires
        t.len() > 0,
        u.len() == t.len(),
        table_placed(t),
        table_unique(t),
        !bucket_has(t[home(e.0@, t.len())]@, e.0@),
        forall|b: int| 0 <= b < t.len() && b != home(e.0@, t.len()) ==> u[b] == t[b],
        u[home(e.0@, t.len())]@ == t[home(e.0@, t.len())]@.push(e),
    ensures
        table_placed(u),
        table_unique(u),
        table_map(u) == table_map(t).insert(e.0@, e.1),
        !table_map(t).dom().contains(e.0@),
{
    let k = e.0@;
    let h = home(k, t.len());
    lemma_home_range(k, t.len());
    let tb = t[h]@;
    let ub = u[h]@;
    assert(bucket_unique(tb));
    assert(bucket_unique(ub)) by {
        assert forall|i: int, j: int|
            0 <= i < ub.len() && 0 <= j < ub.len() && #[trigger] ub[i].0@ == #[trigger] ub[j].0@ implies i
            == j by {
            if i < tb.len() && j < tb.len() {
                assert(tb[i].0@ == tb[j].0@);
            } else if i < tb.len() {
                assert(at_pos(tb, k, i));
            } else if j < tb.len() {
                assert(at_pos(tb, k, j));
            }
        }
    }
    assert(table_unique(u)) by {
        assert forall|b: int| 0 <= b < u.len() implies bucket_unique(#[trigger] u[b]@) by {
            if b != h {
                assert(u[b] == t[b]);
            }
        }
    }
    assert(table_placed(u)) by {
        assert forall|b: int, j: int| 0 <= b < u.len() && 0 <= j < u[b]@.len() implies home(
            (#[trigger] u[b]@[j]).0@,
            u.len(),
        ) == b by {
            if b != h {
                assert(u[b]@[j] == t[b]@[j]);
            } else if j < tb.len() {
                assert(u[b]@[j] == t[b]@[j]);
            }
        }
    }
    assert(at_pos(ub, k, tb.len() as int));
    lemma_pos_unique(ub, k, tb.len() as int);
    assert forall|k2: Seq<u8>| k2 != k implies bucket_has(ub, k2) == bucket_has(tb, k2) by {
        if bucket_has(tb, k2) {
            assert(at_pos(ub, k2, bucket_pos(tb, k2)));
        }
        if bucket_has(ub, k2) {
            assert(at_pos(tb, k2, bucket_pos(ub, k2)));
        }
    }
    assert forall|k2: Seq<u8>| k2 != k && bucket_has(tb, k2) implies ub[bucket_pos(ub, k2)].1
        == tb[bucket_pos(tb, k2)].1 by {
        let j = bucket_pos(tb, k2);
        assert(at_pos(ub, k2, j));
        lemma_pos_unique(ub, k2, j);
    }
    lemma_table_insert(t, u, k, e.1);
}

/// Taking one position out of its bucket removes that one binding.
proof fn lemma_table_remove<V>(
    t: Seq<Vec<(Vec<u8>, V)>>,
    u: Seq<Vec<(Vec<u8>, V)>>,
    k: Seq<u8>,
    i: int,
)
    requires
        t.len() > 0,
        u.len() == t.len(),
        table_placed(t),
        table_unique(t),
        at_pos(t[home(k, t.len())]@, k, i),
        forall|b: int| 0 <= b < t.len() && b != home(k, t.len()) ==> u[b] == t[b],
        u[home(k, t.len())]@ == t[home(k, t.len())]@.remove(i),
    ensures
        table_placed(u),
        table_unique(u),
        table_map(u) == table_map(t).remove(k),
        table_map(t).dom().contains(k),
{
    let h = home(k, t.len());
    lemma_home_range(k, t.len());
    let tb = t[h]@;
    let ub = u[h]@;
    assert(bucket_unique(tb));
    assert forall|j: int| 0 <= j < ub.len() implies #[trigger] ub[j] == tb[if j < i {
        j
    } else {
        j + 1
    }] by {}
    assert(bucket_unique(ub)) by {
        assert forall|x: int, y: int|
            0 <= x < ub.len() && 0 <= y < ub.len() && #[trigger] ub[x].0@ == #[trigger] ub[y].0@ implies x
            == y by {
            let x1 = if x < i { x } else { x + 1 };
            let y1 = if y < i { y } else { y + 1 };
            assert(tb[x1].0@ == tb[y1].0@);
        }
    }
    assert(table_unique(u)) by {
        assert forall|b: int| 0 <= b < u.len() implies bucket_unique(#[trigger] u[b]@) by {
            if b != h {
                assert(u[b] == t[b]);
            }
        }
    }
    assert(table_placed(u)) by {
        assert forall|b: int, j: int| 0 <= b < u.len() && 0 <= j < u[b]@.len() implies home(
            (#[trigger] u[b]@[j]).0@,
            u.len(),
        ) == b by {
            if b != h {
                assert(u[b]@[j] == t[b]@[j]);
            } else {
                assert(u[b]@[j] == t[b]@[if j < i { j } else { j + 1 }]);
            }
        }
    }
    assert forall|k2: Seq<u8>| table_has(u, k2) == (k2 != k && table_has(t, k2)) by {
        lemma_home_range(k2, t.len());
        if home(k2, t.len()) == h {
            if bucket_has(ub, k2) {
                let j = bucket_pos(ub, k2);
                let j1 = if j < i { j } else { j + 1 };
                assert(at_pos(tb, k2, j1));
                if k2 == k {
                    assert(tb[j1].0@ == tb[i].0@);
                }
            }
            if bucket_has(tb, k2) && k2 != k {
                let j = bucket_pos(tb, k2);
                assert(at_pos(ub, k2, if j < i { j } else { j - 1 }));
            }
        }
    }
    assert forall|k2: Seq<u8>| table_has(u, k2) implies table_get(u, k2) == table_get(t, k2) by {
        lemma_home_range(k2, t.len());
        if home(k2, t.len()) == h {
            let j = bucket_pos(ub, k2);
            assert(at_pos(ub, k2, j));
            let j1 = if j < i { j } else { j + 1 };
            assert(at_pos(tb, k2, j1));
            lemma_pos_unique(tb, k2, j1);
        }
    }
    lemma_pos_unique(tb, k, i);
    assert(table_map(u) =~= table_map(t).remove(k));
}

/// The first position of `key` in a bucket.
fn position<V>(bucket: &Vec<(Vec<u8>, V)>, key: &[u8]) -> (r: Option<usize>)
    ensures
        match r {
            Some(i) => at_pos(bucket@, key@, i as int),
            None => !bucket_has(bucket@, key@),
        },
{
    let mut i: usize = 0;
    while i < bucket.len()
        invariant
            i <= bucket@.len(),
            forall|j: int| 0 <= j < i ==> !at_pos(bucket@, key@, j),
        decreases bucket@.len() - i,
    {
        if bytes_eq(bucket[i].0.as_slice(), key) {
            return Some(i);
        }
        i = i + 1;
    }
    None
}

fn slot_of(key: &[u8], n: usize) -> (r: usize)
    requires
        n > 0,
    ensures
        r == home(key@, n as nat),
        r < n,
{
    proof {
        lemma_home_range(key@, n as nat);
    }
    bucket_for(rank_bytes(key), n)
}

/// The bucket of a table of `n` that a rank belongs to.
pub fn bucket_for(rank: u64, n: usize) -> (r: usize)
    requires
        n > 0,
    ensures
        r == bucket_of_rank(rank, n as nat),
        r < n,
{
    proof {
        lemma_bucket_of_rank(rank, n as nat);
        assert(rank as u128 * n as u128 <= 0xffff_ffff_ffff_ffffu128 * 0xffff_ffff_ffff_ffffu128)
            by (nonlinear_arith)
            requires
                rank as u128 <= 0xffff_ffff_ffff_ffffu128,
                n as u128 <= 0xffff_ffff_ffff_ffffu128,
        ;
    }
    ((rank as u128 * n as u128) / 0x1_0000_0000_0000_0000u128) as usize
}

/// Binds `key` to `v` in a table that has at least one bucket.
fn table_put<V>(t: &mut Vec<Vec<(Vec<u8>, V)>>, key: Vec<u8>, v: V) -> (r: Option<V>)
    requires
        old(t)@.len() > 0,
        table_placed(old(t)@),
        table_unique(old(t)@),
    ensures
        final(t)@.len() == old(t)@.len(),
        table_placed(final(t)@),
        table_unique(final(t)@),
        table_map(final(t)@) == table_map(old(t)@).insert(key@, v),
        match r {
            Some(o) => table_map(old(t)@).dom().contains(key@) && table_map(old(t)@)[key@] == o,
            None => !table_map(old(t)@).dom().contains(key@),
        },
{
    let ghost t0 = t@;
    let b: usize = slot_of(key.as_slice(), t.len());
    match position(&t[b], key.as_slice()) {
        Some(i) => {
            proof {
                lemma_pos_unique(t0[b as int]@, key@, i as int);
            }
            let mut x = v;
            core::mem::swap(&mut t[b][i].1, &mut x);
            proof {
                lemma_table_replace(t0, t@, key@, i as int, v);
            }
            Some(x)
        },
        None => {
            let ghost e = (key, v);
            t[b].push((key, v));
            proof {
                lemma_table_push(t0, t@, e);
            }
            None
        },
    }
}

impl<V> ByteMap<V> {
    /// The table's own invariant: every key sits in its home bucket, no key
    /// occurs twice, and the recorded length is the number of keys.
    pub closed spec fn wf(&self) -> bool {
        &&& table_placed(self.buckets@)
        &&& table_unique(self.buckets@)
        &&& self@.dom().finite()
        &&& self.len@ == self@.dom().len()
    }

    /// An empty table.
    pub fn new() -> (r: Self)
        ensures
            r.wf(),
            r@ == Map::<Seq<u8>, V>::empty(),
    {
        let r = ByteMap { buckets: Vec::new(), len: Count::zero() };
        assert(table_placed(r.buckets@));
        assert(table_unique(r.buckets@));
        assert(r@ =~= Map::empty());
        assert(r@.dom() =~= Set::empty());
        r
    }

    /// Number of keys, exact as long as it fits in a `usize`.
    pub fn len(&self) -> (r: usize)
        requires
            self.wf(),
        ensures
            self@.dom().finite(),
            self@.dom().len() <= usize::MAX ==> r == self@.dom().len(),
            r != 0 ==> self@.dom().len() != 0,
    {
        self.len.get()
    }

    /// Whether no key is bound.
    pub fn is_empty(&self) -> (r: bool)
        requires
            self.wf(),
        ensures
            r == (self@ == Map::<Seq<u8>, V>::empty()),
    {
        if self.len.get() != 0 {
            assert(Map::<Seq<u8>, V>::empty().dom() =~= Set::empty());
            return false;
        }
        let mut b: usize = 0;
        while b < self.buckets.len()
            invariant
                self.wf(),
                b <= self.buckets@.len(),
                forall|c: int| 0 <= c < b ==> (#[trigger] self.buckets@[c])@.len() == 0,
            decreases self.buckets@.len() - b,
        {
            if self.buckets[b].len() != 0 {
                proof {
                    let k = self.buckets@[b as int]@[0].0@;
                    assert(at_pos(self.buckets@[b as int]@, k, 0));
                    assert(self@.dom().contains(k));
                }
                return false;
            }
            b = b + 1;
        }
        proof {
            assert forall|k: Seq<u8>| !self@.dom().contains(k) by {
                if self@.dom().contains(k) {
                    lemma_home_range(k, self.buckets@.len());
                    let h = home(k, self.buckets@.len());
                    assert(self.buckets@[h]@.len() == 0);
                }
            }
            assert(self@ =~= Map::empty());
        }
        true
    }

    /// Doubles the number of buckets, keeping every binding.
    fn grow(&mut self)
        requires
            old(self).wf(),
        ensures
            final(self).wf(),
            final(self)@ == old(self)@,
            final(self).buckets@.len() > 0,
    {
        let n: usize = self.buckets.len();
        if n > 0 && n > usize::MAX / 2 {
            return;
        }
        let target: usize = if n == 0 {
            8
        } else {
            n * 2
        };
        let ghost t = self.buckets@;
        let ghost m = self@;
        let mut fresh: Vec<Vec<(Vec<u8>, V)>> = Vec::with_capacity(target);
        while fresh.len() < target
            invariant
                fresh@.len() <= target,
                forall|b: int| 0 <= b < fresh@.len() ==> (#[trigger] fresh@[b])@.len() == 0,
            decreases target - fresh@.len(),
        {
            fresh.push(Vec::new());
        }
        let mut from: Vec<Vec<(Vec<u8>, V)>> = Vec::new();
        core::mem::swap(&mut from, &mut self.buckets);
        assert forall|k: Seq<u8>| !table_has(fresh@, k) by {
            lemma_home_range(k, fresh@.len());
            let h = home(k, fresh@.len());
            assert(fresh@[h]@.len() == 0);
        }
        assert(from@ =~= t.subrange(0, from@.len() as int));
        while from.len() > 0
            invariant
                from@.len() <= t.len(),
                from@ == t.subrange(0, from@.len() as int),
                fresh@.len() == target,
                target > 0,
                table_placed(t),
                table_unique(t),
                table_placed(fresh@),
                table_unique(fresh@),
                forall|k: Seq<u8>| #[trigger]
                    table_has(fresh@, k) ==> table_has(t, k) && table_get(fresh@, k) == table_get(
                        t,
                        k,
                    ),
                forall|b: int, i: int|
                    from@.len() <= b < t.len() && 0 <= i < t[b]@.len() ==> table_has(
                        fresh@,
                        (#[trigger] t[b]@[i]).0@,
                    ),
            decreases from@.len(),
        {
            let ghost nb = from@.len() - 1;
            let last = from.pop();
            match last {
                None => {},
                Some(mut bucket) => {
                    assert(bucket@ =~= t[nb]@.subrange(0, bucket@.len() as int));
                    assert(from@ =~= t.subrange(0, nb));
                    while bucket.len() > 0
                        invariant
                            0 <= nb < t.len(),
                            from@.len() == nb,
                            from@ == t.subrange(0, nb),
                            bucket@.len() <= t[nb]@.len(),
                            bucket@ == t[nb]@.subrange(0, bucket@.len() as int),
                            fresh@.len() == target,
                            target > 0,
                            table_placed(t),
                            table_unique(t),
                            table_placed(fresh@),
                            table_unique(fresh@),
                            forall|k: Seq<u8>| #[trigger]
                                table_has(fresh@, k) ==> table_has(t, k) && table_get(fresh@, k)
                                    == table_get(t, k),
                            forall|b: int, i: int|
                                nb < b < t.len() && 0 <= i < t[b]@.len() ==> table_has(
                                    fresh@,
                                    (#[trigger] t[b]@[i]).0@,
                                ),
                            forall|i: int|
                                bucket@.len() <= i < t[nb]@.len() ==> table_has(
                                    fresh@,
                                    (#[trigger] t[nb]@[i]).0@,
                                ),
                        decreases bucket@.len(),
                    {
                        let ghost f0 = fresh@;
                        let ghost j = bucket@.len() - 1;
                        match bucket.pop() {
                            None => {},
                            Some(e) => {
                                assert(e == t[nb]@[j]);
                                proof {
                                    let k = e.0@;
                                    assert(home(k, t.len()) == nb);
                                    assert(at_pos(t[nb]@, k, j));
                                    lemma_pos_unique(t[nb]@, k, j);
                                    assert(table_has(t, k));
                                    assert(table_get(t, k) == e.1);
                                }
                                let ghost g = e;
                                let (k, v) = e;
                                let _displaced = table_put(&mut fresh, k, v);
                                proof {
                                    assert forall|k2: Seq<u8>| #[trigger]
                                        table_has(fresh@, k2) implies table_has(t, k2)
                                        && table_get(fresh@, k2) == table_get(t, k2) by {
                                        assert(table_map(fresh@).dom().contains(k2));
                                        if k2 == g.0@ {
                                            assert(table_map(fresh@)[k2] == g.1);
                                        } else {
                                            assert(table_map(f0).dom().contains(k2));
                                            assert(table_map(fresh@)[k2] == table_map(f0)[k2]);
                                            assert(table_has(f0, k2));
                                        }
                                    }
                                    assert forall|k2: Seq<u8>| #[trigger]
                                        table_has(f0, k2) implies table_has(fresh@, k2) by {
                                        assert(table_map(fresh@).dom().contains(k2));
                                    }
                                    assert(table_map(fresh@).dom().contains(g.0@));
                                    assert(bucket@ =~= t[nb]@.subrange(0, j));
                                }
                            },
                        }
                    }
                },
            }
        }
        self.buckets = fresh;
        proof {
            assert forall|k: Seq<u8>| table_has(t, k) implies table_has(self.buckets@, k) by {
                lemma_home_range(k, t.len());
                let h = home(k, t.len());
                let i = bucket_pos(t[h]@, k);
                assert(at_pos(t[h]@, k, i));
                assert(table_has(self.buckets@, t[h]@[i].0@));
            }
            assert(self@ =~= m);
        }
    }

    /// Binds `key` to `v` and hands back what it was bound to before.
    pub fn insert(&mut self, key: Vec<u8>, v: V) -> (r: Option<V>)
        requires
            old(self).wf(),
        ensures
            final(self).wf(),
            final(self)@ == old(self)@.insert(key@, v),
            match r {
                Some(o) => old(self)@.dom().contains(key@) && old(self)@[key@] == o,
                None => !old(self)@.dom().contains(key@),
            },
    {
        if self.buckets.len() == 0 || self.len.get() >= self.buckets.len() {
            self.grow();
        }
        let ghost m = self@;
        let ghost kv = key@;
        let r = table_put(&mut self.buckets, key, v);
        if r.is_none() {
            proof {
                assert(self.buckets@.len() > 0);
                assert(self@.dom() =~= m.dom().insert(kv));
            }
            self.len.up();
        } else {
            assert(self@.dom() =~= m.dom());
        }
        r
    }

    /// Unbinds `key` and hands back what it was bound to.
    pub fn remove(&mut self, key: &[u8]) -> (r: Option<V>)
        requires
            old(self).wf(),
        ensures
            final(self).wf(),
            final(self)@ == old(self)@.remove(key@),
            match r {
                Some(o) => old(self)@.dom().contains(key@) && old(self)@[key@] == o,
                None => !old(self)@.dom().contains(key@),
            },
            final(self).rows() == pruned(old(self).rows(), key@),
    {
        let ghost m = self@;
        let ghost rows = self.rows();
        if self.buckets.len() == 0 {
            assert(m.remove(key@) =~= m);
            assert(pruned(rows, key@) =~= rows);
            return None;
        }
        let ghost t = self.buckets@;
        let b: usize = slot_of(key, self.buckets.len());
        proof {
            self.lemma_row_homes(key@);
        }
        match position(&self.buckets[b], key) {
            None => {
                proof {
                    assert(m.remove(key@) =~= m);
                    self.lemma_pruned_absent(key@);
                }
                None
            },
            Some(i) => {
                proof {
                    lemma_pos_unique(t[b as int]@, key@, i as int);
                }
                let (_k, v) = self.buckets[b].remove(i);
                proof {
                    lemma_table_remove(t, self.buckets@, key@, i as int);
                    assert(self@.dom() =~= m.dom().remove(key@));
                    assert forall|c: int| 0 <= c < rows.len() implies #[trigger] pruned(
                        rows,
                        key@,
                    )[c] == self.rows()[c] by {
                        if c == b {
                            assert forall|j: int| 0 <= j < i implies rows[c][j] != key@ by {
                                assert(!at_pos(t[c]@, key@, j));
                            }
                            lemma_remove_first(rows[c], key@, i as int);
                            assert(rows[c].remove(i as int) =~= self.rows()[c]);
                        } else {
                            lemma_remove_absent(rows[c], key@);
                            assert(self.rows()[c] =~= rows[c]);
                        }
                    }
                    assert(pruned(rows, key@) =~= self.rows());
                }
                self.len.down();
                Some(v)
            },
        }
    }

    /// The value under `key`.
    pub fn get(&self, key: &[u8]) -> (r: Option<&V>)
        requires
            self.wf(),
        ensures
            match r {
                Some(v) => self@.dom().contains(key@) && *v == self@[key@],
                None => !self@.dom().contains(key@),
            },
    {
        if self.buckets.len() == 0 {
            return None;
        }
        let b: usize = slot_of(key, self.buckets.len());
        match position(&self.buckets[b], key) {
            Some(i) => {
                proof {
                    lemma_pos_unique(self.buckets@[b as int]@, key@, i as int);
                }
                Some(&self.buckets[b][i].1)
            },
            None => None,
        }
    }

    /// Whether `key` is bound.
    pub fn contains_key(&self, key: &[u8]) -> (r: bool)
        requires
            self.wf(),
        ensures
            r == self@.dom().contains(key@),
    {
        self.get(key).is_some()
    }

    /// The value under `key`, for update in place.
    pub fn get_mut(&mut self, key: &[u8]) -> (r: Option<&mut V>)
        requires
            old(self).wf(),
        ensures
            match r {
                Some(v) => {
                    &&& old(self)@.dom().contains(key@)
                    &&& *v == old(self)@[key@]
                    &&& final(self).wf()
                    &&& final(self)@ == old(self)@.insert(key@, *final(v))
                    &&& final(self).rows() == old(self).rows()
                },
                None => !old(self)@.dom().contains(key@) && *final(self) == *old(self),
            },
    {
        if self.buckets.len() == 0 {
            return None;
        }
        let b: usize = slot_of(key, self.buckets.len());
        match position(&self.buckets[b], key) {
            Some(i) => {
                let ghost t = self.buckets@;
                let ghost before = *self;
                proof {
                    lemma_pos_unique(t[b as int]@, key@, i as int);
                }
                let r = &mut self.buckets[b][i].1;
                proof {
                    let after = after_borrow(self);
                    assert forall|c: int| 0 <= c < t.len() implies #[trigger] after.rows()[c]
                        == before.rows()[c] by {
                        assert(after.rows()[c] =~= before.rows()[c]);
                    }
                    assert(after.rows() =~= before.rows());
                    lemma_table_replace(t, after_borrow(self).buckets@, key@, i as int, *final(r));
                }
                Some(r)
            },
            None => None,
        }
    }

    /// The table's buckets, each with its bindings in the order in which a
    /// walk meets them.
    pub closed spec fn chains(&self) -> Seq<Seq<(Seq<u8>, V)>> {
        Seq::new(
            self.buckets@.len(),
            |b: int|
                Seq::new(
                    self.buckets@[b]@.len(),
                    |i: int| (self.buckets@[b]@[i].0@, self.buckets@[b]@[i].1),
                ),
        )
    }

    /// The keys of each bucket in the order in which a walk meets them.
    pub open spec fn rows(&self) -> Seq<Seq<Seq<u8>>> {
        Seq::new(self.chains().len(), |b: int| row_keys(self.chains()[b]))
    }

    /// The keys in the order in which a walk over the buckets meets them.
    pub open spec fn key_order(&self) -> Seq<Seq<u8>> {
        chain_keys(self.chains())
    }

    /// A walk goes over the keys of one bucket after the other.
    pub proof fn lemma_rows(&self, b: int)
        requires
            0 <= b <= self.rows().len(),
        ensures
            self.key_order() == crate::packed::cat(self.rows()),
            self.place(b, 0) == crate::packed::cat(self.rows().subrange(0, b)).len(),
    {
        let c = self.chains();
        lemma_cat_chains(c, self.rows());
        lemma_cat_chains(c.subrange(0, b), self.rows().subrange(0, b));
    }

    /// There is nothing to prune where a key is not bound.
    pub proof fn lemma_pruned_absent(&self, k: Seq<u8>)
        requires
            self.wf(),
        ensures
            !self@.dom().contains(k) ==> pruned(self.rows(), k) == self.rows(),
    {
        if !self@.dom().contains(k) {
            self.lemma_chains();
            let rows = self.rows();
            assert forall|c: int| 0 <= c < rows.len() implies pruned(rows, k)[c]
                == #[trigger] rows[c] by {
                if rows[c].contains(k) {
                    let i = choose|i: int| 0 <= i < rows[c].len() && rows[c][i] == k;
                    assert(self.chains()[c][i].0 == k);
                }
                lemma_remove_absent(rows[c], k);
            }
            assert(pruned(rows, k) =~= rows);
        }
    }

    /// A key is in no bucket but its own.
    proof fn lemma_row_homes(&self, k: Seq<u8>)
        requires
            self.wf(),
            self.buckets@.len() > 0,
        ensures
            forall|c: int|
                0 <= c < self.rows().len() && (#[trigger] self.rows()[c]).contains(k) ==> c == home(
                    k,
                    self.buckets@.len(),
                ),
    {
        assert forall|c: int|
            0 <= c < self.rows().len() && (#[trigger] self.rows()[c]).contains(k) implies c == home(
            k,
            self.buckets@.len(),
        ) by {
            let i = choose|i: int| 0 <= i < self.rows()[c].len() && self.rows()[c][i] == k;
            assert(self.buckets@[c]@[i].0@ == k);
        }
    }

    /// A walk meets every key exactly once.
    pub proof fn lemma_chains(&self)
        requires
            self.wf(),
        ensures
            forall|b: int, i: int|
                #![trigger self.chains()[b][i]]
                0 <= b < self.chains().len() && 0 <= i < self.chains()[b].len()
                    ==> self@.dom().contains(self.chains()[b][i].0)
                    && self@[self.chains()[b][i].0] == self.chains()[b][i].1,
            forall|k: Seq<u8>| #[trigger]
                self@.dom().contains(k) ==> exists|b: int, i: int|
                    0 <= b < self.chains().len() && 0 <= i < self.chains()[b].len()
                        && (#[trigger] self.chains()[b][i]).0 == k,
            forall|b: int, i: int, c: int, j: int|
                #![trigger self.chains()[b][i], self.chains()[c][j]]
                0 <= b < self.chains().len() && 0 <= i < self.chains()[b].len() && 0 <= c
                    < self.chains().len() && 0 <= j < self.chains()[c].len()
                    && self.chains()[b][i].0 == self.chains()[c][j].0 ==> b == c && i == j,
    {
        let t = self.buckets@;
        assert forall|b: int, i: int|
            #![trigger self.chains()[b][i]]
            0 <= b < self.chains().len() && 0 <= i < self.chains()[b].len() implies self@.dom().contains(
            self.chains()[b][i].0,
        ) && self@[self.chains()[b][i].0] == self.chains()[b][i].1 by {
            let e = t[b]@[i];
            assert(at_pos(t[b]@, e.0@, i));
            assert(bucket_unique(t[b]@));
            lemma_pos_unique(t[b]@, e.0@, i);
        }
        assert forall|k: Seq<u8>| #[trigger] self@.dom().contains(k) implies exists|
            b: int,
            i: int,
        |
            0 <= b < self.chains().len() && 0 <= i < self.chains()[b].len()
                && (#[trigger] self.chains()[b][i]).0 == k by {
            lemma_home_range(k, t.len());
            let b = home(k, t.len());
            let i = bucket_pos(t[b]@, k);
            assert(at_pos(t[b]@, k, i));
            assert(self.chains()[b][i].0 == k);
        }
        assert forall|b: int, i: int, c: int, j: int|
            #![trigger self.chains()[b][i], self.chains()[c][j]]
            0 <= b < self.chains().len() && 0 <= i < self.chains()[b].len() && 0 <= c
                < self.chains().len() && 0 <= j < self.chains()[c].len() && self.chains()[b][i].0
                == self.chains()[c][j].0 implies b == c && i == j by {
            assert(home(t[b]@[i].0@, t.len()) == b);
            assert(home(t[c]@[j].0@, t.len()) == c);
            assert(bucket_unique(t[b]@));
            assert(t[b]@[i].0@ == t[c]@[j].0@);
        }
    }

    /// Number of buckets.
    pub fn bucket_count(&self) -> (r: usize)
        ensures
            r == self.chains().len(),
    {
        self.buckets.len()
    }

    /// Number of bindings in bucket `b`.
    pub fn bucket_len(&self, b: usize) -> (r: usize)
        requires
            b < self.chains().len(),
        ensures
            r == self.chains()[b as int].len(),
    {
        self.buckets[b].len()
    }

    /// The key of binding `i` of bucket `b`.
    pub fn key_at(&self, b: usize, i: usize) -> (r: &Vec<u8>)
        requires
            b < self.chains().len(),
            i < self.chains()[b as int].len(),
        ensures
            r@ == self.chains()[b as int][i as int].0,
    {
        &self.buckets[b][i].0
    }

    /// The value of binding `i` of bucket `b`.
    pub fn value_at(&self, b: usize, i: usize) -> (r: &V)
        requires
            b < self.chains().len(),
            i < self.chains()[b as int].len(),
        ensures
            *r == self.chains()[b as int][i as int].1,
    {
        &self.buckets[b][i].1
    }

    /// Every key, in the order of a walk over the buckets.
    pub fn keys(&self) -> (r: Vec<Vec<u8>>)
        requires
            self.wf(),
        ensures
            crate::bytes::deep(r@) == self.key_order(),
    {
        let mut out: Vec<Vec<u8>> = Vec::new();
        let mut b: usize = 0;
        while b < self.bucket_count()
            invariant
                b <= self.chains().len(),
                crate::bytes::deep(out@) == chain_keys(self.chains().subrange(0, b as int)),
            decreases self.chains().len() - b,
        {
            let ghost done = self.chains().subrange(0, b as int);
            let ghost more = self.chains().subrange(0, b + 1);
            let ghost row = self.chains()[b as int];
            let mut i: usize = 0;
            assert(row_keys(row).subrange(0, 0) =~= Seq::empty());
            assert(crate::bytes::deep(out@) =~= chain_keys(done) + row_keys(row).subrange(0, 0));
            while i < self.bucket_len(b)
                invariant
                    b < self.chains().len(),
                    row == self.chains()[b as int],
                    i <= row.len(),
                    crate::bytes::deep(out@) == chain_keys(done) + row_keys(row).subrange(
                        0,
                        i as int,
                    ),
                decreases row.len() - i,
            {
                let ghost before = crate::bytes::deep(out@);
                out.push(crate::bytes::copy_bytes(self.key_at(b, i).as_slice()));
                proof {
                    assert(crate::bytes::deep(out@) =~= before.push(row[i as int].0));
                    assert(row_keys(row).subrange(0, i + 1) =~= row_keys(row).subrange(
                        0,
                        i as int,
                    ).push(row[i as int].0));
                    assert(crate::bytes::deep(out@) =~= chain_keys(done) + row_keys(row).subrange(
                        0,
                        i + 1,
                    ));
                }
                i = i + 1;
            }
            proof {
                assert(row_keys(row).subrange(0, i as int) =~= row_keys(row));
                assert(more.drop_last() =~= done);
                assert(more.last() == row);
            }
            b = b + 1;
        }
        assert(self.chains().subrange(0, self.chains().len() as int) =~= self.chains());
        out
    }

    /// Number of keys that a walk meets.
    pub fn order_len(&self) -> (r: usize)
        requires
            self.wf(),
            self@.dom().len() <= usize::MAX,
        ensures
            r == self.key_order().len(),
    {
        proof {
            self.lemma_key_order();
        }
        self.len()
    }

    /// How many keys a walk meets before binding `i` of bucket `b`.
    pub open spec fn place(&self, b: int, i: int) -> int {
        chain_keys(self.chains().subrange(0, b)).len() + i
    }

    /// Whether binding `i` of bucket `b` is one that a walk can stand at.
    pub open spec fn stands(&self, b: int, i: int) -> bool {
        &&& 0 <= b <= self.chains().len()
        &&& 0 <= i
        &&& b < self.chains().len() ==> i <= self.chains()[b].len()
        &&& b == self.chains().len() ==> i == 0
    }

    /// A walk starts before the first key and ends behind the last one.
    pub proof fn lemma_place(&self, b: int, i: int)
        requires
            self.stands(b, i),
        ensures
            0 <= self.place(b, i) <= self.key_order().len(),
            self.place(0, 0) == 0,
            self.place(self.chains().len() as int, 0) == self.key_order().len(),
            b < self.chains().len() ==> self.place(b + 1, 0) == self.place(
                b,
                self.chains()[b].len() as int,
            ),
            b < self.chains().len() && i < self.chains()[b].len() ==> self.place(b, i)
                < self.key_order().len() && self.key_order()[self.place(b, i)]
                == self.chains()[b][i].0,
    {
        let c = self.chains();
        assert(chain_keys(c.subrange(0, 0)) =~= Seq::empty());
        assert(c.subrange(0, c.len() as int) =~= c);
        if b < c.len() {
            let more = c.subrange(0, b + 1);
            assert(more.drop_last() =~= c.subrange(0, b));
            assert(more.last() == c[b]);
            lemma_chain_prefix(c, b + 1);
            if i < c[b].len() {
                lemma_chain_at(c, b, i);
            }
        }
    }

    /// Bucket after bucket, a walk comes on.
    pub proof fn lemma_place_order(&self, b: int, c: int)
        requires
            0 <= b <= c <= self.chains().len(),
        ensures
            self.place(b, 0) <= self.place(c, 0),
        decreases c - b,
    {
        if b < c {
            self.lemma_place_order(b, c - 1);
            self.lemma_place(c - 1, 0);
        }
    }

    /// Every key stands in the bucket that its rank belongs to.
    pub proof fn lemma_homes(&self, b: int, i: int)
        requires
            self.wf(),
            0 <= b < self.chains().len(),
            0 <= i < self.chains()[b].len(),
        ensures
            home(self.chains()[b][i].0, self.chains().len()) == b,
    {
        assert(home(self.buckets@[b]@[i].0@, self.buckets@.len()) == b);
    }

    /// The first binding at or behind a place, if there is one.
    pub fn seek(&self, b: usize, i: usize) -> (r: Option<(usize, usize)>)
        requires
            self.stands(b as int, i as int),
        ensures
            match r {
                Some((c, j)) => b <= c < self.chains().len() && j < self.chains()[c as int].len()
                    && self.place(c as int, j as int) == self.place(b as int, i as int),
                None => self.place(b as int, i as int) == self.key_order().len(),
            },
    {
        let mut c: usize = b;
        let mut j: usize = i;
        while c < self.bucket_count()
            invariant
                b <= c,
                self.stands(c as int, j as int),
                self.place(c as int, j as int) == self.place(b as int, i as int),
            decreases self.chains().len() - c,
        {
            if j < self.bucket_len(c) {
                return Some((c, j));
            }
            proof {
                self.lemma_place(c as int, j as int);
            }
            c = c + 1;
            j = 0;
        }
        proof {
            self.lemma_place(c as int, j as int);
        }
        None
    }

    /// The binding at place `n` of a walk.
    pub fn nth(&self, n: usize) -> (r: Option<(&Vec<u8>, &V)>)
        requires
            self.wf(),
        ensures
            match r {
                Some((k, v)) => {
                    &&& n < self.key_order().len()
                    &&& k@ == self.key_order()[n as int]
                    &&& self@.dom().contains(k@)
                    &&& *v == self@[k@]
                },
                None => n >= self.key_order().len(),
            },
    {
        let ghost cs = self.chains();
        let mut rest: usize = n;
        let mut b: usize = 0;
        assert(chain_keys(cs.subrange(0, 0)) =~= Seq::empty());
        while b < self.bucket_count()
            invariant
                cs == self.chains(),
                b <= cs.len(),
                n == chain_keys(cs.subrange(0, b as int)).len() + rest,
            ensures
                cs == self.chains(),
                b <= cs.len(),
                n == chain_keys(cs.subrange(0, b as int)).len() + rest,
                b < cs.len() ==> rest < cs[b as int].len(),
            decreases cs.len() - b,
        {
            proof {
                let more = cs.subrange(0, b + 1);
                assert(more.drop_last() =~= cs.subrange(0, b as int));
                assert(more.last() == cs[b as int]);
                assert(chain_keys(more).len() == chain_keys(cs.subrange(0, b as int)).len()
                    + cs[b as int].len());
            }
            let k: usize = self.bucket_len(b);
            if rest < k {
                break;
            }
            rest = rest - k;
            b = b + 1;
        }
        if b < self.bucket_count() {
            proof {
                lemma_chain_at(cs, b as int, rest as int);
                self.lemma_chains();
                let _e = cs[b as int][rest as int];
            }
            return Some((self.key_at(b, rest), self.value_at(b, rest)));
        }
        assert(cs.subrange(0, b as int) =~= cs);
        None
    }

    /// The keys that a walk meets are the keys of the map, each once.
    pub proof fn lemma_key_order(&self)
        requires
            self.wf(),
        ensures
            self.key_order().no_duplicates(),
            self.key_order().to_set() == self@.dom(),
            self.key_order().len() == self@.dom().len(),
    {
        self.lemma_chains();
        lemma_chain_keys(self.chains());
        let o = self.key_order();
        assert forall|k: Seq<u8>| o.contains(k) == self@.dom().contains(k) by {
            if o.contains(k) {
                let (b, i) = choose|b: int, i: int|
                    0 <= b < self.chains().len() && 0 <= i < self.chains()[b].len()
                        && (#[trigger] self.chains()[b][i]).0 == k;
                assert(self@.dom().contains(self.chains()[b][i].0));
            }
            if self@.dom().contains(k) {
                let (b, i) = choose|b: int, i: int|
                    0 <= b < self.chains().len() && 0 <= i < self.chains()[b].len()
                        && (#[trigger] self.chains()[b][i]).0 == k;
                assert(self.chains()[b][i].0 == k);
            }
        }
        assert(o.to_set() =~= self@.dom());
        o.unique_seq_to_set();
    }
}

/// The keys of one bucket.
pub open spec fn row_keys<V>(row: Seq<(Seq<u8>, V)>) -> Seq<Seq<u8>> {
    Seq::new(row.len(), |i: int| row[i].0)
}

/// The keys of a list of buckets, one bucket after the other.
pub open spec fn chain_keys<V>(c: Seq<Seq<(Seq<u8>, V)>>) -> Seq<Seq<u8>>
    decreases c.len(),
{
    if c.len() == 0 {
        Seq::empty()
    } else {
        chain_keys(c.drop_last()) + row_keys(c.last())
    }
}

/// Rows without a key.
pub open spec fn pruned(rows: Seq<Seq<Seq<u8>>>, k: Seq<u8>) -> Seq<Seq<Seq<u8>>> {
    Seq::new(rows.len(), |b: int| rows[b].remove_value(k))
}

proof fn lemma_cat_chains<V>(c: Seq<Seq<(Seq<u8>, V)>>, rows: Seq<Seq<Seq<u8>>>)
    requires
        rows.len() == c.len(),
        forall|b: int| 0 <= b < c.len() ==> #[trigger] rows[b] == row_keys(c[b]),
    ensures
        chain_keys(c) == crate::packed::cat(rows),
    decreases c.len(),
{
    if c.len() > 0 {
        lemma_cat_chains(c.drop_last(), rows.drop_last());
        assert(rows.last() == row_keys(c.last()));
    }
}

proof fn lemma_remove_absent(row: Seq<Seq<u8>>, k: Seq<u8>)
    requires
        !row.contains(k),
    ensures
        row.remove_value(k) == row,
{
    row.index_of_first_ensures(k);
}

proof fn lemma_remove_first(row: Seq<Seq<u8>>, k: Seq<u8>, i: int)
    requires
        0 <= i < row.len(),
        row[i] == k,
        forall|j: int| 0 <= j < i ==> #[trigger] row[j] != k,
    ensures
        row.remove_value(k) == row.remove(i),
{
    row.index_of_first_ensures(k);
}

/// The keys of the first buckets come first.
proof fn lemma_chain_prefix<V>(c: Seq<Seq<(Seq<u8>, V)>>, n: int)
    requires
        0 <= n <= c.len(),
    ensures
        chain_keys(c.subrange(0, n)).len() <= chain_keys(c).len(),
        chain_keys(c).subrange(0, chain_keys(c.subrange(0, n)).len() as int) == chain_keys(
            c.subrange(0, n),
        ),
    decreases c.len() - n,
{
    let a = chain_keys(c.subrange(0, n));
    if n == c.len() {
        assert(c.subrange(0, n) =~= c);
        assert(a.subrange(0, a.len() as int) =~= a);
    } else {
        lemma_chain_prefix(c, n + 1);
        let m = c.subrange(0, n + 1);
        assert(m.drop_last() =~= c.subrange(0, n));
        let d = chain_keys(m);
        assert(d == a + row_keys(c[n]));
        assert(chain_keys(c).subrange(0, a.len() as int) =~= d.subrange(0, a.len() as int));
        assert(d.subrange(0, a.len() as int) =~= a);
    }
}

/// The place of one key among all.
proof fn lemma_chain_at<V>(c: Seq<Seq<(Seq<u8>, V)>>, b: int, i: int)
    requires
        0 <= b < c.len(),
        0 <= i < c[b].len(),
    ensures
        ({
            let at = chain_keys(c.subrange(0, b)).len() + i;
            at < chain_keys(c).len() && chain_keys(c)[at] == c[b][i].0
        }),
{
    let more = c.subrange(0, b + 1);
    assert(more.drop_last() =~= c.subrange(0, b));
    assert(more.last() == c[b]);
    let d = chain_keys(more);
    let at = chain_keys(c.subrange(0, b)).len() + i;
    assert(d[at] == c[b][i].0);
    lemma_chain_prefix(c, b + 1);
    assert(chain_keys(c).subrange(0, d.len() as int)[at] == d[at]);
}

/// What the flattened list of keys holds.
proof fn lemma_chain_keys<V>(c: Seq<Seq<(Seq<u8>, V)>>)
    requires
        forall|b: int, i: int, d: int, j: int|
            #![trigger c[b][i], c[d][j]]
            0 <= b < c.len() && 0 <= i < c[b].len() && 0 <= d < c.len() && 0 <= j < c[d].len()
                && c[b][i].0 == c[d][j].0 ==> b == d && i == j,
    ensures
        chain_keys(c).no_duplicates(),
        forall|k: Seq<u8>| #[trigger]
            chain_keys(c).contains(k) <==> exists|b: int, i: int|
                0 <= b < c.len() && 0 <= i < c[b].len() && (#[trigger] c[b][i]).0 == k,
    decreases c.len(),
{
    if c.len() > 0 {
        let p = c.drop_last();
        let n = c.len() - 1;
        assert forall|b: int, i: int, d: int, j: int|
            #![trigger p[b][i], p[d][j]]
            0 <= b < p.len() && 0 <= i < p[b].len() && 0 <= d < p.len() && 0 <= j < p[d].len()
                && p[b][i].0 == p[d][j].0 implies b == d && i == j by {
            assert(c[b][i].0 == c[d][j].0);
        }
        lemma_chain_keys(p);
        let front = chain_keys(p);
        let back = row_keys(c.last());
        let all = chain_keys(c);
        assert(all == front + back);
        assert forall|k: Seq<u8>| #[trigger] all.contains(k) <==> exists|b: int, i: int|
            0 <= b < c.len() && 0 <= i < c[b].len() && (#[trigger] c[b][i]).0 == k by {
            if all.contains(k) {
                let x = choose|x: int| 0 <= x < all.len() && all[x] == k;
                if x < front.len() {
                    assert(front[x] == k);
                    assert(front.contains(k));
                    let (b, i) = choose|b: int, i: int|
                        0 <= b < p.len() && 0 <= i < p[b].len() && (#[trigger] p[b][i]).0 == k;
                    assert(c[b][i].0 == k);
                } else {
                    assert(back[x - front.len()] == k);
                    assert(c[n][x - front.len()].0 == k);
                }
            }
            if exists|b: int, i: int|
                0 <= b < c.len() && 0 <= i < c[b].len() && (#[trigger] c[b][i]).0 == k {
                let (b, i) = choose|b: int, i: int|
                    0 <= b < c.len() && 0 <= i < c[b].len() && (#[trigger] c[b][i]).0 == k;
                if b < n {
                    assert(p[b][i].0 == k);
                    assert(front.contains(k));
                    let x = choose|x: int| 0 <= x < front.len() && front[x] == k;
                    assert(all[x] == k);
                } else {
                    assert(all[front.len() + i] == k);
                }
            }
        }
        assert(all.no_duplicates()) by {
            assert forall|x: int, y: int| 0 <= x < all.len() && 0 <= y < all.len() && x != y implies all[x]
                != all[y] by {
                if x < front.len() && y < front.len() {
                    assert(front[x] != front[y]);
                } else if x >= front.len() && y >= front.len() {
                    if all[x] == all[y] {
                        assert(c[n][x - front.len()].0 == c[n][y - front.len()].0);
                    }
                } else if all[x] == all[y] {
                    let (u, v) = if x < front.len() {
                        (x, y)
                    } else {
                        (y, x)
                    };
                    assert(front[u] == all[u]);
                    assert(front.contains(all[u]));
                    let (b, i) = choose|b: int, i: int|
                        0 <= b < p.len() && 0 <= i < p[b].len() && (#[trigger] p[b][i]).0 == all[u];
                    assert(c[b][i].0 == c[n][v - front.len()].0);
                }
            }
        }
    }
}

/// A clone binds the same keys, each to a clone of its value.
impl<V: Clone> Clone for ByteMap<V> {
    fn clone(&self) -> (r: Self)
        ensures
            self.wf() ==> r.wf(),
            self.wf() ==> r@.dom() == self@.dom(),
            self.wf() ==> forall|k: Seq<u8>| #[trigger]
                self@.dom().contains(k) ==> cloned(self@[k], r@[k]),
    {
        let mut out: Vec<Vec<(Vec<u8>, V)>> = Vec::with_capacity(self.buckets.len());
        let mut b: usize = 0;
        let ghost t = self.buckets@;
        while b < self.buckets.len()
            invariant
                t == self.buckets@,
                b <= t.len(),
                out@.len() == b,
                forall|c: int| 0 <= c < b ==> copied(t[c]@, (#[trigger] out@[c])@),
            decreases t.len() - b,
        {
            let row = &self.buckets[b];
            let mut fresh: Vec<(Vec<u8>, V)> = Vec::with_capacity(row.len());
            let mut i: usize = 0;
            while i < row.len()
                invariant
                    row@ == t[b as int]@,
                    i <= row@.len(),
                    fresh@.len() == i,
                    forall|j: int|
                        0 <= j < i ==> (#[trigger] fresh@[j]).0@ == row@[j].0@ && cloned(
                            row@[j].1,
                            fresh@[j].1,
                        ),
                decreases row@.len() - i,
            {
                fresh.push((crate::bytes::copy_bytes(row[i].0.as_slice()), row[i].1.clone()));
                i = i + 1;
            }
            out.push(fresh);
            b = b + 1;
        }
        let r = ByteMap { buckets: out, len: self.len.clone() };
        proof {
            let u = r.buckets@;
            if self.wf() {
                assert forall|k: Seq<u8>| table_has(u, k) == table_has(t, k) by {
                    if t.len() > 0 {
                        lemma_home_range(k, t.len());
                        let h = home(k, t.len());
                        assert(copied(t[h]@, u[h]@));
                        if bucket_has(t[h]@, k) {
                            assert(at_pos(u[h]@, k, bucket_pos(t[h]@, k)));
                        }
                        if bucket_has(u[h]@, k) {
                            assert(at_pos(t[h]@, k, bucket_pos(u[h]@, k)));
                        }
                    }
                }
                assert(table_unique(u)) by {
                    assert forall|c: int| 0 <= c < u.len() implies bucket_unique(#[trigger] u[c]@) by {
                        assert(copied(t[c]@, u[c]@));
                        assert(bucket_unique(t[c]@));
                        assert forall|x: int, y: int|
                            0 <= x < u[c]@.len() && 0 <= y < u[c]@.len() && #[trigger] u[c]@[x].0@
                                == #[trigger] u[c]@[y].0@ implies x == y by {
                            assert(t[c]@[x].0@ == t[c]@[y].0@);
                        }
                    }
                }
                assert(table_placed(u)) by {
                    assert forall|c: int, j: int| 0 <= c < u.len() && 0 <= j < u[c]@.len() implies home(
                        (#[trigger] u[c]@[j]).0@,
                        u.len(),
                    ) == c by {
                        assert(copied(t[c]@, u[c]@));
                        assert(home(t[c]@[j].0@, t.len()) == c);
                    }
                }
                assert(r@.dom() =~= self@.dom());
                assert forall|k: Seq<u8>| #[trigger] self@.dom().contains(k) implies cloned(
                    self@[k],
                    r@[k],
                ) by {
                    lemma_home_range(k, t.len());
                    let h = home(k, t.len());
                    assert(copied(t[h]@, u[h]@));
                    let i = bucket_pos(t[h]@, k);
                    assert(at_pos(t[h]@, k, i));
                    assert(bucket_unique(u[h]@));
                    assert(at_pos(u[h]@, k, i));
                    lemma_pos_unique(u[h]@, k, i);
                }
            }
        }
        r
    }
}

spec fn copied<V: Clone>(a: Seq<(Vec<u8>, V)>, b: Seq<(Vec<u8>, V)>) -> bool {
    &&& a.len() == b.len()
    &&& forall|j: int|
        0 <= j < a.len() ==> (#[trigger] b[j]).0@ == a[j].0@ && cloned(a[j].1, b[j].1)
}

} // verus!
