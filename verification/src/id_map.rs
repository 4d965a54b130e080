//! Maps keyed by stream ids, kept in id order.
use vstd::prelude::*;
use crate::stream_id::{id_before, StreamId};

verus! {

/// A map from ids to `V`, as a vector in id order.
pub struct IdMap<V> {
    items: Vec<(StreamId, V)>,
}

/// Strictly ascending ids.
pub open spec fn ascending(q: Seq<StreamId>) -> bool {
    forall|i: int, j: int|
        #![trigger q[i], q[j]]
        0 <= i < j < q.len() ==> crate::stream_id::id_lt(q[i], q[j])
}

/// A set of ids in ascending order.
pub open spec fn sorted_ids(s: Set<StreamId>) -> Seq<StreamId> {
    choose|q: Seq<StreamId>| ascending(q) && q.to_set() == s
}

/// There is only one way to put a set of ids in ascending order.
pub proof fn lemma_ascending_unique(a: Seq<StreamId>, b: Seq<StreamId>)
    requires
        ascending(a),
        ascending(b),
        a.to_set() == b.to_set(),
    ensures
        a == b,
    decreases a.len(),
{
    if a.len() == 0 {
        if b.len() > 0 {
            assert(b.to_set().contains(b[0]));
            assert(a.to_set().contains(b[0]));
        }
        assert(a =~= b);
    } else {
        assert(a.to_set().contains(a.last()));
        assert(b.to_set().contains(a.last()));
        assert(b.contains(a.last()));
        assert(b.len() > 0);
        assert(b.to_set().contains(b.last()));
        assert(a.to_set().contains(b.last()));
        assert(a.contains(b.last()));
        let x = choose|x: int| 0 <= x < b.len() && b[x] == a.last();
        let y = choose|y: int| 0 <= y < a.len() && a[y] == b.last();
        assert(a.last() == b.last()) by {
            if x < b.len() - 1 {
                assert(crate::stream_id::id_lt(b[x], b[b.len() - 1]));
            }
            if y < a.len() - 1 {
                assert(crate::stream_id::id_lt(a[y], a[a.len() - 1]));
            }
        }
        let p = a.drop_last();
        let q = b.drop_last();
        assert forall|z: StreamId| p.to_set().contains(z) == q.to_set().contains(z) by {
            lemma_drop_last_contains(a, z);
            lemma_drop_last_contains(b, z);
            assert(a.to_set().contains(z) == b.to_set().contains(z));
            assert(a.to_set().contains(z) == a.contains(z));
            assert(b.to_set().contains(z) == b.contains(z));
        }
        assert(p.to_set() =~= q.to_set());
        lemma_ascending_unique(p, q);
        assert(a =~= p.push(a.last()));
        assert(b =~= q.push(b.last()));
    }
}

proof fn lemma_drop_last_contains(a: Seq<StreamId>, z: StreamId)
    requires
        ascending(a),
        a.len() > 0,
    ensures
        a.drop_last().contains(z) <==> a.contains(z) && z != a.last(),
{
    let p = a.drop_last();
    if p.contains(z) {
        let i = choose|i: int| 0 <= i < p.len() && p[i] == z;
        assert(a[i] == z);
        assert(crate::stream_id::id_lt(a[i], a[a.len() - 1]));
    }
    if a.contains(z) && z != a.last() {
        let i = choose|i: int| 0 <= i < a.len() && a[i] == z;
        assert(p[i] == z);
    }
}

/// Any ascending list of a set's ids is the set's sorted list.
pub proof fn lemma_sorted_ids(q: Seq<StreamId>, s: Set<StreamId>)
    requires
        ascending(q),
        q.to_set() == s,
    ensures
        sorted_ids(s) == q,
{
    let p = sorted_ids(s);
    assert(ascending(p) && p.to_set() == s);
    lemma_ascending_unique(p, q);
}

/// The ids of `q` from `a` to `b`, both included.
pub open spec fn within(q: Seq<StreamId>, a: StreamId, b: StreamId) -> Seq<StreamId>
    decreases q.len(),
{
    if q.len() == 0 {
        Seq::empty()
    } else {
        let p = within(q.drop_last(), a, b);
        if crate::stream_id::id_le(a, q.last()) && crate::stream_id::id_le(q.last(), b) {
            p.push(q.last())
        } else {
            p
        }
    }
}

/// In an ascending list, the ids of a range lie next to each other.
pub proof fn lemma_within(q: Seq<StreamId>, a: StreamId, b: StreamId, lo: int, hi: int)
    requires
        ascending(q),
        0 <= lo <= hi <= q.len(),
        forall|i: int| 0 <= i < lo ==> crate::stream_id::id_lt(#[trigger] q[i], a),
        forall|i: int|
            lo <= i < hi ==> crate::stream_id::id_le(a, #[trigger] q[i]) && crate::stream_id::id_le(
                q[i],
                b,
            ),
        forall|i: int| hi <= i < q.len() ==> crate::stream_id::id_lt(b, #[trigger] q[i]),
    ensures
        within(q, a, b) == q.subrange(lo, hi),
    decreases q.len(),
{
    if q.len() == 0 {
        assert(q.subrange(lo, hi) =~= Seq::empty());
    } else {
        let p = q.drop_last();
        let n = p.len() as int;
        let lo1 = if lo <= n {
            lo
        } else {
            n
        };
        let hi1 = if hi <= n {
            hi
        } else {
            n
        };
        assert forall|i: int| 0 <= i < lo1 implies crate::stream_id::id_lt(#[trigger] p[i], a) by {
            assert(p[i] == q[i]);
        }
        assert forall|i: int| lo1 <= i < hi1 implies crate::stream_id::id_le(a, #[trigger] p[i])
            && crate::stream_id::id_le(p[i], b) by {
            assert(p[i] == q[i]);
        }
        assert forall|i: int| hi1 <= i < p.len() implies crate::stream_id::id_lt(
            b,
            #[trigger] p[i],
        ) by {
            assert(p[i] == q[i]);
        }
        assert forall|i: int, j: int| #![trigger p[i], p[j]] 0 <= i < j < p.len() implies crate::stream_id::id_lt(
            p[i],
            p[j],
        ) by {
            assert(crate::stream_id::id_lt(q[i], q[j]));
        }
        lemma_within(p, a, b, lo1, hi1);
        let z = q.last();
        assert(z == q[n]);
        if lo <= n && n < hi {
            assert(crate::stream_id::id_le(a, q[n]) && crate::stream_id::id_le(q[n], b));
            assert(q.subrange(lo, hi) =~= p.subrange(lo1, hi1).push(z));
        } else {
            if n < lo {
                assert(crate::stream_id::id_lt(q[n], a));
                assert(q.subrange(lo, hi) =~= p.subrange(lo1, hi1));
            } else {
                assert(crate::stream_id::id_lt(b, q[n]));
                assert(q.subrange(lo, hi) =~= p.subrange(lo1, hi1));
            }
        }
    }
}

/// Whether place `i` holds `id`.
spec fn id_at<V>(items: Seq<(StreamId, V)>, id: StreamId, i: int) -> bool {
    0 <= i < items.len() && items[i].0 == id
}

spec fn has_id<V>(items: Seq<(StreamId, V)>, id: StreamId) -> bool {
    exists|i: int| id_at(items, id, i)
}

spec fn id_place<V>(items: Seq<(StreamId, V)>, id: StreamId) -> int {
    choose|i: int| id_at(items, id, i)
}

/// The ids of a list of items.
spec fn item_ids<V>(items: Seq<(StreamId, V)>) -> Seq<StreamId> {
    Seq::new(items.len(), |i: int| items[i].0)
}

impl<V> View for IdMap<V> {
    type V = Map<StreamId, V>;

    closed spec fn view(&self) -> Map<StreamId, V> {
        Map::new(
            |id: StreamId| has_id(self.items@, id),
            |id: StreamId| self.items@[id_place(self.items@, id)].1,
        )
    }
}

proof fn lemma_id_place<V>(items: Seq<(StreamId, V)>, i: int)
    requires
        ascending(item_ids(items)),
        0 <= i < items.len(),
    ensures
        has_id(items, items[i].0),
        id_place(items, items[i].0) == i,
{
    let id = items[i].0;
    assert(id_at(items, id, i));
    let j = id_place(items, id);
    assert(id_at(items, id, j));
    let q = item_ids(items);
    if i < j {
        assert(crate::stream_id::id_lt(q[i], q[j]));
    } else if j < i {
        assert(crate::stream_id::id_lt(q[j], q[i]));
    }
}

impl<V> IdMap<V> {
    /// The items are in strictly ascending id order.
    pub closed spec fn wf(&self) -> bool {
        ascending(item_ids(self.items@))
    }

    /// The ids in order.
    pub closed spec fn ids(&self) -> Seq<StreamId> {
        item_ids(self.items@)
    }

    /// The ids in order are the map's ids, ascending.
    pub proof fn lemma_ids(&self)
        requires
            self.wf(),
        ensures
            ascending(self.ids()),
            self.ids() == sorted_ids(self@.dom()),
            self.ids().to_set() == self@.dom(),
            self@.dom().finite(),
            self.ids().len() == self@.dom().len(),
            forall|i: int|
                0 <= i < self.ids().len() ==> self@.dom().contains(#[trigger] self.ids()[i]),
    {
        let q = self.ids();
        assert forall|id: StreamId| q.to_set().contains(id) == self@.dom().contains(id) by {
            if q.to_set().contains(id) {
                let i = choose|i: int| 0 <= i < q.len() && q[i] == id;
                assert(id_at(self.items@, id, i));
            }
            if self@.dom().contains(id) {
                let i = id_place(self.items@, id);
                assert(id_at(self.items@, id, i));
                assert(q[i] == id);
            }
        }
        assert(q.to_set() =~= self@.dom());
        lemma_sorted_ids(q, self@.dom());
        assert(q.no_duplicates()) by {
            assert forall|i: int, j: int| 0 <= i < q.len() && 0 <= j < q.len() && i != j implies q[i]
                != q[j] by {
                if i < j {
                    assert(crate::stream_id::id_lt(q[i], q[j]));
                } else {
                    assert(crate::stream_id::id_lt(q[j], q[i]));
                }
            }
        }
        q.unique_seq_to_set();
        assert forall|i: int| 0 <= i < q.len() implies self@.dom().contains(#[trigger] q[i]) by {
            assert(q.to_set().contains(q[i]));
        }
    }

    /// An empty map.
    pub fn new() -> (r: Self)
        ensures
            r.wf(),
            r@ == Map::<StreamId, V>::empty(),
    {
        let r = IdMap { items: Vec::new() };
        assert(r@ =~= Map::empty());
        r
    }

    /// Number of ids.
    pub fn len(&self) -> (r: usize)
        requires
            self.wf(),
        ensures
            r == self@.dom().len(),
            r == self.ids().len(),
            self@.dom().finite(),
    {
        proof {
            self.lemma_ids();
        }
        self.items.len()
    }

    /// The first place whose id is not before `id`.
    pub fn lower_bound(&self, id: StreamId) -> (r: usize)
        requires
            self.wf(),
        ensures
            r <= self.ids().len(),
            forall|i: int| 0 <= i < r ==> crate::stream_id::id_lt(#[trigger] self.ids()[i], id),
            forall|i: int|
                r <= i < self.ids().len() ==> !crate::stream_id::id_lt(#[trigger] self.ids()[i], id),
    {
        let ghost q = self.ids();
        let mut lo: usize = 0;
        let mut hi: usize = self.items.len();
        while lo < hi
            invariant
                self.wf(),
                q == self.ids(),
                lo <= hi <= q.len(),
                q.len() == self.items@.len(),
                forall|i: int| 0 <= i < lo ==> crate::stream_id::id_lt(#[trigger] q[i], id),
                forall|i: int| hi <= i < q.len() ==> !crate::stream_id::id_lt(#[trigger] q[i], id),
            decreases hi - lo,
        {
            let mid: usize = lo + (hi - lo) / 2;
            assert(q[mid as int] == self.items@[mid as int].0);
            if id_before(self.items[mid].0, id) {
                assert forall|i: int| 0 <= i < mid + 1 implies crate::stream_id::id_lt(
                    #[trigger] q[i],
                    id,
                ) by {
                    if i < mid {
                        assert(crate::stream_id::id_lt(q[i], q[mid as int]));
                    }
                }
                lo = mid + 1;
            } else {
                assert forall|i: int| mid <= i < q.len() implies !crate::stream_id::id_lt(
                    #[trigger] q[i],
                    id,
                ) by {
                    if i > mid {
                        assert(crate::stream_id::id_lt(q[mid as int], q[i]));
                    }
                }
                hi = mid;
            }
        }
        lo
    }

    /// The first place whose id is behind `id`.
    pub fn upper_bound(&self, id: StreamId) -> (r: usize)
        requires
            self.wf(),
        ensures
            r <= self.ids().len(),
            forall|i: int| 0 <= i < r ==> crate::stream_id::id_le(#[trigger] self.ids()[i], id),
            forall|i: int|
                r <= i < self.ids().len() ==> crate::stream_id::id_lt(id, #[trigger] self.ids()[i]),
    {
        let r: usize = self.lower_bound(id);
        let ghost q = self.ids();
        if r < self.items.len() {
            let here: StreamId = self.items[r].0;
            assert(q[r as int] == here);
            if here.ms == id.ms && here.seq == id.seq {
                assert forall|i: int| r + 1 <= i < q.len() implies crate::stream_id::id_lt(
                    id,
                    #[trigger] q[i],
                ) by {
                    assert(crate::stream_id::id_lt(q[r as int], q[i]));
                }
                return r + 1;
            }
            assert forall|i: int| r <= i < q.len() implies crate::stream_id::id_lt(
                id,
                #[trigger] q[i],
            ) by {
                if i > r {
                    assert(crate::stream_id::id_lt(q[r as int], q[i]));
                }
            }
        }
        r
    }

    fn find(&self, id: StreamId) -> (r: Option<usize>)
        requires
            self.wf(),
        ensures
            match r {
                Some(i) => i < self.items@.len() && self.items@[i as int].0 == id,
                None => !has_id(self.items@, id),
            },
    {
        let r: usize = self.lower_bound(id);
        let ghost q = self.ids();
        if r < self.items.len() {
            let here: StreamId = self.items[r].0;
            if here.ms == id.ms && here.seq == id.seq {
                return Some(r);
            }
        }
        proof {
            if has_id(self.items@, id) {
                let i = id_place(self.items@, id);
                assert(id_at(self.items@, id, i));
                assert(q[i] == id);
                if i > r {
                    assert(crate::stream_id::id_lt(q[r as int], q[i]));
                }
            }
        }
        None
    }

    /// Whether `id` is bound.
    pub fn contains_key(&self, id: StreamId) -> (r: bool)
        requires
            self.wf(),
        ensures
            r == self@.dom().contains(id),
    {
        match self.find(id) {
            Some(i) => {
                assert(id_at(self.items@, id, i as int));
                true
            },
            None => false,
        }
    }

    /// The value under `id`.
    pub fn get(&self, id: StreamId) -> (r: Option<&V>)
        requires
            self.wf(),
        ensures
            match r {
                Some(v) => self@.dom().contains(id) && *v == self@[id],
                None => !self@.dom().contains(id),
            },
    {
        match self.find(id) {
            Some(i) => {
                proof {
                    lemma_id_place(self.items@, i as int);
                }
                Some(&self.items[i].1)
            },
            None => None,
        }
    }

    /// The id at place `i`.
    pub fn id_of(&self, i: usize) -> (r: StreamId)
        requires
            i < self.ids().len(),
        ensures
            r == self.ids()[i as int],
    {
        self.items[i].0
    }

    /// The value at place `i`.
    pub fn value_of(&self, i: usize) -> (r: &V)
        requires
            self.wf(),
            i < self.ids().len(),
        ensures
            self@.dom().contains(self.ids()[i as int]),
            *r == self@[self.ids()[i as int]],
    {
        proof {
            lemma_id_place(self.items@, i as int);
        }
        &self.items[i].1
    }

    /// Binds `id` to `v` and hands back what it was bound to.
    pub fn insert(&mut self, id: StreamId, v: V) -> (r: Option<V>)
        requires
            old(self).wf(),
        ensures
            final(self).wf(),
            final(self)@ == old(self)@.insert(id, v),
            match r {
                Some(o) => old(self)@.dom().contains(id) && old(self)@[id] == o,
                None => !old(self)@.dom().contains(id),
            },
    {
        let ghost m = self@;
        let ghost t = self.items@;
        match self.find(id) {
            Some(i) => {
                proof {
                    lemma_id_place(t, i as int);
                }
                let mut x = v;
                core::mem::swap(&mut self.items[i].1, &mut x);
                proof {
                    let u = self.items@;
                    assert(item_ids(u) =~= item_ids(t));
                    lemma_replace(t, u, i as int, v);
                    assert(self@ =~= m.insert(id, v));
                }
                Some(x)
            },
            None => {
                let at: usize = self.lower_bound(id);
                proof {
                    let q = item_ids(t);
                    assert forall|i: int| at <= i < q.len() implies crate::stream_id::id_lt(
                        id,
                        #[trigger] q[i],
                    ) by {
                        assert(!id_at(t, id, i));
                    }
                }
                self.items.insert(at, (id, v));
                proof {
                    lemma_inserted(t, self.items@, at as int, id, v);
                    assert(self@ =~= m.insert(id, v));
                }
                None
            },
        }
    }

    /// Unbinds `id` and hands back what it was bound to.
    pub fn remove(&mut self, id: StreamId) -> (r: Option<V>)
        requires
            old(self).wf(),
        ensures
            final(self).wf(),
            final(self)@ == old(self)@.remove(id),
            match r {
                Some(o) => old(self)@.dom().contains(id) && old(self)@[id] == o,
                None => !old(self)@.dom().contains(id),
            },
    {
        let ghost m = self@;
        let ghost t = self.items@;
        match self.find(id) {
            None => {
                assert(m.remove(id) =~= m);
                None
            },
            Some(i) => {
                proof {
                    lemma_id_place(t, i as int);
                }
                let (_id, v) = self.items.remove(i);
                proof {
                    lemma_removed(t, self.items@, i as int);
                    assert(self@ =~= m.remove(id));
                }
                Some(v)
            },
        }
    }
}

proof fn lemma_replace<V>(t: Seq<(StreamId, V)>, u: Seq<(StreamId, V)>, i: int, v: V)
    requires
        ascending(item_ids(t)),
        0 <= i < t.len(),
        u == t.update(i, (t[i].0, v)),
    ensures
        forall|x: StreamId| #[trigger] has_id(u, x) == has_id(t, x),
        forall|x: StreamId| #[trigger]
            has_id(u, x) ==> u[id_place(u, x)].1 == (if x == t[i].0 {
                v
            } else {
                t[id_place(t, x)].1
            }),
{
    assert(item_ids(u) =~= item_ids(t));
    assert forall|x: StreamId| #[trigger] has_id(u, x) == has_id(t, x) by {
        if has_id(t, x) {
            assert(id_at(u, x, id_place(t, x)));
        }
        if has_id(u, x) {
            assert(id_at(t, x, id_place(u, x)));
        }
    }
    assert forall|x: StreamId| #[trigger] has_id(u, x) implies u[id_place(u, x)].1 == (if x
        == t[i].0 {
        v
    } else {
        t[id_place(t, x)].1
    }) by {
        let j = id_place(u, x);
        assert(id_at(u, x, j));
        assert(t[j].0 == x);
        lemma_id_place(u, j);
        lemma_id_place(t, j);
        if x == t[i].0 {
            lemma_id_place(t, i);
            assert(j == i);
        } else {
            assert(j != i);
        }
    }
}

proof fn lemma_inserted<V>(
    t: Seq<(StreamId, V)>,
    u: Seq<(StreamId, V)>,
    at: int,
    id: StreamId,
    v: V,
)
    requires
        ascending(item_ids(t)),
        0 <= at <= t.len(),
        u == t.insert(at, (id, v)),
        forall|i: int| 0 <= i < at ==> crate::stream_id::id_lt(#[trigger] item_ids(t)[i], id),
        forall|i: int|
            at <= i < t.len() ==> crate::stream_id::id_lt(id, #[trigger] item_ids(t)[i]),
    ensures
        ascending(item_ids(u)),
        forall|x: StreamId| #[trigger] has_id(u, x) == (x == id || has_id(t, x)),
        forall|x: StreamId| #[trigger]
            has_id(u, x) ==> u[id_place(u, x)].1 == (if x == id {
                v
            } else {
                t[id_place(t, x)].1
            }),
{
    let q = item_ids(t);
    let w = item_ids(u);
    assert forall|i: int| 0 <= i < u.len() implies #[trigger] u[i] == (if i < at {
        t[i]
    } else if i == at {
        (id, v)
    } else {
        t[i - 1]
    }) by {}
    assert forall|i: int, j: int| #![trigger w[i], w[j]] 0 <= i < j < w.len() implies crate::stream_id::id_lt(
        w[i],
        w[j],
    ) by {
        if i < at && j < at {
            assert(crate::stream_id::id_lt(q[i], q[j]));
        } else if i < at && j == at {
            assert(crate::stream_id::id_lt(q[i], id));
        } else if i < at {
            assert(crate::stream_id::id_lt(q[i], q[j - 1]));
        } else if i == at {
            assert(crate::stream_id::id_lt(id, q[j - 1]));
        } else {
            assert(crate::stream_id::id_lt(q[i - 1], q[j - 1]));
        }
    }
    assert forall|x: StreamId| #[trigger] has_id(u, x) == (x == id || has_id(t, x)) by {
        if x == id {
            assert(id_at(u, x, at));
        }
        if has_id(t, x) {
            let j = id_place(t, x);
            assert(id_at(t, x, j));
            assert(id_at(
                u,
                x,
                if j < at {
                    j
                } else {
                    j + 1
                },
            ));
        }
        if has_id(u, x) && x != id {
            let j = id_place(u, x);
            assert(id_at(u, x, j));
            assert(id_at(
                t,
                x,
                if j < at {
                    j
                } else {
                    j - 1
                },
            ));
        }
    }
    assert forall|x: StreamId| #[trigger] has_id(u, x) implies u[id_place(u, x)].1 == (if x == id {
        v
    } else {
        t[id_place(t, x)].1
    }) by {
        if x == id {
            lemma_id_place(u, at);
        } else {
            let j = id_place(u, x);
            assert(id_at(u, x, j));
            lemma_id_place(
                t,
                if j < at {
                    j
                } else {
                    j - 1
                },
            );
        }
    }
}

proof fn lemma_removed<V>(t: Seq<(StreamId, V)>, u: Seq<(StreamId, V)>, i: int)
    requires
        ascending(item_ids(t)),
        0 <= i < t.len(),
        u == t.remove(i),
    ensures
        ascending(item_ids(u)),
        forall|x: StreamId| #[trigger] has_id(u, x) == (x != t[i].0 && has_id(t, x)),
        forall|x: StreamId| #[trigger]
            has_id(u, x) ==> u[id_place(u, x)].1 == t[id_place(t, x)].1,
{
    let q = item_ids(t);
    let w = item_ids(u);
    assert forall|j: int| 0 <= j < u.len() implies #[trigger] u[j] == t[if j < i {
        j
    } else {
        j + 1
    }] by {}
    assert forall|a: int, b: int| #![trigger w[a], w[b]] 0 <= a < b < w.len() implies crate::stream_id::id_lt(
        w[a],
        w[b],
    ) by {
        let a1 = if a < i {
            a
        } else {
            a + 1
        };
        let b1 = if b < i {
            b
        } else {
            b + 1
        };
        assert(crate::stream_id::id_lt(q[a1], q[b1]));
    }
    assert forall|x: StreamId| #[trigger] has_id(u, x) == (x != t[i].0 && has_id(t, x)) by {
        if has_id(u, x) {
            let j = id_place(u, x);
            assert(id_at(u, x, j));
            let j1 = if j < i {
                j
            } else {
                j + 1
            };
            assert(id_at(t, x, j1));
            if j1 < i {
                assert(crate::stream_id::id_lt(q[j1], q[i]));
            } else {
                assert(crate::stream_id::id_lt(q[i], q[j1]));
            }
        }
        if has_id(t, x) && x != t[i].0 {
            let j = id_place(t, x);
            assert(id_at(t, x, j));
            assert(id_at(
                u,
                x,
                if j < i {
                    j
                } else {
                    j - 1
                },
            ));
        }
    }
    assert forall|x: StreamId| #[trigger] has_id(u, x) implies u[id_place(u, x)].1 == t[id_place(
        t,
        x,
    )].1 by {
        let j = id_place(u, x);
        assert(id_at(u, x, j));
        lemma_id_place(
            t,
            if j < i {
                j
            } else {
                j + 1
            },
        );
    }
}

/// The ids of `q` that `keep` holds of, in order.
pub open spec fn select(q: Seq<StreamId>, keep: spec_fn(StreamId) -> bool) -> Seq<StreamId>
    decreases q.len(),
{
    if q.len() == 0 {
        Seq::empty()
    } else {
        let p = select(q.drop_last(), keep);
        if keep(q.last()) {
            p.push(q.last())
        } else {
            p
        }
    }
}

/// One more id.
pub proof fn lemma_select_step(q: Seq<StreamId>, lo: int, i: int, keep: spec_fn(StreamId) -> bool)
    requires
        0 <= lo <= i < q.len(),
    ensures
        select(q.subrange(lo, i + 1), keep) == (if keep(q[i]) {
            select(q.subrange(lo, i), keep).push(q[i])
        } else {
            select(q.subrange(lo, i), keep)
        }),
{
    let t = q.subrange(lo, i + 1);
    assert(t.drop_last() =~= q.subrange(lo, i));
    assert(t.last() == q[i]);
}

/// What is selected from a longer list starts with what is selected from a
/// shorter one.
pub proof fn lemma_select_prefix(
    q: Seq<StreamId>,
    lo: int,
    i: int,
    hi: int,
    keep: spec_fn(StreamId) -> bool,
)
    requires
        0 <= lo <= i <= hi <= q.len(),
    ensures
        select(q.subrange(lo, i), keep).len() <= select(q.subrange(lo, hi), keep).len(),
        select(q.subrange(lo, hi), keep).take(select(q.subrange(lo, i), keep).len() as int)
            == select(q.subrange(lo, i), keep),
    decreases hi - i,
{
    let a = select(q.subrange(lo, i), keep);
    if i < hi {
        lemma_select_prefix(q, lo, i, hi - 1, keep);
        lemma_select_step(q, lo, hi - 1, keep);
        let b = select(q.subrange(lo, hi - 1), keep);
        let c = select(q.subrange(lo, hi), keep);
        assert(c.take(a.len() as int) =~= b.take(a.len() as int));
    } else {
        assert(a.take(a.len() as int) =~= a);
    }
}

/// What is selected is selected.
pub proof fn lemma_select_contains(q: Seq<StreamId>, keep: spec_fn(StreamId) -> bool)
    ensures
        forall|x: StreamId| #[trigger]
            select(q, keep).contains(x) <==> q.contains(x) && keep(x),
        ascending(q) ==> ascending(select(q, keep)),
        select(q, keep).len() <= q.len(),
    decreases q.len(),
{
    if q.len() > 0 {
        let d = q.drop_last();
        lemma_select_contains(d, keep);
        let a = select(d, keep);
        let b = select(q, keep);
        assert forall|x: StreamId| #[trigger] b.contains(x) <==> q.contains(x) && keep(x) by {
            if b.contains(x) {
                let i = choose|i: int| 0 <= i < b.len() && b[i] == x;
                if i < a.len() {
                    assert(a[i] == x);
                    assert(a.contains(x));
                    let j = choose|j: int| 0 <= j < d.len() && d[j] == x;
                    assert(q[j] == x);
                } else {
                    assert(q[q.len() - 1] == x);
                }
            }
            if q.contains(x) && keep(x) {
                let j = choose|j: int| 0 <= j < q.len() && q[j] == x;
                if j < d.len() {
                    assert(d[j] == x);
                    assert(a.contains(x));
                    let i = choose|i: int| 0 <= i < a.len() && a[i] == x;
                    assert(b[i] == x);
                } else {
                    assert(b[b.len() - 1] == x);
                }
            }
        }
        if ascending(q) {
            assert(ascending(d)) by {
                assert forall|i: int, j: int| #![trigger d[i], d[j]] 0 <= i < j < d.len() implies crate::stream_id::id_lt(
                    d[i],
                    d[j],
                ) by {
                    assert(crate::stream_id::id_lt(q[i], q[j]));
                }
            }
            assert forall|i: int, j: int| #![trigger b[i], b[j]] 0 <= i < j < b.len() implies crate::stream_id::id_lt(
                b[i],
                b[j],
            ) by {
                if j < a.len() {
                    assert(crate::stream_id::id_lt(a[i], a[j]));
                } else {
                    assert(a.contains(a[i]));
                    let k = choose|k: int| 0 <= k < d.len() && d[k] == a[i];
                    assert(crate::stream_id::id_lt(q[k], q[q.len() - 1]));
                }
            }
        }
    }
}

/// A range that ends before it starts holds nothing.
pub proof fn lemma_within_empty(q: Seq<StreamId>, a: StreamId, b: StreamId)
    requires
        crate::stream_id::id_lt(b, a),
    ensures
        within(q, a, b) == Seq::<StreamId>::empty(),
    decreases q.len(),
{
    if q.len() > 0 {
        lemma_within_empty(q.drop_last(), a, b);
    }
}

/// The ids of a map from `a` to `b`, ascending.
pub open spec fn ids_between(s: Set<StreamId>, a: StreamId, b: StreamId) -> Seq<StreamId> {
    within(sorted_ids(s), a, b)
}

/// The ids of a map behind `a`, ascending.
pub open spec fn ids_after(s: Set<StreamId>, a: StreamId) -> Seq<StreamId> {
    if a == crate::stream_id::max_id() {
        Seq::empty()
    } else {
        ids_between(s, crate::stream_id::next_id(a), crate::stream_id::max_id())
    }
}

/// At most the first `n` of `q`.
pub open spec fn first_of<T>(q: Seq<T>, n: Option<usize>) -> Seq<T> {
    match n {
        Some(n) => if n < q.len() {
            q.take(n as int)
        } else {
            q
        },
        None => q,
    }
}

impl<V> IdMap<V> {
    /// The places of the ids from `a` to `b`, both included.
    pub fn between(&self, a: StreamId, b: StreamId) -> (r: (usize, usize))
        requires
            self.wf(),
        ensures
            r.0 <= r.1 <= self.ids().len(),
            self.ids().subrange(r.0 as int, r.1 as int) == ids_between(self@.dom(), a, b),
    {
        proof {
            self.lemma_ids();
        }
        let ghost q = self.ids();
        if id_before(b, a) {
            proof {
                lemma_within_empty(q, a, b);
                assert(q.subrange(0, 0) =~= Seq::<StreamId>::empty());
            }
            return (0, 0);
        }
        let lo: usize = self.lower_bound(a);
        let hi: usize = self.upper_bound(b);
        proof {
            if hi < lo {
                assert(crate::stream_id::id_lt(q[hi as int], a));
                assert(crate::stream_id::id_lt(b, q[hi as int]));
            }
            assert forall|i: int| lo <= i < hi implies crate::stream_id::id_le(a, #[trigger] q[i])
                && crate::stream_id::id_le(q[i], b) by {
                assert(!crate::stream_id::id_lt(q[i], a));
            }
            lemma_within(q, a, b, lo as int, hi as int);
        }
        (lo, hi)
    }

    /// The places of the ids behind `a`.
    pub fn after(&self, a: StreamId) -> (r: (usize, usize))
        requires
            self.wf(),
        ensures
            r.0 <= r.1 <= self.ids().len(),
            self.ids().subrange(r.0 as int, r.1 as int) == ids_after(self@.dom(), a),
    {
        let n: usize = self.items.len();
        if a.ms == u64::MAX && a.seq == u64::MAX {
            proof {
                assert(self.ids().subrange(0, 0) =~= Seq::<StreamId>::empty());
            }
            return (0, 0);
        }
        self.between(a.next(), StreamId::max())
    }

    /// Drops the first `k` ids.
    pub fn drop_front(&mut self, k: usize)
        requires
            old(self).wf(),
            k <= old(self).ids().len(),
        ensures
            final(self).wf(),
            final(self).ids() == old(self).ids().subrange(k as int, old(self).ids().len() as int),
            final(self)@ == old(self)@.remove_keys(old(self).ids().take(k as int).to_set()),
    {
        let ghost m = self@;
        let ghost t = self.items@;
        let mut tail = self.items.split_off(k);
        core::mem::swap(&mut self.items, &mut tail);
        proof {
            let u = self.items@;
            let q = item_ids(t);
            let w = item_ids(u);
            assert(u == t.subrange(k as int, t.len() as int));
            assert(w =~= q.subrange(k as int, q.len() as int));
            assert(ascending(w)) by {
                assert forall|i: int, j: int| #![trigger w[i], w[j]] 0 <= i < j < w.len() implies crate::stream_id::id_lt(
                    w[i],
                    w[j],
                ) by {
                    assert(crate::stream_id::id_lt(q[k + i], q[k + j]));
                }
            }
            let gone = q.take(k as int).to_set();
            assert forall|x: StreamId| self@.dom().contains(x) == m.remove_keys(gone).dom().contains(
                x,
            ) by {
                if has_id(u, x) {
                    let j = id_place(u, x);
                    assert(id_at(u, x, j));
                    assert(id_at(t, x, j + k));
                    if gone.contains(x) {
                        let g = choose|g: int| 0 <= g < k && q.take(k as int)[g] == x;
                        assert(crate::stream_id::id_lt(q[g], q[j + k]));
                    }
                }
                if has_id(t, x) && !gone.contains(x) {
                    let j = id_place(t, x);
                    assert(id_at(t, x, j));
                    if j < k {
                        assert(q.take(k as int)[j] == x);
                        assert(gone.contains(x));
                    }
                    assert(id_at(u, x, j - k));
                }
            }
            assert forall|x: StreamId| self@.dom().contains(x) implies self@[x] == m.remove_keys(
                gone,
            )[x] by {
                let j = id_place(u, x);
                assert(id_at(u, x, j));
                lemma_id_place(t, j + k);
            }
            assert(self@ =~= m.remove_keys(gone));
        }
    }
}

/// A set of ids that is not empty has a last one.
proof fn lemma_last_of(s: Set<StreamId>) -> (m: StreamId)
    requires
        s.finite(),
        s.len() > 0,
    ensures
        s.contains(m),
        forall|x: StreamId| #[trigger] s.contains(x) ==> crate::stream_id::id_le(x, m),
    decreases s.len(),
{
    let x = s.choose();
    let t = s.remove(x);
    if t.len() == 0 {
        assert forall|y: StreamId| #[trigger] s.contains(y) implies crate::stream_id::id_le(y, x) by {
            if y != x {
                assert(t.contains(y));
            }
        }
        x
    } else {
        let m = lemma_last_of(t);
        let r = crate::stream_id::id_max(m, x);
        assert forall|y: StreamId| #[trigger] s.contains(y) implies crate::stream_id::id_le(y, r) by {
            if y != x {
                assert(t.contains(y));
            }
        }
        r
    }
}

/// Every finite set of ids can be put in ascending order.
pub proof fn lemma_sortable(s: Set<StreamId>)
    requires
        s.finite(),
    ensures
        ascending(sorted_ids(s)),
        sorted_ids(s).to_set() == s,
        sorted_ids(s).len() == s.len(),
        forall|i: int| 0 <= i < sorted_ids(s).len() ==> s.contains(#[trigger] sorted_ids(s)[i]),
    decreases s.len(),
{
    let q = if s.len() == 0 {
        let q = Seq::<StreamId>::empty();
        assert(q.to_set() =~= s);
        q
    } else {
        let m = lemma_last_of(s);
        let t = s.remove(m);
        lemma_sortable(t);
        let p = sorted_ids(t);
        let q = p.push(m);
        assert forall|x: StreamId| q.to_set().contains(x) == s.contains(x) by {
            if s.contains(x) {
                if x == m {
                    assert(q[p.len() as int] == x);
                } else {
                    assert(p.to_set().contains(x));
                    let i = choose|i: int| 0 <= i < p.len() && p[i] == x;
                    assert(q[i] == x);
                }
            }
            if q.contains(x) && x != m {
                let i = choose|i: int| 0 <= i < q.len() && q[i] == x;
                assert(t.contains(p[i]));
            }
        }
        assert(q.to_set() =~= s);
        assert forall|i: int, j: int| #![trigger q[i], q[j]] 0 <= i < j < q.len() implies crate::stream_id::id_lt(
            q[i],
            q[j],
        ) by {
            if j < p.len() {
                assert(crate::stream_id::id_lt(p[i], p[j]));
            } else {
                assert(t.contains(p[i]));
                assert(s.contains(p[i]));
            }
        }
        q
    };
    lemma_sorted_ids(q, s);
    assert(q.no_duplicates()) by {
        assert forall|i: int, j: int| 0 <= i < q.len() && 0 <= j < q.len() && i != j implies q[i]
            != q[j] by {
            if i < j {
                assert(crate::stream_id::id_lt(q[i], q[j]));
            } else {
                assert(crate::stream_id::id_lt(q[j], q[i]));
            }
        }
    }
    q.unique_seq_to_set();
    assert forall|i: int| 0 <= i < q.len() implies s.contains(#[trigger] q[i]) by {
        assert(q.to_set().contains(q[i]));
    }
}

/// The ids of a range are those that lie in it.
pub proof fn lemma_within_contains(q: Seq<StreamId>, a: StreamId, b: StreamId)
    ensures
        forall|x: StreamId| #[trigger]
            within(q, a, b).contains(x) <==> q.contains(x) && crate::stream_id::id_le(a, x)
                && crate::stream_id::id_le(x, b),
    decreases q.len(),
{
    if q.len() > 0 {
        let d = q.drop_last();
        lemma_within_contains(d, a, b);
        let p = within(d, a, b);
        let w = within(q, a, b);
        assert forall|x: StreamId| #[trigger] w.contains(x) <==> q.contains(x)
            && crate::stream_id::id_le(a, x) && crate::stream_id::id_le(x, b) by {
            if w.contains(x) {
                let i = choose|i: int| 0 <= i < w.len() && w[i] == x;
                if i < p.len() {
                    assert(p[i] == x);
                    assert(p.contains(x));
                    let j = choose|j: int| 0 <= j < d.len() && d[j] == x;
                    assert(q[j] == x);
                } else {
                    assert(q[q.len() - 1] == x);
                }
            }
            if q.contains(x) && crate::stream_id::id_le(a, x) && crate::stream_id::id_le(x, b) {
                let j = choose|j: int| 0 <= j < q.len() && q[j] == x;
                if j < d.len() {
                    assert(d[j] == x);
                    assert(p.contains(x));
                    let i = choose|i: int| 0 <= i < p.len() && p[i] == x;
                    assert(w[i] == x);
                } else {
                    assert(w[w.len() - 1] == x);
                }
            }
        }
    }
}

/// Values of which copies can be made.
pub trait Copied: Sized {
    /// Whether one value is a copy of another.
    spec fn same(a: Self, b: Self) -> bool;

    /// A copy.
    fn copied(&self) -> (r: Self)
        ensures
            Self::same(*self, r),
    ;
}

impl<V: Copied> IdMap<V> {
    /// A copy of the map.
    pub fn copied(&self) -> (r: IdMap<V>)
        ensures
            self.wf() ==> r.wf(),
            self.wf() ==> r@.dom() == self@.dom(),
            self.wf() ==> forall|id: StreamId| #[trigger]
                self@.dom().contains(id) ==> V::same(self@[id], r@[id]),
    {
        let mut out: Vec<(StreamId, V)> = Vec::with_capacity(self.items.len());
        let mut i: usize = 0;
        let ghost t = self.items@;
        while i < self.items.len()
            invariant
                t == self.items@,
                i <= t.len(),
                out@.len() == i,
                forall|k: int|
                    0 <= k < i ==> (#[trigger] out@[k]).0 == t[k].0 && V::same(t[k].1, out@[k].1),
            decreases t.len() - i,
        {
            out.push((self.items[i].0, self.items[i].1.copied()));
            i = i + 1;
        }
        let r = IdMap { items: out };
        proof {
            let u = r.items@;
            assert(item_ids(u) =~= item_ids(t));
            if self.wf() {
                assert forall|x: StreamId| has_id(u, x) == has_id(t, x) by {
                    if has_id(t, x) {
                        assert(id_at(u, x, id_place(t, x)));
                    }
                    if has_id(u, x) {
                        assert(id_at(t, x, id_place(u, x)));
                    }
                }
                assert(r@.dom() =~= self@.dom());
                assert forall|x: StreamId| #[trigger] self@.dom().contains(x) implies V::same(
                    self@[x],
                    r@[x],
                ) by {
                    let j = id_place(t, x);
                    assert(id_at(t, x, j));
                    assert(u[j].0 == x);
                    lemma_id_place(u, j);
                }
            }
        }
        r
    }
}

} // verus!
