//! Commands that walk over the keys.
use vstd::prelude::*;
use super::Store;
use crate::bytes::copy_bytes;
use crate::entry::Entry;
use crate::text::glob_match;

verus! {

/// Whether a key is live and matches a pattern, where one is given.
pub open spec fn wanted(
    s: super::StoreModel,
    pattern: Option<Seq<u8>>,
    k: Seq<u8>,
) -> bool {
    super::key_live(s, k, s.now) && (pattern matches Some(p) ==> crate::text::glob_matches(p, k))
}

/// Those of some keys that are live and match a pattern, in order.
pub open spec fn wanted_keys(
    s: super::StoreModel,
    pattern: Option<Seq<u8>>,
    keys: Seq<Seq<u8>>,
) -> Seq<Seq<u8>>
    decreases keys.len(),
{
    if keys.len() == 0 {
        Seq::empty()
    } else {
        let before = wanted_keys(s, pattern, keys.drop_last());
        if wanted(s, pattern, keys.last()) {
            before.push(keys.last())
        } else {
            before
        }
    }
}

/// Bytes that begin with others.
pub open spec fn begins_with(k: Seq<u8>, prefix: Seq<u8>) -> bool {
    prefix.len() <= k.len() && k.take(prefix.len() as int) == prefix
}

/// The live keys that begin with a prefix.
pub open spec fn live_under(s: super::StoreModel, prefix: Seq<u8>) -> Set<Seq<u8>> {
    Set::new(|k: Seq<u8>| super::key_live(s, k, s.now) && begins_with(k, prefix))
}

/// Those of them that have a deadline.
pub open spec fn dated_under(s: super::StoreModel, prefix: Seq<u8>) -> Set<Seq<u8>> {
    Set::new(|k: Seq<u8>| live_under(s, prefix).contains(k) && s.slots[k].expire is Some)
}

/// The live keys that have a deadline.
pub open spec fn live_dated(s: super::StoreModel) -> Set<Seq<u8>> {
    Set::new(|k: Seq<u8>| super::key_live(s, k, s.now) && s.slots[k].expire is Some)
}

/// The pattern that a slice gives, if any.
pub open spec fn pattern_of(p: Option<&[u8]>) -> Option<Seq<u8>> {
    match p {
        Some(b) => Some(b@),
        None => None,
    }
}

/// Which of some keys the first `p` steps of a walk have met.
pub open spec fn met(order: Seq<Seq<u8>>, p: int, want: Set<Seq<u8>>) -> Set<Seq<u8>> {
    Set::new(|k: Seq<u8>| want.contains(k) && order.take(p).contains(k))
}

proof fn lemma_met(order: Seq<Seq<u8>>, p: int, want: Set<Seq<u8>>)
    requires
        order.no_duplicates(),
        0 <= p <= order.len(),
    ensures
        met(order, p, want).finite(),
        p == 0 ==> met(order, p, want) == Set::<Seq<u8>>::empty(),
        p < order.len() ==> !met(order, p, want).contains(order[p]),
        p < order.len() ==> met(order, p + 1, want) == (if want.contains(order[p]) {
            met(order, p, want).insert(order[p])
        } else {
            met(order, p, want)
        }),
        p == order.len() && want.subset_of(order.to_set()) ==> met(order, p, want) == want,
{
    let t = order.take(p);
    assert(met(order, p, want).subset_of(t.to_set())) by {
        assert forall|k: Seq<u8>| met(order, p, want).contains(k) implies t.to_set().contains(
            k,
        ) by {}
    }
    vstd::seq_lib::seq_to_set_is_finite(t);
    vstd::set_lib::lemma_len_subset(met(order, p, want), t.to_set());
    if p == 0 {
        assert(met(order, p, want) =~= Set::<Seq<u8>>::empty());
    }
    if p < order.len() {
        let k = order[p];
        assert(!t.contains(k)) by {
            if t.contains(k) {
                let j = choose|j: int| 0 <= j < p && t[j] == k;
                assert(order[j] == k);
            }
        }
        assert(order.take(p + 1) =~= t.push(k));
        assert forall|m: Seq<u8>| order.take(p + 1).contains(m) == (t.contains(m) || m == k) by {
            if t.contains(m) {
                let j = choose|j: int| 0 <= j < t.len() && t[j] == m;
                assert(order.take(p + 1)[j] == m);
            }
            if m == k {
                assert(order.take(p + 1)[p] == m);
            }
            if order.take(p + 1).contains(m) && m != k {
                let u = order.take(p + 1);
                let j = choose|j: int| 0 <= j < u.len() && u[j] == m;
                assert(t[j] == m);
            }
        }
        if want.contains(k) {
            assert(met(order, p + 1, want) =~= met(order, p, want).insert(k));
        } else {
            assert(met(order, p + 1, want) =~= met(order, p, want));
        }
    } else {
        assert(t =~= order);
        if want.subset_of(order.to_set()) {
            assert forall|k: Seq<u8>| want.contains(k) implies order.contains(k) by {
                assert(order.to_set().contains(k));
            }
            assert(met(order, p, want) =~= want);
        }
    }
}

/// Whether bytes begin with others.
fn starts_with(k: &[u8], prefix: &[u8]) -> (r: bool)
    ensures
        r == begins_with(k@, prefix@),
{
    if prefix.len() > k.len() {
        return false;
    }
    let mut i: usize = 0;
    while i < prefix.len()
        invariant
            i <= prefix@.len() <= k@.len(),
            forall|j: int| 0 <= j < i ==> k@[j] == prefix@[j],
        decreases prefix@.len() - i,
    {
        if k[i] != prefix[i] {
            assert(k@.take(prefix@.len() as int)[i as int] != prefix@[i as int]);
            return false;
        }
        i = i + 1;
    }
    assert(k@.take(prefix@.len() as int) =~= prefix@);
    true
}

impl Store {
    /// A place in a walk.
    pub closed spec fn place(&self, b: int, i: int) -> int {
        self.map.place(b, i)
    }

    /// Whether a walk can stand at binding `i` of bucket `b`.
    pub closed spec fn stands(&self, b: int, i: int) -> bool {
        self.map.stands(b, i)
    }

    /// The number of buckets.
    pub closed spec fn breadth(&self) -> nat {
        self.map.chains().len()
    }

    /// The number of buckets.
    pub fn bucket_count(&self) -> (r: usize)
        ensures
            r == self.breadth(),
    {
        self.map.bucket_count()
    }

    /// A walk can start at any bucket.
    pub proof fn lemma_start(&self, b: int)
        requires
            0 <= b <= self.breadth(),
        ensures
            self.stands(b, 0),
            0 <= self.place(b, 0) <= self.key_order().len(),
            self.place(0, 0) == 0,
            self.place(self.breadth() as int, 0) == self.key_order().len(),
    {
        self.map.lemma_place(b, 0);
    }

    /// A walk over the keys is one over the table.
    pub(super) proof fn lemma_walk_map(&self)
        ensures
            self.breadth() == self.map.chains().len(),
            forall|b: int, i: int| #[trigger] self.place(b, i) == self.map.place(b, i),
    {
    }

    /// A walk goes over the keys of one bucket after the other.
    pub proof fn lemma_rows(&self, b: int)
        requires
            0 <= b <= self.rows().len(),
        ensures
            self.breadth() == self.rows().len(),
            self.key_order() == crate::packed::cat(self.rows()),
            self.place(b, 0) == crate::packed::cat(self.rows().subrange(0, b)).len(),
    {
        self.map.lemma_rows(b);
    }

    /// A walk depends only on the table of keys.
    pub(super) proof fn lemma_same_walk(&self, other: Store, b: int)
        requires
            self.map == other.map,
        ensures
            self.breadth() == other.breadth(),
            self.place(b, 0) == other.place(b, 0),
            self.key_order() == other.key_order(),
    {
    }

    /// The key that a walk meets next, with its entry, and where the walk
    /// stands behind it.
    pub fn step(&self, b: usize, i: usize) -> (r: Option<(&Vec<u8>, &Entry, usize, usize)>)
        requires
            self.wf(),
            self.stands(b as int, i as int),
        ensures
            match r {
                Some((k, e, c, j)) => {
                    let p = self.place(b as int, i as int);
                    &&& p < self.key_order().len()
                    &&& k@ == self.key_order()[p]
                    &&& self@.slots.dom().contains(k@)
                    &&& e@ == self@.slots[k@]
                    &&& e.value == self.held(k@)
                    &&& e.value.wf()
                    &&& e.lru_clock == self.mark(k@)
                    &&& self.weights()[k@] == crate::value::ENTRY_OVERHEAD + e.weight
                    &&& e.expire_at_ns != Some(0u64)
                    &&& self.stands(c as int, j as int)
                    &&& self.place(c as int, j as int) == p + 1
                },
                None => self.place(b as int, i as int) == self.key_order().len(),
            },
    {
        match self.map.seek(b, i) {
            None => None,
            Some((c, j)) => {
                proof {
                    self.map.lemma_place(c as int, j as int);
                    self.map.lemma_chains();
                    let k = self.map.chains()[c as int][j as int].0;
                    assert(self.map@.dom().contains(k));
                    assert(self.map@[k].wf(k));
                    self.lemma_accounting();
                }
                let n: usize = self.map.bucket_len(c);
                assert(j < n);
                Some((self.map.key_at(c, j), self.map.value_at(c, j), c, j + 1))
            },
        }
    }

    /// The live keys that match a pattern, up to `limit` of them, in walking
    /// order.
    pub fn collect_keys(&self, pattern: Option<&[u8]>, limit: Option<usize>) -> (r: Vec<Vec<u8>>)
        requires
            self.wf(),
        ensures
            ({
                let all = wanted_keys(self@, pattern_of(pattern), self.key_order());
                crate::bytes::deep(r@) == (match limit {
                    Some(n) => all.take(super::lists::lesser(n as nat, all.len()) as int),
                    None => all,
                })
            }),
    {
        let ghost order = self.key_order();
        let ghost pat = pattern_of(pattern);
        let mut out: Vec<Vec<u8>> = Vec::new();
        let mut b: usize = 0;
        let mut i: usize = 0;
        let mut more: bool = match limit {
            Some(n) => n > 0,
            None => true,
        };
        proof {
            self.lemma_start(0);
            assert(order.take(0) =~= Seq::empty());
            assert(crate::bytes::deep(out@) =~= Seq::empty());
        }
        while more
            invariant
                self.wf(),
                order == self.key_order(),
                pat == pattern_of(pattern),
                self.stands(b as int, i as int),
                0 <= self.place(b as int, i as int) <= order.len(),
                crate::bytes::deep(out@) == wanted_keys(
                    self@,
                    pat,
                    order.take(self.place(b as int, i as int)),
                ),
                limit matches Some(n) ==> out@.len() <= n,
                more ==> (limit matches Some(n) ==> out@.len() < n),
                !more ==> self.place(b as int, i as int) == order.len() || (limit matches Some(n)
                    && out@.len() == n),
            decreases (order.len() - self.place(b as int, i as int)) + (if more {
                1int
            } else {
                0int
            }),
        {
            let ghost p = self.place(b as int, i as int);
            match self.step(b, i) {
                None => {
                    more = false;
                },
                Some((k, e, c, j)) => {
                    let ghost before = crate::bytes::deep(out@);
                    proof {
                        assert(order.take(p + 1).drop_last() =~= order.take(p));
                        assert(order.take(p + 1).last() == k@);
                    }
                    let fits: bool = !e.is_expired_at(self.now_ns()) && (match pattern {
                        Some(g) => glob_match(g, k.as_slice()),
                        None => true,
                    });
                    if fits {
                        out.push(copy_bytes(k.as_slice()));
                        assert(crate::bytes::deep(out@) =~= before.push(k@));
                        match limit {
                            Some(n) => {
                                if out.len() >= n {
                                    more = false;
                                }
                            },
                            None => {},
                        }
                    }
                    b = c;
                    i = j;
                },
            }
        }
        proof {
            let p = self.place(b as int, i as int);
            let all = wanted_keys(self@, pat, order);
            lemma_wanted_prefix(self@, pat, order, p);
            assert(crate::bytes::deep(out@).len() == out@.len());
            if p == order.len() {
                assert(order.take(p) =~= order);
                assert(all =~= all.take(all.len() as int));
            }
        }
        out
    }

    /// How many live keys have a deadline.
    pub fn ttl_pending_count(&self) -> (r: usize)
        requires
            self.wf(),
        ensures
            live_dated(self@).finite(),
            live_dated(self@).len() <= usize::MAX ==> r == live_dated(self@).len(),
    {
        let ghost order = self.key_order();
        let ghost want = live_dated(self@);
        proof {
            self.lemma_key_order();
            self.lemma_start(0);
            lemma_met(order, 0, want);
            assert(want.subset_of(order.to_set()));
        }
        let mut n: usize = 0;
        let mut b: usize = 0;
        let mut i: usize = 0;
        let mut more: bool = true;
        while more
            invariant
                self.wf(),
                order == self.key_order(),
                order.no_duplicates(),
                want == live_dated(self@),
                want.subset_of(order.to_set()),
                self.stands(b as int, i as int),
                0 <= self.place(b as int, i as int) <= order.len(),
                met(order, self.place(b as int, i as int), want).finite(),
                n == usize::MAX || n == met(order, self.place(b as int, i as int), want).len(),
                n == usize::MAX ==> met(order, self.place(b as int, i as int), want).len()
                    >= usize::MAX,
                !more ==> self.place(b as int, i as int) == order.len(),
            decreases (order.len() - self.place(b as int, i as int)) + (if more {
                1int
            } else {
                0int
            }),
        {
            let ghost p = self.place(b as int, i as int);
            match self.step(b, i) {
                None => {
                    more = false;
                },
                Some((k, e, c, j)) => {
                    proof {
                        lemma_met(order, p, want);
                        lemma_met(order, p + 1, want);
                    }
                    if e.expire_at_ns.is_some() && !e.is_expired_at(self.now_ns()) {
                        if n < usize::MAX {
                            n = n + 1;
                        }
                    }
                    b = c;
                    i = j;
                },
            }
        }
        proof {
            lemma_met(order, order.len() as int, want);
        }
        n
    }

    /// How many live keys begin with a prefix, and how many of those have a
    /// deadline.
    pub fn prefix_stats(&self, prefix: &[u8]) -> (r: (u64, u64))
        requires
            self.wf(),
        ensures
            live_under(self@, prefix@).finite(),
            dated_under(self@, prefix@).finite(),
            r.0 == crate::list_data::capped(live_under(self@, prefix@).len()),
            r.1 == crate::list_data::capped(dated_under(self@, prefix@).len()),
    {
        let ghost order = self.key_order();
        let ghost all = live_under(self@, prefix@);
        let ghost dated = dated_under(self@, prefix@);
        proof {
            self.lemma_key_order();
            self.lemma_start(0);
            lemma_met(order, 0, all);
            lemma_met(order, 0, dated);
            assert(all.subset_of(order.to_set()));
            assert(dated.subset_of(order.to_set()));
        }
        let mut keys: u64 = 0;
        let mut expires: u64 = 0;
        let mut b: usize = 0;
        let mut i: usize = 0;
        let mut more: bool = true;
        while more
            invariant
                self.wf(),
                order == self.key_order(),
                order.no_duplicates(),
                all == live_under(self@, prefix@),
                dated == dated_under(self@, prefix@),
                all.subset_of(order.to_set()),
                dated.subset_of(order.to_set()),
                self.stands(b as int, i as int),
                0 <= self.place(b as int, i as int) <= order.len(),
                met(order, self.place(b as int, i as int), all).finite(),
                met(order, self.place(b as int, i as int), dated).finite(),
                keys == crate::list_data::capped(
                    met(order, self.place(b as int, i as int), all).len(),
                ),
                expires == crate::list_data::capped(
                    met(order, self.place(b as int, i as int), dated).len(),
                ),
                !more ==> self.place(b as int, i as int) == order.len(),
            decreases (order.len() - self.place(b as int, i as int)) + (if more {
                1int
            } else {
                0int
            }),
        {
            let ghost p = self.place(b as int, i as int);
            match self.step(b, i) {
                None => {
                    more = false;
                },
                Some((k, e, c, j)) => {
                    proof {
                        lemma_met(order, p, all);
                        lemma_met(order, p, dated);
                        lemma_met(order, p + 1, all);
                        lemma_met(order, p + 1, dated);
                    }
                    if !e.is_expired_at(self.now_ns()) && starts_with(k.as_slice(), prefix) {
                        keys = keys.saturating_add(1);
                        if e.expire_at_ns.is_some() {
                            expires = expires.saturating_add(1);
                        }
                    }
                    b = c;
                    i = j;
                },
            }
        }
        proof {
            lemma_met(order, order.len() as int, all);
            lemma_met(order, order.len() as int, dated);
        }
        (keys, expires)
    }

    /// The first live key that a walk from a random bucket meets, which goes
    /// on from the first bucket once it is at the end.
    pub fn random_key(&mut self) -> (r: Option<Vec<u8>>)
        requires
            old(self).wf(),
        ensures
            final(self).became(*old(self), super::admin::drawn(old(self)@, 1)),
            final(self).kept_all(*old(self)),
            key_result(r) == first_of(
                wanted_keys(
                    old(self)@,
                    None,
                    super::evicting::ring(
                        old(self).key_order(),
                        old(self).place(random_start(*old(self)), 0),
                    ),
                ),
            ),
            r matches Some(k) ==> super::key_live(old(self)@, k@, old(self)@.now),
            r is None ==> forall|k: Seq<u8>| !super::key_live(old(self)@, k, old(self)@.now),
    {
        let ghost before = *self;
        let draw: u64 = self.rand_draw();
        let n: usize = self.bucket_count();
        let start: usize = if n == 0 {
            0
        } else {
            (draw % n as u64) as usize
        };
        let ghost order = self.key_order();
        proof {
            self.lemma_start(start as int);
            self.lemma_start(0);
            self.lemma_key_order();
            self.lemma_rows(start as int);
            before.lemma_rows(start as int);
            assert(super::sets::draws_of(before@.random, 1)[0] == draw) by {
                reveal_with_fuel(crate::rng::stepped_by, 2);
            }
            assert(start == random_start(before));
            let p = self.place(start as int, 0);
            assert(order.skip(0) =~= order);
            lemma_wanted_add(before@, None, order.skip(p), order);
            lemma_wanted_model(before@, self@, order.skip(p));
            lemma_wanted_model(before@, self@, order);
        }
        match self.first_live(start) {
            Some(k) => Some(k),
            None => match self.first_live(0) {
                Some(k) => Some(k),
                None => {
                    proof {
                        assert forall|k: Seq<u8>| !super::key_live(self@, k, self@.now) by {
                            if super::key_live(self@, k, self@.now) {
                                assert(order.to_set().contains(k));
                                let j = choose|j: int| 0 <= j < order.len() && order[j] == k;
                                assert(!super::key_live(self@, order[j], self@.now));
                            }
                        }
                    }
                    None
                },
            },
        }
    }

    /// The first live key that a walk from bucket `start` meets.
    fn first_live(&self, start: usize) -> (r: Option<Vec<u8>>)
        requires
            self.wf(),
            start <= self.breadth(),
        ensures
            key_result(r) == first_of(
                wanted_keys(self@, None, self.key_order().skip(self.place(start as int, 0))),
            ),
            match r {
                Some(k) => super::key_live(self@, k@, self@.now),
                None => forall|j: int|
                    self.place(start as int, 0) <= j < self.key_order().len()
                        ==> !super::key_live(self@, #[trigger] self.key_order()[j], self@.now),
            },
    {
        let ghost order = self.key_order();
        let ghost p0 = self.place(start as int, 0);
        let ghost way = order.skip(p0);
        let mut b: usize = start;
        let mut i: usize = 0;
        proof {
            self.lemma_start(start as int);
            assert(way.take(0) =~= Seq::empty());
        }
        loop
            invariant
                self.wf(),
                order == self.key_order(),
                p0 == self.place(start as int, 0),
                0 <= p0,
                way == order.skip(p0),
                wanted_keys(self@, None, way.take(self.place(b as int, i as int) - p0)).len() == 0,
                self.stands(b as int, i as int),
                self.place(start as int, 0) <= self.place(b as int, i as int) <= order.len(),
                forall|j: int|
                    self.place(start as int, 0) <= j < self.place(b as int, i as int)
                        ==> !super::key_live(self@, #[trigger] order[j], self@.now),
            decreases order.len() - self.place(b as int, i as int),
        {
            let ghost p = self.place(b as int, i as int);
            match self.step(b, i) {
                None => {
                    assert(way.take(p - p0) =~= way);
                    return None;
                },
                Some((k, e, c, j)) => {
                    proof {
                        assert(way[p - p0] == k@);
                        assert(way.take(p - p0 + 1).drop_last() =~= way.take(p - p0));
                        assert(way.take(p - p0 + 1).last() == k@);
                    }
                    if !e.is_expired_at(self.now_ns()) {
                        proof {
                            lemma_wanted_prefix(self@, None, way, p - p0 + 1);
                            let all = wanted_keys(self@, None, way);
                            assert(all.take(1)[0] == k@);
                        }
                        return Some(copy_bytes(k.as_slice()));
                    }
                    b = c;
                    i = j;
                },
            }
        }
    }
}

/// The key that a lookup gives.
pub open spec fn key_result(r: Option<Vec<u8>>) -> Option<Seq<u8>> {
    match r {
        Some(k) => Some(k@),
        None => None,
    }
}

/// The first of some keys, if there is one.
pub open spec fn first_of(keys: Seq<Seq<u8>>) -> Option<Seq<u8>> {
    if keys.len() == 0 {
        None
    } else {
        Some(keys[0])
    }
}

/// The bucket that the next draw from the random stream picks.
pub open spec fn random_start(store: Store) -> int {
    if store.breadth() == 0 {
        0
    } else {
        super::sets::draws_of(store@.random, 1)[0] as int % store.breadth() as int
    }
}

proof fn lemma_wanted_add(
    s: super::StoreModel,
    pattern: Option<Seq<u8>>,
    a: Seq<Seq<u8>>,
    b: Seq<Seq<u8>>,
)
    ensures
        wanted_keys(s, pattern, a + b) == wanted_keys(s, pattern, a) + wanted_keys(s, pattern, b),
    decreases b.len(),
{
    if b.len() == 0 {
        assert(a + b =~= a);
        assert(wanted_keys(s, pattern, a) + Seq::<Seq<u8>>::empty() =~= wanted_keys(s, pattern, a));
    } else {
        lemma_wanted_add(s, pattern, a, b.drop_last());
        assert((a + b).drop_last() =~= a + b.drop_last());
        assert(wanted_keys(s, pattern, a + b) =~= wanted_keys(s, pattern, a) + wanted_keys(
            s,
            pattern,
            b,
        ));
    }
}

proof fn lemma_wanted_model(a: super::StoreModel, b: super::StoreModel, keys: Seq<Seq<u8>>)
    requires
        a.slots == b.slots,
        a.now == b.now,
    ensures
        wanted_keys(a, None, keys) == wanted_keys(b, None, keys),
    decreases keys.len(),
{
    if keys.len() > 0 {
        lemma_wanted_model(a, b, keys.drop_last());
    }
}

proof fn lemma_wanted_prefix(
    s: super::StoreModel,
    pattern: Option<Seq<u8>>,
    order: Seq<Seq<u8>>,
    p: int,
)
    requires
        0 <= p <= order.len(),
    ensures
        wanted_keys(s, pattern, order.take(p)).len() <= wanted_keys(s, pattern, order).len(),
        wanted_keys(s, pattern, order).take(
            wanted_keys(s, pattern, order.take(p)).len() as int,
        ) == wanted_keys(s, pattern, order.take(p)),
    decreases order.len(),
{
    let part = wanted_keys(s, pattern, order.take(p));
    if p == order.len() {
        assert(order.take(p) =~= order);
        assert(wanted_keys(s, pattern, order).take(part.len() as int) =~= part);
    } else {
        let d = order.drop_last();
        lemma_wanted_prefix(s, pattern, d, p);
        assert(d.take(p) =~= order.take(p));
        assert(wanted_keys(s, pattern, order).take(part.len() as int) =~= wanted_keys(
            s,
            pattern,
            d,
        ).take(part.len() as int));
    }
}

/// A listing of keys holds exactly those that are live and match, each once.
pub proof fn lemma_wanted_keys(
    s: super::StoreModel,
    pattern: Option<Seq<u8>>,
    order: Seq<Seq<u8>>,
)
    requires
        order.no_duplicates(),
        order.to_set() == s.slots.dom(),
    ensures
        wanted_keys(s, pattern, order).no_duplicates(),
        forall|k: Seq<u8>|
            wanted_keys(s, pattern, order).contains(k) <==> #[trigger] wanted(s, pattern, k),
{
    lemma_wanted_some(s, pattern, order);
    assert forall|k: Seq<u8>|
        wanted_keys(s, pattern, order).contains(k) <==> #[trigger] wanted(s, pattern, k) by {
        if wanted(s, pattern, k) {
            assert(order.to_set().contains(k));
        }
    }
}

#[verifier::spinoff_prover]
proof fn lemma_wanted_some(s: super::StoreModel, pattern: Option<Seq<u8>>, keys: Seq<Seq<u8>>)
    requires
        keys.no_duplicates(),
    ensures
        wanted_keys(s, pattern, keys).no_duplicates(),
        forall|k: Seq<u8>|
            #![trigger wanted(s, pattern, k)]
            wanted_keys(s, pattern, keys).contains(k) <==> wanted(s, pattern, k) && keys.contains(
                k,
            ),
    decreases keys.len(),
{
    let w = wanted_keys(s, pattern, keys);
    if keys.len() > 0 {
        let d = keys.drop_last();
        let x = keys.last();
        lemma_wanted_some(s, pattern, d);
        let v = wanted_keys(s, pattern, d);
        assert(!d.contains(x)) by {
            if d.contains(x) {
                let j = choose|j: int| 0 <= j < d.len() && d[j] == x;
                assert(keys[j] == x);
            }
        }
        assert(w == (if wanted(s, pattern, x) {
            v.push(x)
        } else {
            v
        }));
        assert forall|k: Seq<u8>|
            #![trigger wanted(s, pattern, k)]
            w.contains(k) <==> wanted(s, pattern, k) && keys.contains(k) by {
            crate::value_set::lemma_push_contains(d, x, k);
            assert(d.push(x) =~= keys);
            if wanted(s, pattern, x) {
                crate::value_set::lemma_push_contains(v, x, k);
            }
        }
        if wanted(s, pattern, x) {
            assert(!v.contains(x));
            assert forall|a: int, b: int| 0 <= a < b < w.len() implies w[a] != w[b] by {
                assert(v.contains(v[a]));
            }
        }
    }
}

} // verus!
