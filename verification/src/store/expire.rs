//! Dropping expired keys that nobody looks up.
use vstd::prelude::*;
use super::Store;
use crate::bytes::copy_bytes;

verus! {

/// What a sweep saw and did.
#[derive(Clone, Copy, Debug, PartialEq, Eq, Structural)]
pub struct ExpireStats {
    /// Keys with a deadline that were looked at, over all rounds.
    pub sampled: u32,
    /// How many of them had expired and were dropped.
    pub expired: u32,
    /// Rounds that were run.
    pub rounds: u32,
}

impl Default for ExpireStats {
    fn default() -> (r: Self)
        ensures
            r == (ExpireStats { sampled: 0, expired: 0, rounds: 0 }),
    {
        ExpireStats { sampled: 0, expired: 0, rounds: 0 }
    }
}

/// A round after which at least this many percent of the sample had expired
/// is followed by another.
pub const EXPIRE_RATE_CONTINUATION: u64 = 25;

/// So many rounds in a row without a key to look at end a sweep.
pub const ZERO_ROUNDS: u32 = 3;

/// Those of some keys whose deadlines have come, in order.
pub open spec fn due_of(s: super::StoreModel, keys: Seq<Seq<u8>>) -> Seq<Seq<u8>>
    decreases keys.len(),
{
    if keys.len() == 0 {
        Seq::empty()
    } else {
        let before = due_of(s, keys.drop_last());
        if super::key_due(s, keys.last(), s.now) {
            before.push(keys.last())
        } else {
            before
        }
    }
}

/// A keyspace from which expired keys were dropped, one after the other.
pub open spec fn expired_all(s: super::StoreModel, keys: Seq<Seq<u8>>) -> super::StoreModel
    decreases keys.len(),
{
    if keys.len() == 0 {
        s
    } else {
        super::noted_expired(
            super::dropped(expired_all(s, keys.drop_last()), keys.last()),
            keys.last(),
        )
    }
}

/// Whether a round may look at these keys: different ones that have
/// deadlines, and not more than were asked for.
pub open spec fn round_sample(s: super::StoreModel, keys: Seq<Seq<u8>>, samples: nat) -> bool {
    &&& keys.no_duplicates()
    &&& keys.to_set().subset_of(super::dated_keys(s.slots))
    &&& keys.len() <= samples
    &&& keys.len() <= u32::MAX
}

/// Those of some keys that have deadlines, in order.
pub open spec fn dated_of(s: super::StoreModel, keys: Seq<Seq<u8>>) -> Seq<Seq<u8>>
    decreases keys.len(),
{
    if keys.len() == 0 {
        Seq::empty()
    } else {
        let before = dated_of(s, keys.drop_last());
        if super::dated_keys(s.slots).contains(keys.last()) {
            before.push(keys.last())
        } else {
            before
        }
    }
}

/// Where the round that the use clock comes to next starts.
pub open spec fn sweep_start(store: Store) -> int {
    if store.breadth() == 0 {
        0
    } else {
        store.use_clock().wrapping_add(1).wrapping_mul(0x9E37_79B9_7F4A_7C15u64) as int
            % store.breadth() as int
    }
}

/// The keys that a round looks at: the first so many with deadlines that a
/// walk meets from its start to the end.
pub open spec fn sweep_sample(store: Store, samples: nat) -> Seq<Seq<u8>> {
    let all = dated_of(store@, store.key_order().skip(store.place(sweep_start(store), 0)));
    all.take(super::lists::lesser(super::lists::lesser(samples, u32::MAX as nat), all.len()) as int)
}

/// A keyspace after a round that looked at these keys.
pub open spec fn after_round(s: super::StoreModel, keys: Seq<Seq<u8>>) -> super::StoreModel {
    expired_all(s, due_of(s, keys))
}

/// Rows without some keys.
pub open spec fn pruned_all(rows: Seq<Seq<Seq<u8>>>, keys: Seq<Seq<u8>>) -> Seq<Seq<Seq<u8>>>
    decreases keys.len(),
{
    if keys.len() == 0 {
        rows
    } else {
        crate::byte_map::pruned(pruned_all(rows, keys.drop_last()), keys.last())
    }
}

/// Whether a round that looked at these keys led from one state of the store
/// to another: those that are due are gone, every other key stands in the
/// same order, holds what it held and is marked as it was, and the use clock
/// moved on, unless there is no key at all, so that the next round starts
/// elsewhere.
pub open spec fn one_round(before: Store, after: Store, keys: Seq<Seq<u8>>) -> bool {
    let due = due_of(before@, keys);
    &&& after.became(before, after_round(before@, keys))
    &&& after.used() <= before.used()
    &&& after.use_clock() == (if before@.slots.dom() == Set::<Seq<u8>>::empty() {
        before.use_clock()
    } else {
        before.use_clock().wrapping_add(1)
    })
    &&& after.rows() == pruned_all(before.rows(), due)
    &&& forall|k: Seq<u8>|
        #![trigger after.held(k)]
        #![trigger after.mark(k)]
        !due.contains(k) ==> after.held(k) == before.held(k) && after.mark(k) == before.mark(k)
}

/// A keyspace after rounds that looked at these keys.
pub open spec fn after_rounds(
    s: super::StoreModel,
    rounds: Seq<Seq<Seq<u8>>>,
) -> super::StoreModel
    decreases rounds.len(),
{
    if rounds.len() == 0 {
        s
    } else {
        after_round(after_rounds(s, rounds.drop_last()), rounds.last())
    }
}

/// How many keys rounds looked at, as far as a counter can tell.
pub open spec fn sampled_in(rounds: Seq<Seq<Seq<u8>>>) -> nat
    decreases rounds.len(),
{
    if rounds.len() == 0 {
        0
    } else {
        sampled_in(rounds.drop_last()) + rounds.last().len()
    }
}

/// How many keys rounds dropped.
pub open spec fn expired_in(s: super::StoreModel, rounds: Seq<Seq<Seq<u8>>>) -> nat
    decreases rounds.len(),
{
    if rounds.len() == 0 {
        0
    } else {
        expired_in(s, rounds.drop_last()) + due_of(
            after_rounds(s, rounds.drop_last()),
            rounds.last(),
        ).len()
    }
}

/// How many of the last rounds, in a row, had no key to look at.
pub open spec fn idle_rounds(rounds: Seq<Seq<Seq<u8>>>) -> nat
    decreases rounds.len(),
{
    if rounds.len() == 0 || rounds.last().len() > 0 {
        0
    } else {
        idle_rounds(rounds.drop_last()) + 1
    }
}

/// Whether another round follows: the last one had nothing to look at, and
/// that not too often in a row, or enough of its sample had expired.
pub open spec fn goes_on(s: super::StoreModel, rounds: Seq<Seq<Seq<u8>>>) -> bool {
    if rounds.len() == 0 {
        true
    } else if rounds.last().len() == 0 {
        idle_rounds(rounds) < ZERO_ROUNDS
    } else {
        due_of(after_rounds(s, rounds.drop_last()), rounds.last()).len() * 100
            >= rounds.last().len() * EXPIRE_RATE_CONTINUATION
    }
}

/// Whether rounds could be run like this, one after the other.
pub open spec fn rounds_ok(
    s: super::StoreModel,
    rounds: Seq<Seq<Seq<u8>>>,
    samples: nat,
) -> bool
    decreases rounds.len(),
{
    rounds.len() == 0 || (rounds_ok(s, rounds.drop_last(), samples) && goes_on(
        s,
        rounds.drop_last(),
    ) && round_sample(after_rounds(s, rounds.drop_last()), rounds.last(), samples))
}

/// A number as far as a `u32` can tell it.
pub open spec fn told_u32(n: nat) -> u32 {
    if n <= u32::MAX {
        n as u32
    } else {
        u32::MAX
    }
}

/// The keys that each of the rounds looked at that led from one state of the
/// store to the next.
pub open spec fn samples_seen(states: Seq<Store>, samples: nat) -> Seq<Seq<Seq<u8>>> {
    Seq::new((states.len() - 1) as nat, |i: int| sweep_sample(states[i], samples))
}

/// What a sweep comes to: it ran rounds as long as one is to follow another,
/// up to the most that it may run.
pub open spec fn sweep_run(
    states: Seq<Store>,
    samples: nat,
    max_rounds: nat,
    stats: ExpireStats,
) -> bool {
    let before = states.first()@;
    let rounds = samples_seen(states, samples);
    &&& states.len() > 1
    &&& forall|i: int|
        #![trigger rounds[i]]
        0 <= i < rounds.len() ==> one_round(states[i], states[i + 1], rounds[i])
    &&& forall|i: int|
        0 <= i < states.len() ==> (#[trigger] states[i])@ == after_rounds(before, rounds.take(i))
    &&& rounds_ok(before, rounds, samples)
    &&& 0 < rounds.len() <= max_rounds
    &&& rounds.len() == max_rounds || !goes_on(before, rounds)
    &&& stats.rounds == rounds.len()
    &&& stats.sampled == told_u32(sampled_in(rounds))
    &&& stats.expired == told_u32(expired_in(before, rounds))
}

impl Store {
    /// Looks at up to `samples` keys that have deadlines, from a bucket that
    /// the use clock picks on, and drops those that have expired. Gives how
    /// many were looked at and how many dropped.
    pub fn sample_round(&mut self, samples: usize) -> (r: (u32, u32))
        requires
            old(self).wf(),
        ensures
            ({
                let keys = sweep_sample(*old(self), samples as nat);
                &&& round_sample(old(self)@, keys, samples as nat)
                &&& r.0 == keys.len()
                &&& r.1 == due_of(old(self)@, keys).len()
                &&& one_round(*old(self), *final(self), keys)
            }),
    {
        let ghost s = self@;
        let ghost before = *self;
        if self.map.is_empty() {
            proof {
                self.lemma_key_order();
                assert(self@.slots.dom() =~= Set::empty());
                assert(self.key_order() =~= Seq::empty()) by {
                    if self.key_order().len() > 0 {
                        assert(self.key_order().to_set().contains(self.key_order()[0]));
                    }
                }
                self.lemma_start(sweep_start(*self));
                let p = self.place(sweep_start(*self), 0);
                assert(self.key_order().skip(p) =~= Seq::empty());
                assert(sweep_sample(*self, samples as nat).len() == 0);
            }
            return (0, 0);
        }
        proof {
            assert(self@.slots.dom() =~= self.map@.dom());
            if self@.slots.dom() == Set::<Seq<u8>>::empty() {
                assert(self.map@ =~= Map::empty());
            }
        }
        self.tick_clock();
        let cap: usize = self.bucket_count();
        let start: usize = if cap == 0 {
            0
        } else {
            (self.clock_counter.wrapping_mul(0x9E37_79B9_7F4A_7C15u64) % cap as u64) as usize
        };
        let ghost order = self.key_order();
        proof {
            self.lemma_start(start as int);
            self.lemma_key_order();
        }
        let ghost p0 = self.place(start as int, 0);
        let ghost way = order.skip(p0);
        proof {
            assert(self.map == before.map);
            assert(order == before.key_order());
            self.lemma_same_walk(before, start as int);
            assert(start == sweep_start(before));
            assert(way.take(0) =~= Seq::empty());
        }
        let ghost mut keys: Seq<Seq<u8>> = Seq::empty();
        let mut victims: Vec<Vec<u8>> = Vec::new();
        let mut sampled: u32 = 0;
        let mut b: usize = start;
        let mut i: usize = 0;
        let mut more: bool = true;
        proof {
            assert(crate::bytes::deep(victims@) =~= due_of(s, keys));
            assert(keys.to_set() =~= Set::empty());
        }
        while more && (sampled as usize) < samples && sampled < u32::MAX
            invariant
                self.wf(),
                self@ == s,
                order == self.key_order(),
                order.no_duplicates(),
                self.stands(b as int, i as int),
                p0 <= self.place(b as int, i as int) <= order.len(),
                0 <= p0,
                way == order.skip(p0),
                keys == dated_of(s, way.take(self.place(b as int, i as int) - p0)),
                !more ==> self.place(b as int, i as int) == order.len(),
                sampled == keys.len(),
                sampled as usize <= samples,
                keys.no_duplicates(),
                forall|k: Seq<u8>|
                    #![trigger keys.contains(k)]
                    keys.contains(k) ==> super::dated_keys(s.slots).contains(k) && exists|j: int|
                        0 <= j < self.place(b as int, i as int) && order[j] == k,
                crate::bytes::deep(victims@) == due_of(s, keys),
            decreases order.len() - self.place(b as int, i as int) + (if more {
                1int
            } else {
                0int
            }),
        {
            let ghost p = self.place(b as int, i as int);
            match self.step(b, i) {
                None => {
                    more = false;
                },
                Some((k, e, c, j)) => {
                    let ghost keys0 = keys;
                    let ghost kv = k@;
                    proof {
                        assert(way[p - p0] == kv);
                        assert(way.take(p - p0 + 1).drop_last() =~= way.take(p - p0));
                        assert(way.take(p - p0 + 1).last() == kv);
                    }
                    if e.expire_at_ns.is_some() {
                        sampled = sampled + 1;
                        proof {
                            keys = keys0.push(kv);
                            assert(!keys0.contains(kv)) by {
                                if keys0.contains(kv) {
                                    let a = choose|a: int| 0 <= a < p && order[a] == kv;
                                    assert(order[a] == order[p]);
                                }
                            }
                            assert forall|x: int, y: int| 0 <= x < y < keys.len() implies keys[x]
                                != keys[y] by {
                                assert(keys0.contains(keys0[x]));
                            }
                            assert(keys.drop_last() =~= keys0);
                        }
                        let ghost d = crate::bytes::deep(victims@);
                        if e.is_expired_at(self.now_ns()) {
                            victims.push(copy_bytes(k.as_slice()));
                            assert(crate::bytes::deep(victims@) =~= d.push(kv));
                        }
                    }
                    proof {
                        assert forall|m: Seq<u8>|
                            #![trigger keys.contains(m)]
                            keys.contains(m) implies super::dated_keys(s.slots).contains(m)
                            && exists|j: int| 0 <= j < p + 1 && order[j] == m by {
                            if keys0.contains(m) {
                                let a = choose|a: int| 0 <= a < p && order[a] == m;
                                assert(order[a] == m);
                            } else {
                                if keys.len() > keys0.len() {
                                    crate::value_set::lemma_push_contains(keys0, kv, m);
                                }
                                assert(m == kv);
                                assert(order[p] == m);
                            }
                        }
                    }
                    b = c;
                    i = j;
                },
            }
        }
        proof {
            let w = self.place(b as int, i as int) - p0;
            lemma_dated_prefix(s, way, w);
            if !more {
                assert(way.take(w) =~= way);
            }
            assert(keys =~= sweep_sample(before, samples as nat));
        }
        let ghost due = crate::bytes::deep(victims@);
        let n: usize = victims.len();
        let mut a: usize = 0;
        assert(due.take(0) =~= Seq::empty());
        while a < n
            invariant
                self.use_clock() == before.use_clock().wrapping_add(1),
                self.rows() == pruned_all(before.rows(), due.take(a as int)),
                forall|k: Seq<u8>|
                    #![trigger self.held(k)]
                    #![trigger self.mark(k)]
                    !due.take(a as int).contains(k) ==> self.held(k) == before.held(k)
                        && self.mark(k) == before.mark(k),
                n == victims@.len(),
                due == crate::bytes::deep(victims@),
                a <= n,
                before.wf(),
                self.used() <= before.used(),
                self.became(before, expired_all(s, due.take(a as int))),
            decreases n - a,
        {
            proof {
                assert(due.take(a + 1).drop_last() =~= due.take(a as int));
                assert(due.take(a + 1).last() == victims@[a as int]@);
                assert forall|k: Seq<u8>| #[trigger] due.take(a as int).contains(k) || k
                    == due[a as int] implies due.take(a + 1).contains(k) by {
                    if k == due[a as int] {
                        assert(due.take(a + 1)[a as int] == k);
                    } else {
                        let j = choose|j: int| 0 <= j < a && due.take(a as int)[j] == k;
                        assert(due.take(a + 1)[j] == k);
                    }
                }
                assert(due.take(a + 1)[a as int] == due[a as int]);
                assert(due.take(a + 1).contains(due[a as int]));
            }
            self.remove_entry(victims[a].as_slice());
            self.note_expired(victims[a].as_slice());
            a = a + 1;
        }
        proof {
            assert(due.take(n as int) =~= due);
            lemma_due_len(s, keys);
            assert(due.len() == victims@.len());
            assert forall|k: Seq<u8>| keys.to_set().contains(k) implies super::dated_keys(
                s.slots,
            ).contains(k) by {
                assert(keys.contains(k));
            }
            assert(round_sample(s, keys, samples as nat));
            assert(self.became(before, after_round(s, keys)));
        }
        (sampled, n as u32)
    }

    /// Drops expired keys that a sample finds: rounds of up to
    /// `samples_per_round` keys each, at most `max_rounds` of them, another
    /// one only if enough of the sample had expired. The clock that reads go
    /// by is cached anew first.
    pub fn tick_expire(&mut self, samples_per_round: usize, max_rounds: u32) -> (r: ExpireStats)
        requires
            old(self).wf(),
        ensures
            ({
                let s = super::StoreModel { cached: old(self)@.now, ..old(self)@ };
                if samples_per_round == 0 || max_rounds == 0 || s.slots == Map::<
                    Seq<u8>,
                    crate::entry::Slot,
                >::empty() {
                    r == (ExpireStats { sampled: 0, expired: 0, rounds: 0 }) && final(self).became(
                        *old(self),
                        s,
                    ) && final(self).kept_all(*old(self))
                } else {
                    exists|states: Seq<Store>| #[trigger]
                        sweep_run(states, samples_per_round as nat, max_rounds as nat, r)
                            && states.first().became(*old(self), s) && states.first().kept_all(
                            *old(self),
                        ) && states.last() == *final(self)
                }
            }),
    {
        self.cached_ns = self.clock_ns;
        let ghost s = self@;
        let ghost before = *self;
        proof {
            assert(s.slots.dom() =~= self.map@.dom());
        }
        let empty: bool = self.map.is_empty();
        proof {
            if empty {
                assert(s.slots =~= Map::<Seq<u8>, crate::entry::Slot>::empty());
            } else if s.slots == Map::<Seq<u8>, crate::entry::Slot>::empty() {
                assert(self.map@ =~= Map::<Seq<u8>, crate::entry::Entry>::empty());
            }
        }
        if samples_per_round == 0 || max_rounds == 0 || empty {
            return ExpireStats { sampled: 0, expired: 0, rounds: 0 };
        }
        let ghost mut rs: Seq<Seq<Seq<u8>>> = Seq::empty();
        let ghost mut states: Seq<Store> = seq![*self];
        proof {
            assert(samples_seen(states, samples_per_round as nat) =~= rs);
            assert(rs.take(0) =~= rs);
        }
        let mut total_sampled: u32 = 0;
        let mut total_expired: u32 = 0;
        let mut rounds: u32 = 0;
        let mut idle: u32 = 0;
        let mut more: bool = true;
        while more && rounds < max_rounds
            invariant
                self.wf(),
                self.peak() == before.peak(),
                self@ == after_rounds(s, rs),
                rs == samples_seen(states, samples_per_round as nat),
                states.len() == rounds + 1,
                states[0] == before,
                states.last() == *self,
                before@ == s,
                forall|i: int|
                    #![trigger rs[i]]
                    0 <= i < rs.len() ==> one_round(states[i], states[i + 1], rs[i]),
                forall|i: int|
                    0 <= i < states.len() ==> (#[trigger] states[i])@ == after_rounds(
                        s,
                        rs.take(i),
                    ),
                rounds_ok(s, rs, samples_per_round as nat),
                rounds == rs.len(),
                rounds <= max_rounds,
                more == goes_on(s, rs),
                idle == idle_rounds(rs),
                idle <= rounds,
                total_sampled == told_u32(sampled_in(rs)),
                total_expired == told_u32(expired_in(s, rs)),
            decreases max_rounds - rounds,
        {
            let ghost at = *self;
            let (sampled, expired) = self.sample_round(samples_per_round);
            proof {
                let keys = sweep_sample(at, samples_per_round as nat);
                let rs0 = rs;
                let states0 = states;
                rs = rs0.push(keys);
                states = states0.push(*self);
                assert(rs.drop_last() =~= rs0);
                assert(rs.last() == keys);
                assert(samples_seen(states, samples_per_round as nat) =~= rs);
                assert forall|i: int| #![trigger rs[i]] 0 <= i < rs.len() implies one_round(
                    states[i],
                    states[i + 1],
                    rs[i],
                ) by {
                    assert(states[i] == states0[i]);
                    if i < rs0.len() {
                        assert(states[i + 1] == states0[i + 1]);
                        assert(rs[i] == rs0[i]);
                    }
                }
                assert forall|i: int| 0 <= i < states.len() implies (#[trigger] states[i])@
                    == after_rounds(s, rs.take(i)) by {
                    if i < states0.len() {
                        assert(states[i] == states0[i]);
                        assert(rs.take(i) =~= rs0.take(i));
                    } else {
                        assert(rs.take(i) =~= rs);
                    }
                }
            }
            rounds = rounds + 1;
            total_sampled = total_sampled.saturating_add(sampled);
            total_expired = total_expired.saturating_add(expired);
            if sampled == 0 {
                idle = idle + 1;
                if idle >= ZERO_ROUNDS {
                    more = false;
                }
            } else {
                idle = 0;
                if (expired as u64) * 100 < (sampled as u64) * EXPIRE_RATE_CONTINUATION {
                    more = false;
                }
            }
        }
        let r = ExpireStats { sampled: total_sampled, expired: total_expired, rounds };
        assert(sweep_run(states, samples_per_round as nat, max_rounds as nat, r));
        r
    }
}

proof fn lemma_dated_prefix(s: super::StoreModel, way: Seq<Seq<u8>>, w: int)
    requires
        0 <= w <= way.len(),
    ensures
        dated_of(s, way.take(w)).len() <= dated_of(s, way).len(),
        dated_of(s, way).take(dated_of(s, way.take(w)).len() as int) == dated_of(s, way.take(w)),
    decreases way.len(),
{
    let part = dated_of(s, way.take(w));
    if w == way.len() {
        assert(way.take(w) =~= way);
        assert(dated_of(s, way).take(part.len() as int) =~= part);
    } else {
        let d = way.drop_last();
        lemma_dated_prefix(s, d, w);
        assert(d.take(w) =~= way.take(w));
        assert(dated_of(s, way).take(part.len() as int) =~= dated_of(s, d).take(
            part.len() as int,
        ));
    }
}

proof fn lemma_due_len(s: super::StoreModel, keys: Seq<Seq<u8>>)
    ensures
        due_of(s, keys).len() <= keys.len(),
    decreases keys.len(),
{
    if keys.len() > 0 {
        lemma_due_len(s, keys.drop_last());
    }
}

/// A sweep drops no key whose deadline has not come, and changes none.
pub proof fn lemma_sweep_spares(
    s: super::StoreModel,
    rounds: Seq<Seq<Seq<u8>>>,
    k: Seq<u8>,
)
    requires
        super::key_live(s, k, s.now),
    ensures
        super::key_live(after_rounds(s, rounds), k, s.now),
        after_rounds(s, rounds).slots[k] == s.slots[k],
        after_rounds(s, rounds).now == s.now,
    decreases rounds.len(),
{
    if rounds.len() > 0 {
        lemma_sweep_spares(s, rounds.drop_last(), k);
        let t = after_rounds(s, rounds.drop_last());
        lemma_round_spares(t, rounds.last(), k);
    }
}

proof fn lemma_round_spares(s: super::StoreModel, keys: Seq<Seq<u8>>, k: Seq<u8>)
    requires
        super::key_live(s, k, s.now),
    ensures
        super::key_live(after_round(s, keys), k, s.now),
        after_round(s, keys).slots[k] == s.slots[k],
        after_round(s, keys).now == s.now,
{
    lemma_due_not(s, keys, k);
    lemma_expired_spares(s, due_of(s, keys), k);
}

proof fn lemma_due_not(s: super::StoreModel, keys: Seq<Seq<u8>>, k: Seq<u8>)
    requires
        super::key_live(s, k, s.now),
    ensures
        !due_of(s, keys).contains(k),
    decreases keys.len(),
{
    if keys.len() > 0 {
        lemma_due_not(s, keys.drop_last(), k);
        crate::value_set::lemma_push_contains(due_of(s, keys.drop_last()), keys.last(), k);
    }
}

proof fn lemma_expired_spares(s: super::StoreModel, keys: Seq<Seq<u8>>, k: Seq<u8>)
    requires
        s.slots.dom().contains(k),
        !keys.contains(k),
    ensures
        expired_all(s, keys).slots.dom().contains(k),
        expired_all(s, keys).slots[k] == s.slots[k],
        expired_all(s, keys).now == s.now,
    decreases keys.len(),
{
    if keys.len() > 0 {
        let d = keys.drop_last();
        crate::value_set::lemma_push_contains(d, keys.last(), k);
        assert(d.push(keys.last()) =~= keys);
        lemma_expired_spares(s, d, k);
    }
}

} // verus!
