//! Making room when the memory limit is passed.
use vstd::prelude::*;
use super::Store;
use crate::bytes::copy_bytes;
use crate::evict::{
    score_entry, splitmix32, HEADROOM_DEN, HEADROOM_NUM, MAX_EVICTIONS_PER_CALL, N_SAMPLES,
};
use crate::tier::MIN_SPILL_BYTES;
use crate::types::EvictionPolicy;
use crate::value::{Value, ENTRY_OVERHEAD};

verus! {

/// Whether a key may be evicted: under a volatile policy only one that has a
/// deadline.
pub open spec fn eligible(s: super::StoreModel, k: Seq<u8>) -> bool {
    s.slots.dom().contains(k) && (s.policy.volatile() ==> s.slots[k].expire is Some)
}

/// Whether no key may be evicted.
pub open spec fn none_eligible(s: super::StoreModel) -> bool {
    forall|k: Seq<u8>| !#[trigger] eligible(s, k)
}

/// What a key is looked for.
#[derive(Clone, Copy, Debug, PartialEq, Eq, Structural)]
pub enum Purpose {
    /// To be dropped.
    Evict,
    /// To have its value moved out of memory.
    Spill,
}

/// Whether a key will do.
pub open spec fn fits(store: Store, p: Purpose, k: Seq<u8>) -> bool {
    match p {
        Purpose::Evict => eligible(store@, k),
        Purpose::Spill => store@.slots.dom().contains(k) && crate::tier_codec::spillable(
            store.held(k),
        ) && store.weights()[k] >= ENTRY_OVERHEAD + MIN_SPILL_BYTES,
    }
}

/// Whether no key will do.
pub open spec fn none_fits(store: Store, p: Purpose) -> bool {
    forall|k: Seq<u8>| !#[trigger] fits(store, p, k)
}

/// By which policy keys are ranked.
pub open spec fn ranking(s: super::StoreModel, p: Purpose) -> EvictionPolicy {
    match p {
        Purpose::Evict => s.policy,
        Purpose::Spill => match s.tier {
            Some(t) => t.policy,
            None => s.policy,
        },
    }
}

/// Those of some keys that will do, in order.
pub open spec fn fitting(store: Store, p: Purpose, keys: Seq<Seq<u8>>) -> Seq<Seq<u8>>
    decreases keys.len(),
{
    if keys.len() == 0 {
        Seq::empty()
    } else {
        let before = fitting(store, p, keys.drop_last());
        if fits(store, p, keys.last()) {
            before.push(keys.last())
        } else {
            before
        }
    }
}

/// A walk from a place to the end and then once over everything.
pub open spec fn ring(order: Seq<Seq<u8>>, from: int) -> Seq<Seq<u8>> {
    order.skip(from) + order
}

/// The keys that are looked at: the first `n` that will do.
pub open spec fn sample(store: Store, p: Purpose, from: int, n: nat) -> Seq<Seq<u8>> {
    let all = fitting(store, p, ring(store.key_order(), from));
    all.take(super::lists::lesser(n, all.len()) as int)
}

/// A keyspace from which keys were evicted, one after the other.
pub open spec fn evicted(s: super::StoreModel, victims: Seq<Seq<u8>>) -> super::StoreModel
    decreases victims.len(),
{
    if victims.len() == 0 {
        s
    } else {
        super::noted_evicted(
            super::dropped(evicted(s, victims.drop_last()), victims.last()),
            victims.last(),
        )
    }
}

/// Whether each of some keys could be evicted when its turn came.
pub open spec fn evictable(s: super::StoreModel, victims: Seq<Seq<u8>>) -> bool
    decreases victims.len(),
{
    victims.len() == 0 || (evictable(s, victims.drop_last()) && eligible(
        evicted(s, victims.drop_last()),
        victims.last(),
    ))
}

/// The memory use that eviction aims at.
pub open spec fn target_of(limit: u64) -> u64 {
    let n = if limit * HEADROOM_NUM > u64::MAX {
        u64::MAX as int
    } else {
        limit * HEADROOM_NUM
    };
    (n / HEADROOM_DEN as int) as u64
}

/// What the keys cost that are left when some are gone.
pub open spec fn used_without(weights: Map<Seq<u8>, nat>, gone: Seq<Seq<u8>>) -> u64 {
    crate::list_data::capped(crate::weigh::total(weights.remove_keys(gone.to_set())))
}

/// Whether a key was evicted between two states of the store, and nothing
/// else happened: every other key stands in the same order, holds what it
/// held and is marked as it was, and the use clock stands still.
pub open spec fn one_evicted(before: Store, after: Store, k: Seq<u8>) -> bool {
    &&& after.became(before, super::noted_evicted(super::dropped(before@, k), k))
    &&& after.rows() == crate::byte_map::pruned(before.rows(), k)
    &&& after.use_clock() == before.use_clock()
    &&& after.kept_others(before, k)
}

/// What an eviction run comes to that leads from one state of the store to
/// the next: each victim deserved least to stay in its sample, the memory in
/// use was above the aim before each, and the run ended because it was no
/// longer, because no key was left that may be evicted, or because so many
/// went as may go in one run.
pub open spec fn eviction_run(states: Seq<Store>, victims: Seq<Seq<u8>>) -> bool {
    let before = states.first();
    let after = states.last();
    &&& states.len() == victims.len() + 1
    &&& after.became(before, evicted(before@, victims))
    &&& evictable(before@, victims)
    &&& victims.len() <= MAX_EVICTIONS_PER_CALL
    &&& forall|i: int|
        #![trigger victims[i]]
        0 <= i < victims.len() ==> chosen(
            states[i], Purpose::Evict,
            victims[i],
            evict_start(states[i]),
            N_SAMPLES as nat,
        ) && states[i]@ == evicted(before@, victims.take(i)) && one_evicted(
            states[i],
            states[i + 1],
            victims[i],
        )
    &&& forall|i: int|
        0 <= i < victims.len() ==> used_without(before.weights(), #[trigger] victims.take(i))
            > target_of(before@.limit)
    &&& after.used() == used_without(before.weights(), victims)
    &&& after.used() <= target_of(before@.limit) || victims.len() == MAX_EVICTIONS_PER_CALL
        || none_eligible(after@)
}

/// Whether a run of evictions led from one state of the store to another,
/// `n` keys going.
pub open spec fn evicted_to(before: Store, after: Store, n: nat) -> bool {
    exists|states: Seq<Store>, victims: Seq<Seq<u8>>| #[trigger]
        eviction_run(states, victims) && states.first() == before && states.last() == after
            && victims.len() == n
}

impl Store {
    /// How much a key deserves to stay.
    pub open spec fn score(&self, p: Purpose, k: Seq<u8>) -> int {
        crate::evict::score_spec(
            self.mark(k),
            self@.slots[k].expire,
            ranking(self@, p),
            self@.now,
            (self.use_clock() % 0x1_0000_0000) as u32,
        )
    }

    /// The key that deserves least to stay among a sample of those that may
    /// be evicted. The sample starts at a bucket that the use clock picks.
    pub fn sample_and_pick(&self, n: usize) -> (r: Option<Vec<u8>>)
        requires
            self.wf(),
            n > 0,
        ensures
            r is None ==> none_eligible(self@),
            r matches Some(k) ==> eligible(self@, k@),
            r matches Some(k) ==> chosen(
                *self,
                Purpose::Evict,
                k@,
                evict_start(*self),
                n as nat,
            ),
    {
        let r = self.sample_pick_with(n, Purpose::Evict);
        proof {
            assert forall|k: Seq<u8>| r is None implies !#[trigger] eligible(self@, k) by {
                assert(fits(*self, Purpose::Evict, k) == eligible(self@, k));
            }
        }
        r
    }

    /// The key that deserves least to stay among a sample of those that will
    /// do. The sample starts at a bucket that the use clock picks.
    pub fn sample_pick_with(&self, n: usize, purpose: Purpose) -> (r: Option<Vec<u8>>)
        requires
            self.wf(),
            n > 0,
        ensures
            r is None ==> none_fits(*self, purpose),
            r matches Some(k) ==> fits(*self, purpose, k@),
            r matches Some(k) ==> chosen(*self, purpose, k@, evict_start(*self), n as nat),
    {
        let cap: usize = self.bucket_count();
        let ghost order = self.key_order();
        proof {
            self.lemma_key_order();
            self.lemma_accounting();
        }
        if cap == 0 {
            proof {
                self.lemma_start(0);
                assert(order.len() == 0);
                assert forall|k: Seq<u8>| !#[trigger] fits(*self, purpose, k) by {
                    if fits(*self, purpose, k) {
                        assert(order.to_set().contains(k));
                        assert(order.contains(k));
                    }
                }
            }
            return None;
        }
        let policy: EvictionPolicy = match purpose {
            Purpose::Evict => self.eviction_policy,
            Purpose::Spill => match &self.tier {
                Some(t) => t.policy,
                None => self.eviction_policy,
            },
        };
        let volatile: bool = self.eviction_policy.is_volatile();
        let clock: u32 = (self.clock_counter % 0x1_0000_0000u64) as u32;
        let start: usize = (splitmix32(clock) as u64 % cap as u64) as usize;
        proof {
            self.lemma_start(start as int);
        }
        let ghost p0 = self.place(start as int, 0);
        let ghost way = ring(order, p0);
        let mut best: Option<(Vec<u8>, i64)> = None;
        let mut taken: usize = 0;
        let mut b: usize = start;
        let mut i: usize = 0;
        let mut wrapped: bool = false;
        let mut more: bool = true;
        proof {
            assert(way.take(0) =~= Seq::empty());
        }
        while more && taken < n
            invariant
                self.wf(),
                order == self.key_order(),
                order.no_duplicates(),
                order.to_set() == self@.slots.dom(),
                way == ring(order, p0),
                0 <= p0 <= order.len(),
                policy == ranking(self@, purpose),
                volatile == self@.policy.volatile(),
                clock == (self.use_clock() % 0x1_0000_0000) as u32,
                self.stands(b as int, i as int),
                0 <= self.place(b as int, i as int) <= order.len(),
                !wrapped ==> p0 <= self.place(b as int, i as int),
                taken <= n,
                taken == fitting(*self, purpose,
                    way.take(walked(wrapped, p0, order.len(), self.place(b as int, i as int))),
                ).len(),
                best_of(*self, purpose,
                    fitting(*self, purpose,
                        way.take(
                            walked(wrapped, p0, order.len(), self.place(b as int, i as int)),
                        ),
                    ),
                    best,
                ),
                !more ==> wrapped && self.place(b as int, i as int) == order.len(),
            decreases
                    2 * order.len() - walked(
                        wrapped,
                        p0,
                        order.len(),
                        self.place(b as int, i as int),
                    ) + (if more {
                        1int
                    } else {
                        0int
                    }) + (if wrapped {
                        0int
                    } else {
                        1int
                    }),
        {
            let ghost p = self.place(b as int, i as int);
            let ghost w = walked(wrapped, p0, order.len(), p);
            match self.step(b, i) {
                None => {
                    if wrapped {
                        more = false;
                    } else {
                        wrapped = true;
                        b = 0;
                        i = 0;
                        proof {
                            self.lemma_start(0);
                        }
                    }
                },
                Some((k, e, c, j)) => {
                    proof {
                        assert(way[w] == k@);
                        assert(way.take(w + 1).drop_last() =~= way.take(w));
                        assert(way.take(w + 1).last() == k@);
                    }
                    let ghost keys = fitting(*self, purpose, way.take(w));
                    let ghost best0 = best;
                    let will_do: bool = match purpose {
                        Purpose::Evict => !volatile || e.expire_at_ns.is_some(),
                        Purpose::Spill => (match &e.value {
                            Value::ArcBulk(_) | Value::Hash(_) | Value::SmallHashInline(_) => true,
                            _ => false,
                        }) && e.weight >= MIN_SPILL_BYTES,
                    };
                    assert(will_do == fits(*self, purpose, k@));
                    if will_do {
                        let score: i64 = score_entry(
                            e.lru_clock,
                            e.expire_at_ns,
                            policy,
                            self.now_ns(),
                            clock,
                        );
                        let lower: bool = match &best {
                            None => true,
                            Some((_, s)) => score < *s,
                        };
                        if lower {
                            best = Some((copy_bytes(k.as_slice()), score));
                        }
                        proof {
                            let more_keys = keys.push(k@);
                            assert(fitting(*self, purpose, way.take(w + 1)) == more_keys);
                            crate::value_set::lemma_push_contains(keys, k@, best->Some_0.0@);
                            assert forall|j: int| 0 <= j < more_keys.len() implies best->Some_0.1
                                <= self.score(purpose, #[trigger] more_keys[j]) by {
                                if j < keys.len() {
                                    assert(more_keys[j] == keys[j]);
                                }
                            }
                        }
                        taken = taken + 1;
                    }
                    b = c;
                    i = j;
                },
            }
        }
        let ghost w = walked(wrapped, p0, order.len(), self.place(b as int, i as int));
        let ghost part = fitting(*self, purpose, way.take(w));
        proof {
            lemma_fitting_prefix(*self, purpose, way, w);
            if !more {
                assert(way.take(w) =~= way);
            }
            assert(part =~= sample(*self, purpose, p0, n as nat));
        }
        let r = match best {
            None => {
                proof {
                    let all = fitting(*self, purpose, way);
                    assert(part.len() == 0);
                    assert(all.len() == 0);
                    assert forall|k: Seq<u8>| !#[trigger] fits(*self, purpose, k) by {
                        if fits(*self, purpose, k) {
                            assert(order.to_set().contains(k));
                            let j = choose|j: int| 0 <= j < order.len() && order[j] == k;
                            assert(way[order.skip(p0).len() + j] == k);
                            lemma_fitting_has(*self, purpose, way, k);
                            assert(all.contains(k));
                        }
                    }
                    assert(none_fits(*self, purpose));
                }
                None
            },
            Some((k, _)) => {
                proof {
                    let all = sample(*self, purpose, p0, n as nat);
                    assert(all == part);
                    assert(all.contains(k@));
                    assert forall|j: int|
                        #![trigger sample(*self, purpose, p0, n as nat)[j]]
                        0 <= j < sample(*self, purpose, p0,
                            n as nat,
                        ).len() implies self.score(purpose, k@) <= self.score(purpose, 
                        sample(*self, purpose, p0, n as nat)[j],
                    ) by {
                        assert(part[j] == all[j]);
                    }
                    assert(chosen(*self, purpose, k@, p0, n as nat));
                    assert(fits(*self, purpose, k@));
                }
                Some(k)
            },
        };
        assert(r matches Some(k) ==> chosen(*self, purpose, k@, p0, n as nat));
        r
    }

    /// Evicts one key. Says whether there was one that may be evicted.
    fn evict_one(&mut self) -> (r: Option<Vec<u8>>)
        requires
            old(self).wf(),
        ensures
            match r {
                None => *final(self) == *old(self) && none_eligible(old(self)@),
                Some(k) => eligible(old(self)@, k@) && one_evicted(
                    *old(self),
                    *final(self),
                    k@,
                ) && final(self).used() <= old(self).used() && final(self).weights()
                    == old(self).weights().remove(k@) && chosen(
                    *old(self), Purpose::Evict,
                    k@,
                    evict_start(*old(self)),
                    N_SAMPLES as nat,
                ),
            },
    {
        match self.sample_and_pick(N_SAMPLES) {
            None => None,
            Some(k) => {
                self.remove_entry(k.as_slice());
                self.note_evicted(k.as_slice());
                Some(k)
            },
        }
    }

    /// Evicts keys until the memory in use is 19 twentieths of the limit or
    /// less. Gives how many went.
    pub fn evict_until_under_limit(&mut self) -> (r: usize)
        requires
            old(self).wf(),
        ensures
            old(self)@.policy is NoEviction ==> r == 0 && *final(self) == *old(self),
            !(old(self)@.policy is NoEviction) ==> evicted_to(
                *old(self),
                *final(self),
                r as nat,
            ),
    {
        match self.eviction_policy {
            EvictionPolicy::NoEviction => {
                return 0;
            },
            _ => {},
        }
        let wide: u128 = self.maxmemory as u128 * HEADROOM_NUM as u128;
        let capped: u64 = if wide > u64::MAX as u128 {
            u64::MAX
        } else {
            wide as u64
        };
        let target: u64 = capped / HEADROOM_DEN;
        let ghost s = *self;
        let ghost mut victims: Seq<Seq<u8>> = Seq::empty();
        let ghost mut states: Seq<Store> = seq![*self];
        let mut count: usize = 0;
        let mut more: bool = true;
        proof {
            assert(victims.to_set() =~= Set::empty());
            assert(s.weights().remove_keys(Set::empty()) =~= s.weights());
        }
        while more && self.used_memory > target && count < MAX_EVICTIONS_PER_CALL
            invariant
                target == target_of(s@.limit),
                s.wf(),
                self.used() <= s.used(),
                self.became(s, evicted(s@, victims)),
                evictable(s@, victims),
                count == victims.len(),
                count <= MAX_EVICTIONS_PER_CALL,
                self.weights() == s.weights().remove_keys(victims.to_set()),
                forall|i: int|
                    0 <= i < victims.len() ==> used_without(
                        s.weights(),
                        #[trigger] victims.take(i),
                    ) > target,
                !more ==> none_eligible(self@),
                states.len() == victims.len() + 1,
                states[0] == s,
                states.last() == *self,
                forall|i: int|
                    #![trigger victims[i]]
                    0 <= i < victims.len() ==> chosen(
                        states[i], Purpose::Evict,
                        victims[i],
                        evict_start(states[i]),
                        N_SAMPLES as nat,
                    ) && states[i]@ == evicted(s@, victims.take(i)) && one_evicted(
                        states[i],
                        states[i + 1],
                        victims[i],
                    ),
            decreases MAX_EVICTIONS_PER_CALL - count + (if more {
                1int
            } else {
                0int
            }),
        {
            let ghost before = *self;
            proof {
                self.lemma_accounting();
            }
            match self.evict_one() {
                None => {
                    more = false;
                },
                Some(k) => {
                    count = count + 1;
                    proof {
                        let v = victims;
                        let st = states;
                        victims = v.push(k@);
                        states = st.push(*self);
                        assert(victims.drop_last() =~= v);
                        assert forall|i: int|
                            #![trigger victims[i]]
                            0 <= i < victims.len() implies chosen(
                            states[i], Purpose::Evict,
                            victims[i],
                            evict_start(states[i]),
                            N_SAMPLES as nat,
                        ) && states[i]@ == evicted(s@, victims.take(i)) && one_evicted(
                            states[i],
                            states[i + 1],
                            victims[i],
                        ) by {
                            assert(states[i] == st[i]);
                            if i < v.len() {
                                assert(states[i + 1] == st[i + 1]);
                                assert(victims[i] == v[i]);
                                assert(victims.take(i) =~= v.take(i));
                            } else {
                                assert(victims.take(i) =~= v);
                            }
                        }
                        assert(victims.to_set() =~= v.to_set().insert(k@)) by {
                            assert forall|x: Seq<u8>| victims.to_set().contains(x)
                                == v.to_set().insert(k@).contains(x) by {
                                crate::value_set::lemma_push_contains(v, k@, x);
                            }
                        }
                        assert(self.weights() =~= s.weights().remove_keys(victims.to_set()));
                        assert forall|i: int| 0 <= i < victims.len() implies used_without(
                            s.weights(),
                            #[trigger] victims.take(i),
                        ) > target by {
                            if i < v.len() {
                                assert(victims.take(i) =~= v.take(i));
                            } else {
                                assert(victims.take(i) =~= v);
                            }
                        }
                    }
                },
            }
        }
        proof {
            self.lemma_accounting();
            assert(eviction_run(states, victims));
        }
        count
    }

    /// Evicts keys if the memory limit is passed. Gives how many went.
    pub fn try_evict_after_write(&mut self) -> (r: usize)
        requires
            old(self).wf(),
        ensures
            !super::admin::over_limit(old(self)@, old(self).used()) || old(self)@.policy is NoEviction ==> r == 0 && *final(self) == *old(self),
            super::admin::over_limit(old(self)@, old(self).used()) && !(old(self)@.policy is NoEviction) ==> evicted_to(
                *old(self),
                *final(self),
                r as nat,
            ),
    {
        if self.maxmemory == 0 || self.used_memory <= self.maxmemory {
            return 0;
        }
        self.evict_until_under_limit()
    }
}

/// The place at which the sample starts that the use clock picks.
pub open spec fn evict_start(store: Store) -> int {
    if store.breadth() == 0 {
        0
    } else {
        store.place(
            crate::evict::splitmix32_spec((store.use_clock() % 0x1_0000_0000) as u32) as int
                % store.breadth() as int,
            0,
        )
    }
}

/// How far a walk that may have wrapped has come.
spec fn walked(wrapped: bool, p0: int, n: nat, p: int) -> int {
    if wrapped {
        n - p0 + p
    } else {
        p - p0
    }
}

/// Whether a key is one that deserves least to stay among the sample that
/// starts at a place.
pub open spec fn chosen(store: Store, p: Purpose, k: Seq<u8>, from: int, n: nat) -> bool {
    &&& 0 <= from <= store.key_order().len()
    &&& sample(store, p, from, n).contains(k)
    &&& forall|j: int|
        #![trigger sample(store, p, from, n)[j]]
        0 <= j < sample(store, p, from, n).len() ==> store.score(p, k)
            <= store.score(p, sample(store, p, from, n)[j])
}

/// Whether this is the best of some keys so far.
spec fn best_of(store: Store, p: Purpose, keys: Seq<Seq<u8>>, best: Option<(Vec<u8>, i64)>) -> bool {
    match best {
        None => keys.len() == 0,
        Some((k, s)) => keys.contains(k@) && s == store.score(p, k@) && fits(store, p, k@)
            && forall|j: int| 0 <= j < keys.len() ==> s <= store.score(p, #[trigger] keys[j]),
    }
}

proof fn lemma_fitting_prefix(s: Store, p: Purpose, way: Seq<Seq<u8>>, w: int)
    requires
        0 <= w <= way.len(),
    ensures
        fitting(s, p, way.take(w)).len() <= fitting(s, p, way).len(),
        fitting(s, p, way).take(fitting(s, p, way.take(w)).len() as int) == fitting(s, p,
            way.take(w),
        ),
    decreases way.len(),
{
    let part = fitting(s, p, way.take(w));
    if w == way.len() {
        assert(way.take(w) =~= way);
        assert(fitting(s, p, way).take(part.len() as int) =~= part);
    } else {
        let d = way.drop_last();
        lemma_fitting_prefix(s, p, d, w);
        assert(d.take(w) =~= way.take(w));
        assert(fitting(s, p, way).take(part.len() as int) =~= fitting(s, p, d).take(
            part.len() as int,
        ));
    }
}

proof fn lemma_fitting_has(s: Store, p: Purpose, way: Seq<Seq<u8>>, k: Seq<u8>)
    requires
        way.contains(k),
        fits(s, p, k),
    ensures
        fitting(s, p, way).contains(k),
    decreases way.len(),
{
    let d = way.drop_last();
    let j = choose|j: int| 0 <= j < way.len() && way[j] == k;
    if way.last() == k {
        let e = fitting(s, p, way);
        assert(e[e.len() - 1] == k);
    } else {
        assert(d[j] == k);
        lemma_fitting_has(s, p, d, k);
        let e = fitting(s, p, d);
        let i = choose|i: int| 0 <= i < e.len() && e[i] == k;
        assert(fitting(s, p, way)[i] == k);
    }
}

/// Under a volatile policy a key without a deadline is never evicted.
pub proof fn lemma_volatile_spares(
    s: super::StoreModel,
    victims: Seq<Seq<u8>>,
    k: Seq<u8>,
)
    requires
        evictable(s, victims),
        s.policy.volatile(),
        s.slots.dom().contains(k),
        s.slots[k].expire is None,
    ensures
        evicted(s, victims).slots.dom().contains(k),
        evicted(s, victims).slots[k] == s.slots[k],
        evicted(s, victims).policy == s.policy,
    decreases victims.len(),
{
    if victims.len() > 0 {
        lemma_volatile_spares(s, victims.drop_last(), k);
    }
}

} // verus!
