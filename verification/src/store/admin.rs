//! Clocks, limits, counters, watched keys, captured events and the random
//! stream.
use vstd::prelude::*;
use super::{Capture, KeyspaceEvent, Store};
use crate::bytes::copy_bytes;
use crate::types::{EvictionPolicy, StoreError};

verus! {

/// Whether the limit is passed.
pub open spec fn over_limit(s: super::StoreModel, used: u64) -> bool {
    s.limit != 0 && used > s.limit
}

impl Store {
    /// Feeds the monotonic clock, in nanoseconds.
    pub fn set_clock_ns(&mut self, ns: u64)
        requires
            old(self).wf(),
        ensures
            final(self).became(*old(self), super::StoreModel { now: ns, ..old(self)@ }),
            final(self).used() == old(self).used(),
            final(self).kept_all(*old(self)),
    {
        self.clock_ns = ns;
    }

    /// Feeds the wall clock, in Unix milliseconds.
    pub fn set_wall_clock_ms(&mut self, ms: u64)
        requires
            old(self).wf(),
        ensures
            final(self).became(*old(self), super::StoreModel { wall: ms, ..old(self)@ }),
            final(self).used() == old(self).used(),
            final(self).kept_all(*old(self)),
    {
        self.wall_ms = ms;
    }

    /// Caches what the monotonic clock shows.
    pub fn refresh_clock(&mut self)
        requires
            old(self).wf(),
        ensures
            final(self).became(*old(self), super::StoreModel { cached: old(self)@.now, ..old(self)@ }),
            final(self).used() == old(self).used(),
            final(self).kept_all(*old(self)),
    {
        self.cached_ns = self.clock_ns;
    }

    /// Chooses whether reads go by the cached clock, which is cached anew
    /// when they start to.
    pub fn set_cached_clock(&mut self, on: bool)
        requires
            old(self).wf(),
        ensures
            final(self).became(
                *old(self),
                super::StoreModel {
                    use_cached: on,
                    cached: if on {
                        old(self)@.now
                    } else {
                        old(self)@.cached
                    },
                    ..old(self)@
                },
            ),
            final(self).used() == old(self).used(),
            final(self).kept_all(*old(self)),
    {
        self.cached_clock = on;
        if on {
            self.refresh_clock();
        }
    }

    /// Sets the memory limit, 0 for none, and which keys go when it is
    /// passed.
    pub fn set_max_memory(&mut self, maxmemory: u64, policy: EvictionPolicy)
        requires
            old(self).wf(),
        ensures
            final(self).became(
                *old(self),
                super::StoreModel { limit: maxmemory, policy, ..old(self)@ },
            ),
            final(self).used() == old(self).used(),
            final(self).kept_all(*old(self)),
    {
        self.maxmemory = maxmemory;
        self.eviction_policy = policy;
    }

    /// The memory in use: what all keys cost together.
    pub fn used_memory(&self) -> (r: u64)
        requires
            self.wf(),
        ensures
            r == self.used(),
            r == crate::list_data::capped(crate::weigh::total(self.weights())),
    {
        self.used_memory
    }

    /// The most memory that was ever in use.
    pub fn used_memory_peak(&self) -> (r: u64)
        requires
            self.wf(),
        ensures
            r == self.peak(),
            r >= self.used(),
    {
        self.used_memory_peak
    }

    /// The memory limit, 0 for none.
    pub fn maxmemory(&self) -> (r: u64)
        ensures
            r == self@.limit,
    {
        self.maxmemory
    }

    /// Which keys go when the limit is passed.
    pub fn eviction_policy(&self) -> (r: EvictionPolicy)
        ensures
            r == self@.policy,
    {
        self.eviction_policy
    }

    /// How many keys were evicted.
    pub fn evictions_total(&self) -> (r: u64)
        ensures
            r == self@.evictions,
    {
        self.evictions_total
    }

    /// How many keys have expired.
    pub fn expired_keys_total(&self) -> (r: u64)
        ensures
            r == self@.expired_total,
    {
        self.expired_keys_total
    }

    /// How many keys have a deadline.
    pub fn expires_count(&self) -> (r: usize)
        requires
            self.wf(),
        ensures
            super::dated_keys(self@.slots).len() <= usize::MAX ==> r == super::dated_keys(
                self@.slots,
            ).len(),
    {
        self.expires.get()
    }

    /// How many keys there are, their deadlines come or not.
    pub fn dbsize(&self) -> (r: usize)
        requires
            self.wf(),
        ensures
            self@.slots.dom().len() <= usize::MAX ==> r == self@.slots.dom().len(),
    {
        assert(self@.slots.dom() =~= self.map@.dom());
        self.map.len()
    }

    /// What a live key costs, with the flat rate.
    pub fn estimate_key_bytes(&self, key: &[u8]) -> (r: Option<u64>)
        requires
            self.wf(),
        ensures
            match r {
                Some(w) => super::key_live(self@, key@, self@.now) && w == self.weights()[key@],
                None => !super::key_live(self@, key@, self@.now),
            },
    {
        match self.map.get(key) {
            Some(e) => if e.is_expired_at(self.clock_ns) {
                None
            } else {
                Some(super::ENTRY_OVERHEAD + e.weight as u64)
            },
            None => None,
        }
    }

    /// Refuses a write when the limit is passed and nothing may be evicted.
    pub fn precheck_for_write(&self) -> (r: Result<(), StoreError>)
        ensures
            r == (if over_limit(self@, self.used()) && self@.policy is NoEviction {
                Err::<(), StoreError>(StoreError::OutOfMemory)
            } else {
                Ok(())
            }),
    {
        if self.maxmemory == 0 || self.used_memory <= self.maxmemory {
            return Ok(());
        }
        match self.eviction_policy {
            EvictionPolicy::NoEviction => Err(StoreError::OutOfMemory),
            _ => Ok(()),
        }
    }

    /// Starts to watch a key, if it is not watched, and gives its version.
    pub fn record_watch(&mut self, key: &[u8]) -> (r: u64)
        requires
            old(self).wf(),
        ensures
            final(self).became(*old(self), watched(old(self)@, key@)),
            r == version_of(old(self)@, key@),
            final(self).kept_others(*old(self), key@),
            final(self).kept_all(*old(self)),
    {
        match self.watch_versions.get(key) {
            Some(v) => *v,
            None => {
                self.watch_versions.insert(copy_bytes(key), 0);
                0
            },
        }
    }

    /// The version of a key, 0 if it was never watched.
    pub fn key_version(&self, key: &[u8]) -> (r: u64)
        requires
            self.wf(),
        ensures
            r == version_of(self@, key@),
    {
        match self.watch_versions.get(key) {
            Some(v) => *v,
            None => 0,
        }
    }

    /// Moves a key's version on, if it was ever watched.
    pub fn bump_if_watched(&mut self, key: &[u8])
        requires
            old(self).wf(),
        ensures
            final(self).became(*old(self), super::versioned(old(self)@, key@)),
            final(self).used() == old(self).used(),
            final(self).kept_all(*old(self)),
            final(self).kept_others(*old(self), key@),
    {
        match self.watch_versions.get_mut(key) {
            Some(v) => {
                *v = v.wrapping_add(1);
            },
            None => {},
        }
    }

    /// Moves the version of every key that was ever watched on.
    pub fn bump_all_watched(&mut self)
        requires
            old(self).wf(),
        ensures
            final(self).became(
                *old(self),
                super::StoreModel { watch: all_versioned(old(self)@.watch), ..old(self)@ },
            ),
            final(self).kept_all(*old(self)),
    {
        let names = self.watch_versions.keys();
        let ghost q = self.watch_versions.key_order();
        let ghost w0 = self.watch_versions@;
        let ghost before = *self;
        proof {
            self.watch_versions.lemma_key_order();
        }
        let mut i: usize = 0;
        while i < names.len()
            invariant
                self.wf(),
                before.wf(),
                self.peak() == before.peak(),
                self.used() == before.used(),
                self.kept_all(before),
                crate::bytes::deep(names@) == q,
                q.no_duplicates(),
                q.to_set() == w0.dom(),
                i <= names@.len(),
                self@ == (super::StoreModel { watch: self.watch_versions@, ..before@ }),
                self.watch_versions@.dom() == w0.dom(),
                forall|k: int|
                    0 <= k < q.len() ==> self.watch_versions@[#[trigger] q[k]] == (if k < i {
                        w0[q[k]].wrapping_add(1)
                    } else {
                        w0[q[k]]
                    }),
            decreases names@.len() - i,
        {
            assert(q[i as int] == names@[i as int]@);
            assert(q.to_set().contains(q[i as int]));
            let ghost at = *self;
            match self.watch_versions.get_mut(names[i].as_slice()) {
                Some(v) => {
                    *v = v.wrapping_add(1);
                },
                None => {},
            }
            proof {
                assert forall|k: Seq<u8>|
                    #![trigger self.held(k)]
                    #![trigger self.mark(k)]
                    self.held(k) == before.held(k) && self.mark(k) == before.mark(k) by {
                    assert(at.held(k) == before.held(k));
                }
            }
            assert(self.watch_versions@.dom() =~= w0.dom());
            i = i + 1;
        }
        proof {
            assert(q.len() == names@.len());
            let target = all_versioned(w0);
            assert forall|k: Seq<u8>| #[trigger] w0.dom().contains(k) implies self.watch_versions@[k]
                == target[k] by {
                assert(q.to_set().contains(k));
                let j = choose|j: int| 0 <= j < q.len() && q[j] == k;
                assert(self.watch_versions@[q[j]] == w0[q[j]].wrapping_add(1));
            }
            assert(self.watch_versions@ =~= target);
        }
    }

    /// Chooses which events are captured.
    pub fn set_notify_capture(&mut self, new_key: bool, expired: bool, evicted: bool)
        requires
            old(self).wf(),
        ensures
            final(self).became(
                *old(self),
                super::StoreModel {
                    capture: (Capture { new_key, expired, evicted }),
                    ..old(self)@
                },
            ),
            final(self).kept_all(*old(self)),
    {
        self.notify_capture = Capture { new_key, expired, evicted };
    }

    /// Whether captured events wait to be handed out.
    pub fn has_notify_events(&self) -> (r: bool)
        ensures
            r == (self@.events.len() > 0),
    {
        self.notify_events.len() > 0
    }

    /// Whether expired keys wait to be handed out.
    pub fn has_expired_keys(&self) -> (r: bool)
        ensures
            r == (self@.expired.len() > 0),
    {
        self.expired_keys.len() > 0
    }

    /// Hands out the keys that expired since the last call, in order.
    pub fn take_expired_keys(&mut self) -> (r: Vec<Vec<u8>>)
        requires
            old(self).wf(),
        ensures
            final(self).became(
                *old(self),
                super::StoreModel { expired: Seq::empty(), ..old(self)@ },
            ),
            crate::bytes::deep(r@) == old(self)@.expired,
            final(self).kept_all(*old(self)),
    {
        let mut out: Vec<Vec<u8>> = Vec::new();
        core::mem::swap(&mut out, &mut self.expired_keys);
        assert(self@.expired =~= Seq::empty());
        out
    }

    /// Hands out the captured events, in order.
    pub fn take_notify_events(&mut self) -> (r: Vec<(KeyspaceEvent, Vec<u8>)>)
        requires
            old(self).wf(),
        ensures
            final(self).became(
                *old(self),
                super::StoreModel { events: Seq::empty(), ..old(self)@ },
            ),
            super::deep_events(r@) == old(self)@.events,
            final(self).kept_all(*old(self)),
    {
        let mut out: Vec<(KeyspaceEvent, Vec<u8>)> = Vec::new();
        core::mem::swap(&mut out, &mut self.notify_events);
        assert(self@.events =~= Seq::empty());
        out
    }

    /// One draw from the random stream.
    pub fn rand_draw(&mut self) -> (r: u64)
        requires
            old(self).wf(),
        ensures
            final(self).became(*old(self), drawn(old(self)@, 1)),
            final(self).used() == old(self).used(),
            r == crate::rng::mixed(crate::rng::stepped(old(self)@.random)),
            final(self).kept_all(*old(self)),
    {
        proof {
            reveal_with_fuel(crate::rng::stepped_by, 2);
        }
        self.rng.next_u64()
    }

    /// The keys, their deadlines come or not, in walking order.
    pub fn all_keys(&self) -> (r: Vec<Vec<u8>>)
        requires
            self.wf(),
        ensures
            crate::bytes::deep(r@) == self.key_order(),
            self.key_order().no_duplicates(),
            self.key_order().to_set() == self@.slots.dom(),
            self@.slots.dom().finite(),
            r@.len() == self@.slots.dom().len(),
    {
        proof {
            self.lemma_key_order();
        }
        let r = self.map.keys();
        assert(crate::bytes::deep(r@).len() == r@.len());
        r
    }

    /// Drops every key, and with them the row segments. The peak stays, and
    /// so do the versions of watched keys.
    pub fn flushall(&mut self)
        requires
            old(self).wf(),
        ensures
            final(self).became(*old(self), flushed(old(self)@)),
            final(self).used() == 0,
            final(self).use_clock() == old(self).use_clock(),
    {
        self.map = crate::byte_map::ByteMap::new();
        self.hfttl = crate::byte_map::ByteMap::new();
        self.used_memory = 0;
        self.expires = crate::count::Count::zero();
        self.book = crate::cold::ColdBook::empty();
        let next: Option<u32> = match &self.segrows {
            Some(r) => Some(r.next),
            None => None,
        };
        match next {
            Some(next) => {
                let files: Vec<(u32, Vec<u8>)> = Vec::new();
                self.segrows = Some(crate::segrows::SegRows { files, next });
                assert(self@.segs->Some_0.files =~= Seq::empty());
            },
            None => {},
        }
        proof {
            assert(self.map@.dom() =~= Set::empty());
            assert(super::weights_of(self.map@) =~= Map::empty());
            crate::weigh::lemma_total_empty::<Seq<u8>>();
            assert(super::dated_keys(super::slots_of(self.map@)) =~= Set::empty());
            assert(self@.slots =~= Map::empty());
            assert(self@.ttls =~= Map::empty());
        }
    }

    /// [`Store::flushall`] under its short name.
    pub fn flush(&mut self)
        requires
            old(self).wf(),
        ensures
            final(self).became(*old(self), flushed(old(self)@)),
            final(self).used() == 0,
            final(self).use_clock() == old(self).use_clock(),
    {
        self.flushall()
    }
}

/// A keyspace that lost all its keys.
pub open spec fn flushed(s: super::StoreModel) -> super::StoreModel {
    super::StoreModel {
        slots: Map::empty(),
        ttls: Map::empty(),
        segs: match s.segs {
            Some(m) => Some(crate::segrows::SegModel { files: Seq::empty(), next: m.next }),
            None => None,
        },
        ..s
    }
}

/// The version of a key, 0 if it was never watched.
pub open spec fn version_of(s: super::StoreModel, key: Seq<u8>) -> u64 {
    if s.watch.dom().contains(key) {
        s.watch[key]
    } else {
        0
    }
}

/// A keyspace in which a key is watched.
pub open spec fn watched(s: super::StoreModel, key: Seq<u8>) -> super::StoreModel {
    if s.watch.dom().contains(key) {
        s
    } else {
        super::StoreModel { watch: s.watch.insert(key, 0), ..s }
    }
}

/// Versions that all moved on.
pub open spec fn all_versioned(w: Map<Seq<u8>, u64>) -> Map<Seq<u8>, u64> {
    Map::new(|k: Seq<u8>| w.dom().contains(k), |k: Seq<u8>| w[k].wrapping_add(1))
}

/// A keyspace from whose random stream `n` draws were taken.
pub open spec fn drawn(s: super::StoreModel, n: nat) -> super::StoreModel {
    super::StoreModel { random: crate::rng::stepped_by(s.random, n), ..s }
}

/// A write to a key that is watched changes the version that a watcher has
/// recorded, and a write to another key does not.
pub proof fn lemma_watch(s: super::StoreModel, key: Seq<u8>, other: Seq<u8>)
    ensures
        version_of(super::versioned(watched(s, key), key), key) != version_of(s, key),
        other != key ==> version_of(super::versioned(watched(s, key), other), key) == version_of(
            s,
            key,
        ),
        version_of(watched(s, key), key) == version_of(s, key),
{
}

} // verus!
