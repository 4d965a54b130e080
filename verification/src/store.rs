//! The keyspace: keys, their values and deadlines, and what is kept beside
//! them.
use vstd::prelude::*;
use crate::byte_map::ByteMap;
use crate::bytes::copy_bytes;
use crate::cold::{logged_stub, ColdBook, ColdKind, ColdRef};
use crate::count::Count;
use crate::entry::{pack_deadline, weigh, Entry, Slot};
use crate::evict::touch_on_access;
use crate::rng::Rng;
use crate::segrows::{SegModel, SegRows};
use crate::tier::TierState;
use crate::types::{EvictionPolicy, StoreError};
use crate::value::{Value, ENTRY_OVERHEAD};

pub mod admin;
pub mod bits;
pub mod evicting;
pub mod expire;
pub mod hash_ttl;
pub mod hashes;
pub mod keyspace;
pub mod lists;
pub mod peeking;
pub mod scan;
pub mod segmented;
pub mod sets;
pub mod snapshot;
pub mod streams;
pub mod strings;
pub mod tiering;
pub mod walk;
pub mod zsets;

verus! {

/// Something that happened to a key inside the store.
#[derive(Clone, Copy, Debug, PartialEq, Eq, Structural)]
pub enum KeyspaceEvent {
    /// The key was added.
    New,
    /// The key's deadline came and it was dropped.
    Expired,
    /// The key was dropped to make room.
    Evicted,
}

/// Which events are captured.
#[derive(Clone, Copy, Debug, PartialEq, Eq, Structural)]
pub struct Capture {
    /// Keys added.
    pub new_key: bool,
    /// Keys expired.
    pub expired: bool,
    /// Keys evicted.
    pub evicted: bool,
}

/// A keyspace.
pub struct Store {
    map: ByteMap<Entry>,
    rng: Rng,
    hfttl: ByteMap<ByteMap<u64>>,
    clock_ns: u64,
    wall_ms: u64,
    cached_ns: u64,
    cached_clock: bool,
    used_memory: u64,
    used_memory_peak: u64,
    maxmemory: u64,
    eviction_policy: EvictionPolicy,
    evictions_total: u64,
    clock_counter: u64,
    expired_keys_total: u64,
    notify_capture: Capture,
    notify_events: Vec<(KeyspaceEvent, Vec<u8>)>,
    expired_keys: Vec<Vec<u8>>,
    expires: Count,
    watch_versions: ByteMap<u64>,
    tier: Option<TierState>,
    book: ColdBook,
    segrows: Option<SegRows>,
}

/// A keyspace, mathematically.
#[verifier::ext_equal]
pub struct StoreModel {
    /// What each key holds and until when.
    pub slots: Map<Seq<u8>, Slot>,
    /// The deadlines of single fields of hashes, in Unix milliseconds.
    pub ttls: Map<Seq<u8>, Map<Seq<u8>, u64>>,
    /// The versions of the keys that were ever watched.
    pub watch: Map<Seq<u8>, u64>,
    /// The keys that expired and were not yet handed out.
    pub expired: Seq<Seq<u8>>,
    /// How many keys have expired.
    pub expired_total: u64,
    /// The captured events that were not yet handed out.
    pub events: Seq<(KeyspaceEvent, Seq<u8>)>,
    /// Which events are captured.
    pub capture: Capture,
    /// The monotonic clock, in nanoseconds.
    pub now: u64,
    /// What the monotonic clock showed when it was last cached.
    pub cached: u64,
    /// Whether reads go by the cached clock.
    pub use_cached: bool,
    /// The wall clock, in Unix milliseconds.
    pub wall: u64,
    /// The state of the random stream.
    pub random: u64,
    /// The memory limit, 0 for none.
    pub limit: u64,
    /// Which keys go when the limit is passed.
    pub policy: EvictionPolicy,
    /// How many keys were evicted.
    pub evictions: u64,
    /// How values move out of memory, if they do.
    pub tier: Option<TierState>,
    /// The row segments, if there may be any.
    pub segs: Option<SegModel>,
}

/// One more, up to `u64::MAX`.
pub open spec fn bumped(n: u64) -> u64 {
    if n < u64::MAX {
        (n + 1) as u64
    } else {
        u64::MAX
    }
}

/// The time that reads go by.
pub open spec fn read_now(s: StoreModel) -> u64 {
    if s.use_cached {
        s.cached
    } else {
        s.now
    }
}

/// A keyspace from which a key is dropped, with the deadlines of its fields.
pub open spec fn dropped(s: StoreModel, key: Seq<u8>) -> StoreModel {
    StoreModel { slots: s.slots.remove(key), ttls: s.ttls.remove(key), ..s }
}

/// A keyspace that notes that a key expired.
pub open spec fn noted_expired(s: StoreModel, key: Seq<u8>) -> StoreModel {
    StoreModel {
        expired: s.expired.push(key),
        expired_total: bumped(s.expired_total),
        events: if s.capture.expired {
            s.events.push((KeyspaceEvent::Expired, key))
        } else {
            s.events
        },
        ..s
    }
}

/// Whether a key is there and its deadline has come.
pub open spec fn key_due(s: StoreModel, key: Seq<u8>, t: u64) -> bool {
    s.slots.dom().contains(key) && crate::entry::due(s.slots[key].expire, t)
}

/// Whether a key is there and its deadline has not come.
pub open spec fn key_live(s: StoreModel, key: Seq<u8>, t: u64) -> bool {
    s.slots.dom().contains(key) && !crate::entry::due(s.slots[key].expire, t)
}

/// A keyspace from which a key was dropped if its deadline has come.
pub open spec fn reaped(s: StoreModel, key: Seq<u8>, t: u64) -> StoreModel {
    if key_due(s, key, t) {
        noted_expired(dropped(s, key), key)
    } else {
        s
    }
}

/// A keyspace after a key was looked up for a read.
pub open spec fn seen(s: StoreModel, key: Seq<u8>) -> StoreModel {
    reaped(s, key, read_now(s))
}

/// A keyspace in which a key was bound anew.
pub open spec fn put(s: StoreModel, key: Seq<u8>, slot: Slot) -> StoreModel {
    StoreModel {
        slots: s.slots.insert(key, slot),
        ttls: if s.slots.dom().contains(key) {
            s.ttls.remove(key)
        } else {
            s.ttls
        },
        events: if s.capture.new_key && !s.slots.dom().contains(key) {
            s.events.push((KeyspaceEvent::New, key))
        } else {
            s.events
        },
        ..s
    }
}

/// A keyspace in which a key's value was changed in place.
pub open spec fn revalued(s: StoreModel, key: Seq<u8>, v: crate::value::Val) -> StoreModel {
    StoreModel {
        slots: s.slots.insert(key, Slot { value: v, expire: s.slots[key].expire }),
        ..s
    }
}

/// A keyspace in which a key's deadline was changed.
pub open spec fn redated(s: StoreModel, key: Seq<u8>, expire: Option<u64>) -> StoreModel {
    StoreModel {
        slots: s.slots.insert(key, Slot { value: s.slots[key].value, expire }),
        ..s
    }
}

/// A keyspace in which a watched key's version moved on.
pub open spec fn versioned(s: StoreModel, key: Seq<u8>) -> StoreModel {
    if s.watch.dom().contains(key) {
        StoreModel { watch: s.watch.insert(key, s.watch[key].wrapping_add(1)), ..s }
    } else {
        s
    }
}

/// What keys hold and until when.
spec fn slots_of(m: Map<Seq<u8>, Entry>) -> Map<Seq<u8>, Slot> {
    Map::new(|k: Seq<u8>| m.dom().contains(k), |k: Seq<u8>| m[k]@)
}

/// What keys cost.
spec fn weights_of(m: Map<Seq<u8>, Entry>) -> Map<Seq<u8>, nat> {
    Map::new(|k: Seq<u8>| m.dom().contains(k), |k: Seq<u8>| (ENTRY_OVERHEAD + m[k].weight) as nat)
}

/// The keys that have a deadline.
pub open spec fn dated_keys(m: Map<Seq<u8>, Slot>) -> Set<Seq<u8>> {
    Set::new(|k: Seq<u8>| m.dom().contains(k) && m[k].expire is Some)
}

/// The deadlines of fields.
spec fn ttls_of(m: Map<Seq<u8>, ByteMap<u64>>) -> Map<Seq<u8>, Map<Seq<u8>, u64>> {
    Map::new(|k: Seq<u8>| m.dom().contains(k), |k: Seq<u8>| m[k]@)
}

/// The events as byte strings.
pub open spec fn deep_events(v: Seq<(KeyspaceEvent, Vec<u8>)>) -> Seq<(KeyspaceEvent, Seq<u8>)> {
    Seq::new(v.len(), |i: int| (v[i].0, v[i].1@))
}

spec fn entries_ok(m: Map<Seq<u8>, Entry>) -> bool {
    forall|k: Seq<u8>| #[trigger] m.dom().contains(k) ==> m[k].wf(k)
}

spec fn ttls_ok(m: Map<Seq<u8>, ByteMap<u64>>) -> bool {
    forall|k: Seq<u8>| #[trigger]
        m.dom().contains(k) ==> m[k].wf() && m[k]@ != Map::<Seq<u8>, u64>::empty()
}

impl View for Store {
    type V = StoreModel;

    closed spec fn view(&self) -> StoreModel {
        StoreModel {
            slots: slots_of(self.map@),
            ttls: ttls_of(self.hfttl@),
            watch: self.watch_versions@,
            expired: crate::bytes::deep(self.expired_keys@),
            expired_total: self.expired_keys_total,
            events: deep_events(self.notify_events@),
            capture: self.notify_capture,
            now: self.clock_ns,
            cached: self.cached_ns,
            use_cached: self.cached_clock,
            wall: self.wall_ms,
            random: self.rng.state(),
            limit: self.maxmemory,
            policy: self.eviction_policy,
            evictions: self.evictions_total,
            tier: self.tier,
            segs: match self.segrows {
                Some(r) => Some(r@),
                None => None,
            },
        }
    }
}

proof fn lemma_map_insert(m: Map<Seq<u8>, Entry>, k: Seq<u8>, e: Entry)
    requires
        m.dom().finite(),
        entries_ok(m),
        e.wf(k),
    ensures
        entries_ok(m.insert(k, e)),
        slots_of(m.insert(k, e)) == slots_of(m).insert(k, e@),
        slots_of(m).dom() == m.dom(),
        weights_of(m).dom() == m.dom(),
        crate::weigh::total(weights_of(m.insert(k, e))) == crate::weigh::total(
            weights_of(m.remove(k)),
        ) + ENTRY_OVERHEAD + e.weight,
        m.dom().contains(k) ==> crate::weigh::total(weights_of(m)) == crate::weigh::total(
            weights_of(m.remove(k)),
        ) + ENTRY_OVERHEAD + m[k].weight,
        !m.dom().contains(k) ==> crate::weigh::total(weights_of(m)) == crate::weigh::total(
            weights_of(m.remove(k)),
        ),
        dated_keys(slots_of(m)).finite(),
        dated_keys(slots_of(m.insert(k, e))) == (if e.expire_at_ns is Some {
            dated_keys(slots_of(m)).insert(k)
        } else {
            dated_keys(slots_of(m)).remove(k)
        }),
{
    let w = weights_of(m);
    let n = (ENTRY_OVERHEAD + e.weight) as nat;
    assert(w.dom() =~= m.dom());
    assert(weights_of(m.insert(k, e)) =~= w.insert(k, n));
    assert(weights_of(m.remove(k)) =~= w.remove(k));
    crate::weigh::lemma_total_insert(w, k, n);
    assert(slots_of(m.insert(k, e)) =~= slots_of(m).insert(k, e@));
    assert(slots_of(m).dom() =~= m.dom());
    vstd::set_lib::lemma_len_subset(dated_keys(slots_of(m)), m.dom());
    if e.expire_at_ns is Some {
        assert(dated_keys(slots_of(m.insert(k, e))) =~= dated_keys(slots_of(m)).insert(k));
    } else {
        assert(dated_keys(slots_of(m.insert(k, e))) =~= dated_keys(slots_of(m)).remove(k));
    }
}

proof fn lemma_map_remove(m: Map<Seq<u8>, Entry>, k: Seq<u8>)
    requires
        m.dom().finite(),
        entries_ok(m),
    ensures
        entries_ok(m.remove(k)),
        slots_of(m.remove(k)) == slots_of(m).remove(k),
        slots_of(m).dom() == m.dom(),
        m.dom().contains(k) ==> crate::weigh::total(weights_of(m)) == crate::weigh::total(
            weights_of(m.remove(k)),
        ) + ENTRY_OVERHEAD + m[k].weight,
        dated_keys(slots_of(m)).finite(),
        dated_keys(slots_of(m.remove(k))) == dated_keys(slots_of(m)).remove(k),
{
    let w = weights_of(m);
    assert(w.dom() =~= m.dom());
    assert(weights_of(m.remove(k)) =~= w.remove(k));
    if m.dom().contains(k) {
        crate::weigh::lemma_total_remove(w, k);
    }
    assert(slots_of(m.remove(k)) =~= slots_of(m).remove(k));
    assert(slots_of(m).dom() =~= m.dom());
    vstd::set_lib::lemma_len_subset(dated_keys(slots_of(m)), m.dom());
    assert(dated_keys(slots_of(m.remove(k))) =~= dated_keys(slots_of(m)).remove(k));
}

impl Store {
    spec fn tables_ok(&self) -> bool {
        &&& self.map.wf()
        &&& self.map@.dom().finite()
        &&& entries_ok(self.map@)
        &&& self.hfttl.wf()
        &&& ttls_ok(self.hfttl@)
        &&& self.watch_versions.wf()
    }

    /// The tables are well-formed, every entry's weight is that of its key
    /// and value, the memory in use is the sum of the weights, the number of
    /// keys with a deadline is right, and the sums over the stubs are right.
    pub closed spec fn sound(&self) -> bool {
        &&& self.tables_ok()
        &&& self.used_memory == crate::list_data::capped(
            crate::weigh::total(weights_of(self.map@)),
        )
        &&& self.expires@ == dated_keys(slots_of(self.map@)).len()
        &&& self.book.counts(slots_of(self.map@))
    }

    /// The parts agree, and the peak is no lower than what is in use.
    pub open spec fn wf(&self) -> bool {
        &&& self.sound()
        &&& self.used() <= self.peak()
    }

    /// What each key costs, with the flat rate.
    pub closed spec fn weights(&self) -> Map<Seq<u8>, nat> {
        weights_of(self.map@)
    }

    /// The memory in use.
    pub closed spec fn used(&self) -> u64 {
        self.used_memory
    }

    /// The most memory that was ever in use.
    pub closed spec fn peak(&self) -> u64 {
        self.used_memory_peak
    }

    /// The value of a key, in its encoding.
    pub closed spec fn held(&self, key: Seq<u8>) -> Value {
        self.map@[key].value
    }

    /// When, or how often, a key was used.
    pub closed spec fn mark(&self, key: Seq<u8>) -> u32 {
        self.map@[key].lru_clock
    }

    /// The use clock.
    pub closed spec fn use_clock(&self) -> u64 {
        self.clock_counter
    }

    /// The keys in the order in which a walk meets them.
    pub closed spec fn key_order(&self) -> Seq<Seq<u8>> {
        self.map.key_order()
    }

    /// The keys of each bucket in the order in which a walk meets them.
    pub closed spec fn rows(&self) -> Seq<Seq<Seq<u8>>> {
        self.map.rows()
    }

    /// Whether this is what a store that was `before` becomes when its
    /// keyspace becomes `m`: well-formed, and with a new peak if more memory
    /// is in use than ever.
    pub open spec fn became(&self, before: Store, m: StoreModel) -> bool {
        &&& self.wf()
        &&& self@ == m
        &&& self.peak() == greater(before.peak(), self.used())
    }

    /// Whether all keys but one hold what they held, in the same encoding,
    /// and are marked as they were.
    pub open spec fn kept_others(&self, before: Store, key: Seq<u8>) -> bool {
        forall|k: Seq<u8>|
            #![trigger self.held(k)]
            #![trigger self.mark(k)]
            k != key ==> self.held(k) == before.held(k) && self.mark(k) == before.mark(k)
    }

    /// Whether this is how one use of a key leaves the use clock and the
    /// key's mark: if there was such a key, its use is marked; if it is new,
    /// it is marked as used now.
    pub open spec fn used_at(&self, before: Store, key: Seq<u8>) -> bool {
        self.used_when(before, before@, key)
    }

    /// As [`Store::used_at`], where it is `m` that says whether there was
    /// such a key.
    pub open spec fn used_when(&self, before: Store, m: StoreModel, key: Seq<u8>) -> bool {
        let there = self@.slots.dom().contains(key);
        if key_live(m, key, read_now(m)) {
            &&& self.use_clock() == clock_after(before)
            &&& there ==> self.mark(key) == mark_after(before, key)
        } else if there {
            &&& self.use_clock() == clock_after(before)
            &&& self.mark(key) == first_mark(before)
        } else {
            self.use_clock() == before.use_clock()
        }
    }

    /// Whether a key was bound anew, without a lookup: it is marked as used
    /// now.
    pub open spec fn bound_at(&self, before: Store, key: Seq<u8>) -> bool {
        &&& self.use_clock() == clock_after(before)
        &&& self.mark(key) == first_mark(before)
    }

    /// Whether a key was not used: the use clock stands still and, if the key
    /// is still there, it is marked as it was.
    pub open spec fn unused_at(&self, before: Store, key: Seq<u8>) -> bool {
        &&& self.use_clock() == before.use_clock()
        &&& self@.slots.dom().contains(key) ==> self.mark(key) == before.mark(key)
    }

    /// Whether a key that was looked up first was bound anew: each of the
    /// lookups was a use if there was such a key, and the key is marked as
    /// used now.
    pub open spec fn stored_at(&self, before: Store, key: Seq<u8>, lookups: nat) -> bool {
        let uses = if key_live(before@, key, read_now(before@)) {
            lookups + 1
        } else {
            1
        };
        &&& self.use_clock() == clock_at(before@, before.use_clock(), uses)
        &&& self.mark(key) == (if clocked(before@) {
            low_half(self.use_clock())
        } else {
            0
        })
    }

    /// Whether this is how a command that looks a key up several times leaves
    /// the use clock and the key's mark: `hot` uses if there was such a key
    /// by `m`, `more` uses behind the first if it is new.
    pub open spec fn used_times(
        &self,
        before: Store,
        m: StoreModel,
        key: Seq<u8>,
        hot: nat,
        more: nat,
    ) -> bool {
        let there = self@.slots.dom().contains(key);
        if key_live(m, key, read_now(m)) {
            &&& self.use_clock() == clock_at(before@, before.use_clock(), hot)
            &&& there ==> self.mark(key) == mark_at(
                before@,
                before.mark(key),
                before.use_clock(),
                hot,
            )
        } else if there {
            &&& self.use_clock() == clock_at(before@, clock_after(before), more)
            &&& self.mark(key) == mark_at(
                before@,
                first_mark(before),
                clock_after(before),
                more,
            )
        } else {
            self.use_clock() == before.use_clock()
        }
    }

    /// Whether what a key holds is cut in parts exactly if it was before.
    pub open spec fn kept_form(&self, before: Store, key: Seq<u8>) -> bool {
        self@.slots.dom().contains(key) ==> self.held(key).in_parts() == before.held(key).in_parts()
    }

    /// Whether every key stands where it stood, holds what it held, in the
    /// same encoding, and is marked as it was, and the use clock shows what
    /// it showed.
    pub open spec fn kept_all(&self, before: Store) -> bool {
        &&& self.rows() == before.rows()
        &&& self.use_clock() == before.use_clock()
        &&& forall|k: Seq<u8>|
            #![trigger self.held(k)]
            #![trigger self.mark(k)]
            self.held(k) == before.held(k) && self.mark(k) == before.mark(k)
    }

    /// Whether the store came from `before` by steps, each of which touched
    /// one key and led to one keyspace, so that the peak is the most memory
    /// that was in use after any of them.
    pub open spec fn came_by(&self, before: Store, steps: Seq<(Seq<u8>, StoreModel)>) -> bool {
        exists|states: Seq<Store>| #[trigger]
            stepped(states, steps) && states.first() == before && states.last() == *self
    }

    /// No step.
    pub proof fn lemma_no_step(&self)
        ensures
            self.came_by(*self, Seq::empty()),
    {
        assert(stepped(seq![*self], Seq::empty()));
    }

    /// One more step.
    pub proof fn lemma_step(
        &self,
        mid: Store,
        before: Store,
        steps: Seq<(Seq<u8>, StoreModel)>,
        key: Seq<u8>,
        m: StoreModel,
    )
        requires
            mid.came_by(before, steps),
            self.became(mid, m),
            self.kept_others(mid, key),
        ensures
            self.came_by(before, steps.push((key, m))),
    {
        let states = choose|states: Seq<Store>| #[trigger]
            stepped(states, steps) && states.first() == before && states.last() == mid;
        let more = steps.push((key, m));
        let next = states.push(*self);
        assert forall|i: int| #![trigger more[i]] 0 <= i < more.len() implies next[i + 1].became(
            next[i],
            more[i].1,
        ) && next[i + 1].kept_others(next[i], more[i].0) by {
            assert(next[i] == states[i]);
            if i < steps.len() {
                assert(next[i + 1] == states[i + 1]);
                assert(more[i] == steps[i]);
            }
        }
        assert(stepped(next, more));
    }

    /// The memory in use is the sum of what the keys cost: a flat rate, the
    /// heap bytes of the key and those of its value, the last two held to
    /// what a weight can tell.
    pub proof fn lemma_accounting(&self)
        requires
            self.wf(),
        ensures
            self.used() == crate::list_data::capped(crate::weigh::total(self.weights())),
            self.weights().dom() == self@.slots.dom(),
            self@.slots.dom().finite(),
            self.used() <= self.peak(),
            forall|k: Seq<u8>| #[trigger]
                self@.slots.dom().contains(k) ==> self.weights()[k] == ENTRY_OVERHEAD
                    + crate::entry::weight_spec(k.len(), self.held(k)) && self.held(k).wf()
                    && self.held(k)@ == self@.slots[k].value && self@.slots[k].expire != Some(0u64),
    {
        assert(self.weights().dom() =~= self.map@.dom());
        assert(self@.slots.dom() =~= self.map@.dom());
        assert forall|k: Seq<u8>| #[trigger] self@.slots.dom().contains(k) implies self.weights()[k]
            == ENTRY_OVERHEAD + crate::entry::weight_spec(k.len(), self.held(k)) && self.held(
            k,
        ).wf() && self.held(k)@ == self@.slots[k].value && self@.slots[k].expire != Some(0u64) by {
            assert(self.map@.dom().contains(k));
            assert(self.map@[k].wf(k));
        }
    }

    /// How much memory is in use depends on what the keys hold and on
    /// nothing else: once a key that was added is gone again, the memory that
    /// it took is back.
    pub proof fn lemma_memory_back(&self, later: Store)
        requires
            self.wf(),
            later.wf(),
            self@.slots.dom() == later@.slots.dom(),
            forall|k: Seq<u8>| #[trigger]
                self@.slots.dom().contains(k) ==> later.held(k) == self.held(k),
        ensures
            later.used() == self.used(),
    {
        self.lemma_accounting();
        later.lemma_accounting();
        assert(self.weights() =~= later.weights());
    }

    /// A walk meets every key exactly once.
    pub proof fn lemma_key_order(&self)
        requires
            self.wf(),
        ensures
            self.key_order().no_duplicates(),
            self.key_order().to_set() == self@.slots.dom(),
            self.key_order().len() == self@.slots.dom().len(),
            self@.slots.dom().finite(),
    {
        self.map.lemma_key_order();
        assert(self@.slots.dom() =~= self.map@.dom());
    }

    /// An empty keyspace whose random stream starts at `seed`.
    pub fn with_seed(seed: u64) -> (r: Store)
        ensures
            r.wf(),
            r@ == empty_store(seed),
            r.used() == 0,
            r.peak() == 0,
    {
        let r = Store {
            map: ByteMap::new(),
            rng: Rng::new(seed),
            hfttl: ByteMap::new(),
            clock_ns: 0,
            wall_ms: 0,
            cached_ns: 0,
            cached_clock: false,
            used_memory: 0,
            used_memory_peak: 0,
            maxmemory: 0,
            eviction_policy: EvictionPolicy::NoEviction,
            evictions_total: 0,
            clock_counter: 0,
            expired_keys_total: 0,
            notify_capture: Capture { new_key: false, expired: false, evicted: false },
            notify_events: Vec::new(),
            expired_keys: Vec::new(),
            expires: Count::zero(),
            watch_versions: ByteMap::new(),
            tier: None,
            book: ColdBook::empty(),
            segrows: None,
        };
        proof {
            assert(r.map@.dom() =~= Set::empty());
            assert(weights_of(r.map@) =~= Map::empty());
            crate::weigh::lemma_total_empty::<Seq<u8>>();
            assert(dated_keys(slots_of(r.map@)) =~= Set::empty());
            assert(r@.slots =~= Map::empty());
            assert(r@.ttls =~= Map::empty());
            assert(r@.expired =~= Seq::empty());
            assert(r@.events =~= Seq::empty());
        }
        r
    }

    /// An empty keyspace.
    pub fn new() -> (r: Store)
        ensures
            r.wf(),
            r@ == empty_store(0),
            r.used() == 0,
            r.peak() == 0,
    {
        Store::with_seed(0)
    }

    /// Takes `gone` bytes off the memory in use and puts `come` on it. Where
    /// it could not be told exactly, it is counted anew.
    fn settle(&mut self, gone: u64, come: u64, Ghost(before): Ghost<nat>)
        requires
            old(self).tables_ok(),
            old(self).used_memory <= old(self).used_memory_peak,
            old(self).used_memory == crate::list_data::capped(before),
            gone <= before,
            crate::weigh::total(weights_of(old(self).map@)) + gone == before + come,
        ensures
            final(self).used_memory == crate::list_data::capped(
                crate::weigh::total(weights_of(final(self).map@)),
            ),
            final(self).used_memory_peak == greater(
                old(self).used_memory_peak,
                final(self).used_memory,
            ),
            final(self)@ == old(self)@,
            final(self).map == old(self).map,
            final(self).hfttl == old(self).hfttl,
            final(self).watch_versions == old(self).watch_versions,
            final(self).expires == old(self).expires,
            final(self).clock_counter == old(self).clock_counter,
            final(self).book == old(self).book,
    {
        if self.used_memory < u64::MAX {
            self.used_memory = (self.used_memory - gone).saturating_add(come);
        } else {
            self.used_memory = self.recount();
        }
        if self.used_memory > self.used_memory_peak {
            self.used_memory_peak = self.used_memory;
        }
    }

    /// What all keys cost together, at most `u64::MAX`.
    fn recount(&self) -> (r: u64)
        requires
            self.tables_ok(),
        ensures
            r == crate::list_data::capped(crate::weigh::total(weights_of(self.map@))),
    {
        let names = self.map.keys();
        let ghost q = self.map.key_order();
        let ghost costs = weights_of(self.map@);
        proof {
            self.map.lemma_key_order();
            assert(costs.dom() =~= self.map@.dom());
            crate::weigh::lemma_sum_of(costs, q);
            assert(q.take(0) =~= Seq::empty());
        }
        let mut sum: u64 = 0;
        let mut i: usize = 0;
        while i < names.len()
            invariant
                self.tables_ok(),
                q == self.map.key_order(),
                crate::bytes::deep(names@) == q,
                q.to_set() == self.map@.dom(),
                costs == weights_of(self.map@),
                i <= names@.len(),
                sum == crate::list_data::capped(crate::weigh::sum_of(costs, q.take(i as int))),
            decreases names@.len() - i,
        {
            proof {
                assert(q[i as int] == names@[i as int]@);
                assert(q.to_set().contains(q[i as int]));
                assert(q.take(i + 1).drop_last() =~= q.take(i as int));
                assert(q.take(i + 1).last() == q[i as int]);
            }
            match self.map.get(names[i].as_slice()) {
                Some(e) => {
                    sum = sum.saturating_add(ENTRY_OVERHEAD + e.weight as u64);
                },
                None => {
                    assert(false);
                },
            }
            i = i + 1;
        }
        proof {
            assert(q.len() == names@.len());
            assert(q.take(q.len() as int) =~= q);
        }
        sum
    }

    /// Whether the use clock runs: keys are evicted or values move out of
    /// memory.
    pub fn clock_on(&self) -> (r: bool)
        ensures
            r == clocked(self@),
    {
        self.maxmemory > 0 || self.tier.is_some()
    }

    /// The policy by which uses are marked.
    pub fn touch_policy(&self) -> (r: EvictionPolicy)
        ensures
            r == marking(self@),
    {
        if self.maxmemory > 0 {
            return self.eviction_policy;
        }
        match &self.tier {
            Some(t) => t.policy,
            None => self.eviction_policy,
        }
    }

    /// Sets which row segments are known.
    fn set_segrows(&mut self, r: Option<SegRows>)
        requires
            old(self).wf(),
        ensures
            final(self).became(
                *old(self),
                (StoreModel {
                    segs: match r {
                        Some(r) => Some(r@),
                        None => None,
                    },
                    ..old(self)@
                }),
            ),
            final(self).used() == old(self).used(),
            final(self).kept_all(*old(self)),
    {
        self.segrows = r;
    }

    /// Puts a stub under a key, without a deadline and without telling
    /// anybody.
    fn place_stub(&mut self, key: &[u8], stub: ColdRef)
        requires
            old(self).wf(),
        ensures
            final(self).became(
                *old(self),
                (StoreModel {
                    slots: old(self)@.slots.insert(
                        key@,
                        Slot { value: crate::value::Val::Cold(stub), expire: None },
                    ),
                    ttls: if old(self)@.slots.dom().contains(key@) {
                        old(self)@.ttls.remove(key@)
                    } else {
                        old(self)@.ttls
                    },
                    ..old(self)@
                }),
            ),
            final(self).kept_others(*old(self), key@),
    {
        let capture = self.notify_capture;
        self.notify_capture = Capture { new_key: false, ..capture };
        let ghost before = *self;
        self.insert_entry(key, Value::Cold(stub), None);
        let ghost after = *self;
        self.notify_capture = capture;
        proof {
            assert forall|k: Seq<u8>|
                #![trigger self.held(k)]
                #![trigger self.mark(k)]
                k != key@ implies self.held(k) == old(self).held(k) && self.mark(k) == old(
                self,
            ).mark(k) by {
                assert(after.held(k) == before.held(k));
            }
        }
    }

    /// Sets how values move out of memory.
    fn set_tier(&mut self, tier: Option<TierState>)
        requires
            old(self).wf(),
        ensures
            final(self).became(*old(self), (StoreModel { tier, ..old(self)@ })),
            final(self).weights() == old(self).weights(),
            final(self).used() == old(self).used(),
            final(self).use_clock() == old(self).use_clock(),
            final(self).kept_all(*old(self)),
    {
        self.tier = tier;
    }

    /// Moves the use clock on.
    fn tick_clock(&mut self)
        ensures
            final(self)@ == old(self)@,
            final(self).wf() == old(self).wf(),
            final(self).peak() == old(self).peak(),
            final(self).used() == old(self).used(),
            final(self).map == old(self).map,
            final(self).use_clock() == old(self).use_clock().wrapping_add(1),
    {
        self.clock_counter = self.clock_counter.wrapping_add(1);
    }

    /// Binds a key and hands back the value that it had.
    pub fn insert_entry(&mut self, key: &[u8], value: Value, deadline: Option<u64>) -> (r: Option<
        Value,
    >)
        requires
            old(self).wf(),
            value.wf(),
        ensures
            final(self).became(
                *old(self),
                put(
                    old(self)@,
                    key@,
                    Slot { value: value@, expire: crate::entry::packed(deadline) },
                ),
            ),
            match r {
                Some(v) => old(self)@.slots.dom().contains(key@) && v.wf() && v
                    == old(self).held(key@),
                None => !old(self)@.slots.dom().contains(key@),
            },
            final(self).held(key@) == value,
            final(self).kept_others(*old(self), key@),
            final(self).use_clock() == clock_after(*old(self)),
            final(self).mark(key@) == first_mark(*old(self)),
    {
        let ghost before = *self;
        let ghost m = self.map@;
        let is: Option<ColdRef> = logged_stub(&value);
        let mut entry = Entry::new(key, value, deadline);
        if self.clock_on() {
            self.tick_clock();
            entry.lru_clock = (self.clock_counter % 0x1_0000_0000u64) as u32;
        }
        let dated: bool = entry.expire_at_ns.is_some();
        let w: u64 = ENTRY_OVERHEAD + entry.weight as u64;
        let ghost e1 = entry;
        let ghost slot = Slot { value: value@, expire: crate::entry::packed(deadline) };
        proof {
            lemma_map_insert(m, key@, e1);
            assert(e1@ == slot);
        }
        let prev = self.map.insert(copy_bytes(key), entry);
        let ghost sm = slots_of(m);
        let ghost sn = slots_of(m.insert(key@, e1));
        proof {
            assert(sm.remove(key@) =~= sn.remove(key@));
        }
        match prev {
            None => {
                self.book.turn(key, None, is, Ghost(sm), Ghost(sn));
                if dated {
                    self.expires.up();
                }
                if self.notify_capture.new_key {
                    let ghost ev = deep_events(self.notify_events@);
                    self.notify_events.push((KeyspaceEvent::New, copy_bytes(key)));
                    assert(deep_events(self.notify_events@) =~= ev.push(
                        (KeyspaceEvent::New, key@),
                    ));
                }
                self.settle(0, w, Ghost(crate::weigh::total(weights_of(m))));
                proof {
                    assert(dated_keys(slots_of(m)).remove(key@) =~= dated_keys(slots_of(m)));
                    assert(!dated_keys(slots_of(m)).contains(key@));
                }
                None
            },
            Some(old_entry) => {
                let had: bool = old_entry.expire_at_ns.is_some();
                assert(m[key@] == old_entry);
                assert(m[key@].wf(key@));
                proof {
                    let d = dated_keys(slots_of(m));
                    if had {
                        assert(d.contains(key@));
                        assert(d.insert(key@) =~= d);
                    } else {
                        assert(!d.contains(key@));
                        assert(d.remove(key@) =~= d);
                    }
                }
                if dated && !had {
                    self.expires.up();
                } else if had && !dated {
                    self.expires.down();
                }
                let was: Option<ColdRef> = logged_stub(&old_entry.value);
                self.book.turn(key, was, is, Ghost(sm), Ghost(sn));
                let gone: u64 = ENTRY_OVERHEAD + old_entry.weight as u64;
                self.settle(gone, w, Ghost(crate::weigh::total(weights_of(m))));
                self.clear_hash_key_ttls(key);
                Some(old_entry.value)
            },
        }
    }

    /// Forgets the deadlines of a key's fields.
    pub fn clear_hash_key_ttls(&mut self, key: &[u8])
        requires
            old(self).wf(),
        ensures
            final(self).became(
                *old(self),
                StoreModel { ttls: old(self)@.ttls.remove(key@), ..old(self)@ },
            ),
            final(self).weights() == old(self).weights(),
            final(self).used() == old(self).used(),
            final(self).kept_all(*old(self)),
            final(self).use_clock() == old(self).use_clock(),
    {
        let ghost before = self@;
        self.hfttl.remove(key);
        assert(self@.ttls =~= before.ttls.remove(key@));
    }

    /// Drops a key, with the deadlines of its fields, and hands back the
    /// value that it had.
    pub fn remove_entry(&mut self, key: &[u8]) -> (r: Option<Value>)
        requires
            old(self).wf(),
        ensures
            final(self).became(*old(self), dropped(old(self)@, key@)),
            match r {
                Some(v) => old(self)@.slots.dom().contains(key@) && v.wf() && v
                    == old(self).held(key@),
                None => !old(self)@.slots.dom().contains(key@),
            },
            final(self).weights() == old(self).weights().remove(key@),
            final(self).used() <= old(self).used(),
            final(self).rows() == crate::byte_map::pruned(old(self).rows(), key@),
            final(self).kept_others(*old(self), key@),
            final(self).use_clock() == old(self).use_clock(),
    {
        let ghost before = *self;
        let ghost m = self.map@;
        proof {
            lemma_map_remove(m, key@);
            assert(weights_of(m.remove(key@)) =~= weights_of(m).remove(key@));
        }
        match self.map.remove(key) {
            None => {
                proof {
                    assert(m.remove(key@) =~= m);
                    assert(self@ =~= before@);
                    assert(before@.slots.remove(key@) =~= before@.slots);
                }
                self.clear_hash_key_ttls(key);
                None
            },
            Some(e) => {
                assert(m[key@].wf(key@));
                let gone: u64 = ENTRY_OVERHEAD + e.weight as u64;
                let was: Option<ColdRef> = logged_stub(&e.value);
                proof {
                    assert(slots_of(m).remove(key@).remove(key@) =~= slots_of(m).remove(key@));
                }
                self.book.turn(
                    key,
                    was,
                    None,
                    Ghost(slots_of(m)),
                    Ghost(slots_of(m).remove(key@)),
                );
                if e.expire_at_ns.is_some() {
                    assert(dated_keys(slots_of(m)).contains(key@));
                    self.expires.down();
                } else {
                    assert(dated_keys(slots_of(m)).remove(key@) =~= dated_keys(slots_of(m)));
                }
                self.settle(gone, 0, Ghost(crate::weigh::total(weights_of(m))));
                self.clear_hash_key_ttls(key);
                Some(e.value)
            },
        }
    }

    /// Notes that a key expired.
    fn note_expired(&mut self, key: &[u8])
        requires
            old(self).wf(),
        ensures
            final(self).became(*old(self), noted_expired(old(self)@, key@)),
            final(self).used() == old(self).used(),
            final(self).kept_all(*old(self)),
    {
        let ghost before = self@;
        self.expired_keys.push(copy_bytes(key));
        self.expired_keys_total = self.expired_keys_total.saturating_add(1);
        assert(crate::bytes::deep(self.expired_keys@) =~= before.expired.push(key@));
        if self.notify_capture.expired {
            self.notify_events.push((KeyspaceEvent::Expired, copy_bytes(key)));
            assert(deep_events(self.notify_events@) =~= before.events.push(
                (KeyspaceEvent::Expired, key@),
            ));
        }
    }

    /// Notes that a key was evicted.
    pub fn note_evicted(&mut self, key: &[u8])
        requires
            old(self).wf(),
        ensures
            final(self).became(*old(self), noted_evicted(old(self)@, key@)),
            final(self).weights() == old(self).weights(),
            final(self).used() == old(self).used(),
            final(self).kept_all(*old(self)),
    {
        let ghost before = self@;
        self.evictions_total = self.evictions_total.saturating_add(1);
        if self.notify_capture.evicted {
            self.notify_events.push((KeyspaceEvent::Evicted, copy_bytes(key)));
            assert(deep_events(self.notify_events@) =~= before.events.push(
                (KeyspaceEvent::Evicted, key@),
            ));
        }
    }

    /// Whether a key is there, its deadline come or not.
    pub fn has(&self, key: &[u8]) -> (r: bool)
        requires
            self.wf(),
        ensures
            r == self@.slots.dom().contains(key@),
    {
        self.map.contains_key(key)
    }

    /// The value of a key, its deadline come or not.
    pub fn value_ref(&self, key: &[u8]) -> (r: Option<&Value>)
        requires
            self.wf(),
        ensures
            match r {
                Some(v) => self@.slots.dom().contains(key@) && *v == self.held(key@) && v.wf()
                    && v@ == self@.slots[key@].value,
                None => !self@.slots.dom().contains(key@),
            },
    {
        match self.map.get(key) {
            Some(e) => {
                assert(self.map@.dom().contains(key@));
                Some(&e.value)
            },
            None => None,
        }
    }

    /// Why a key's value is refused where another kind of value is wanted.
    fn refusal(&self, key: &[u8], want: ColdKind) -> (r: StoreError)
        requires
            self.wf(),
            self@.slots.dom().contains(key@),
        ensures
            r == refused(self@.slots[key@].value, want),
    {
        match self.value_ref(key) {
            Some(Value::Cold(c)) => if c.kind == want {
                StoreError::NotInMemory
            } else {
                StoreError::WrongType
            },
            _ => StoreError::WrongType,
        }
    }

    /// The deadline of a key; the outer `None` if there is no such key.
    pub fn deadline_of(&self, key: &[u8]) -> (r: Option<Option<u64>>)
        requires
            self.wf(),
        ensures
            match r {
                Some(d) => self@.slots.dom().contains(key@) && d == self@.slots[key@].expire && d
                    != Some(0u64),
                None => !self@.slots.dom().contains(key@),
            },
    {
        match self.map.get(key) {
            Some(e) => {
                assert(self.map@.dom().contains(key@));
                Some(e.expire_at_ns)
            },
            None => None,
        }
    }

    /// When, or how often, a key was used.
    fn mark_of(&self, key: &[u8]) -> (r: Option<u32>)
        requires
            self.wf(),
        ensures
            r == (if self@.slots.dom().contains(key@) {
                Some(self.mark(key@))
            } else {
                None
            }),
    {
        match self.map.get(key) {
            Some(e) => Some(e.lru_clock),
            None => None,
        }
    }

    /// Whether the key is there and its deadline has come by `now`.
    pub fn expired(&self, key: &[u8], now: u64) -> (r: bool)
        requires
            self.wf(),
        ensures
            r == key_due(self@, key@, now),
    {
        match self.map.get(key) {
            Some(e) => e.is_expired_at(now),
            None => false,
        }
    }

    /// Drops a key if its deadline has come by `now`; says whether it is
    /// there afterwards.
    pub fn reap(&mut self, key: &[u8], now: u64) -> (r: bool)
        requires
            old(self).wf(),
        ensures
            final(self).became(*old(self), reaped(old(self)@, key@, now)),
            final(self).used() <= old(self).used(),
            r == key_live(old(self)@, key@, now),
            r == final(self)@.slots.dom().contains(key@),
            r ==> *final(self) == *old(self),
            final(self).use_clock() == old(self).use_clock(),
            !r ==> final(self).rows() == crate::byte_map::pruned(old(self).rows(), key@),
            final(self).kept_others(*old(self), key@),
    {
        if self.expired(key, now) {
            self.remove_entry(key);
            self.note_expired(key);
            false
        } else {
            proof {
                self.map.lemma_pruned_absent(key@);
            }
            self.has(key)
        }
    }

    /// The time that reads go by.
    pub fn read_clock(&self) -> (r: u64)
        ensures
            r == read_now(self@),
    {
        if self.cached_clock {
            self.cached_ns
        } else {
            self.clock_ns
        }
    }

    /// The monotonic clock.
    pub fn now_ns(&self) -> (r: u64)
        ensures
            r == self@.now,
    {
        self.clock_ns
    }

    /// The wall clock, in Unix milliseconds.
    pub fn now_unix_ms(&self) -> (r: u64)
        ensures
            r == self@.wall,
    {
        self.wall_ms
    }

    /// Looks a key up for a read: drops it if its deadline has come, else
    /// marks it as used. Says whether it is there.
    pub fn live(&mut self, key: &[u8]) -> (r: bool)
        requires
            old(self).wf(),
        ensures
            final(self).became(*old(self), seen(old(self)@, key@)),
            final(self).used() <= old(self).used(),
            r == key_live(old(self)@, key@, read_now(old(self)@)),
            r == final(self)@.slots.dom().contains(key@),
            r ==> final(self).held(key@) == old(self).held(key@),
            final(self).use_clock() == (if r {
                clock_after(*old(self))
            } else {
                old(self).use_clock()
            }),
            final(self).rows() == (if r {
                old(self).rows()
            } else {
                crate::byte_map::pruned(old(self).rows(), key@)
            }),
            r ==> final(self).mark(key@) == mark_after(*old(self), key@),
            final(self).used_at(*old(self), key@),
            final(self).kept_others(*old(self), key@),
    {
        let now: u64 = self.read_clock();
        if !self.reap(key, now) {
            return false;
        }
        if self.clock_on() {
            self.tick_clock();
            let clock: u32 = (self.clock_counter % 0x1_0000_0000u64) as u32;
            let policy: EvictionPolicy = self.touch_policy();
            let ghost before = *self;
            let ghost m = self.map@;
            match self.map.get_mut(key) {
                Some(e) => {
                    let ghost e0 = *e;
                    e.lru_clock = touch_on_access(e.lru_clock, policy, clock);
                    proof {
                        assert(e0.wf(key@));
                        lemma_map_insert(m, key@, *e);
                        lemma_map_insert(m, key@, e0);
                        assert(m.insert(key@, e0) =~= m);
                        assert(slots_of(m).insert(key@, e0@) =~= slots_of(m));
                    }
                },
                None => {},
            }
        }
        true
    }

    /// Looks a key up without a use: drops it if its deadline has come. Says
    /// whether it is there.
    pub fn find(&mut self, key: &[u8]) -> (r: bool)
        requires
            old(self).wf(),
        ensures
            final(self).became(*old(self), seen(old(self)@, key@)),
            final(self).used() <= old(self).used(),
            r == key_live(old(self)@, key@, read_now(old(self)@)),
            r == final(self)@.slots.dom().contains(key@),
            r ==> *final(self) == *old(self),
            final(self).kept_others(*old(self), key@),
            final(self).unused_at(*old(self), key@),
    {
        let now: u64 = self.read_clock();
        self.reap(key, now)
    }

    /// Marks a live key as used `n` times.
    pub fn use_times(&mut self, key: &[u8], n: u128)
        requires
            old(self).wf(),
            key_live(old(self)@, key@, read_now(old(self)@)),
        ensures
            final(self).became(*old(self), old(self)@),
            final(self).used() == old(self).used(),
            final(self).held(key@) == old(self).held(key@),
            final(self).kept_others(*old(self), key@),
            final(self).use_clock() == clock_at(old(self)@, old(self).use_clock(), n as nat),
            final(self).mark(key@) == mark_at(
                old(self)@,
                old(self).mark(key@),
                old(self).use_clock(),
                n as nat,
            ),
    {
        let ghost s = *self;
        let mut i: u128 = 0;
        proof {
            lemma_one_use(s, key@);
        }
        while i < n
            invariant
                i <= n,
                s.wf(),
                key_live(s@, key@, read_now(s@)),
                self.became(s, s@),
                self.used() <= s.used(),
                self.held(key@) == s.held(key@),
                self.kept_others(s, key@),
                self.use_clock() == clock_at(s@, s.use_clock(), i as nat),
                self.mark(key@) == mark_at(s@, s.mark(key@), s.use_clock(), i as nat),
            decreases n - i,
        {
            let ghost at = *self;
            self.live(key);
            proof {
                lemma_one_use(at, key@);
                lemma_uses(s@, s.mark(key@), s.use_clock(), i as nat, 1);
            }
            i = i + 1;
        }
        proof {
            self.lemma_use_kept(s, key@);
        }
    }

    proof fn lemma_use_kept(&self, s: Store, key: Seq<u8>)
        requires
            self.wf(),
            s.wf(),
            self@ == s@,
            self.held(key) == s.held(key),
            self.kept_others(s, key),
        ensures
            self.used() == s.used(),
    {
        assert forall|k: Seq<u8>| #[trigger] self@.slots.dom().contains(k) implies s.held(k)
            == self.held(k) by {}
        self.lemma_memory_back(s);
    }

    /// Puts another value under a key in the place of the one that it has,
    /// with a deadline of its own. The deadlines of its fields go.
    fn overwrite(&mut self, key: &[u8], value: Value, deadline: Option<u64>)
        requires
            old(self).wf(),
            old(self)@.slots.dom().contains(key@),
            value.wf(),
        ensures
            final(self).became(
                *old(self),
                put(
                    old(self)@,
                    key@,
                    Slot { value: value@, expire: crate::entry::packed(deadline) },
                ),
            ),
            final(self).held(key@) == value,
            final(self).use_clock() == old(self).use_clock(),
            final(self).mark(key@) == old(self).mark(key@),
            final(self).rows() == old(self).rows(),
            final(self).kept_others(*old(self), key@),
    {
        let ghost s = self@;
        let ghost slot = Slot { value: value@, expire: crate::entry::packed(deadline) };
        let mut v = value;
        self.swap_value(key, &mut v);
        self.set_deadline(key, deadline);
        self.clear_hash_key_ttls(key);
        assert(self@.slots =~= s.slots.insert(key@, slot));
    }

    /// Swaps a key's value with another one.
    pub fn swap_value(&mut self, key: &[u8], v: &mut Value)
        requires
            old(self).wf(),
            old(self)@.slots.dom().contains(key@),
            old(v).wf(),
        ensures
            final(self).became(*old(self), revalued(old(self)@, key@, old(v)@)),
            old(v).cost() == 0 ==> final(self).used() <= old(self).used(),
            final(self).held(key@) == *old(v),
            *final(v) == old(self).held(key@),
            final(v).wf(),
            final(v)@ == old(self)@.slots[key@].value,
            final(self).use_clock() == old(self).use_clock(),
            final(self).mark(key@) == old(self).mark(key@),
            final(self).rows() == old(self).rows(),
            final(self).kept_others(*old(self), key@),
    {
        let ghost m = self.map@;
        let ghost before = *self;
        let ghost v0 = *v;
        match self.map.get_mut(key) {
            Some(e) => {
                let ghost e0 = *e;
                assert(m[key@].wf(key@));
                let gone: u64 = ENTRY_OVERHEAD + e.weight as u64;
                let was: Option<ColdRef> = logged_stub(&e.value);
                core::mem::swap(&mut e.value, v);
                let is: Option<ColdRef> = logged_stub(&e.value);
                let weight: u32 = weigh(key.len(), &e.value);
                e.weight = weight;
                let come: u64 = ENTRY_OVERHEAD + weight as u64;
                proof {
                    lemma_map_insert(m, key@, *e);
                    let d = dated_keys(slots_of(m));
                    if e0.expire_at_ns is Some {
                        assert(d.contains(key@));
                        assert(d.insert(key@) =~= d);
                    } else {
                        assert(d.remove(key@) =~= d);
                    }
                    assert(slots_of(m).insert(key@, e@).remove(key@) =~= slots_of(m).remove(key@));
                }
                let ghost next = slots_of(m).insert(key@, e@);
                self.book.turn(key, was, is, Ghost(slots_of(m)), Ghost(next));
                self.settle(gone, come, Ghost(crate::weigh::total(weights_of(m))));
            },
            None => {},
        }
    }

    /// Moves a key's deadline.
    pub fn set_deadline(&mut self, key: &[u8], deadline: Option<u64>)
        requires
            old(self).wf(),
            old(self)@.slots.dom().contains(key@),
        ensures
            final(self).became(
                *old(self),
                redated(old(self)@, key@, crate::entry::packed(deadline)),
            ),
            final(self).used() == old(self).used(),
            final(self).kept_all(*old(self)),
    {
        let ghost m = self.map@;
        let packed: Option<u64> = pack_deadline(deadline);
        let mut had: bool = false;
        match self.map.get_mut(key) {
            Some(e) => {
                assert(m[key@].wf(key@));
                had = e.expire_at_ns.is_some();
                let was: Option<ColdRef> = logged_stub(&e.value);
                e.expire_at_ns = packed;
                let ghost next = slots_of(m).insert(key@, e@);
                proof {
                    lemma_map_insert(m, key@, *e);
                    assert(next.remove(key@) =~= slots_of(m).remove(key@));
                    let d = dated_keys(slots_of(m));
                    if had {
                        assert(d.contains(key@));
                        assert(d.insert(key@) =~= d);
                    } else {
                        assert(!d.contains(key@));
                        assert(d.remove(key@) =~= d);
                    }
                }
                self.book.turn(key, was, was, Ghost(slots_of(m)), Ghost(next));
            },
            None => {},
        }
        let dated: bool = packed.is_some();
        if dated && !had {
            self.expires.up();
        } else if had && !dated {
            self.expires.down();
        }
    }
}

/// Whether each of some steps led from one state of the store to the next:
/// it touched one key and led to one keyspace.
pub open spec fn stepped(states: Seq<Store>, steps: Seq<(Seq<u8>, StoreModel)>) -> bool {
    &&& states.len() == steps.len() + 1
    &&& forall|i: int|
        #![trigger steps[i]]
        0 <= i < steps.len() ==> states[i + 1].became(states[i], steps[i].1) && states[i
            + 1].kept_others(states[i], steps[i].0)
}

/// Why a value is refused where another kind of value is wanted: it is not in
/// memory, or it is of another type.
pub open spec fn refused(v: crate::value::Val, want: ColdKind) -> StoreError {
    match v {
        crate::value::Val::Cold(c) => if c.kind == want {
            StoreError::NotInMemory
        } else {
            StoreError::WrongType
        },
        _ => StoreError::WrongType,
    }
}

/// The greater of two numbers.
pub open spec fn greater(a: u64, b: u64) -> u64 {
    if a < b {
        b
    } else {
        a
    }
}

/// The low half of a word.
pub open spec fn low_half(n: u64) -> u32 {
    (n % 0x1_0000_0000) as u32
}

/// What the use clock shows after one more use.
pub open spec fn clock_after(s: Store) -> u64 {
    if clocked(s@) {
        s.use_clock().wrapping_add(1)
    } else {
        s.use_clock()
    }
}

/// What a use clock that shows `c` shows after `n` more uses.
pub open spec fn clock_at(s: StoreModel, c: u64, n: nat) -> u64 {
    if clocked(s) {
        ((c + n) % 0x1_0000_0000_0000_0000) as u64
    } else {
        c
    }
}

/// How a key that has a mark when the use clock shows `c` is marked after `n`
/// more uses.
pub open spec fn mark_at(s: StoreModel, mark: u32, c: u64, n: nat) -> u32 {
    if clocked(s) {
        marked(marking(s), mark, c, n)
    } else {
        mark
    }
}

/// How a key that has a mark when the use clock shows `c` is marked by a
/// policy after `n` more uses.
pub open spec fn marked(policy: EvictionPolicy, mark: u32, c: u64, n: nat) -> u32
    decreases n,
{
    if n == 0 {
        mark
    } else {
        crate::evict::touched(
            marked(policy, mark, c, (n - 1) as nat),
            policy,
            low_half(((c + n) % 0x1_0000_0000_0000_0000) as u64),
        )
    }
}

/// Uses after uses are so many uses together.
pub proof fn lemma_uses(s: StoreModel, mark: u32, c: u64, a: nat, b: nat)
    ensures
        clock_at(s, clock_at(s, c, a), b) == clock_at(s, c, a + b),
        mark_at(s, mark_at(s, mark, c, a), clock_at(s, c, a), b) == mark_at(s, mark, c, a + b),
    decreases b,
{
    if b > 0 {
        lemma_uses(s, mark, c, a, (b - 1) as nat);
    }
    let m = 0x1_0000_0000_0000_0000int;
    vstd::arithmetic::div_mod::lemma_add_mod_noop(c + a, b as int, m);
    vstd::arithmetic::div_mod::lemma_mod_twice(c + a, m);
    vstd::arithmetic::div_mod::lemma_add_mod_noop((c + a) % m, b as int, m);
}

/// One use is one step of the clock.
pub proof fn lemma_one_use(s: Store, key: Seq<u8>)
    ensures
        clock_at(s@, s.use_clock(), 1) == clock_after(s),
        mark_at(s@, s.mark(key), s.use_clock(), 1) == mark_after(s, key),
        clock_at(s@, s.use_clock(), 0) == s.use_clock(),
{
    reveal_with_fuel(marked, 2);
}

/// How a key is marked after one more use.
pub open spec fn mark_after(s: Store, key: Seq<u8>) -> u32 {
    if clocked(s@) {
        crate::evict::touched(s.mark(key), marking(s@), low_half(clock_after(s)))
    } else {
        s.mark(key)
    }
}

/// How a key is marked that is new.
pub open spec fn first_mark(s: Store) -> u32 {
    if clocked(s@) {
        low_half(clock_after(s))
    } else {
        0
    }
}

/// Whether the use clock runs: keys are evicted or values move out of memory.
pub open spec fn clocked(s: StoreModel) -> bool {
    s.limit > 0 || s.tier is Some
}

/// The policy by which uses are marked: that of eviction if there is a limit,
/// else that by which values move out of memory.
pub open spec fn marking(s: StoreModel) -> EvictionPolicy {
    if s.limit > 0 || s.tier is None {
        s.policy
    } else {
        s.tier->Some_0.policy
    }
}

/// A keyspace that notes that a key was evicted.
pub open spec fn noted_evicted(s: StoreModel, key: Seq<u8>) -> StoreModel {
    StoreModel {
        evictions: bumped(s.evictions),
        events: if s.capture.evicted {
            s.events.push((KeyspaceEvent::Evicted, key))
        } else {
            s.events
        },
        ..s
    }
}

/// A keyspace without keys.
pub open spec fn empty_store(seed: u64) -> StoreModel {
    StoreModel {
        slots: Map::empty(),
        ttls: Map::empty(),
        watch: Map::empty(),
        expired: Seq::empty(),
        expired_total: 0,
        events: Seq::empty(),
        capture: Capture { new_key: false, expired: false, evicted: false },
        now: 0,
        cached: 0,
        use_cached: false,
        wall: 0,
        random: crate::rng::seeded(seed),
        limit: 0,
        policy: EvictionPolicy::NoEviction,
        evictions: 0,
        tier: None,
        segs: None,
    }
}

} // verus!
