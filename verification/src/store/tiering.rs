//! Values that move out of memory and back.
//!
//! The store decides; whoever owns the spill log and the row segments reads
//! and writes the records. A value that moved out leaves a stub under its
//! key, so that what only looks at keys and deadlines goes on as before.
use vstd::prelude::*;
use super::evicting::Purpose;
use super::Store;
use crate::bytes::copy_bytes;
use crate::cold::{Backing, ColdKind, ColdRef, RecordRef};
use crate::evict::N_SAMPLES;
use crate::tier::{backoff, effective_target, floor_blocked};
use crate::tier::{LogGauges, SpillRun, TierState, TierStats};
use crate::tier_codec::{decode, encode, CodecError};
use crate::types::{EvictionPolicy, StoreError};
use crate::value::{Value, ENTRY_OVERHEAD};

verus! {

/// Why a value is wanted.
#[derive(Clone, Copy, Debug, PartialEq, Eq, Structural)]
pub enum Access {
    /// To be read.
    Read,
    /// To be read by a sweep, which is no sign that the key is in use.
    Peek,
    /// To be changed.
    Write,
}

/// What is to be done before a value can be had.
#[derive(Clone, Copy, Debug, PartialEq, Eq, Structural)]
pub enum ColdStep {
    /// Nothing: it is in memory, or there is no such key.
    InMemory,
    /// Its record is to be read, and the value served from there.
    Serve(ColdRef),
    /// Its record is to be read, and the value put back in memory.
    Promote(ColdRef),
}

/// A keyspace whose tier state is changed.
pub open spec fn retiered(s: super::StoreModel, t: TierState) -> super::StoreModel {
    super::StoreModel { tier: Some(t), ..s }
}

/// A keyspace that notes that a record was read.
pub open spec fn read_noted(s: super::StoreModel, c: ColdRef, peek: bool) -> super::StoreModel {
    match s.tier {
        Some(t) => if c.backing() is Log {
            retiered(
                s,
                TierState {
                    preads: super::bumped(t.preads),
                    peek_preads: if peek {
                        super::bumped(t.peek_preads)
                    } else {
                        t.peek_preads
                    },
                    ..t
                },
            )
        } else {
            s
        },
        None => s,
    }
}

/// A stub that notes that it was read.
pub open spec fn marked(c: ColdRef) -> ColdRef {
    ColdRef { touched: true, ..c }
}

/// Whether the hash that a stub stands for has fields whose deadlines have
/// come.
pub open spec fn overdue(s: super::StoreModel, key: Seq<u8>, c: ColdRef) -> bool {
    c.kind is Hash && super::hash_ttl::fields_past(s, key) != Set::<Seq<u8>>::empty()
}

/// What is to be done before a value of a kind can be had, and the keyspace
/// that decided it. Another kind is refused without a read; the first read
/// is served from the record, the second puts the value back in memory, and
/// so does a write, or any access to a hash with fields whose deadlines have
/// come.
pub open spec fn cold_next(
    s: super::StoreModel,
    key: Seq<u8>,
    want: ColdKind,
    access: Access,
) -> (Result<ColdStep, StoreError>, super::StoreModel) {
    let t = super::seen(s, key);
    if !t.slots.dom().contains(key) {
        (Ok(ColdStep::InMemory), t)
    } else {
        match t.slots[key].value {
            crate::value::Val::Cold(c) => if c.kind != want {
                (Err(StoreError::WrongType), t)
            } else if overdue(t, key, c) {
                (Ok(ColdStep::Promote(c)), read_noted(t, c, false))
            } else if access is Peek {
                (Ok(ColdStep::Serve(c)), read_noted(t, c, true))
            } else if access is Read && !c.touched {
                (
                    Ok(ColdStep::Serve(c)),
                    read_noted(
                        super::revalued(t, key, crate::value::Val::Cold(marked(c))),
                        c,
                        false,
                    ),
                )
            } else {
                (Ok(ColdStep::Promote(c)), read_noted(t, c, false))
            },
            _ => (Ok(ColdStep::InMemory), t),
        }
    }
}

/// What a value costs beside its key, as far as a weight can tell.
pub open spec fn value_weight(s: Store, key: Seq<u8>) -> nat {
    let w = s.weights()[key] - ENTRY_OVERHEAD - crate::bytes::heap_bytes_spec(key.len());
    if w >= 0 {
        w as nat
    } else {
        0
    }
}

/// The record that a key's value would leave, if it may move out: the key is
/// live, the value is of a kind that moves, and it is no larger than values
/// that move may be.
pub open spec fn spill_record(s: Store, key: Seq<u8>) -> Option<(Seq<u8>, ColdKind)> {
    match s@.tier {
        None => None,
        Some(t) => if super::key_live(s@, key, super::read_now(s@)) && (t.max_spill == 0
            || value_weight(s, key) <= t.max_spill) {
            crate::tier_codec::encoded(s.held(key))
        } else {
            None
        },
    }
}

/// The stub that a value leaves.
pub open spec fn left_stub(s: Store, key: Seq<u8>, rec: RecordRef, kind: ColdKind) -> ColdRef {
    crate::cold::log_stub(rec, value_weight(s, key) as u32, kind)
}

/// A keyspace in which a value moved out and left a stub.
pub open spec fn demoted(s: super::StoreModel, key: Seq<u8>, stub: ColdRef) -> super::StoreModel {
    let t = s.tier->Some_0;
    retiered(
        super::revalued(s, key, crate::value::Val::Cold(stub)),
        TierState { demotions: super::bumped(t.demotions), tick_wait: 0, tick_skip: 0, ..t },
    )
}

/// A keyspace in which a value moved back.
pub open spec fn promoted(
    s: super::StoreModel,
    key: Seq<u8>,
    v: crate::value::Val,
) -> super::StoreModel {
    let r = super::revalued(s, key, v);
    match s.tier {
        Some(t) => retiered(r, TierState { promotions: super::bumped(t.promotions), ..t }),
        None => r,
    }
}

/// The stub under a key.
pub open spec fn stub_at(s: super::StoreModel, key: Seq<u8>) -> Option<ColdRef> {
    if s.slots.dom().contains(key) {
        match s.slots[key].value {
            crate::value::Val::Cold(c) => Some(c),
            _ => None,
        }
    } else {
        None
    }
}

/// A keyspace after a run at a tick that moved nothing although it should
/// have: so many ticks pass before the next.
pub open spec fn dried(s: super::StoreModel) -> super::StoreModel {
    match s.tier {
        Some(t) => retiered(
            s,
            TierState {
                tick_skip: crate::tier::next_skip(t.tick_skip),
                tick_wait: crate::tier::next_skip(t.tick_skip),
                ..t
            },
        ),
        None => s,
    }
}

impl Store {
    /// Lets values move out of memory when more than `budget` is in use.
    pub fn enable_tiering(&mut self, budget: u64)
        requires
            old(self).wf(),
        ensures
            final(self).became(*old(self), retiered(old(self)@, crate::tier::fresh_tier(budget))),
            final(self).kept_all(*old(self)),
    {
        self.set_tier(Some(
            TierState {
                budget,
                policy: EvictionPolicy::AllKeysLru,
                max_spill: 0,
                reserved: 0,
                demotions: 0,
                promotions: 0,
                preads: 0,
                peek_preads: 0,
                batch_submissions: 0,
                tick_wait: 0,
                tick_skip: 0,
            },
        ));
    }

    /// Sets the budget, if values move at all.
    pub fn set_tier_budget(&mut self, bytes: u64)
        requires
            old(self).wf(),
        ensures
            final(self).became(
                *old(self),
                match old(self)@.tier {
                    Some(t) => retiered(old(self)@, TierState { budget: bytes, ..t }),
                    None => old(self)@,
                },
            ),
            final(self).kept_all(*old(self)),
    {
        match self.tier {
            Some(t) => {
                self.set_tier(Some(TierState { budget: bytes, ..t }));
            },
            None => {},
        }
    }

    /// Sets the size of the largest value that may move, 0 for any, if
    /// values move at all.
    pub fn set_tier_max_spill(&mut self, bytes: u64)
        requires
            old(self).wf(),
        ensures
            final(self).became(
                *old(self),
                match old(self)@.tier {
                    Some(t) => retiered(old(self)@, TierState { max_spill: bytes, ..t }),
                    None => old(self)@,
                },
            ),
            final(self).kept_all(*old(self)),
    {
        match self.tier {
            Some(t) => {
                self.set_tier(Some(TierState { max_spill: bytes, ..t }));
            },
            None => {},
        }
    }

    /// Sets how much memory is used beside the keyspace, if values move at
    /// all.
    pub fn set_tier_reserved(&mut self, bytes: u64)
        requires
            old(self).wf(),
        ensures
            final(self).became(
                *old(self),
                match old(self)@.tier {
                    Some(t) => retiered(old(self)@, TierState { reserved: bytes, ..t }),
                    None => old(self)@,
                },
            ),
            final(self).kept_all(*old(self)),
    {
        match self.tier {
            Some(t) => {
                self.set_tier(Some(TierState { reserved: bytes, ..t }));
            },
            None => {},
        }
    }

    /// How values move out of memory, if they do.
    pub fn tier_state(&self) -> (r: Option<TierState>)
        ensures
            r == self@.tier,
    {
        self.tier
    }

    /// When, or how often, a key was used.
    pub fn use_mark(&self, key: &[u8]) -> (r: Option<u32>)
        requires
            self.wf(),
        ensures
            r == (if self@.slots.dom().contains(key@) {
                Some(self.mark(key@))
            } else {
                None
            }),
    {
        self.mark_of(key)
    }

    /// Whether values move out of memory.
    pub fn tier_enabled(&self) -> (r: bool)
        ensures
            r == (self@.tier is Some),
    {
        self.tier.is_some()
    }

    /// What the stubs cost, exact as long as it fits in a `u64`.
    pub fn stub_bytes(&self) -> (r: u64)
        requires
            self.wf(),
        ensures
            crate::cold::stub_total(self@.slots) <= u64::MAX ==> r == crate::cold::stub_total(
                self@.slots,
            ),
    {
        self.book.stubs(Ghost(self@.slots))
    }

    /// Whether `extra` bytes more that cannot be made free leave no room for
    /// values, as long as what the stubs cost fits in a `u64`.
    pub fn tier_index_floor_blocked(&self, extra: u64) -> (r: bool)
        requires
            self.wf(),
        ensures
            crate::cold::stub_total(self@.slots) <= u64::MAX ==> r == (match self@.tier {
                Some(t) => crate::tier::blocked_spec(
                    t,
                    crate::cold::stub_total(self@.slots) as u64,
                    extra,
                ),
                None => false,
            }),
            self@.tier is None ==> !r,
    {
        match &self.tier {
            Some(t) => floor_blocked(t, self.stub_bytes(), extra),
            None => false,
        }
    }

    /// What is told of values that are not in memory, with what is told of
    /// the spill log; all zero where values do not move. The sums over the
    /// stubs are exact as long as they fit in a `u64`.
    pub fn tier_stats(&self, log: LogGauges) -> (r: TierStats)
        requires
            self.wf(),
        ensures
            self@.tier is None ==> r == crate::tier::no_stats(),
            self@.tier is Some && crate::cold::stub_total(self@.slots) <= u64::MAX
                && crate::cold::cold_total(self@.slots) <= u64::MAX && crate::cold::cold_count(
                self@.slots,
            ) <= u64::MAX ==> r == stats_of(self@, log),
    {
        match &self.tier {
            None => TierStats::default(),
            Some(t) => {
                let stubs: u64 = self.stub_bytes();
                TierStats {
                    budget: t.budget,
                    effective_target: effective_target(t, stubs),
                    reserved_bytes: t.reserved,
                    stub_bytes: stubs,
                    demotions_total: t.demotions,
                    promotions_total: t.promotions,
                    preads_total: t.preads,
                    peek_preads_total: t.peek_preads,
                    batch_submissions_total: t.batch_submissions,
                    cold_keys: self.book.keys(Ghost(self@.slots)),
                    cold_bytes: self.book.bytes(Ghost(self@.slots)),
                    vlog_files: log.files,
                    vlog_bytes: log.bytes,
                    vlog_live_bytes: log.live_bytes,
                    vlog_epoch: log.epoch,
                }
            },
        }
    }

    /// What a key's value costs beside the key.
    pub(super) fn weight_beside(&self, key: &[u8]) -> (r: u32)
        requires
            self.wf(),
            self@.slots.dom().contains(key@),
        ensures
            r == value_weight(*self, key@),
    {
        proof {
            self.lemma_accounting();
        }
        match self.map.get(key) {
            Some(e) => {
                assert(self.weights()[key@] == ENTRY_OVERHEAD + e.weight);
                let heap: u64 = crate::bytes::heap_bytes(key.len());
                if e.weight as u64 >= heap {
                    (e.weight as u64 - heap) as u32
                } else {
                    0
                }
            },
            None => 0,
        }
    }

    /// The record that a key's value leaves when it moves out, with what the
    /// value is; `None` if it has to stay.
    pub fn demote_plan(&self, key: &[u8]) -> (r: Option<(Vec<u8>, ColdKind)>)
        requires
            self.wf(),
        ensures
            match r {
                Some((p, kind)) => spill_record(*self, key@) == Some((p@, kind)),
                None => spill_record(*self, key@) is None,
            },
    {
        match &self.tier {
            None => None,
            Some(t) => {
                if !self.has(key) || self.expired(key, self.read_clock()) {
                    return None;
                }
                if t.max_spill != 0 && self.weight_beside(key) as u64 > t.max_spill {
                    return None;
                }
                match self.value_ref(key) {
                    Some(v) => encode(v),
                    None => None,
                }
            },
        }
    }

    /// Moves a key's value out: its record stands at `rec`. Says whether it
    /// moved; a value that has to stay does. The deadline, the deadlines of
    /// fields and the use mark stay, and nobody is told.
    pub fn demote_in_place(&mut self, key: &[u8], rec: RecordRef) -> (r: bool)
        requires
            old(self).wf(),
        ensures
            r == (spill_record(*old(self), key@) is Some),
            !r ==> *final(self) == *old(self),
            r ==> final(self).became(
                *old(self),
                demoted(
                    old(self)@,
                    key@,
                    left_stub(
                        *old(self),
                        key@,
                        rec,
                        spill_record(*old(self), key@)->Some_0.1,
                    ),
                ),
            ),
            final(self).use_clock() == old(self).use_clock(),
            forall|k: Seq<u8>|
                #![trigger final(self).mark(k)]
                final(self).mark(k) == old(self).mark(k),
            final(self).kept_others(*old(self), key@),
    {
        match self.demote_plan(key) {
            None => false,
            Some((_p, kind)) => {
                let weight: u32 = self.weight_beside(key);
                let stub = ColdRef::log(rec, weight, kind);
                let mut v = Value::Cold(stub);
                self.swap_value(key, &mut v);
                match self.tier {
                    Some(t) => {
                        self.set_tier(Some(
                            TierState {
                                demotions: t.demotions.saturating_add(1),
                                tick_wait: 0,
                                tick_skip: 0,
                                ..t
                            },
                        ));
                    },
                    None => {},
                }
                true
            },
        }
    }

    /// Puts a key's value back in memory, from its record. Says whether the
    /// value was out of memory. The deadline, the deadlines of fields and the
    /// use mark stay, and nobody is told.
    pub fn promote_in_place(&mut self, key: &[u8], payload: Vec<u8>) -> (r: Result<bool, CodecError>)
        requires
            old(self).wf(),
        ensures
            match stub_at(old(self)@, key@) {
                None => r == Ok::<bool, CodecError>(false) && *final(self) == *old(self),
                Some(c) => match crate::tier_codec::decoded(c.kind, payload@) {
                    Err(e) => r == Err::<bool, CodecError>(e) && *final(self) == *old(self),
                    Ok(v) => r == Ok::<bool, CodecError>(true) && final(self).became(
                        *old(self),
                        promoted(old(self)@, key@, v),
                    ),
                },
            },
            final(self).use_clock() == old(self).use_clock(),
            forall|k: Seq<u8>|
                #![trigger final(self).mark(k)]
                final(self).mark(k) == old(self).mark(k),
            final(self).kept_others(*old(self), key@),
    {
        let kind = match self.value_ref(key) {
            Some(Value::Cold(c)) => c.kind,
            _ => {
                return Ok(false);
            },
        };
        match decode(kind, payload) {
            Err(e) => Err(e),
            Ok(v) => {
                let mut v = v;
                self.swap_value(key, &mut v);
                match self.tier {
                    Some(t) => {
                        self.set_tier(Some(
                            TierState { promotions: t.promotions.saturating_add(1), ..t },
                        ));
                    },
                    None => {},
                }
                Ok(true)
            },
        }
    }

    /// Notes that a record was read.
    fn note_read(&mut self, c: ColdRef, peek: bool)
        requires
            old(self).wf(),
        ensures
            final(self).kept_all(*old(self)),
            final(self).became(*old(self), read_noted(old(self)@, c, peek)),
    {
        if c.is_seg() {
            return;
        }
        match self.tier {
            Some(t) => {
                self.set_tier(Some(
                    TierState {
                        preads: t.preads.saturating_add(1),
                        peek_preads: if peek {
                            t.peek_preads.saturating_add(1)
                        } else {
                            t.peek_preads
                        },
                        ..t
                    },
                ));
            },
            None => {},
        }
    }

    /// What is to be done before a value of a kind can be had.
    pub fn cold_step(&mut self, key: &[u8], want: ColdKind, access: Access) -> (r: Result<
        ColdStep,
        StoreError,
    >)
        requires
            old(self).wf(),
        ensures
            r == cold_next(old(self)@, key@, want, access).0,
            final(self).became(*old(self), cold_next(old(self)@, key@, want, access).1),
            final(self).kept_others(*old(self), key@),
            final(self).used_at(*old(self), key@),
    {
        if !self.live(key) {
            return Ok(ColdStep::InMemory);
        }
        let c: ColdRef = match self.value_ref(key) {
            Some(Value::Cold(c)) => *c,
            _ => {
                return Ok(ColdStep::InMemory);
            },
        };
        if c.kind != want {
            return Err(StoreError::WrongType);
        }
        let late: bool = match c.kind {
            ColdKind::Hash => self.has_past_fields(key),
            ColdKind::Str => false,
        };
        if late {
            self.note_read(c, false);
            return Ok(ColdStep::Promote(c));
        }
        match access {
            Access::Peek => {
                self.note_read(c, true);
                Ok(ColdStep::Serve(c))
            },
            Access::Read => {
                if c.touched {
                    self.note_read(c, false);
                    Ok(ColdStep::Promote(c))
                } else {
                    let mut v = Value::Cold(ColdRef { touched: true, ..c });
                    self.swap_value(key, &mut v);
                    self.note_read(c, false);
                    Ok(ColdStep::Serve(c))
                }
            },
            Access::Write => {
                self.note_read(c, false);
                Ok(ColdStep::Promote(c))
            },
        }
    }

    /// Whether values should move out: more memory is in use than runs aim
    /// at.
    pub open spec fn over_target(&self) -> bool {
        self@.tier matches Some(t) && self.used() > crate::tier::target_spec(
            t,
            crate::cold::stub_total(self@.slots) as u64,
        )
    }

    /// Whether values should move out: more memory is in use than runs aim
    /// at. Exact as long as what the stubs cost fits in a `u64`.
    pub fn demote_wanted(&self) -> (r: bool)
        requires
            self.wf(),
        ensures
            crate::cold::stub_total(self@.slots) <= u64::MAX ==> r == self.over_target(),
            self@.tier is None ==> !r,
    {
        match &self.tier {
            Some(t) => self.used_memory > effective_target(t, self.stub_bytes()),
            None => false,
        }
    }

    /// The key whose value moves out next in a run, if one does: values
    /// should move, the run may go on, and this one deserves least to stay
    /// among a sample of those that may move. What is said of `None` holds
    /// as long as what the stubs cost fits in a `u64`.
    pub fn demote_victim(&self, run: SpillRun) -> (r: Option<Vec<u8>>)
        requires
            self.wf(),
        ensures
            r matches Some(k) ==> run.open() && super::evicting::fits(*self, Purpose::Spill, k@),
            r matches Some(k) ==> super::evicting::chosen(
                *self,
                Purpose::Spill,
                k@,
                super::evicting::evict_start(*self),
                N_SAMPLES as nat,
            ),
            crate::cold::stub_total(self@.slots) <= u64::MAX ==> (r is Some) == (run.open()
                && self.over_target() && !super::evicting::none_fits(*self, Purpose::Spill)),
    {
        if !run.is_open() || !self.demote_wanted() {
            return None;
        }
        let r = self.sample_pick_with(N_SAMPLES, Purpose::Spill);
        assert(r matches Some(k) ==> super::evicting::fits(*self, Purpose::Spill, k@));
        r
    }

    /// The keys whose records stand in a file of the spill log, with their
    /// stubs, in walking order.
    pub fn cold_in_file(&self, file_id: u32) -> (r: Vec<(Vec<u8>, ColdRef)>)
        requires
            self.wf(),
        ensures
            keyed(r@) == in_file(self@, self.key_order(), file_id),
    {
        let names = self.all_keys();
        let ghost order = self.key_order();
        let mut out: Vec<(Vec<u8>, ColdRef)> = Vec::new();
        let mut i: usize = 0;
        assert(order.take(0) =~= Seq::empty());
        assert(keyed(out@) =~= Seq::empty());
        while i < names.len()
            invariant
                self.wf(),
                order == self.key_order(),
                crate::bytes::deep(names@) == order,
                i <= names@.len(),
                keyed(out@) == in_file(self@, order.take(i as int), file_id),
            decreases names@.len() - i,
        {
            proof {
                assert(order[i as int] == names@[i as int]@);
                assert(order.take(i + 1).drop_last() =~= order.take(i as int));
                assert(order.take(i + 1).last() == order[i as int]);
            }
            let ghost before = keyed(out@);
            match self.value_ref(names[i].as_slice()) {
                Some(Value::Cold(c)) => match c.backing() {
                    Backing::Log(at) => if at.file_id == file_id {
                        out.push((copy_bytes(names[i].as_slice()), *c));
                        assert(keyed(out@) =~= before.push((order[i as int], *c)));
                    },
                    Backing::Segment(_) => {},
                },
                _ => {},
            }
            i = i + 1;
        }
        assert(order.take(order.len() as int) =~= order);
        out
    }

    /// The keys of hashes that are not in memory and have fields whose
    /// deadlines have come, in walking order.
    pub fn overdue_keys(&self) -> (r: Vec<Vec<u8>>)
        requires
            self.wf(),
        ensures
            crate::bytes::deep(r@) == late_keys(self@, self.key_order()),
    {
        let names = self.all_keys();
        let ghost order = self.key_order();
        let mut out: Vec<Vec<u8>> = Vec::new();
        let mut i: usize = 0;
        assert(order.take(0) =~= Seq::empty());
        assert(crate::bytes::deep(out@) =~= Seq::empty());
        while i < names.len()
            invariant
                self.wf(),
                order == self.key_order(),
                crate::bytes::deep(names@) == order,
                i <= names@.len(),
                crate::bytes::deep(out@) == late_keys(self@, order.take(i as int)),
            decreases names@.len() - i,
        {
            proof {
                assert(order[i as int] == names@[i as int]@);
                assert(order.take(i + 1).drop_last() =~= order.take(i as int));
                assert(order.take(i + 1).last() == order[i as int]);
            }
            let ghost before = crate::bytes::deep(out@);
            let hash: bool = match self.value_ref(names[i].as_slice()) {
                Some(Value::Cold(c)) => match c.kind {
                    ColdKind::Hash => true,
                    ColdKind::Str => false,
                },
                _ => false,
            };
            if hash && self.has_past_fields(names[i].as_slice()) {
                out.push(copy_bytes(names[i].as_slice()));
                assert(crate::bytes::deep(out@) =~= before.push(order[i as int]));
            }
            i = i + 1;
        }
        assert(order.take(order.len() as int) =~= order);
        out
    }

    /// Whether a tick is to start a run; a tick that is to pass is counted.
    pub fn tick_due(&mut self) -> (r: bool)
        requires
            old(self).wf(),
        ensures
            r == (old(self)@.tier matches Some(t) && t.tick_wait == 0),
            final(self).became(
                *old(self),
                match old(self)@.tier {
                    Some(t) => if t.tick_wait > 0 {
                        retiered(
                            old(self)@,
                            TierState { tick_wait: (t.tick_wait - 1) as u32, ..t },
                        )
                    } else {
                        old(self)@
                    },
                    None => old(self)@,
                },
            ),
            final(self).kept_all(*old(self)),
    {
        match self.tier {
            Some(t) => {
                if t.tick_wait > 0 {
                    self.set_tier(Some(TierState { tick_wait: t.tick_wait - 1, ..t }));
                    false
                } else {
                    true
                }
            },
            None => false,
        }
    }

    /// Notes that a run at a tick moved nothing although it should have: so
    /// many ticks pass before the next.
    pub fn tick_dry(&mut self)
        requires
            old(self).wf(),
        ensures
            final(self).became(*old(self), dried(old(self)@)),
            final(self).kept_all(*old(self)),
    {
        match self.tier {
            Some(t) => {
                let skip: u32 = backoff(t.tick_skip);
                self.set_tier(Some(TierState { tick_skip: skip, tick_wait: skip, ..t }));
            },
            None => {},
        }
    }

    /// Notes how a run at a tick went: a run that was wanted and moved
    /// nothing is dry, any other changes nothing.
    pub fn tick_done(&mut self, wanted: bool, moved: usize)
        requires
            old(self).wf(),
        ensures
            !(wanted && moved == 0) ==> *final(self) == *old(self),
            wanted && moved == 0 ==> final(self).became(*old(self), dried(old(self)@)),
            final(self).kept_all(*old(self)),
    {
        if wanted && moved == 0 {
            self.tick_dry();
        }
    }

    /// Notes how many batches of records were asked for.
    pub fn note_batch(&mut self, submissions: u64)
        requires
            old(self).wf(),
        ensures
            final(self).became(
                *old(self),
                match old(self)@.tier {
                    Some(t) => retiered(
                        old(self)@,
                        TierState {
                            batch_submissions: crate::list_data::capped(
                                (t.batch_submissions + submissions) as nat,
                            ),
                            ..t
                        },
                    ),
                    None => old(self)@,
                },
            ),
            final(self).kept_all(*old(self)),
    {
        match self.tier {
            Some(t) => {
                self.set_tier(Some(
                    TierState {
                        batch_submissions: t.batch_submissions.saturating_add(submissions),
                        ..t
                    },
                ));
            },
            None => {},
        }
    }

    /// Notes that a record was written anew elsewhere. Says whether it was
    /// still needed under that key.
    pub fn record_moved(&mut self, key: &[u8], was: RecordRef, is: RecordRef) -> (r: bool)
        requires
            old(self).wf(),
        ensures
            r == held_at(old(self)@, key@, was),
            !r ==> *final(self) == *old(self),
            r ==> final(self).became(
                *old(self),
                super::revalued(
                    old(self)@,
                    key@,
                    crate::value::Val::Cold(
                        (ColdRef {
                            rec: is,
                            ..stub_at(old(self)@, key@)->Some_0
                        }),
                    ),
                ),
            ),
            final(self).kept_others(*old(self), key@),
            final(self).use_clock() == old(self).use_clock(),
    {
        let c: ColdRef = match self.value_ref(key) {
            Some(Value::Cold(c)) => *c,
            _ => {
                return false;
            },
        };
        let at = match c.backing() {
            Backing::Log(at) => at,
            Backing::Segment(_) => {
                return false;
            },
        };
        if at.file_id != was.file_id || at.offset != was.offset {
            return false;
        }
        let mut v = Value::Cold(ColdRef { rec: is, ..c });
        self.swap_value(key, &mut v);
        true
    }
}

/// Whether the stub under a key names this place of the spill log.
pub open spec fn held_at(s: super::StoreModel, key: Seq<u8>, rec: RecordRef) -> bool {
    match stub_at(s, key) {
        Some(c) => match c.backing() {
            Backing::Log(at) => at.file_id == rec.file_id && at.offset == rec.offset,
            Backing::Segment(_) => false,
        },
        None => false,
    }
}

/// Keys with stubs, mathematically.
pub open spec fn keyed(v: Seq<(Vec<u8>, ColdRef)>) -> Seq<(Seq<u8>, ColdRef)> {
    Seq::new(v.len(), |i: int| (v[i].0@, v[i].1))
}

/// Those of some keys whose records stand in a file, with their stubs.
pub open spec fn in_file(s: super::StoreModel, keys: Seq<Seq<u8>>, file_id: u32) -> Seq<
    (Seq<u8>, ColdRef),
>
    decreases keys.len(),
{
    if keys.len() == 0 {
        Seq::empty()
    } else {
        let before = in_file(s, keys.drop_last(), file_id);
        match stub_at(s, keys.last()) {
            Some(c) => match c.backing() {
                Backing::Log(at) => if at.file_id == file_id {
                    before.push((keys.last(), c))
                } else {
                    before
                },
                Backing::Segment(_) => before,
            },
            None => before,
        }
    }
}

/// Those of some keys that are hashes out of memory with fields whose
/// deadlines have come.
pub open spec fn late_keys(s: super::StoreModel, keys: Seq<Seq<u8>>) -> Seq<Seq<u8>>
    decreases keys.len(),
{
    if keys.len() == 0 {
        Seq::empty()
    } else {
        let before = late_keys(s, keys.drop_last());
        match stub_at(s, keys.last()) {
            Some(c) => if overdue(s, keys.last(), c) {
                before.push(keys.last())
            } else {
                before
            },
            None => before,
        }
    }
}

/// What is told of values that are not in memory.
pub open spec fn stats_of(s: super::StoreModel, log: LogGauges) -> TierStats {
    let t = s.tier->Some_0;
    let stubs = crate::cold::stub_total(s.slots) as u64;
    TierStats {
        budget: t.budget,
        effective_target: crate::tier::target_spec(t, stubs),
        reserved_bytes: t.reserved,
        stub_bytes: stubs,
        demotions_total: t.demotions,
        promotions_total: t.promotions,
        preads_total: t.preads,
        peek_preads_total: t.peek_preads,
        batch_submissions_total: t.batch_submissions,
        cold_keys: crate::cold::cold_count(s.slots) as u64,
        cold_bytes: crate::cold::cold_total(s.slots) as u64,
        vlog_files: log.files,
        vlog_bytes: log.bytes,
        vlog_live_bytes: log.live_bytes,
        vlog_epoch: log.epoch,
    }
}

/// A value that moves out and back is what it was; its deadline, the
/// deadlines of its fields, the watched versions and the events are as if it
/// had never moved.
pub proof fn lemma_demote_promote(s: Store, key: Seq<u8>, rec: RecordRef)
    requires
        s.wf(),
        spill_record(s, key) is Some,
    ensures
        ({
            let (p, kind) = spill_record(s, key)->Some_0;
            let out = demoted(s@, key, left_stub(s, key, rec, kind));
            let v = crate::tier_codec::decoded(kind, p);
            let back = promoted(out, key, v->Ok_0);
            &&& v is Ok
            &&& stub_at(out, key) == Some(left_stub(s, key, rec, kind))
            &&& back == retiered(
                s@,
                TierState {
                    demotions: super::bumped(s@.tier->Some_0.demotions),
                    promotions: super::bumped(s@.tier->Some_0.promotions),
                    tick_wait: 0,
                    tick_skip: 0,
                    ..s@.tier->Some_0
                },
            )
        }),
{
    s.lemma_accounting();
    let (p, kind) = spill_record(s, key)->Some_0;
    crate::tier_codec::lemma_round_trip(s.held(key));
    let out = demoted(s@, key, left_stub(s, key, rec, kind));
    let back = promoted(out, key, crate::tier_codec::decoded(kind, p)->Ok_0);
    assert(back.slots =~= s@.slots);
}

/// A value of the wrong kind is refused without a record being read.
pub proof fn lemma_refused_unread(
    s: super::StoreModel,
    key: Seq<u8>,
    want: ColdKind,
    access: Access,
)
    ensures
        cold_next(s, key, want, access).0 is Err ==> cold_next(s, key, want, access).1
            == super::seen(s, key) && cold_next(s, key, want, access).1.tier == s.tier,
{
}

/// A sweep neither marks a stub as read nor puts its value back, unless
/// deadlines of fields have come: what keys hold stays as it was.
pub proof fn lemma_peek_leaves(s: super::StoreModel, key: Seq<u8>, want: ColdKind)
    requires
        super::hash_ttl::fields_past(super::seen(s, key), key) == Set::<Seq<u8>>::empty(),
    ensures
        cold_next(s, key, want, Access::Peek).1.slots == super::seen(s, key).slots,
        !(cold_next(s, key, want, Access::Peek).0 matches Ok(ColdStep::Promote(_))),
{
}

/// The first read of a value that is out of memory is served from its
/// record; the next one puts it back.
pub proof fn lemma_second_read(s: super::StoreModel, key: Seq<u8>, c: ColdRef)
    requires
        stub_at(s, key) == Some(c),
        !c.touched,
        !overdue(s, key, c),
        !super::key_due(s, key, super::read_now(s)),
    ensures
        ({
            let (one, after) = cold_next(s, key, c.kind, Access::Read);
            let (two, _last) = cold_next(after, key, c.kind, Access::Read);
            &&& one == Ok::<ColdStep, StoreError>(ColdStep::Serve(c))
            &&& two == Ok::<ColdStep, StoreError>(ColdStep::Promote(marked(c)))
        }),
{
    let after = cold_next(s, key, c.kind, Access::Read).1;
    assert(super::hash_ttl::fields_past(after, key) =~= super::hash_ttl::fields_past(s, key));
}

} // verus!
