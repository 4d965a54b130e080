//! When values move out of memory and back: the rules.
use vstd::prelude::*;
use crate::types::EvictionPolicy;

verus! {

/// Most values that move out in one run.
pub const SPILL_BATCH: usize = 32;

/// Values that weigh less stay in memory.
pub const MIN_SPILL_BYTES: u32 = 64;

/// Values move out until this many twentieths of the budget are in use.
pub const WATERMARK_NUM: u64 = 19;

/// See [`WATERMARK_NUM`].
pub const WATERMARK_DEN: u64 = 20;

/// How many times in a row a value may be kept back before a run ends.
pub const MAX_MISSES: u32 = 3;

/// A file of the spill log is rewritten when less than this many percent of
/// it are still needed.
pub const COMPACT_LIVE_PCT: u64 = 50;

/// Most ticks that a dry run makes pass.
pub const BACKOFF_CEILING_TICKS: u32 = 512;

/// How far values may stay in memory, and what moved so far.
#[derive(Clone, Copy, Debug, PartialEq, Eq, Structural)]
pub struct TierState {
    /// The memory that the values should stay under.
    pub budget: u64,
    /// Which values move out first.
    pub policy: EvictionPolicy,
    /// The largest value that may move out, 0 for any.
    pub max_spill: u64,
    /// Memory that is used beside the keyspace and cannot be made free.
    pub reserved: u64,
    /// How many values moved out.
    pub demotions: u64,
    /// How many moved back.
    pub promotions: u64,
    /// Records read.
    pub preads: u64,
    /// Records read without a mark that the key was used.
    pub peek_preads: u64,
    /// Batches of records asked for.
    pub batch_submissions: u64,
    /// Ticks to let pass before the next run.
    pub tick_wait: u32,
    /// How many ticks the last dry run made pass.
    pub tick_skip: u32,
}

/// What is told of the spill log itself.
#[derive(Clone, Copy, Debug, PartialEq, Eq, Structural)]
pub struct LogGauges {
    /// Its files.
    pub files: u64,
    /// Their bytes.
    pub bytes: u64,
    /// The bytes of records that are still needed.
    pub live_bytes: u64,
    /// How many files were retired.
    pub epoch: u64,
}

/// What is told of values that are not in memory.
#[derive(Clone, Copy, Debug, PartialEq, Eq, Structural)]
pub struct TierStats {
    /// The memory that the values should stay under.
    pub budget: u64,
    /// The memory use that runs aim at; 0 if what cannot be made free is
    /// past the budget by itself.
    pub effective_target: u64,
    /// Memory that is used beside the keyspace and cannot be made free.
    pub reserved_bytes: u64,
    /// What the stubs cost.
    pub stub_bytes: u64,
    /// How many values moved out.
    pub demotions_total: u64,
    /// How many moved back.
    pub promotions_total: u64,
    /// Records read.
    pub preads_total: u64,
    /// Records read without a mark that the key was used.
    pub peek_preads_total: u64,
    /// Batches of records asked for.
    pub batch_submissions_total: u64,
    /// How many values are in the spill log.
    pub cold_keys: u64,
    /// What they cost in memory.
    pub cold_bytes: u64,
    /// Files of the spill log.
    pub vlog_files: u64,
    /// Their bytes.
    pub vlog_bytes: u64,
    /// The bytes of records that are still needed.
    pub vlog_live_bytes: u64,
    /// How many files were retired.
    pub vlog_epoch: u64,
}

/// All zero: what is told where values never move.
pub open spec fn no_stats() -> TierStats {
    TierStats {
        budget: 0,
        effective_target: 0,
        reserved_bytes: 0,
        stub_bytes: 0,
        demotions_total: 0,
        promotions_total: 0,
        preads_total: 0,
        peek_preads_total: 0,
        batch_submissions_total: 0,
        cold_keys: 0,
        cold_bytes: 0,
        vlog_files: 0,
        vlog_bytes: 0,
        vlog_live_bytes: 0,
        vlog_epoch: 0,
    }
}

impl Default for TierStats {
    fn default() -> (r: Self)
        ensures
            r == no_stats(),
    {
        TierStats {
            budget: 0,
            effective_target: 0,
            reserved_bytes: 0,
            stub_bytes: 0,
            demotions_total: 0,
            promotions_total: 0,
            preads_total: 0,
            peek_preads_total: 0,
            batch_submissions_total: 0,
            cold_keys: 0,
            cold_bytes: 0,
            vlog_files: 0,
            vlog_bytes: 0,
            vlog_live_bytes: 0,
            vlog_epoch: 0,
        }
    }
}

/// What a store starts with when its values begin to move.
pub open spec fn fresh_tier(budget: u64) -> TierState {
    TierState {
        budget,
        policy: EvictionPolicy::AllKeysLru,
        max_spill: 0,
        reserved: 0,
        demotions: 0,
        promotions: 0,
        preads: 0,
        peek_preads: 0,
        batch_submissions: 0,
        tick_wait: 0,
        tick_skip: 0,
    }
}

/// `a` less `b`, or 0.
pub open spec fn cut(a: u64, b: u64) -> u64 {
    if a >= b {
        (a - b) as u64
    } else {
        0
    }
}

/// 19 twentieths of a budget.
pub open spec fn watermark_spec(budget: u64) -> u64 {
    let n = if budget * WATERMARK_NUM > u64::MAX {
        u64::MAX as int
    } else {
        budget * WATERMARK_NUM
    };
    (n / WATERMARK_DEN as int) as u64
}

/// 19 twentieths of a budget.
pub fn watermark(budget: u64) -> (r: u64)
    ensures
        r == watermark_spec(budget),
{
    let wide: u128 = budget as u128 * WATERMARK_NUM as u128;
    let held: u64 = if wide > u64::MAX as u128 {
        u64::MAX
    } else {
        wide as u64
    };
    held / WATERMARK_DEN
}

/// The memory use that runs aim at: 19 twentieths of the budget, less what
/// cannot be made free.
pub open spec fn target_spec(t: TierState, stubs: u64) -> u64 {
    cut(cut(watermark_spec(t.budget), t.reserved), stubs)
}

/// The memory use that runs aim at: 19 twentieths of the budget, less what
/// cannot be made free.
pub fn effective_target(t: &TierState, stubs: u64) -> (r: u64)
    ensures
        r == target_spec(*t, stubs),
{
    watermark(t.budget).saturating_sub(t.reserved).saturating_sub(stubs)
}

/// Whether `extra` bytes more that cannot be made free leave no room.
pub open spec fn blocked_spec(t: TierState, stubs: u64, extra: u64) -> bool {
    t.reserved + extra >= cut(watermark_spec(t.budget), stubs)
}

/// Whether `extra` bytes more that cannot be made free leave no room.
pub fn floor_blocked(t: &TierState, stubs: u64, extra: u64) -> (r: bool)
    ensures
        r == blocked_spec(*t, stubs, extra),
{
    t.reserved.saturating_add(extra) >= watermark(t.budget).saturating_sub(stubs)
}

/// Where there is no room for nothing more, the aim of runs is 0.
pub proof fn lemma_blocked(t: TierState, stubs: u64)
    ensures
        blocked_spec(t, stubs, 0) <==> target_spec(t, stubs) == 0,
{
}

/// How a run of values that move out stands.
#[derive(Clone, Copy, Debug, PartialEq, Eq, Structural)]
pub struct SpillRun {
    /// How many moved.
    pub demoted: usize,
    /// How many were kept back since the last that moved.
    pub misses: u32,
}

impl SpillRun {
    /// A run at its start.
    pub fn start() -> (r: SpillRun)
        ensures
            r == (SpillRun { demoted: 0, misses: 0 }),
    {
        SpillRun { demoted: 0, misses: 0 }
    }

    /// Whether the run may go on.
    pub open spec fn open(self) -> bool {
        self.demoted < SPILL_BATCH && self.misses < MAX_MISSES
    }

    /// Whether the run may go on: fewer values moved than may in one run,
    /// and not too many were kept back in a row.
    pub fn is_open(self) -> (r: bool)
        ensures
            r == self.open(),
    {
        self.demoted < SPILL_BATCH && self.misses < MAX_MISSES
    }

    /// Notes whether a value moved or was kept back.
    pub fn note(&mut self, moved: bool)
        requires
            old(self).open(),
        ensures
            *final(self) == (if moved {
                SpillRun { demoted: (old(self).demoted + 1) as usize, misses: 0 }
            } else {
                SpillRun { demoted: old(self).demoted, misses: (old(self).misses + 1) as u32 }
            }),
    {
        if moved {
            self.demoted = self.demoted + 1;
            self.misses = 0;
        } else {
            self.misses = self.misses + 1;
        }
    }
}

/// How many ticks a dry run makes pass, given how many the last one did.
pub open spec fn next_skip(skip: u32) -> u32 {
    if skip == 0 {
        1
    } else if 2 * skip <= BACKOFF_CEILING_TICKS {
        (2 * skip) as u32
    } else {
        BACKOFF_CEILING_TICKS
    }
}

/// How many ticks a dry run makes pass, given how many the last one did:
/// twice as many, from 1 up to [`BACKOFF_CEILING_TICKS`].
pub fn backoff(skip: u32) -> (r: u32)
    ensures
        r == next_skip(skip),
{
    if skip == 0 {
        1
    } else if skip <= BACKOFF_CEILING_TICKS / 2 {
        2 * skip
    } else {
        BACKOFF_CEILING_TICKS
    }
}

/// Ticks that pass never exceed the ceiling, and grow until they reach it.
pub proof fn lemma_backoff(skip: u32)
    requires
        skip <= BACKOFF_CEILING_TICKS,
    ensures
        1 <= next_skip(skip) <= BACKOFF_CEILING_TICKS,
        next_skip(skip) > skip || next_skip(skip) == BACKOFF_CEILING_TICKS,
{
}

/// Whether a file of the spill log is to be rewritten, by how much of it is
/// still needed.
pub fn compact_due(live: u64, total: u64) -> (r: bool)
    ensures
        r == (live * 100 < total * COMPACT_LIVE_PCT),
{
    assert(total * COMPACT_LIVE_PCT == total * 50) by (nonlinear_arith);
    let needed: u128 = live as u128 * 100;
    let bound: u128 = total as u128 * COMPACT_LIVE_PCT as u128;
    needed < bound
}

} // verus!
