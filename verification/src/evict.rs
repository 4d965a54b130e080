//! How keys are ranked when some have to go.
use vstd::prelude::*;
use crate::entry::remaining_ms;
use crate::types::EvictionPolicy;

verus! {

/// How many keys are looked at for each one that goes.
pub const N_SAMPLES: usize = 5;

/// Eviction goes on until this many twentieths of the limit are in use.
pub const HEADROOM_NUM: u64 = 19;

/// See [`HEADROOM_NUM`].
pub const HEADROOM_DEN: u64 = 20;

/// Most keys that go in one call.
pub const MAX_EVICTIONS_PER_CALL: usize = 1_000_000;

/// Below this the use counter always steps.
pub const LFU_INIT_VAL: u8 = 5;

/// How fast the steps of the use counter get rarer.
pub const LFU_LOG_FACTOR: u32 = 10;

/// Where the use counter stops.
pub const LFU_COUNTER_MAX: u8 = 255;

/// A scrambled `x`.
pub open spec fn splitmix32_spec(x: u32) -> u32 {
    let a = x.wrapping_add(0x9E37_79B9u32);
    let b = (a ^ (a >> 16)).wrapping_mul(0x85EB_CA6Bu32);
    let c = (b ^ (b >> 13)).wrapping_mul(0xC2B2_AE35u32);
    c ^ (c >> 16)
}

/// A scrambled `x`.
pub fn splitmix32(x: u32) -> (r: u32)
    ensures
        r == splitmix32_spec(x),
{
    let a: u32 = x.wrapping_add(0x9E37_79B9u32);
    let b: u32 = (a ^ (a >> 16)).wrapping_mul(0x85EB_CA6Bu32);
    let c: u32 = (b ^ (b >> 13)).wrapping_mul(0xC2B2_AE35u32);
    c ^ (c >> 16)
}

/// One chance in how many the use counter steps.
pub open spec fn lfu_odds(counter: u8) -> u32 {
    if counter <= LFU_INIT_VAL {
        1
    } else {
        ((counter - LFU_INIT_VAL) * LFU_LOG_FACTOR + 1) as u32
    }
}

/// The use counter after one more use at `clock`.
pub open spec fn lfu_spec(counter: u8, clock: u32) -> u8 {
    if counter == LFU_COUNTER_MAX {
        counter
    } else if lfu_odds(counter) == 1 || splitmix32_spec(clock) % lfu_odds(counter) == 0 {
        (counter + 1) as u8
    } else {
        counter
    }
}

/// The use counter after one more use at `clock`: the higher it is, the
/// rarer it steps.
pub fn lfu_log_incr(counter: u8, clock: u32) -> (r: u8)
    ensures
        r == lfu_spec(counter, clock),
{
    if counter == LFU_COUNTER_MAX {
        return counter;
    }
    let odds: u32 = if counter <= LFU_INIT_VAL {
        1
    } else {
        (counter - LFU_INIT_VAL) as u32 * LFU_LOG_FACTOR + 1
    };
    if odds == 1 || splitmix32(clock) % odds == 0 {
        counter + 1
    } else {
        counter
    }
}

/// A use never lowers the counter, never moves it by more than one, and
/// always moves a counter that is not above where counters start.
pub proof fn lemma_lfu_step(counter: u8, clock: u32)
    ensures
        counter <= lfu_spec(counter, clock) <= counter + 1,
        counter <= LFU_INIT_VAL ==> lfu_spec(counter, clock) == counter + 1,
{
}

/// A key's use mark after one more use at `clock`.
pub open spec fn touched(mark: u32, policy: EvictionPolicy, clock: u32) -> u32 {
    if policy is AllKeysLru || policy is VolatileLru {
        clock
    } else if policy is AllKeysLfu || policy is VolatileLfu {
        (mark & 0xFFFF_FF00u32) | (lfu_spec((mark & 0xFFu32) as u8, clock) as u32)
    } else {
        mark
    }
}

/// A key's use mark after one more use at `clock`.
pub fn touch_on_access(mark: u32, policy: EvictionPolicy, clock: u32) -> (r: u32)
    ensures
        r == touched(mark, policy, clock),
{
    if policy.uses_lru() {
        clock
    } else if policy.uses_lfu() {
        let counter: u8 = (mark & 0xFFu32) as u8;
        (mark & 0xFFFF_FF00u32) | (lfu_log_incr(counter, clock) as u32)
    } else {
        mark
    }
}

/// How much a key deserves to stay: the lowest goes first.
pub open spec fn score_spec(
    mark: u32,
    expire: Option<u64>,
    policy: EvictionPolicy,
    now: u64,
    clock: u32,
) -> int {
    match policy {
        EvictionPolicy::AllKeysLru | EvictionPolicy::VolatileLru => mark as int,
        EvictionPolicy::AllKeysLfu | EvictionPolicy::VolatileLfu => (mark & 0xFFu32) as int,
        EvictionPolicy::AllKeysRandom | EvictionPolicy::VolatileRandom => splitmix32_spec(
            clock ^ mark,
        ) as int,
        EvictionPolicy::VolatileTtl => match expire {
            Some(d) => crate::entry::remaining_spec(d, now) as int,
            None => i64::MAX as int,
        },
        EvictionPolicy::NoEviction => i64::MAX as int,
    }
}

/// How much a key deserves to stay: the lowest goes first.
pub fn score_entry(
    mark: u32,
    expire: Option<u64>,
    policy: EvictionPolicy,
    now: u64,
    clock: u32,
) -> (r: i64)
    ensures
        r == score_spec(mark, expire, policy, now, clock),
{
    match policy {
        EvictionPolicy::AllKeysLru | EvictionPolicy::VolatileLru => mark as i64,
        EvictionPolicy::AllKeysLfu | EvictionPolicy::VolatileLfu => (mark & 0xFFu32) as i64,
        EvictionPolicy::AllKeysRandom | EvictionPolicy::VolatileRandom => splitmix32(
            clock ^ mark,
        ) as i64,
        EvictionPolicy::VolatileTtl => match expire {
            Some(d) => {
                let left: u64 = remaining_ms(d, now);
                assert(left <= 18_446_744_073_710);
                left as i64
            },
            None => i64::MAX,
        },
        EvictionPolicy::NoEviction => i64::MAX,
    }
}

} // verus!
