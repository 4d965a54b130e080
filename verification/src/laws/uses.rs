//! Uses of keys: the clock that counts them and the marks that they leave.
use vstd::prelude::*;
use crate::evict::touched;
use crate::store::{clock_at, clocked, mark_at, marking, StoreModel};
use crate::types::EvictionPolicy;

verus! {

/// Uses are counted just where keys are evicted or values move out of memory;
/// elsewhere neither clock nor marks move.
pub proof fn lemma_counted(s: StoreModel, mark: u32, c: u64, n: nat)
    ensures
        s.limit == 0 && s.tier is None ==> clock_at(s, c, n) == c && mark_at(s, mark, c, n) == mark,
        (s.limit > 0 || s.tier is Some) && c + n <= u64::MAX ==> clock_at(s, c, n) == c + n,
        clock_at(s, c, 0) == c,
        mark_at(s, mark, c, 0) == mark,
{
}

/// Where the last use counts, a key is marked with the clock of its last use,
/// so that of two keys the one used later has the greater mark.
pub proof fn lemma_last_use(s: StoreModel, mark: u32, c: u64, n: nat)
    requires
        clocked(s),
        marking(s) is AllKeysLru || marking(s) is VolatileLru,
        n > 0,
        c + n <= u32::MAX,
    ensures
        mark_at(s, mark, c, n) == c + n,
        mark_at(s, mark, c, n) == clock_at(s, c, n),
{
}

/// Where it counts how often a key is used, a use raises the count by one or
/// leaves it, and where neither counts, a use leaves the mark alone.
pub proof fn lemma_one_use(mark: u32, policy: EvictionPolicy, clock: u32)
    ensures
        policy is AllKeysLfu || policy is VolatileLfu ==> touched(mark, policy, clock) / 256 == mark
            / 256 && (touched(mark, policy, clock) % 256 == mark % 256 || touched(
            mark,
            policy,
            clock,
        ) % 256 == mark % 256 + 1),
        policy is NoEviction || policy is AllKeysRandom || policy is VolatileRandom
            || policy is VolatileTtl ==> touched(mark, policy, clock) == mark,
        policy is AllKeysLru || policy is VolatileLru ==> touched(mark, policy, clock) == clock,
{
    let low = (mark & 0xFFu32) as u8;
    let next = crate::evict::lfu_spec(low, clock);
    assert(mark & 0xFFu32 == mark % 256) by (bit_vector);
    assert(((mark & 0xFFFF_FF00u32) | (next as u32)) / 256 == mark / 256) by (bit_vector);
    assert(((mark & 0xFFFF_FF00u32) | (next as u32)) % 256 == next as u32) by (bit_vector);
}

/// Marks go by the policy of eviction where there is a limit, and by that of
/// moves where there is none.
pub proof fn lemma_which_policy(s: StoreModel)
    ensures
        s.limit > 0 ==> marking(s) == s.policy,
        s.limit == 0 ==> (s.tier matches Some(t) ==> marking(s) == t.policy),
{
}

} // verus!
