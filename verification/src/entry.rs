//! What the keyspace keeps for a key.
use vstd::prelude::*;
use crate::value::Value;

verus! {

/// Most bytes that one key's weight can tell.
pub const WEIGHT_MAX: u32 = u32::MAX;

/// A value with its deadline, its weight and when it was last used.
pub struct Entry {
    /// The value.
    pub value: Value,
    /// When the key expires, in nanoseconds of the store's clock.
    pub expire_at_ns: Option<u64>,
    /// What key and value cost together, at most [`WEIGHT_MAX`].
    pub weight: u32,
    /// When, or how often, the key was used.
    pub lru_clock: u32,
}

/// What a key holds and until when, mathematically.
pub struct Slot {
    /// The value.
    pub value: crate::value::Val,
    /// The deadline.
    pub expire: Option<u64>,
}

/// A deadline, where 0 stands for none.
pub open spec fn packed(deadline: Option<u64>) -> Option<u64> {
    match deadline {
        Some(d) => if d == 0 {
            None
        } else {
            Some(d)
        },
        None => None,
    }
}

/// A deadline, where 0 stands for none.
pub fn pack_deadline(deadline: Option<u64>) -> (r: Option<u64>)
    ensures
        r == packed(deadline),
{
    match deadline {
        Some(d) => if d == 0 {
            None
        } else {
            Some(d)
        },
        None => None,
    }
}

/// The deadline that lies `ttl` nanoseconds behind `now`.
pub open spec fn deadline_spec(now: u64, ttl: nat) -> u64 {
    if now + ttl <= u64::MAX {
        (now + ttl) as u64
    } else {
        u64::MAX
    }
}

/// The deadline that lies `ttl_ns` nanoseconds behind `now_ns`.
pub fn deadline_at(now_ns: u64, ttl_ns: u64) -> (r: u64)
    ensures
        r == deadline_spec(now_ns, ttl_ns as nat),
{
    now_ns.saturating_add(ttl_ns)
}

/// The deadline that lies `ttl_ms` milliseconds behind `now_ns`.
pub fn deadline_at_ms(now_ns: u64, ttl_ms: u64) -> (r: u64)
    ensures
        r == deadline_spec(now_ns, ttl_ms as nat * 1_000_000),
{
    let ns: u128 = ttl_ms as u128 * 1_000_000 + now_ns as u128;
    if ns <= u64::MAX as u128 {
        ns as u64
    } else {
        u64::MAX
    }
}

/// Whole milliseconds from `now` to a deadline, 0 once it is reached.
pub open spec fn remaining_spec(deadline: u64, now: u64) -> u64 {
    if deadline >= now {
        ((deadline - now) / 1_000_000) as u64
    } else {
        0
    }
}

/// Whole milliseconds from `now_ns` to a deadline, 0 once it is reached.
pub fn remaining_ms(deadline: u64, now_ns: u64) -> (r: u64)
    ensures
        r == remaining_spec(deadline, now_ns),
{
    if deadline >= now_ns {
        (deadline - now_ns) / 1_000_000
    } else {
        0
    }
}

/// Whether a deadline has come.
pub open spec fn due(expire: Option<u64>, now: u64) -> bool {
    expire matches Some(d) && d <= now
}

/// The weight of a key of `key_len` bytes that holds `v`.
pub open spec fn weight_spec(key_len: nat, v: Value) -> nat {
    let w = crate::bytes::heap_bytes_spec(key_len) + v.cost();
    if w <= WEIGHT_MAX {
        w
    } else {
        WEIGHT_MAX as nat
    }
}

impl View for Entry {
    type V = Slot;

    open spec fn view(&self) -> Slot {
        Slot { value: self.value@, expire: self.expire_at_ns }
    }
}

impl Entry {
    /// The value is well-formed and the weight is that of key and value.
    pub open spec fn wf(&self, key: Seq<u8>) -> bool {
        &&& self.value.wf()
        &&& self.weight == weight_spec(key.len(), self.value)
        &&& self.expire_at_ns != Some(0u64)
    }

    /// The entry of `key`, which holds `value` until `deadline`.
    pub fn new(key: &[u8], value: Value, deadline: Option<u64>) -> (r: Entry)
        requires
            value.wf(),
        ensures
            r.wf(key@),
            r.value == value,
            r.expire_at_ns == packed(deadline),
            r.lru_clock == 0,
    {
        let weight: u32 = weigh(key.len(), &value);
        Entry { value, expire_at_ns: pack_deadline(deadline), weight, lru_clock: 0 }
    }

    /// Whether the deadline has come.
    pub fn is_expired_at(&self, now: u64) -> (r: bool)
        ensures
            r == due(self.expire_at_ns, now),
    {
        match self.expire_at_ns {
            None => false,
            Some(d) => d <= now,
        }
    }
}

/// The weight of a key of `key_len` bytes that holds `v`.
pub fn weigh(key_len: usize, v: &Value) -> (r: u32)
    requires
        v.wf(),
    ensures
        r == weight_spec(key_len as nat, *v),
{
    let w: u64 = crate::bytes::heap_bytes(key_len).saturating_add(v.weight());
    if w <= WEIGHT_MAX as u64 {
        w as u32
    } else {
        WEIGHT_MAX
    }
}

/// Whether the time until a deadline, told in whole milliseconds, is never
/// longer than it is.
pub proof fn lemma_remaining(deadline: u64, now: u64)
    ensures
        deadline >= now ==> remaining_spec(deadline, now) as int * 1_000_000 <= deadline - now,
        due(Some(deadline), now) ==> remaining_spec(deadline, now) == 0,
{
}

} // verus!
