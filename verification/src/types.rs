//! Outcomes, errors and the eviction policy.
use vstd::prelude::*;

verus! {

/// What a rename did.
#[derive(Clone, Copy, Debug, PartialEq, Eq, Structural)]
pub enum RenameOutcome {
    /// The source is gone and the destination holds its value.
    Renamed,
    /// There is no source key.
    NoSuchSrc,
    /// The destination exists and was not to be overwritten.
    DstExists,
    /// The source is a row that lies in a row segment, under its own name
    /// there: it has to be put back in memory first.
    NotInMemory,
}

/// Why an operation was refused.
#[derive(Clone, Copy, Debug, PartialEq, Eq, Structural)]
pub enum StoreError {
    /// The key holds a value of another type.
    WrongType,
    /// The value is not a base-10 integer.
    NotInteger,
    /// The result does not fit an `i64`.
    Overflow,
    /// The index or id lies outside the collection.
    OutOfRange,
    /// The key, which has to exist, does not.
    NoSuchKey,
    /// The value is not a float.
    NotFloat,
    /// The memory limit is reached and nothing may be evicted.
    OutOfMemory,
    /// The value is of the right type, but out of memory: its record has to
    /// be read first.
    NotInMemory,
}

/// Which keys make room when the memory limit is reached.
#[derive(Clone, Copy, Debug, PartialEq, Eq, Structural)]
pub enum EvictionPolicy {
    /// None: writes are refused.
    NoEviction,
    /// The least recently used of all keys, approximately.
    AllKeysLru,
    /// The least frequently used of all keys, approximately.
    AllKeysLfu,
    /// Any key.
    AllKeysRandom,
    /// The least recently used of the keys with a TTL.
    VolatileLru,
    /// The least frequently used of the keys with a TTL.
    VolatileLfu,
    /// Any key with a TTL.
    VolatileRandom,
    /// The key with the shortest remaining TTL.
    VolatileTtl,
}

impl Default for EvictionPolicy {
    fn default() -> (r: Self)
        ensures
            r == EvictionPolicy::NoEviction,
    {
        EvictionPolicy::NoEviction
    }
}

impl EvictionPolicy {
    /// Whether candidates are ranked by when they were last used.
    pub fn uses_lru(self) -> (r: bool)
        ensures
            r == (self is AllKeysLru || self is VolatileLru),
    {
        match self {
            EvictionPolicy::AllKeysLru | EvictionPolicy::VolatileLru => true,
            _ => false,
        }
    }

    /// Whether candidates are ranked by how often they were used.
    pub fn uses_lfu(self) -> (r: bool)
        ensures
            r == (self is AllKeysLfu || self is VolatileLfu),
    {
        match self {
            EvictionPolicy::AllKeysLfu | EvictionPolicy::VolatileLfu => true,
            _ => false,
        }
    }

    /// Whether only keys with a TTL may go.
    pub open spec fn volatile(self) -> bool {
        self is VolatileLru || self is VolatileLfu || self is VolatileRandom || self is VolatileTtl
    }

    /// Whether only keys with a TTL may go.
    pub fn is_volatile(self) -> (r: bool)
        ensures
            r == self.volatile(),
    {
        match self {
            EvictionPolicy::VolatileLru
            | EvictionPolicy::VolatileLfu
            | EvictionPolicy::VolatileRandom
            | EvictionPolicy::VolatileTtl => true,
            _ => false,
        }
    }
}

} // verus!
