//! What a call of a command comes to, from what it is given and what is there
//! to what it gives back and what it leaves.
use vstd::prelude::*;
use crate::store::Store;
use crate::value::Val;

pub mod hashes;
pub mod keys;
pub mod lists;
pub mod peeks;
pub mod plain;
pub mod sets;
pub mod small;
pub mod sorted;
pub mod streams;
pub mod strings;
pub mod upkeep;

verus! {

/// The time that a lookup of a key goes by.
pub open spec fn lookup_time(s: Store) -> u64 {
    if s@.use_cached {
        s@.cached
    } else {
        s@.now
    }
}

/// Whether a key is there, with a value, and its deadline, if it has one, is
/// still to come.
pub open spec fn holds(s: Store, k: Seq<u8>, v: Val) -> bool {
    s@.slots.dom().contains(k) && s@.slots[k].value == v && (s@.slots[k].expire matches Some(d)
        ==> lookup_time(s) < d)
}

/// Whether a key is not there, or its deadline has come.
pub open spec fn lacks(s: Store, k: Seq<u8>) -> bool {
    s@.slots.dom().contains(k) ==> (s@.slots[k].expire matches Some(d) && d <= lookup_time(s))
}

/// Whether every key but one is there, with the same value and deadline, just
/// if it was before.
pub open spec fn others_kept(before: Store, after: Store, k: Seq<u8>) -> bool {
    forall|o: Seq<u8>|
        #![trigger after@.slots.dom().contains(o)]
        #![trigger after@.slots[o]]
        o != k ==> after@.slots.dom().contains(o) == before@.slots.dom().contains(o)
            && after@.slots[o] == before@.slots[o]
}

/// Whether a key has the deadline that it had.
pub open spec fn deadline_kept(before: Store, after: Store, k: Seq<u8>) -> bool {
    after@.slots[k].expire == before@.slots[k].expire
}

} // verus!
