//! Commands on keys of any type, and loading.
use vstd::prelude::*;
use std::sync::Arc;
use super::Store;
use crate::bytes::bytes_eq;
use crate::cold::{stub_of, ColdRef};
use crate::entry::{deadline_at, deadline_at_ms, remaining_ms};
use crate::list::{FlatList, SegList};
use crate::list_seg::SEG_PROMOTE;
use crate::score::Score;
use crate::seg_map::HS_PROMOTE;
use crate::sorted::ZSetData;
use crate::stream::{LoadedGroup, LoadedStreamEntry, StreamData};
use crate::stream_id::StreamId;
use crate::table::SegTable;
use crate::tier_codec::{decode, CodecError};
use crate::types::{RenameOutcome, StoreError};
use crate::value::Value;

verus! {

/// A keyspace from which a key was dropped, as expired or as live, if it was
/// there.
pub open spec fn deleted_one(s: super::StoreModel, k: Seq<u8>) -> super::StoreModel {
    let t = super::reaped(s, k, s.now);
    if t.slots.dom().contains(k) {
        super::dropped(t, k)
    } else {
        t
    }
}

/// A keyspace from which keys were dropped, one after the other.
pub open spec fn deleted(s: super::StoreModel, keys: Seq<Seq<u8>>) -> super::StoreModel
    decreases keys.len(),
{
    if keys.len() == 0 {
        s
    } else {
        deleted_one(deleted(s, keys.drop_last()), keys.last())
    }
}

/// How many of those keys were live when their turn came.
pub open spec fn deleted_count(s: super::StoreModel, keys: Seq<Seq<u8>>) -> nat
    decreases keys.len(),
{
    if keys.len() == 0 {
        0
    } else {
        deleted_count(s, keys.drop_last()) + (if super::key_live(
            deleted(s, keys.drop_last()),
            keys.last(),
            s.now,
        ) {
            1nat
        } else {
            0nat
        })
    }
}

/// A keyspace in which keys were looked up, one after the other.
pub open spec fn all_seen(s: super::StoreModel, keys: Seq<Seq<u8>>) -> super::StoreModel
    decreases keys.len(),
{
    if keys.len() == 0 {
        s
    } else {
        super::seen(all_seen(s, keys.drop_last()), keys.last())
    }
}

/// How many of some keys are live, each occurrence counting.
pub open spec fn live_count(s: super::StoreModel, keys: Seq<Seq<u8>>) -> nat
    decreases keys.len(),
{
    if keys.len() == 0 {
        0
    } else {
        live_count(s, keys.drop_last()) + (if super::key_live(
            s,
            keys.last(),
            super::read_now(s),
        ) {
            1nat
        } else {
            0nat
        })
    }
}

/// The deadline that lies so many milliseconds behind the fresh clock.
pub open spec fn deadline_in_ms(s: super::StoreModel, ttl_ms: Option<u64>) -> Option<u64> {
    match ttl_ms {
        Some(ms) => crate::entry::packed(
            Some(crate::entry::deadline_spec(s.now, ms as nat * 1_000_000)),
        ),
        None => None,
    }
}

/// How long a key still has, in milliseconds.
pub open spec fn ttl_left(s: super::StoreModel, key: Seq<u8>) -> Option<u64> {
    match s.slots[key].expire {
        Some(d) => Some(crate::entry::remaining_spec(d, s.now)),
        None => None,
    }
}

/// A keyspace in which a key was loaded.
pub open spec fn loaded(
    s: super::StoreModel,
    key: Seq<u8>,
    v: crate::value::Val,
    ttl_ms: Option<u64>,
) -> super::StoreModel {
    super::put(s, key, crate::entry::Slot { value: v, expire: deadline_in_ms(s, ttl_ms) })
}

/// The stub under a live key, if its value lies in a row segment, where it is
/// found under the key's own name only.
pub open spec fn bound_stub(s: super::StoreModel, key: Seq<u8>) -> Option<ColdRef> {
    if super::key_live(s, key, s.now) {
        match super::tiering::stub_at(s, key) {
            Some(c) => if c.backing() is Segment {
                Some(c)
            } else {
                None
            },
            None => None,
        }
    } else {
        None
    }
}

/// The stub under a live key, if its value is out of memory.
pub open spec fn live_stub(s: super::StoreModel, key: Seq<u8>) -> Option<ColdRef> {
    if super::key_live(s, key, s.now) {
        super::tiering::stub_at(s, key)
    } else {
        None
    }
}

/// What renaming a key comes to, and the keyspace afterwards. A row that lies
/// in a row segment is refused, since the segment knows it by its own name.
pub open spec fn renamed(
    s: super::StoreModel,
    src: Seq<u8>,
    dst: Seq<u8>,
    nx: bool,
) -> (super::StoreModel, RenameOutcome) {
    let t = super::reaped(s, src, s.now);
    if !t.slots.dom().contains(src) {
        (t, RenameOutcome::NoSuchSrc)
    } else if bound_stub(s, src) is Some {
        (t, RenameOutcome::NotInMemory)
    } else if src == dst {
        (
            t,
            if nx {
                RenameOutcome::DstExists
            } else {
                RenameOutcome::Renamed
            },
        )
    } else {
        let u = if nx {
            super::reaped(t, dst, s.now)
        } else {
            t
        };
        if nx && u.slots.dom().contains(dst) {
            (u, RenameOutcome::DstExists)
        } else {
            (
                super::put(super::dropped(super::dropped(u, src), dst), dst, u.slots[src]),
                RenameOutcome::Renamed,
            )
        }
    }
}

/// The entries that a list of them stands for.
pub open spec fn loaded_entries(list: Seq<LoadedStreamEntry>) -> Map<
    StreamId,
    Seq<(Seq<u8>, Seq<u8>)>,
>
    decreases list.len(),
{
    if list.len() == 0 {
        Map::empty()
    } else {
        loaded_entries(list.drop_last()).insert(
            StreamId { ms: list.last().0, seq: list.last().1 },
            crate::bytes::deep_pairs(list.last().2@),
        )
    }
}

/// Whether a value has the encoding in which a copy of another is loaded.
pub open spec fn load_form(from: Value, to: Value) -> bool {
    match from {
        Value::Cold(_) => true,
        Value::Str(b) => crate::value::suits(b@, to),
        Value::Hash(_) | Value::SegHash(_) | Value::SmallHashInline(_) => if from.fields().dom().len()
            > HS_PROMOTE {
            to is SegHash
        } else {
            to is Hash
        },
        Value::List(_) | Value::SegList(_) | Value::SmallListInline(_) => if from.items().len()
            > SEG_PROMOTE {
            to is SegList
        } else {
            to is List
        },
        Value::FlatSet(_) | Value::SegSet(_) | Value::SmallSetInline(_) => if from.members().len()
            > HS_PROMOTE {
            to is SegSet
        } else {
            to is FlatSet
        },
        Value::ZSet(_) | Value::SmallZSetInline(_) => to is ZSet,
        _ => crate::value::same_form(from, to),
    }
}

/// What the use clock shows after `n` more uses.
pub open spec fn clock_past(s: Store, n: nat) -> u64 {
    super::clock_at(s@, s.use_clock(), n)
}

impl Store {
    /// Drops keys. Gives how many of them were live.
    pub fn del(&mut self, keys: &[&[u8]]) -> (r: usize)
        requires
            old(self).wf(),
        ensures
            r == deleted_count(old(self)@, super::lists::referred(keys@)),
            final(self).became(
                *old(self),
                deleted(old(self)@, super::lists::referred(keys@)),
            ),
            forall|k: Seq<u8>|
                #![trigger final(self).held(k)]
                #![trigger final(self).mark(k)]
                !super::lists::referred(keys@).contains(k) ==> final(self).mark(k) == old(
                    self,
                ).mark(k) && final(self).held(k) == old(self).held(k),
            final(self).use_clock() == old(self).use_clock(),
    {
        let ghost s = *self;
        let ghost all = super::lists::referred(keys@);
        let now: u64 = self.now_ns();
        let n: usize = keys.len();
        let mut removed: usize = 0;
        let mut i: usize = 0;
        assert(all.take(0) =~= Seq::empty());
        while i < n
            invariant
                n == keys@.len(),
                all == super::lists::referred(keys@),
                now == s@.now,
                i <= n,
                removed <= i,
                removed == deleted_count(s@, all.take(i as int)),
                s.wf(),
                self.used() <= s.used(),
                forall|k: Seq<u8>|
                    #![trigger self.held(k)]
                    #![trigger self.mark(k)]
                    !all.contains(k) ==> self.held(k) == s.held(k) && self.mark(k) == s.mark(k),
                self.became(s, deleted(s@, all.take(i as int))),
                self@.now == s@.now,
                self.use_clock() == s.use_clock(),
            decreases n - i,
        {
            proof {
                assert(all.take(i + 1).drop_last() =~= all.take(i as int));
                assert(all.take(i + 1).last() == keys@[i as int]@);
            }
            if self.reap(keys[i], now) {
                self.remove_entry(keys[i]);
                removed = removed + 1;
            }
            i = i + 1;
        }
        assert(all.take(n as int) =~= all);
        removed
    }

    /// How many of some keys are live, each occurrence counting.
    pub fn exists_keys(&mut self, keys: &[&[u8]]) -> (r: usize)
        requires
            old(self).wf(),
        ensures
            r == live_count(old(self)@, super::lists::referred(keys@)),
            final(self).became(
                *old(self),
                all_seen(old(self)@, super::lists::referred(keys@)),
            ),
            final(self).use_clock() == clock_past(*old(self), r as nat),
            forall|k: Seq<u8>|
                #![trigger final(self).held(k)]
                #![trigger final(self).mark(k)]
                !super::lists::referred(keys@).contains(k) ==> final(self).held(k) == old(self).held(
                    k,
                ) && final(self).mark(k) == old(self).mark(k),
    {
        let ghost s = *self;
        let ghost all = super::lists::referred(keys@);
        let n: usize = keys.len();
        let mut found: usize = 0;
        let mut i: usize = 0;
        assert(all.take(0) =~= Seq::empty());
        while i < n
            invariant
                n == keys@.len(),
                all == super::lists::referred(keys@),
                i <= n,
                found <= i,
                found == live_count(s@, all.take(i as int)),
                s.wf(),
                self.used() <= s.used(),
                self.became(s, all_seen(s@, all.take(i as int))),
                self.use_clock() == clock_past(s, found as nat),
                super::clocked(self@) == super::clocked(s@),
                forall|k: Seq<u8>|
                    #![trigger self.held(k)]
                    #![trigger self.mark(k)]
                    !all.contains(k) ==> self.held(k) == s.held(k) && self.mark(k) == s.mark(k),
                super::read_now(self@) == super::read_now(s@),
                forall|k: Seq<u8>|
                    #![trigger super::key_live(self@, k, super::read_now(s@))]
                    super::key_live(self@, k, super::read_now(s@)) == super::key_live(
                        s@,
                        k,
                        super::read_now(s@),
                    ),
            decreases n - i,
        {
            let ghost before = self@;
            proof {
                assert(all.take(i + 1).drop_last() =~= all.take(i as int));
                assert(all.take(i + 1).last() == keys@[i as int]@);
                assert(all[i as int] == keys@[i as int]@);
                assert(all.contains(keys@[i as int]@));
                assert(super::key_live(self@, keys@[i as int]@, super::read_now(s@))
                    == super::key_live(s@, keys@[i as int]@, super::read_now(s@)));
            }
            if self.live(keys[i]) {
                found = found + 1;
            }
            proof {
                assert forall|k: Seq<u8>|
                    #![trigger super::key_live(self@, k, super::read_now(s@))]
                    super::key_live(self@, k, super::read_now(s@)) == super::key_live(
                        s@,
                        k,
                        super::read_now(s@),
                    ) by {
                    assert(super::key_live(before, k, super::read_now(s@)) == super::key_live(
                        s@,
                        k,
                        super::read_now(s@),
                    ));
                }
            }
            i = i + 1;
        }
        assert(all.take(n as int) =~= all);
        found
    }

    /// Lets a live key expire `ttl_ns` nanoseconds from now. Says whether
    /// there is such a key.
    pub fn expire(&mut self, key: &[u8], ttl_ns: u64) -> (r: bool)
        requires
            old(self).wf(),
        ensures
            r == super::key_live(old(self)@, key@, old(self)@.now),
            final(self).became(
                *old(self),
                if r {
                    super::redated(
                        old(self)@,
                        key@,
                        crate::entry::packed(
                            Some(crate::entry::deadline_spec(old(self)@.now, ttl_ns as nat)),
                        ),
                    )
                } else {
                    super::reaped(old(self)@, key@, old(self)@.now)
                },
            ),
            final(self).kept_others(*old(self), key@),
            final(self).unused_at(*old(self), key@),
    {
        let now: u64 = self.now_ns();
        if !self.reap(key, now) {
            return false;
        }
        self.set_deadline(key, Some(deadline_at(now, ttl_ns)));
        true
    }

    /// Lets a live key expire at a time of the wall clock, in Unix
    /// milliseconds, or drops it if that has come. Says whether there was
    /// such a key.
    pub fn expire_at_unix_ms(&mut self, key: &[u8], deadline_ms: u64) -> (r: bool)
        requires
            old(self).wf(),
        ensures
            r == super::key_live(old(self)@, key@, old(self)@.now),
            final(self).became(
                *old(self),
                if !r {
                    super::reaped(old(self)@, key@, old(self)@.now)
                } else if deadline_ms <= old(self)@.wall {
                    super::dropped(old(self)@, key@)
                } else {
                    super::redated(
                        old(self)@,
                        key@,
                        deadline_in_ms(
                            old(self)@,
                            Some((deadline_ms - old(self)@.wall) as u64),
                        ),
                    )
                },
            ),
            final(self).kept_others(*old(self), key@),
            final(self).unused_at(*old(self), key@),
    {
        let now: u64 = self.now_ns();
        if !self.reap(key, now) {
            return false;
        }
        let wall: u64 = self.now_unix_ms();
        if deadline_ms <= wall {
            self.remove_entry(key);
            return true;
        }
        self.set_deadline(key, Some(deadline_at_ms(now, deadline_ms - wall)));
        true
    }

    /// Takes a live key out, with how many milliseconds it still has. A value
    /// that is out of memory is refused: its record belongs to this store.
    pub fn take_with_ttl(&mut self, key: &[u8]) -> (r: Result<
        Option<(Value, Option<u64>)>,
        StoreError,
    >)
        requires
            old(self).wf(),
        ensures
            match r {
                Ok(Some((v, ttl))) => super::key_live(old(self)@, key@, old(self)@.now) && v.wf()
                    && live_stub(old(self)@, key@) is None && v == old(self).held(key@) && v@
                    == old(self)@.slots[key@].value && ttl == ttl_left(old(self)@, key@)
                    && final(self).became(*old(self), super::dropped(old(self)@, key@)),
                Ok(None) => !super::key_live(old(self)@, key@, old(self)@.now)
                    && final(self).became(
                    *old(self),
                    super::reaped(old(self)@, key@, old(self)@.now),
                ),
                Err(e) => e == StoreError::NotInMemory && live_stub(old(self)@, key@) is Some
                    && *final(self) == *old(self),
            },
            final(self).kept_others(*old(self), key@),
            final(self).unused_at(*old(self), key@),
    {
        if self.move_step(key).is_some() {
            return Err(StoreError::NotInMemory);
        }
        let now: u64 = self.now_ns();
        if !self.reap(key, now) {
            return Ok(None);
        }
        let ttl: Option<u64> = match self.deadline_of(key) {
            Some(Some(d)) => Some(remaining_ms(d, now)),
            _ => None,
        };
        proof {
            self.lemma_accounting();
        }
        match self.remove_entry(key) {
            Some(v) => Ok(Some((v, ttl))),
            None => Ok(None),
        }
    }

    /// A copy of a live key's value, with how many milliseconds the key
    /// still has. A value that is out of memory is refused: two stubs must
    /// not name one record.
    pub fn clone_with_ttl(&mut self, key: &[u8]) -> (r: Result<
        Option<(Value, Option<u64>)>,
        StoreError,
    >)
        requires
            old(self).wf(),
        ensures
            final(self).became(*old(self), super::reaped(old(self)@, key@, old(self)@.now)),
            match r {
                Ok(Some((v, ttl))) => super::key_live(old(self)@, key@, old(self)@.now) && v.wf()
                    && live_stub(old(self)@, key@) is None && v@ == old(self)@.slots[key@].value
                    && crate::value::same_form(old(self).held(key@), v) && ttl == ttl_left(
                    old(self)@,
                    key@,
                ),
                Ok(None) => !super::key_live(old(self)@, key@, old(self)@.now),
                Err(e) => e == StoreError::NotInMemory && live_stub(old(self)@, key@) is Some,
            },
            final(self).kept_others(*old(self), key@),
            final(self).unused_at(*old(self), key@),
    {
        if self.move_step(key).is_some() {
            return Err(StoreError::NotInMemory);
        }
        let now: u64 = self.now_ns();
        if !self.reap(key, now) {
            return Ok(None);
        }
        let ttl: Option<u64> = match self.deadline_of(key) {
            Some(Some(d)) => Some(remaining_ms(d, now)),
            _ => None,
        };
        match self.value_ref(key) {
            Some(v) => Ok(Some((v.clone(), ttl))),
            None => Ok(None),
        }
    }

    /// A copy of a value that is out of memory, from its record, with how
    /// many milliseconds the key still has; `None` if there is no such value
    /// under the key. The value stays where it is.
    pub fn clone_from_record(&self, key: &[u8], payload: Vec<u8>) -> (r: Result<
        Option<(Value, Option<u64>)>,
        CodecError,
    >)
        requires
            self.wf(),
        ensures
            match live_stub(self@, key@) {
                None => r == Ok::<Option<(Value, Option<u64>)>, CodecError>(None),
                Some(c) => match crate::tier_codec::decoded(c.kind, payload@) {
                    Err(e) => r == Err::<Option<(Value, Option<u64>)>, CodecError>(e),
                    Ok(m) => r matches Ok(Some((v, ttl))) && v.wf() && v@ == m && ttl == ttl_left(
                        self@,
                        key@,
                    ),
                },
            },
    {
        match self.move_step(key) {
            None => Ok(None),
            Some(c) => match decode(c.kind, payload) {
                Err(e) => Err(e),
                Ok(v) => {
                    let ttl: Option<u64> = match self.deadline_of(key) {
                        Some(Some(d)) => Some(remaining_ms(d, self.now_ns())),
                        _ => None,
                    };
                    Ok(Some((v, ttl)))
                },
            },
        }
    }

    /// Binds a key anew, to expire after `ttl_ms` milliseconds if that is
    /// given. The value is in memory: a stub stands for a value only where it
    /// was left.
    pub fn put_with_ttl(&mut self, key: Vec<u8>, value: Value, ttl_ms: Option<u64>)
        requires
            old(self).wf(),
            value.wf(),
            !(value is Cold),
        ensures
            final(self).became(
                *old(self),
                loaded(super::dropped(old(self)@, key@), key@, value@, ttl_ms),
            ),
            final(self).held(key@) == value,
            final(self).kept_others(*old(self), key@),
            final(self).bound_at(*old(self), key@),
    {
        self.remove_entry(key.as_slice());
        self.insert_loaded(key.as_slice(), value, ttl_ms);
    }

    fn insert_loaded(&mut self, key: &[u8], value: Value, ttl_ms: Option<u64>)
        requires
            old(self).wf(),
            value.wf(),
        ensures
            final(self).became(*old(self), loaded(old(self)@, key@, value@, ttl_ms)),
            final(self).held(key@) == value,
            final(self).kept_others(*old(self), key@),
            final(self).bound_at(*old(self), key@),
    {
        let deadline: Option<u64> = match ttl_ms {
            Some(ms) => Some(deadline_at_ms(self.now_ns(), ms)),
            None => None,
        };
        self.insert_entry(key, value, deadline);
    }

    /// Whether a key is live.
    pub fn key_exists(&mut self, key: &[u8]) -> (r: bool)
        requires
            old(self).wf(),
        ensures
            r == super::key_live(old(self)@, key@, old(self)@.now),
            final(self).became(*old(self), super::reaped(old(self)@, key@, old(self)@.now)),
            final(self).kept_others(*old(self), key@),
            final(self).unused_at(*old(self), key@),
    {
        let now: u64 = self.now_ns();
        self.reap(key, now)
    }

    /// What has to be put back in memory before a key can be renamed: the
    /// stub of a live key whose value lies in a row segment.
    pub fn rename_step(&self, src: &[u8]) -> (r: Option<ColdRef>)
        requires
            self.wf(),
        ensures
            r == bound_stub(self@, src@),
    {
        match self.move_step(src) {
            Some(c) => if c.is_seg() {
                Some(c)
            } else {
                None
            },
            None => None,
        }
    }

    /// What has to be read before a key's value can leave this store: the
    /// stub of a live key whose value is out of memory.
    pub fn move_step(&self, key: &[u8]) -> (r: Option<ColdRef>)
        requires
            self.wf(),
        ensures
            r == live_stub(self@, key@),
    {
        if !self.has(key) || self.expired(key, self.now_ns()) {
            return None;
        }
        match self.value_ref(key) {
            Some(v) => stub_of(v),
            None => None,
        }
    }

    /// Moves what a key holds, with its deadline, to another key; with `nx`
    /// only if that one is not there. A row that lies in a row segment is
    /// refused.
    pub fn rename(&mut self, src: &[u8], dst: &[u8], nx: bool) -> (r: RenameOutcome)
        requires
            old(self).wf(),
        ensures
            r == renamed(old(self)@, src@, dst@, nx).1,
            r is Renamed ==> final(self).held(dst@) == old(self).held(src@),
            final(self).became(*old(self), renamed(old(self)@, src@, dst@, nx).0),
            if r is Renamed && src@ != dst@ {
                final(self).bound_at(*old(self), dst@)
            } else {
                final(self).use_clock() == old(self).use_clock()
            },
            forall|k: Seq<u8>|
                #![trigger final(self).held(k)]
                #![trigger final(self).mark(k)]
                k != src@ && k != dst@ ==> final(self).held(k) == old(self).held(k) && final(self).mark(
                    k,
                ) == old(self).mark(k),
    {
        let now: u64 = self.now_ns();
        if !self.reap(src, now) {
            return RenameOutcome::NoSuchSrc;
        }
        if self.rename_step(src).is_some() {
            return RenameOutcome::NotInMemory;
        }
        if bytes_eq(src, dst) {
            return if nx {
                RenameOutcome::DstExists
            } else {
                RenameOutcome::Renamed
            };
        }
        if nx {
            if self.reap(dst, now) {
                return RenameOutcome::DstExists;
            }
        }
        let ghost u = self@;
        let deadline: Option<u64> = match self.deadline_of(src) {
            Some(d) => d,
            None => None,
        };
        proof {
            self.lemma_accounting();
        }
        match self.remove_entry(src) {
            None => RenameOutcome::NoSuchSrc,
            Some(v) => {
                self.remove_entry(dst);
                self.insert_entry(dst, v, deadline);
                RenameOutcome::Renamed
            },
        }
    }

    /// Takes a live key's deadline away. Says whether it had one.
    pub fn persist(&mut self, key: &[u8]) -> (r: bool)
        requires
            old(self).wf(),
        ensures
            r == (super::key_live(old(self)@, key@, old(self)@.now)
                && old(self)@.slots[key@].expire is Some),
            final(self).became(
                *old(self),
                if r {
                    super::redated(old(self)@, key@, None)
                } else {
                    super::reaped(old(self)@, key@, old(self)@.now)
                },
            ),
            final(self).kept_others(*old(self), key@),
            final(self).unused_at(*old(self), key@),
    {
        let now: u64 = self.now_ns();
        if !self.reap(key, now) {
            return false;
        }
        match self.deadline_of(key) {
            Some(Some(_d)) => {
                self.set_deadline(key, None);
                true
            },
            _ => false,
        }
    }

    /// How many milliseconds a live key still has: -2 if there is none, -1 if
    /// it does not expire.
    pub fn pttl(&mut self, key: &[u8]) -> (r: i64)
        requires
            old(self).wf(),
        ensures
            final(self).became(*old(self), super::reaped(old(self)@, key@, old(self)@.now)),
            r == (if !super::key_live(old(self)@, key@, old(self)@.now) {
                -2int
            } else {
                match ttl_left(old(self)@, key@) {
                    Some(ms) => ms as int,
                    None => -1,
                }
            }),
            final(self).kept_others(*old(self), key@),
            final(self).unused_at(*old(self), key@),
    {
        let now: u64 = self.now_ns();
        if !self.reap(key, now) {
            return -2;
        }
        match self.deadline_of(key) {
            Some(Some(d)) => remaining_ms(d, now) as i64,
            _ => -1,
        }
    }

    /// The name of the type of what a live key holds, `none` if there is
    /// none.
    pub fn type_of(&mut self, key: &[u8]) -> (r: &'static str)
        requires
            old(self).wf(),
        ensures
            final(self).became(*old(self), super::reaped(old(self)@, key@, old(self)@.now)),
            r@ == (if super::key_live(old(self)@, key@, old(self)@.now) {
                crate::value::kind_name_spec(old(self)@.slots[key@].value)
            } else {
                "none"@
            }),
            final(self).kept_others(*old(self), key@),
            final(self).unused_at(*old(self), key@),
    {
        let now: u64 = self.now_ns();
        if !self.reap(key, now) {
            return "none";
        }
        match self.value_ref(key) {
            Some(v) => v.kind_name(),
            None => "none",
        }
    }

    /// Loads a string, in the encoding that a store of it would choose.
    pub fn load_str(&mut self, key: Vec<u8>, value: Vec<u8>, ttl_ms: Option<u64>)
        requires
            old(self).wf(),
        ensures
            final(self).became(
                *old(self),
                loaded(old(self)@, key@, crate::value::Val::Str(value@), ttl_ms),
            ),
            crate::value::suits(value@, final(self).held(key@)),
            final(self).kept_others(*old(self), key@),
            final(self).bound_at(*old(self), key@),
    {
        self.insert_loaded(key.as_slice(), Value::pick(value), ttl_ms);
    }

    /// Loads a hash, the last of several pairs for one field counting.
    pub fn load_hash(
        &mut self,
        key: Vec<u8>,
        fields: Vec<(Vec<u8>, Vec<u8>)>,
        ttl_ms: Option<u64>,
    )
        requires
            old(self).wf(),
        ensures
            final(self).became(
                *old(self),
                loaded(
                    old(self)@,
                    key@,
                    crate::value::Val::Hash(
                        crate::value_hash::folded(crate::bytes::deep_pairs(fields@)),
                    ),
                    ttl_ms,
                ),
            ),
            if fields@.len() > HS_PROMOTE {
                final(self).held(key@) is SegHash
            } else {
                final(self).held(key@) is Hash
            },
            final(self).kept_others(*old(self), key@),
            final(self).bound_at(*old(self), key@),
    {
        let flat = crate::value_hash::flat_of(&fields);
        let v = if fields.len() > HS_PROMOTE {
            Value::SegHash(Arc::new(SegTable::from_flat(flat)))
        } else {
            Value::Hash(Arc::new(flat))
        };
        self.insert_loaded(key.as_slice(), v, ttl_ms);
    }

    /// Loads a list.
    pub fn load_list(&mut self, key: Vec<u8>, items: Vec<Vec<u8>>, ttl_ms: Option<u64>)
        requires
            old(self).wf(),
        ensures
            final(self).became(
                *old(self),
                loaded(
                    old(self)@,
                    key@,
                    crate::value::Val::List(crate::bytes::deep(items@)),
                    ttl_ms,
                ),
            ),
            if items@.len() > SEG_PROMOTE {
                final(self).held(key@) is SegList
            } else {
                final(self).held(key@) is List
            },
            final(self).kept_others(*old(self), key@),
            final(self).bound_at(*old(self), key@),
    {
        let n: usize = items.len();
        let flat = FlatList::from_vec(items);
        let v = if n > SEG_PROMOTE {
            Value::SegList(Arc::new(SegList::from_flat(flat)))
        } else {
            Value::List(Arc::new(flat))
        };
        self.insert_loaded(key.as_slice(), v, ttl_ms);
    }

    /// Loads a set, members given twice counting once.
    pub fn load_set(&mut self, key: Vec<u8>, members: Vec<Vec<u8>>, ttl_ms: Option<u64>)
        requires
            old(self).wf(),
        ensures
            final(self).became(
                *old(self),
                loaded(
                    old(self)@,
                    key@,
                    crate::value::Val::Members(crate::bytes::deep(members@).to_set()),
                    ttl_ms,
                ),
            ),
            if members@.len() > HS_PROMOTE {
                final(self).held(key@) is SegSet
            } else {
                final(self).held(key@) is FlatSet
            },
            final(self).kept_others(*old(self), key@),
            final(self).bound_at(*old(self), key@),
    {
        let flat = crate::value_set::flat_of(&members);
        let v = if members.len() > HS_PROMOTE {
            Value::SegSet(Arc::new(SegTable::from_flat(flat)))
        } else {
            Value::FlatSet(Arc::new(flat))
        };
        self.insert_loaded(key.as_slice(), v, ttl_ms);
    }

    /// Loads a sorted set. A member given twice has the score that it was
    /// given last.
    pub fn load_zset(&mut self, key: Vec<u8>, pairs: Vec<(Vec<u8>, Score)>, ttl_ms: Option<u64>)
        requires
            old(self).wf(),
        ensures
            final(self).became(
                *old(self),
                loaded(
                    old(self)@,
                    key@,
                    crate::value::Val::Sorted(
                        super::zsets::overlaid(Map::empty(), crate::sorted::pairs(pairs@)),
                    ),
                    ttl_ms,
                ),
            ),
            final(self).held(key@) is ZSet,
            final(self).kept_others(*old(self), key@),
            final(self).bound_at(*old(self), key@),
    {
        let ghost all = crate::sorted::pairs(pairs@);
        let mut z = ZSetData::new();
        let mut i: usize = 0;
        assert(all.take(0) =~= Seq::empty());
        while i < pairs.len()
            invariant
                z.wf(),
                all == crate::sorted::pairs(pairs@),
                i <= pairs@.len(),
                z@ == super::zsets::overlaid(Map::empty(), all.take(i as int)),
            decreases pairs@.len() - i,
        {
            proof {
                assert(all[i as int] == (pairs@[i as int].0@, pairs@[i as int].1));
                assert(all.take(i + 1).drop_last() =~= all.take(i as int));
                assert(all.take(i + 1).last() == all[i as int]);
            }
            z.insert(pairs[i].0.as_slice(), pairs[i].1);
            i = i + 1;
        }
        assert(all.take(all.len() as int) =~= all);
        self.insert_loaded(key.as_slice(), Value::ZSet(Arc::new(z)), ttl_ms);
    }

    /// Loads a copy of a value, collections in the encoding that loading
    /// their elements gives. A stub names a record of the store that it comes
    /// from, so it is passed over.
    pub fn load_value(&mut self, key: &[u8], value: &Value, ttl_ms: Option<u64>)
        requires
            old(self).wf(),
            value.wf(),
        ensures
            value is Cold ==> *final(self) == *old(self),
            !(value is Cold) ==> final(self).became(
                *old(self),
                loaded(old(self)@, key@, value@, ttl_ms),
            ),
            final(self).kept_others(*old(self), key@),
            !(value is Cold) ==> final(self).bound_at(*old(self), key@),
            load_form(*value, final(self).held(key@)),
    {
        let k = crate::bytes::copy_bytes(key);
        match value {
            Value::Cold(_) => {},
            Value::Str(b) => {
                self.load_str(k, crate::bytes::copy_bytes(b.as_slice()), ttl_ms);
            },
            Value::Hash(_) | Value::SegHash(_) | Value::SmallHashInline(_) => {
                let pairs = value.hash_pairs();
                proof {
                    crate::value_hash::lemma_folded(crate::bytes::deep_pairs(pairs@));
                }
                self.load_hash(k, pairs, ttl_ms);
            },
            Value::List(_) | Value::SegList(_) | Value::SmallListInline(_) => {
                let items = value.list_all();
                assert(crate::bytes::deep(items@).len() == items@.len());
                self.load_list(k, items, ttl_ms);
            },
            Value::FlatSet(_) | Value::SegSet(_) | Value::SmallSetInline(_) => {
                proof {
                    value.lemma_order();
                }
                self.load_set(k, value.set_members(), ttl_ms);
            },
            Value::ZSet(_) | Value::SmallZSetInline(_) => {
                let n: usize = value.zset_len();
                let pairs = value.zset_slice(0, n);
                proof {
                    value.lemma_scores();
                    let s = crate::sorted::ranked(value.scores());
                    assert(s.subrange(0, n as int) =~= s);
                    super::zsets::lemma_overlaid(value.scores(), s);
                    assert forall|m: Seq<u8>| #[trigger]
                        value.scores().dom().contains(m) implies exists|i: int|
                        0 <= i < s.len() && (#[trigger] s[i]).0 == m by {
                        assert(s.contains((m, value.scores()[m])));
                        let i = choose|i: int| 0 <= i < s.len() && s[i] == (m, value.scores()[m]);
                        assert(s[i].0 == m);
                    }
                    assert(super::zsets::overlaid(Map::empty(), s) =~= value.scores());
                }
                self.load_zset(k, pairs, ttl_ms);
            },
            _ => {
                self.insert_loaded(key, value.clone(), ttl_ms);
            },
        }
    }

    /// Loads a stream: its entries, its counters and its consumer groups.
    pub fn load_stream(
        &mut self,
        key: Vec<u8>,
        entries: Vec<LoadedStreamEntry>,
        last_id: (u64, u64),
        max_deleted_id: (u64, u64),
        entries_added: u64,
        groups: Vec<LoadedGroup>,
        ttl_ms: Option<u64>,
    )
        requires
            old(self).wf(),
        ensures
            final(self).became(
                *old(self),
                loaded(
                    old(self)@,
                    key@,
                    crate::value::Val::Stream(
                        (crate::stream::StreamModel {
                            entries: loaded_entries(entries@),
                            last_id: (StreamId { ms: last_id.0, seq: last_id.1 }),
                            max_deleted: (StreamId {
                                ms: max_deleted_id.0,
                                seq: max_deleted_id.1,
                            }),
                            added: entries_added,
                            groups: crate::stream_load::imported(Map::empty(), groups@),
                        }),
                    ),
                    ttl_ms,
                ),
            ),
            final(self).kept_others(*old(self), key@),
            final(self).bound_at(*old(self), key@),
    {
        let mut s = StreamData::new();
        let ghost s0 = s@;
        let mut i: usize = 0;
        assert(entries@.take(0) =~= Seq::empty());
        assert(s@.entries =~= Map::empty());
        while i < entries.len()
            invariant
                s.wf(),
                i <= entries@.len(),
                s@ == (crate::stream::StreamModel {
                    entries: loaded_entries(entries@.take(i as int)),
                    ..s0
                }),
            decreases entries@.len() - i,
        {
            proof {
                assert(entries@.take(i + 1).drop_last() =~= entries@.take(i as int));
                assert(entries@.take(i + 1).last() == entries@[i as int]);
            }
            let id = StreamId { ms: entries[i].0, seq: entries[i].1 };
            let fields = crate::stream::copy_fields(&entries[i].2);
            s.load_entry(id, fields);
            i = i + 1;
        }
        assert(entries@.take(entries@.len() as int) =~= entries@);
        s.set_loaded_state(
            StreamId { ms: last_id.0, seq: last_id.1 },
            StreamId { ms: max_deleted_id.0, seq: max_deleted_id.1 },
            entries_added,
        );
        s.import_groups(groups);
        self.insert_loaded(key.as_slice(), Value::Stream(Arc::new(s)), ttl_ms);
    }
}

/// A key that was renamed holds what it held, until the same time, under the
/// other name, and not under its own. It was no row of a row segment, so that
/// what it holds stands for the same value under either name.
pub proof fn lemma_rename(s: super::StoreModel, src: Seq<u8>, dst: Seq<u8>, nx: bool)
    requires
        src != dst,
        renamed(s, src, dst, nx).1 is Renamed,
    ensures
        super::key_live(s, src, s.now),
        renamed(s, src, dst, nx).0.slots.dom().contains(dst),
        renamed(s, src, dst, nx).0.slots[dst] == s.slots[src],
        bound_stub(s, src) is None,
        !renamed(s, src, dst, nx).0.slots.dom().contains(src),
        nx ==> !super::key_live(s, dst, s.now),
{
}

/// A row that lies in a row segment is refused as it is. Once it is back in
/// memory, it is renamed like any other value: the other name holds the row,
/// until the same time, and nothing of what that name held before.
pub proof fn lemma_rename_row(
    s: super::StoreModel,
    src: Seq<u8>,
    dst: Seq<u8>,
    nx: bool,
    v: crate::value::Val,
)
    requires
        src != dst,
        bound_stub(s, src) is Some,
        !(v is Cold),
        nx ==> !super::key_live(s, dst, s.now),
    ensures
        renamed(s, src, dst, nx) == (s, RenameOutcome::NotInMemory),
        ({
            let t = super::tiering::promoted(s, src, v);
            let (u, r) = renamed(t, src, dst, nx);
            &&& bound_stub(t, src) is None
            &&& r is Renamed
            &&& u.slots.dom().contains(dst)
            &&& u.slots[dst] == (crate::entry::Slot { value: v, expire: s.slots[src].expire })
            &&& !u.slots.dom().contains(src)
        }),
{
}

/// A key that was taken out and put back elsewhere at the same time holds
/// what it held and expires no later, and less than a millisecond earlier.
pub proof fn lemma_take_put(
    s: super::StoreModel,
    key: Seq<u8>,
    other: super::StoreModel,
    dst: Seq<u8>,
)
    requires
        super::key_live(s, key, s.now),
        s.now > 0,
        other.now == s.now,
        s.slots[key].expire != Some(0u64),
    ensures
        ({
            let t = loaded(
                super::dropped(other, dst),
                dst,
                s.slots[key].value,
                ttl_left(s, key),
            );
            &&& t.slots.dom().contains(dst)
            &&& t.slots[dst].value == s.slots[key].value
            &&& match s.slots[key].expire {
                None => t.slots[dst].expire is None,
                Some(d) => t.slots[dst].expire matches Some(e) && e <= d && d - e < 1_000_000,
            }
        }),
{
}

/// A key that has no deadline is never dropped for its age.
pub proof fn lemma_immortal(s: super::StoreModel, key: Seq<u8>, t: u64)
    requires
        s.slots.dom().contains(key),
        s.slots[key].expire is None,
    ensures
        super::reaped(s, key, t) == s,
        super::seen(s, key) == s,
{
}

/// An expired key is absent to every later lookup, and is noted once.
pub proof fn lemma_expired_once(s: super::StoreModel, key: Seq<u8>, t: u64, u: u64)
    requires
        super::key_due(s, key, t),
    ensures
        !super::reaped(s, key, t).slots.dom().contains(key),
        super::reaped(s, key, t).expired == s.expired.push(key),
        super::reaped(super::reaped(s, key, t), key, u) == super::reaped(s, key, t),
{
}

} // verus!
