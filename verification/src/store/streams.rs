//! Stream commands.
use vstd::prelude::*;
use std::sync::Arc;
use super::Store;
use crate::shared::unwrap;
use crate::stream::{copy_fields, AutoclaimResult, EntryBatch, StreamData};
use crate::stream_group::{
    GroupCreateMode, PendingExtended, PendingSummary, ReadGroupId, XClaimOpts,
};
use crate::stream_id::{StreamId, XAddIdSpec};
use crate::stream_read::FieldList;
use crate::types::StoreError;
use crate::value::Value;

verus! {

/// The stream under a key, if there is one.
pub open spec fn stream_at(s: super::StoreModel, key: Seq<u8>) -> Result<
    Option<crate::stream::StreamModel>,
    StoreError,
> {
    if !s.slots.dom().contains(key) {
        Ok(None)
    } else {
        match s.slots[key].value {
            crate::value::Val::Stream(m) => Ok(Some(m)),
            _ => Err(StoreError::WrongType),
        }
    }
}

/// The stream that a command finds under a key.
pub open spec fn stream_read(s: super::StoreModel, key: Seq<u8>) -> Result<
    Option<crate::stream::StreamModel>,
    StoreError,
> {
    stream_at(super::seen(s, key), key)
}

/// A stream in place of the one under a key.
pub open spec fn restreamed(
    s: super::StoreModel,
    key: Seq<u8>,
    m: crate::stream::StreamModel,
) -> super::StoreModel {
    super::revalued(s, key, crate::value::Val::Stream(m))
}

/// A keyspace in which a command changed the stream under a key, whose
/// version moves on if `bump` holds.
pub open spec fn stream_changed(
    s: super::StoreModel,
    key: Seq<u8>,
    m: crate::stream::StreamModel,
    bump: bool,
) -> super::StoreModel {
    let t = restreamed(super::seen(s, key), key, m);
    if bump {
        super::versioned(t, key)
    } else {
        t
    }
}

/// A keyspace in which the key holds a stream, an empty one if it was not
/// there.
pub open spec fn with_stream(s: super::StoreModel, key: Seq<u8>) -> super::StoreModel {
    let t = super::seen(s, key);
    if t.slots.dom().contains(key) {
        t
    } else {
        super::put(
            t,
            key,
            crate::entry::Slot {
                value: crate::value::Val::Stream(crate::stream::empty_stream()),
                expire: None,
            },
        )
    }
}

/// The stream of a key that holds one, or an empty one.
pub open spec fn start_stream(
    o: Option<crate::stream::StreamModel>,
) -> crate::stream::StreamModel {
    match o {
        Some(m) => m,
        None => crate::stream::empty_stream(),
    }
}

/// A stream that is put under a new key whole is as good as an empty one that
/// is put there and then changed.
proof fn lemma_made_whole(t: super::StoreModel, key: Seq<u8>, m: crate::stream::StreamModel)
    ensures
        super::put(
            t,
            key,
            crate::entry::Slot { value: crate::value::Val::Stream(m), expire: None },
        ) == restreamed(
            super::put(
                t,
                key,
                crate::entry::Slot {
                    value: crate::value::Val::Stream(crate::stream::empty_stream()),
                    expire: None,
                },
            ),
            key,
            m,
        ),
{
    let slot = crate::entry::Slot { value: crate::value::Val::Stream(m), expire: None };
    let first = crate::entry::Slot {
        value: crate::value::Val::Stream(crate::stream::empty_stream()),
        expire: None,
    };
    assert(t.slots.insert(key, first).insert(key, slot) =~= t.slots.insert(key, slot));
}

proof fn lemma_stream_clone(a: Arc<StreamData>, b: StreamData)
    requires
        a.wf(),
        *a == b || cloned(*a, b),
    ensures
        b.wf(),
        b@ == a@,
{
}

/// Entries copied out.
fn clone_entries(v: &Vec<(StreamId, &FieldList)>) -> (r: EntryBatch)
    ensures
        r@.len() == v@.len(),
        forall|i: int|
            0 <= i < r@.len() ==> (#[trigger] r@[i]).0 == v@[i].0 && crate::bytes::deep_pairs(
                r@[i].1@,
            ) == crate::bytes::deep_pairs(v@[i].1@),
{
    let mut out: EntryBatch = Vec::new();
    let mut i: usize = 0;
    while i < v.len()
        invariant
            i <= v@.len(),
            out@.len() == i,
            forall|k: int|
                0 <= k < i ==> (#[trigger] out@[k]).0 == v@[k].0 && crate::bytes::deep_pairs(
                    out@[k].1@,
                ) == crate::bytes::deep_pairs(v@[k].1@),
        decreases v@.len() - i,
    {
        let (id, fields) = v[i];
        out.push((id, copy_fields(fields)));
        i = i + 1;
    }
    out
}

impl Store {
    /// Whether there is a stream under a key.
    fn open_stream(&mut self, key: &[u8]) -> (r: Result<bool, StoreError>)
        requires
            old(self).wf(),
        ensures
            final(self).became(*old(self), super::seen(old(self)@, key@)),
            final(self).used() <= old(self).used(),
            match stream_read(old(self)@, key@) {
                Ok(Some(_m)) => r == Ok::<bool, StoreError>(true),
                Ok(None) => r == Ok::<bool, StoreError>(false),
                Err(e) => r == Err::<bool, StoreError>(e),
            },
            final(self).kept_others(*old(self), key@),
            final(self).used_at(*old(self), key@),
    {
        if !self.live(key) {
            return Ok(false);
        }
        match self.value_ref(key) {
            Some(Value::Stream(_)) => Ok(true),
            Some(_) => Err(StoreError::WrongType),
            None => Ok(false),
        }
    }

    /// The stream under a key that holds one.
    fn stream_of(&self, key: &[u8]) -> (r: Option<&StreamData>)
        requires
            self.wf(),
        ensures
            match r {
                Some(s) => stream_at(self@, key@) == Ok::<
                    Option<crate::stream::StreamModel>,
                    StoreError,
                >(Some(s@)) && s.wf(),
                None => !(stream_at(self@, key@) matches Ok(Some(_m))),
            },
    {
        match self.value_ref(key) {
            Some(Value::Stream(a)) => Some(&**a),
            _ => None,
        }
    }

    /// Takes the stream under a key out, to be put back.
    fn lend_stream(&mut self, key: &[u8]) -> (r: StreamData)
        requires
            old(self).wf(),
            old(self)@.slots.dom().contains(key@),
            old(self)@.slots[key@].value is Stream,
        ensures
            final(self).became(
                *old(self),
                super::revalued(
                    old(self)@,
                    key@,
                    crate::value::Val::Str(crate::text::decimal(0)),
                ),
            ),
            final(self).used() <= old(self).used(),
            r.wf(),
            crate::value::Val::Stream(r@) == old(self)@.slots[key@].value,
            final(self).kept_others(*old(self), key@),
            final(self).use_clock() == old(self).use_clock(),
            final(self).mark(key@) == old(self).mark(key@),
    {
        match self.lend(key) {
            Value::Stream(a) => {
                let ghost before = a;
                let r = unwrap(a);
                proof {
                    lemma_stream_clone(before, r);
                }
                r
            },
            _ => {
                assert(false);
                StreamData::new()
            },
        }
    }

    /// Puts a stream back, and moves the key's version on if `bump` holds.
    fn restore_stream(&mut self, key: &[u8], s: StreamData, bump: bool)
        requires
            old(self).wf(),
            old(self)@.slots.dom().contains(key@),
            s.wf(),
        ensures
            final(self).became(
                *old(self),
                if bump {
                    super::versioned(restreamed(old(self)@, key@, s@), key@)
                } else {
                    restreamed(old(self)@, key@, s@)
                },
            ),
            final(self).kept_others(*old(self), key@),
            final(self).use_clock() == old(self).use_clock(),
            final(self).mark(key@) == old(self).mark(key@),
    {
        self.restore(key, Value::Stream(Arc::new(s)));
        if bump {
            self.bump_if_watched(key);
        }
    }

    /// The stream under a key, to look at.
    pub fn stream_view(&mut self, key: &[u8]) -> (r: Result<Option<&StreamData>, StoreError>)
        requires
            old(self).wf(),
        ensures
            final(self).became(*old(self), super::seen(old(self)@, key@)),
            match stream_read(old(self)@, key@) {
                Ok(Some(m)) => (r matches Ok(Some(s)) && s@ == m && s.wf()),
                Ok(None) => r matches Ok(None),
                Err(e) => r matches Err(f) && f == e,
            },
            final(self).kept_others(*old(self), key@),
            final(self).used_at(*old(self), key@),
    {
        match self.open_stream(key) {
            Err(e) => Err(e),
            Ok(false) => Ok(None),
            Ok(true) => Ok(self.stream_of(key)),
        }
    }

    /// Appends an entry to the stream under a key, which is made if it is
    /// not there, unless `nomkstream` holds. Gives the entry's id.
    pub fn xadd(
        &mut self,
        key: &[u8],
        spec: XAddIdSpec,
        fields: Vec<(Vec<u8>, Vec<u8>)>,
        nomkstream: bool,
        now_ms: u64,
    ) -> (r: Result<Option<StreamId>, StoreError>)
        requires
            old(self).wf(),
        ensures
            match stream_read(old(self)@, key@) {
                Ok(None) if nomkstream => r == Ok::<Option<StreamId>, StoreError>(None)
                    && final(self).became(*old(self), super::seen(old(self)@, key@)),
                Err(e) => r == Err::<Option<StreamId>, StoreError>(e) && final(self).became(
                    *old(self),
                    super::seen(old(self)@, key@),
                ),
                Ok(o) => match crate::stream::resolved(start_stream(o).last_id, spec, now_ms) {
                    None => r == Err::<Option<StreamId>, StoreError>(StoreError::OutOfRange)
                        && final(self).became(*old(self), with_stream(old(self)@, key@)),
                    Some(id) => r == Ok::<Option<StreamId>, StoreError>(Some(id)) && final(self).became(
                        *old(self),
                        super::versioned(
                            restreamed(
                                with_stream(old(self)@, key@),
                                key@,
                                crate::stream::appended(
                                    start_stream(o),
                                    id,
                                    crate::bytes::deep_pairs(fields@),
                                ),
                            ),
                            key@,
                        ),
                    ),
                },
            },
            final(self).kept_others(*old(self), key@),
            if nomkstream {
                final(self).used_times(*old(self), old(self)@, key@, 2, 0)
            } else {
                final(self).used_at(*old(self), key@)
            },
    {
        if nomkstream && !self.live(key) {
            return Ok(None);
        }
        proof {
            super::lemma_one_use(*old(self), key@);
            super::lemma_one_use(*self, key@);
            super::lemma_uses(old(self)@, old(self).mark(key@), old(self).use_clock(), 1, 1);
        }
        let there: bool = match self.open_stream(key) {
            Err(e) => {
                return Err(e);
            },
            Ok(there) => there,
        };
        if !there {
            let ghost t = self@;
            let mut s = StreamData::new();
            return match s.resolve_xadd_id(spec, now_ms) {
                Err(e) => {
                    self.insert_entry(key, Value::Stream(Arc::new(s)), None);
                    Err(e)
                },
                Ok(id) => {
                    proof {
                        crate::stream::lemma_resolved_behind(s@.last_id, spec, now_ms);
                    }
                    s.insert(id, fields);
                    self.insert_entry(key, Value::Stream(Arc::new(s)), None);
                    self.bump_if_watched(key);
                    proof {
                        lemma_made_whole(t, key@, s@);
                    }
                    Ok(Some(id))
                },
            };
        }
        let ghost t = self@;
        let id: StreamId = match self.stream_of(key) {
            Some(s) => match s.resolve_xadd_id(spec, now_ms) {
                Ok(id) => {
                    proof {
                        crate::stream::lemma_resolved_behind(s@.last_id, spec, now_ms);
                    }
                    id
                },
                Err(e) => {
                    return Err(e);
                },
            },
            None => {
                return Ok(None);
            },
        };
        let mut s = self.lend_stream(key);
        s.insert(id, fields);
        self.restore_stream(key, s, true);
        proof {
            super::lists::lemma_revalue_twice(
                t,
                key@,
                crate::value::Val::Str(crate::text::decimal(0)),
                crate::value::Val::Stream(s@),
            );
        }
        Ok(Some(id))
    }

    /// How many entries the stream under a key has, 0 if there is none.
    pub fn xlen(&mut self, key: &[u8]) -> (r: Result<u64, StoreError>)
        requires
            old(self).wf(),
        ensures
            final(self).became(*old(self), super::seen(old(self)@, key@)),
            match stream_read(old(self)@, key@) {
                Ok(Some(m)) => r matches Ok(n) && n == m.entries.dom().len(),
                Ok(None) => r == Ok::<u64, StoreError>(0),
                Err(e) => r == Err::<u64, StoreError>(e),
            },
            final(self).kept_others(*old(self), key@),
            final(self).used_at(*old(self), key@),
    {
        match self.open_stream(key) {
            Err(e) => Err(e),
            Ok(false) => Ok(0),
            Ok(true) => match self.stream_of(key) {
                Some(s) => Ok(s.length()),
                None => Ok(0),
            },
        }
    }

    /// The entries of the stream under a key from `start` to `end`, up to
    /// `count` of them.
    pub fn xrange(&mut self, key: &[u8], start: StreamId, end: StreamId, count: Option<usize>) -> (r: Result<EntryBatch, StoreError>)
        requires
            old(self).wf(),
        ensures
            final(self).became(*old(self), super::seen(old(self)@, key@)),
            match stream_read(old(self)@, key@) {
                Ok(Some(m)) => r matches Ok(v) && crate::stream::holds_entries(
                    v@,
                    m.entries,
                    crate::id_map::first_of(crate::id_map::ids_between(m.entries.dom(), start, end), count),
                ),
                Ok(None) => r matches Ok(v) && v@.len() == 0,
                Err(e) => r == Err::<EntryBatch, StoreError>(e),
            },
            final(self).kept_others(*old(self), key@),
            final(self).used_at(*old(self), key@),
    {
        match self.open_stream(key) {
            Err(e) => Err(e),
            Ok(false) => Ok(Vec::new()),
            Ok(true) => match self.stream_of(key) {
                Some(s) => Ok(clone_entries(&s.range(start, end, count))),
                None => Ok(Vec::new()),
            },
        }
    }

    /// The entries of the stream under a key from `end` back to `start`, up to
    /// `count` of them.
    pub fn xrevrange(&mut self, key: &[u8], start: StreamId, end: StreamId, count: Option<usize>) -> (r: Result<EntryBatch, StoreError>)
        requires
            old(self).wf(),
        ensures
            final(self).became(*old(self), super::seen(old(self)@, key@)),
            match stream_read(old(self)@, key@) {
                Ok(Some(m)) => r matches Ok(v) && crate::stream::holds_entries(
                    v@,
                    m.entries,
                    crate::id_map::first_of(crate::id_map::ids_between(m.entries.dom(), start, end).reverse(), count),
                ),
                Ok(None) => r matches Ok(v) && v@.len() == 0,
                Err(e) => r == Err::<EntryBatch, StoreError>(e),
            },
            final(self).kept_others(*old(self), key@),
            final(self).used_at(*old(self), key@),
    {
        match self.open_stream(key) {
            Err(e) => Err(e),
            Ok(false) => Ok(Vec::new()),
            Ok(true) => match self.stream_of(key) {
                Some(s) => Ok(clone_entries(&s.revrange(start, end, count))),
                None => Ok(Vec::new()),
            },
        }
    }

    /// The entries of the stream under a key behind `last_seen`, up to `count`
    /// of them.
    pub fn xread(&mut self, key: &[u8], last_seen: StreamId, count: Option<usize>) -> (r: Result<EntryBatch, StoreError>)
        requires
            old(self).wf(),
        ensures
            final(self).became(*old(self), super::seen(old(self)@, key@)),
            match stream_read(old(self)@, key@) {
                Ok(Some(m)) => r matches Ok(v) && crate::stream::holds_entries(
                    v@,
                    m.entries,
                    crate::id_map::first_of(crate::id_map::ids_after(m.entries.dom(), last_seen), count),
                ),
                Ok(None) => r matches Ok(v) && v@.len() == 0,
                Err(e) => r == Err::<EntryBatch, StoreError>(e),
            },
            final(self).kept_others(*old(self), key@),
            final(self).used_at(*old(self), key@),
    {
        match self.open_stream(key) {
            Err(e) => Err(e),
            Ok(false) => Ok(Vec::new()),
            Ok(true) => match self.stream_of(key) {
                Some(s) => Ok(clone_entries(&s.read_after(last_seen, count))),
                None => Ok(Vec::new()),
            },
        }
    }

    /// The last id of the stream under a key, the lowest one if there is no
    /// such key.
    pub fn xread_dollar_last_id(&mut self, key: &[u8]) -> (r: Result<StreamId, StoreError>)
        requires
            old(self).wf(),
        ensures
            final(self).became(*old(self), super::seen(old(self)@, key@)),
            r == (match stream_read(old(self)@, key@) {
                Ok(Some(m)) => Ok(m.last_id),
                Ok(None) => Ok(crate::stream_id::min_id()),
                Err(e) => Err::<StreamId, StoreError>(e),
            }),
            final(self).kept_others(*old(self), key@),
            final(self).used_at(*old(self), key@),
    {
        match self.open_stream(key) {
            Err(e) => Err(e),
            Ok(false) => Ok(StreamId::min()),
            Ok(true) => match self.stream_of(key) {
                Some(s) => Ok(s.last_id()),
                None => Ok(StreamId::min()),
            },
        }
    }

    /// Removes entries from the stream under a key. Gives how many went.
    pub fn xdel(&mut self, key: &[u8], ids: &[StreamId]) -> (r: Result<u64, StoreError>)
        requires
            old(self).wf(),
        ensures
            match stream_read(old(self)@, key@) {
                Err(e) => r == Err::<u64, StoreError>(e) && final(self).became(
                    *old(self),
                    super::seen(old(self)@, key@),
                ),
                Ok(None) => r == Ok::<u64, StoreError>(0) && final(self).became(
                    *old(self),
                    super::seen(old(self)@, key@),
                ),
                Ok(Some(m)) => {
                    &&& r matches Ok(n)
                    &&& n == m.entries.dom().intersect(ids@.to_set()).len()
                    &&& final(self).became(
                        *old(self),
                        stream_changed(old(self)@, key@, crate::stream::without_ids(m, ids@), n > 0),
                    )
                },
            },
            final(self).kept_others(*old(self), key@),
            final(self).used_at(*old(self), key@),
    {
        match self.open_stream(key) {
            Err(e) => {
                return Err(e);
            },
            Ok(false) => {
                return Ok(0);
            },
            Ok(true) => {},
        }
        let ghost t = self@;
        let mut s = self.lend_stream(key);
        let n: usize = s.del_ids(ids);
        self.restore_stream(key, s, n > 0);
        proof {
            super::lists::lemma_revalue_twice(
                t,
                key@,
                crate::value::Val::Str(crate::text::decimal(0)),
                crate::value::Val::Stream(s@),
            );
        }
        Ok(n as u64)
    }

    /// Cuts the stream under a key down to its last `maxlen` entries. Gives
    /// how many went.
    pub fn xtrim_maxlen(&mut self, key: &[u8], maxlen: u64) -> (r: Result<u64, StoreError>)
        requires
            old(self).wf(),
        ensures
            match stream_read(old(self)@, key@) {
                Err(e) => r == Err::<u64, StoreError>(e) && final(self).became(
                    *old(self),
                    super::seen(old(self)@, key@),
                ),
                Ok(None) => r == Ok::<u64, StoreError>(0) && final(self).became(
                    *old(self),
                    super::seen(old(self)@, key@),
                ),
                Ok(Some(m)) => {
                    &&& r matches Ok(n)
                    &&& n == trimmed(m, maxlen)
                    &&& final(self).became(
                        *old(self),
                        stream_changed(old(self)@, key@, crate::stream::without_oldest(m, n as int), n > 0),
                    )
                },
            },
            final(self).kept_others(*old(self), key@),
            final(self).used_at(*old(self), key@),
    {
        match self.open_stream(key) {
            Err(e) => {
                return Err(e);
            },
            Ok(false) => {
                return Ok(0);
            },
            Ok(true) => {},
        }
        let ghost t = self@;
        let mut s = self.lend_stream(key);
        let len: u64 = s.length();
        let keep: usize = if maxlen < len {
            maxlen as usize
        } else {
            len as usize
        };
        let n: usize = s.trim_maxlen(keep);
        self.restore_stream(key, s, n > 0);
        proof {
            super::lists::lemma_revalue_twice(
                t,
                key@,
                crate::value::Val::Str(crate::text::decimal(0)),
                crate::value::Val::Stream(s@),
            );
        }
        Ok(n as u64)
    }

    /// Removes the entries before an id from the stream under a key. Gives how
    /// many went.
    pub fn xtrim_minid(&mut self, key: &[u8], minid: StreamId) -> (r: Result<u64, StoreError>)
        requires
            old(self).wf(),
        ensures
            match stream_read(old(self)@, key@) {
                Err(e) => r == Err::<u64, StoreError>(e) && final(self).became(
                    *old(self),
                    super::seen(old(self)@, key@),
                ),
                Ok(None) => r == Ok::<u64, StoreError>(0) && final(self).became(
                    *old(self),
                    super::seen(old(self)@, key@),
                ),
                Ok(Some(m)) => {
                    &&& r matches Ok(n)
                    &&& n == crate::stream::older_than(m, minid)
                    &&& final(self).became(
                        *old(self),
                        stream_changed(old(self)@, key@, crate::stream::without_oldest(m, n as int), n > 0),
                    )
                },
            },
            final(self).kept_others(*old(self), key@),
            final(self).used_at(*old(self), key@),
    {
        match self.open_stream(key) {
            Err(e) => {
                return Err(e);
            },
            Ok(false) => {
                return Ok(0);
            },
            Ok(true) => {},
        }
        let ghost t = self@;
        let mut s = self.lend_stream(key);
        let n: usize = s.trim_minid(minid);
        self.restore_stream(key, s, n > 0);
        proof {
            super::lists::lemma_revalue_twice(
                t,
                key@,
                crate::value::Val::Str(crate::text::decimal(0)),
                crate::value::Val::Stream(s@),
            );
        }
        Ok(n as u64)
    }

    /// Sets the last id of the stream under a key, and its other counters as
    /// far as they are given. Refused if there is no such key or if the id
    /// lies before the last entry.
    pub fn xsetid(
        &mut self,
        key: &[u8],
        last_id: StreamId,
        entries_added: Option<u64>,
        max_deleted_id: Option<StreamId>,
    ) -> (r: Result<(), StoreError>)
        requires
            old(self).wf(),
        ensures
            match stream_read(old(self)@, key@) {
                Err(e) => r == Err::<(), StoreError>(e) && final(self).became(
                    *old(self),
                    super::seen(old(self)@, key@),
                ),
                Ok(None) => r == Err::<(), StoreError>(StoreError::NoSuchKey) && final(self).became(*old(self), super::seen(old(self)@, key@)),
                Ok(Some(m)) => if crate::stream::setid_allowed(m, last_id) {
                    r == Ok::<(), StoreError>(()) && final(self).became(
                        *old(self),
                        stream_changed(
                            old(self)@,
                            key@,
                            crate::stream::setid_spec(m, last_id, entries_added, max_deleted_id),
                            true,
                        ),
                    )
                } else {
                    r == Err::<(), StoreError>(StoreError::OutOfRange) && final(self).became(
                        *old(self),
                        super::seen(old(self)@, key@),
                    )
                },
            },
            final(self).kept_others(*old(self), key@),
            final(self).used_at(*old(self), key@),
    {
        match self.open_stream(key) {
            Err(e) => {
                return Err(e);
            },
            Ok(false) => {
                return Err(StoreError::NoSuchKey);
            },
            Ok(true) => {},
        }
        let ghost t = self@;
        let mut s = self.lend_stream(key);
        let ghost m = s@;
        match s.xsetid(last_id, entries_added, max_deleted_id) {
            Ok(_done) => {
                self.restore_stream(key, s, true);
                proof {
                    super::lists::lemma_revalue_twice(
                        t,
                        key@,
                        crate::value::Val::Str(crate::text::decimal(0)),
                        crate::value::Val::Stream(s@),
                    );
                }
                Ok(())
            },
            Err(e) => {
                self.restore_stream(key, s, false);
                proof {
                    super::lists::lemma_revalue_twice(
                        t,
                        key@,
                        crate::value::Val::Str(crate::text::decimal(0)),
                        crate::value::Val::Stream(s@),
                    );
                    assert(self@.slots =~= t.slots);
                }
                Err(e)
            },
        }
    }

    /// Makes a consumer group of the stream under a key, which is made if it
    /// is not there and `mkstream` holds. Says whether the group is new.
    pub fn xgroup_create(
        &mut self,
        key: &[u8],
        group: &[u8],
        mode: GroupCreateMode,
        mkstream: bool,
    ) -> (r: Result<bool, StoreError>)
        requires
            old(self).wf(),
        ensures
            match stream_read(old(self)@, key@) {
                Ok(None) if !mkstream => r == Err::<bool, StoreError>(StoreError::NoSuchKey)
                    && final(self).became(*old(self), super::seen(old(self)@, key@)),
                Err(e) => r == Err::<bool, StoreError>(e) && final(self).became(
                    *old(self),
                    super::seen(old(self)@, key@),
                ),
                Ok(o) => {
                    let m = start_stream(o);
                    &&& r == Ok::<bool, StoreError>(!m.groups.dom().contains(group@))
                    &&& final(self).became(
                        *old(self),
                        super::versioned(
                            restreamed(
                                with_stream(old(self)@, key@),
                                key@,
                                if m.groups.dom().contains(group@) {
                                    m
                                } else {
                                    crate::stream::with_group(
                                        m,
                                        group@,
                                        crate::stream_ops::fresh_group(
                                            crate::stream_ops::start_id(m, mode),
                                        ),
                                    )
                                },
                            ),
                            key@,
                        ),
                    )
                },
            },
            final(self).kept_others(*old(self), key@),
            final(self).used_times(*old(self), old(self)@, key@, 2, 0),
    {
        if !self.live(key) && !mkstream {
            return Err(StoreError::NoSuchKey);
        }
        proof {
            super::lemma_one_use(*old(self), key@);
            super::lemma_one_use(*self, key@);
            super::lemma_uses(old(self)@, old(self).mark(key@), old(self).use_clock(), 1, 1);
        }
        let there: bool = match self.open_stream(key) {
            Err(e) => {
                return Err(e);
            },
            Ok(there) => there,
        };
        if !there {
            let ghost t = self@;
            let mut s = StreamData::new();
            let r = s.group_create(group, mode);
            self.insert_entry(key, Value::Stream(Arc::new(s)), None);
            self.bump_if_watched(key);
            proof {
                lemma_made_whole(t, key@, s@);
            }
            return r;
        }
        let ghost t = self@;
        let mut s = self.lend_stream(key);
        let r = s.group_create(group, mode);
        self.restore_stream(key, s, true);
        proof {
            super::lists::lemma_revalue_twice(
                t,
                key@,
                crate::value::Val::Str(crate::text::decimal(0)),
                crate::value::Val::Stream(s@),
            );
        }
        r
    }

    /// Drops a consumer group of the stream under a key. Says whether there
    /// was one.
    pub fn xgroup_destroy(&mut self, key: &[u8], group: &[u8]) -> (r: Result<bool, StoreError>)
        requires
            old(self).wf(),
        ensures
            match stream_read(old(self)@, key@) {
                Err(e) => r == Err::<bool, StoreError>(e) && final(self).became(
                    *old(self),
                    super::seen(old(self)@, key@),
                ),
                Ok(None) => r == Ok::<bool, StoreError>(false) && final(self).became(
                    *old(self),
                    super::seen(old(self)@, key@),
                ),
                Ok(Some(m)) => {
                    &&& r matches Ok(n)
                    &&& n == m.groups.dom().contains(group@)
                    &&& final(self).became(
                        *old(self),
                        stream_changed(old(self)@, key@, crate::stream::StreamModel { groups: m.groups.remove(group@), ..m }, n),
                    )
                },
            },
            final(self).kept_others(*old(self), key@),
            final(self).used_at(*old(self), key@),
    {
        match self.open_stream(key) {
            Err(e) => {
                return Err(e);
            },
            Ok(false) => {
                return Ok(false);
            },
            Ok(true) => {},
        }
        let ghost t = self@;
        let mut s = self.lend_stream(key);
        let n: bool = s.group_destroy(group);
        self.restore_stream(key, s, n);
        proof {
            super::lists::lemma_revalue_twice(
                t,
                key@,
                crate::value::Val::Str(crate::text::decimal(0)),
                crate::value::Val::Stream(s@),
            );
        }
        Ok(n)
    }

    /// Sets where a consumer group of the stream under a key stands. Says
    /// whether there is such a group.
    pub fn xgroup_setid(&mut self, key: &[u8], group: &[u8], mode: GroupCreateMode) -> (r: Result<bool, StoreError>)
        requires
            old(self).wf(),
        ensures
            match stream_read(old(self)@, key@) {
                Err(e) => r == Err::<bool, StoreError>(e) && final(self).became(
                    *old(self),
                    super::seen(old(self)@, key@),
                ),
                Ok(None) => r == Ok::<bool, StoreError>(false) && final(self).became(
                    *old(self),
                    super::seen(old(self)@, key@),
                ),
                Ok(Some(m)) => {
                    &&& r matches Ok(n)
                    &&& n == m.groups.dom().contains(group@)
                    &&& final(self).became(
                        *old(self),
                        stream_changed(old(self)@, key@, if n {
                            crate::stream::with_group(
                                m,
                                group@,
                                crate::stream_group::GroupModel {
                                    last_delivered: crate::stream_ops::start_id(m, mode),
                                    ..m.groups[group@]
                                },
                            )
                        } else {
                            m
                        }, n),
                    )
                },
            },
            final(self).kept_others(*old(self), key@),
            final(self).used_at(*old(self), key@),
    {
        match self.open_stream(key) {
            Err(e) => {
                return Err(e);
            },
            Ok(false) => {
                return Ok(false);
            },
            Ok(true) => {},
        }
        let ghost t = self@;
        let mut s = self.lend_stream(key);
        let n: bool = s.group_setid(group, mode);
        self.restore_stream(key, s, n);
        proof {
            super::lists::lemma_revalue_twice(
                t,
                key@,
                crate::value::Val::Str(crate::text::decimal(0)),
                crate::value::Val::Stream(s@),
            );
        }
        Ok(n)
    }

    /// Makes a consumer known to a group of the stream under a key. Says
    /// whether it is new.
    pub fn xgroup_create_consumer(&mut self, key: &[u8], group: &[u8], consumer: &[u8], now_ms: u64) -> (r: Result<bool, StoreError>)
        requires
            old(self).wf(),
        ensures
            match stream_read(old(self)@, key@) {
                Err(e) => r == Err::<bool, StoreError>(e) && final(self).became(
                    *old(self),
                    super::seen(old(self)@, key@),
                ),
                Ok(None) => r == Ok::<bool, StoreError>(false) && final(self).became(
                    *old(self),
                    super::seen(old(self)@, key@),
                ),
                Ok(Some(m)) => {
                    &&& r matches Ok(n)
                    &&& n == (m.groups.dom().contains(group@) && !m.groups[group@].consumers.dom().contains(consumer@))
                    &&& final(self).became(
                        *old(self),
                        stream_changed(old(self)@, key@, if m.groups.dom().contains(group@) {
                            crate::stream::with_group(
                                m,
                                group@,
                                crate::stream_group::joined(m.groups[group@], consumer@, now_ms),
                            )
                        } else {
                            m
                        }, false),
                    )
                },
            },
            final(self).kept_others(*old(self), key@),
            final(self).used_at(*old(self), key@),
    {
        match self.open_stream(key) {
            Err(e) => {
                return Err(e);
            },
            Ok(false) => {
                return Ok(false);
            },
            Ok(true) => {},
        }
        let ghost t = self@;
        let mut s = self.lend_stream(key);
        let n: bool = s.group_create_consumer(group, consumer, now_ms);
        self.restore_stream(key, s, false);
        proof {
            super::lists::lemma_revalue_twice(
                t,
                key@,
                crate::value::Val::Str(crate::text::decimal(0)),
                crate::value::Val::Stream(s@),
            );
        }
        Ok(n)
    }

    /// Drops a consumer of a group of the stream under a key, with what was
    /// pending for it. Gives how many entries that was.
    pub fn xgroup_del_consumer(&mut self, key: &[u8], group: &[u8], consumer: &[u8]) -> (r: Result<u64, StoreError>)
        requires
            old(self).wf(),
        ensures
            match stream_read(old(self)@, key@) {
                Err(e) => r == Err::<u64, StoreError>(e) && final(self).became(
                    *old(self),
                    super::seen(old(self)@, key@),
                ),
                Ok(None) => r == Ok::<u64, StoreError>(0) && final(self).became(
                    *old(self),
                    super::seen(old(self)@, key@),
                ),
                Ok(Some(m)) => {
                    &&& r matches Ok(n)
                    &&& n == (if m.groups.dom().contains(group@) {
                        crate::stream_group::rows_of(m.groups[group@].pel, consumer@).len()
                    } else {
                        0
                    })
                    &&& final(self).became(
                        *old(self),
                        stream_changed(old(self)@, key@, if m.groups.dom().contains(group@) {
                            crate::stream::with_group(
                                m,
                                group@,
                                crate::stream_ops::without_consumer(m.groups[group@], consumer@),
                            )
                        } else {
                            m
                        }, false),
                    )
                },
            },
            final(self).kept_others(*old(self), key@),
            final(self).used_at(*old(self), key@),
    {
        match self.open_stream(key) {
            Err(e) => {
                return Err(e);
            },
            Ok(false) => {
                return Ok(0);
            },
            Ok(true) => {},
        }
        let ghost t = self@;
        let mut s = self.lend_stream(key);
        let n: u64 = s.group_del_consumer(group, consumer);
        self.restore_stream(key, s, false);
        proof {
            super::lists::lemma_revalue_twice(
                t,
                key@,
                crate::value::Val::Str(crate::text::decimal(0)),
                crate::value::Val::Stream(s@),
            );
        }
        Ok(n)
    }

    /// Acknowledges entries of a group of the stream under a key. Gives how
    /// many of them were pending.
    pub fn xack(&mut self, key: &[u8], group: &[u8], ids: &[StreamId]) -> (r: Result<u64, StoreError>)
        requires
            old(self).wf(),
        ensures
            match stream_read(old(self)@, key@) {
                Err(e) => r == Err::<u64, StoreError>(e) && final(self).became(
                    *old(self),
                    super::seen(old(self)@, key@),
                ),
                Ok(None) => r == Ok::<u64, StoreError>(0) && final(self).became(
                    *old(self),
                    super::seen(old(self)@, key@),
                ),
                Ok(Some(m)) => {
                    &&& r matches Ok(n)
                    &&& n == (if m.groups.dom().contains(group@) {
                        m.groups[group@].pel.dom().intersect(ids@.to_set()).len()
                    } else {
                        0
                    })
                    &&& final(self).became(
                        *old(self),
                        stream_changed(old(self)@, key@, if m.groups.dom().contains(group@) {
                            crate::stream::with_group(
                                m,
                                group@,
                                crate::stream_ops::acked(m.groups[group@], ids@),
                            )
                        } else {
                            m
                        }, n > 0),
                    )
                },
            },
            final(self).kept_others(*old(self), key@),
            final(self).used_at(*old(self), key@),
    {
        match self.open_stream(key) {
            Err(e) => {
                return Err(e);
            },
            Ok(false) => {
                return Ok(0);
            },
            Ok(true) => {},
        }
        let ghost t = self@;
        let mut s = self.lend_stream(key);
        let n: u64 = s.ack(group, ids);
        self.restore_stream(key, s, n > 0);
        proof {
            super::lists::lemma_revalue_twice(
                t,
                key@,
                crate::value::Val::Str(crate::text::decimal(0)),
                crate::value::Val::Stream(s@),
            );
        }
        Ok(n)
    }

    /// Reads entries of the stream under a key as a consumer of a group: new
    /// ones, or those that are pending for it.
    pub fn xreadgroup(
        &mut self,
        key: &[u8],
        group: &[u8],
        consumer: &[u8],
        last_seen: ReadGroupId,
        count: Option<usize>,
        noack: bool,
        now_ms: u64,
    ) -> (r: Result<EntryBatch, StoreError>)
        requires
            old(self).wf(),
        ensures
            match stream_read(old(self)@, key@) {
                Err(e) => r == Err::<EntryBatch, StoreError>(e) && final(self).became(
                    *old(self),
                    super::seen(old(self)@, key@),
                ),
                Ok(Some(m)) if m.groups.dom().contains(group@) => {
                    &&& r matches Ok(batch)
                    &&& crate::stream::holds_entries(
                        batch@,
                        m.entries,
                        crate::stream_ops::read_ids(
                            m,
                            m.groups[group@],
                            consumer@,
                            last_seen,
                            count,
                        ),
                    )
                    &&& final(self).became(
                        *old(self),
                        stream_changed(
                            old(self)@,
                            key@,
                            crate::stream::with_group(
                                m,
                                group@,
                                crate::stream_ops::read_group(
                                    m,
                                    m.groups[group@],
                                    consumer@,
                                    last_seen,
                                    count,
                                    noack,
                                    now_ms,
                                ),
                            ),
                            batch@.len() > 0,
                        ),
                    )
                },
                Ok(_o) => r == Err::<EntryBatch, StoreError>(StoreError::NoSuchKey) && final(self).became(*old(self), super::seen(old(self)@, key@)),
            },
            final(self).kept_others(*old(self), key@),
            final(self).used_at(*old(self), key@),
    {
        match self.open_stream(key) {
            Err(e) => {
                return Err(e);
            },
            Ok(false) => {
                return Err(StoreError::NoSuchKey);
            },
            Ok(true) => {},
        }
        let ghost t = self@;
        let mut s = self.lend_stream(key);
        let ghost m = s@;
        let got = s.readgroup(group, consumer, last_seen, count, noack, now_ms);
        match got {
            Err(e) => {
                self.restore_stream(key, s, false);
                proof {
                    super::lists::lemma_revalue_twice(
                        t,
                        key@,
                        crate::value::Val::Str(crate::text::decimal(0)),
                        crate::value::Val::Stream(s@),
                    );
                    assert(self@.slots =~= t.slots);
                }
                Err(e)
            },
            Ok(batch) => {
                let some: bool = batch.len() > 0;
                self.restore_stream(key, s, some);
                proof {
                    super::lists::lemma_revalue_twice(
                        t,
                        key@,
                        crate::value::Val::Str(crate::text::decimal(0)),
                        crate::value::Val::Stream(s@),
                    );
                }
                Ok(batch)
            },
        }
    }

    /// Whether a group of the stream under a key has entries that were not
    /// handed out yet.
    pub fn xreadgroup_has_new(&mut self, key: &[u8], group: &[u8]) -> (r: Result<bool, StoreError>)
        requires
            old(self).wf(),
        ensures
            final(self).became(*old(self), super::seen(old(self)@, key@)),
            r == (match stream_read(old(self)@, key@) {
                Ok(Some(m)) => Ok(
                    m.groups.dom().contains(group@) && crate::stream_id::id_lt(
                        m.groups[group@].last_delivered,
                        m.last_id,
                    ),
                ),
                Ok(None) => Ok(false),
                Err(e) => Err::<bool, StoreError>(e),
            }),
            final(self).kept_others(*old(self), key@),
            final(self).used_at(*old(self), key@),
    {
        match self.open_stream(key) {
            Err(e) => Err(e),
            Ok(false) => Ok(false),
            Ok(true) => match self.stream_of(key) {
                None => Ok(false),
                Some(s) => match s.group(group) {
                    None => Ok(false),
                    Some(g) => {
                        let a: StreamId = g.last_delivered_id;
                        let b: StreamId = s.last_id();
                        Ok(a.ms < b.ms || (a.ms == b.ms && a.seq < b.seq))
                    },
                },
            },
        }
    }

    /// What is pending for a group of the stream under a key, in sum.
    pub fn xpending_summary(&mut self, key: &[u8], group: &[u8]) -> (r: Result<
        Option<PendingSummary>,
        StoreError,
    >)
        requires
            old(self).wf(),
        ensures
            final(self).became(*old(self), super::seen(old(self)@, key@)),
            match stream_read(old(self)@, key@) {
                Ok(Some(m)) if m.groups.dom().contains(group@) => r matches Ok(Some(p))
                    && crate::stream_ops::sums_up(p, m.groups[group@].pel),
                Ok(_o) => r matches Ok(None),
                Err(e) => r matches Err(f) && f == e,
            },
            final(self).kept_others(*old(self), key@),
            final(self).used_at(*old(self), key@),
    {
        match self.open_stream(key) {
            Err(e) => Err(e),
            Ok(false) => Ok(None),
            Ok(true) => match self.stream_of(key) {
                None => Ok(None),
                Some(s) => Ok(s.pending_summary(group)),
            },
        }
    }

    /// What is pending for a group of the stream under a key, row by row.
    pub fn xpending_extended(
        &mut self,
        key: &[u8],
        group: &[u8],
        idle_min_ms: Option<u64>,
        start: StreamId,
        end: StreamId,
        count: usize,
        consumer_filter: Option<&[u8]>,
        now_ms: u64,
    ) -> (r: Result<Option<PendingExtended>, StoreError>)
        requires
            old(self).wf(),
        ensures
            final(self).became(*old(self), super::seen(old(self)@, key@)),
            match stream_read(old(self)@, key@) {
                Ok(Some(m)) if m.groups.dom().contains(group@) => r matches Ok(Some(p))
                    && crate::stream_read::tells_of(
                    p.rows@,
                    m.groups[group@].pel,
                    crate::stream_read::wanted_ids(
                        m.groups[group@].pel,
                        idle_min_ms,
                        start,
                        end,
                        count,
                        crate::stream_read::view_of(consumer_filter),
                        now_ms,
                    ),
                    now_ms,
                ),
                Ok(_o) => r matches Ok(None),
                Err(e) => r matches Err(f) && f == e,
            },
            final(self).kept_others(*old(self), key@),
            final(self).used_at(*old(self), key@),
    {
        match self.open_stream(key) {
            Err(e) => Err(e),
            Ok(false) => Ok(None),
            Ok(true) => match self.stream_of(key) {
                None => Ok(None),
                Some(s) => Ok(
                    s.pending_extended(
                        group,
                        idle_min_ms,
                        start,
                        end,
                        count,
                        consumer_filter,
                        now_ms,
                    ),
                ),
            },
        }
    }

    /// Hands entries that are pending for a group of the stream under a key
    /// over to a consumer. Gives those that were handed over and still exist.
    pub fn xclaim(
        &mut self,
        key: &[u8],
        group: &[u8],
        new_owner: &[u8],
        ids: &[StreamId],
        opts: &XClaimOpts,
        now_ms: u64,
    ) -> (r: Result<EntryBatch, StoreError>)
        requires
            old(self).wf(),
        ensures
            match stream_read(old(self)@, key@) {
                Err(e) => r == Err::<EntryBatch, StoreError>(e) && final(self).became(
                    *old(self),
                    super::seen(old(self)@, key@),
                ),
                Ok(Some(m)) if m.groups.dom().contains(group@) => {
                    &&& r matches Ok(batch)
                    &&& crate::stream::holds_entries(
                        batch@,
                        m.entries,
                        crate::id_map::select(
                            crate::stream_claim::claimed_ids(
                                m.groups[group@].pel,
                                m.entries.dom(),
                                ids@,
                                new_owner@,
                                *opts,
                                now_ms,
                            ),
                            crate::stream_ops::exists_in(m),
                        ),
                    )
                    &&& final(self).became(
                        *old(self),
                        stream_changed(
                            old(self)@,
                            key@,
                            crate::stream::with_group(
                                m,
                                group@,
                                crate::stream_ops::claim_group(
                                    m,
                                    m.groups[group@],
                                    new_owner@,
                                    ids@,
                                    *opts,
                                    now_ms,
                                ),
                            ),
                            crate::stream_claim::claimed_ids(
                                m.groups[group@].pel,
                                m.entries.dom(),
                                ids@,
                                new_owner@,
                                *opts,
                                now_ms,
                            ).len() > 0,
                        ),
                    )
                },
                Ok(_o) => r == Err::<EntryBatch, StoreError>(StoreError::NoSuchKey) && final(self).became(*old(self), super::seen(old(self)@, key@)),
            },
            final(self).kept_others(*old(self), key@),
            final(self).used_at(*old(self), key@),
    {
        match self.open_stream(key) {
            Err(e) => {
                return Err(e);
            },
            Ok(false) => {
                return Err(StoreError::NoSuchKey);
            },
            Ok(true) => {},
        }
        let ghost t = self@;
        let mut s = self.lend_stream(key);
        let ghost m = s@;
        let got = s.claim(group, new_owner, ids, opts, now_ms);
        match got {
            Err(e) => {
                self.restore_stream(key, s, false);
                proof {
                    super::lists::lemma_revalue_twice(
                        t,
                        key@,
                        crate::value::Val::Str(crate::text::decimal(0)),
                        crate::value::Val::Stream(s@),
                    );
                    assert(self@.slots =~= t.slots);
                }
                Err(e)
            },
            Ok(batch) => {
                let some: bool = batch.len() > 0;
                let claimed = batch;
                let batch = s.payloads_for(claimed.as_slice());
                assert(crate::stream_ops::exists_in(s@) == crate::stream_ops::exists_in(m));
                self.restore_stream(key, s, some);
                proof {
                    super::lists::lemma_revalue_twice(
                        t,
                        key@,
                        crate::value::Val::Str(crate::text::decimal(0)),
                        crate::value::Val::Stream(s@),
                    );
                }
                Ok(batch)
            },
        }
    }

    /// Hands entries that have been pending for long for a group of the
    /// stream under a key over to a consumer. Gives where to go on, the
    /// entries that still exist, and the ids of those that do not.
    pub fn xautoclaim(
        &mut self,
        key: &[u8],
        group: &[u8],
        new_owner: &[u8],
        min_idle_ms: u64,
        start: StreamId,
        count: usize,
        justid: bool,
        now_ms: u64,
    ) -> (r: Result<(StreamId, EntryBatch, Vec<StreamId>), StoreError>)
        requires
            old(self).wf(),
        ensures
            match stream_read(old(self)@, key@) {
                Err(e) => r == Err::<(StreamId, EntryBatch, Vec<StreamId>), StoreError>(e) && final(self).became(
                    *old(self),
                    super::seen(old(self)@, key@),
                ),
                Ok(Some(m)) if m.groups.dom().contains(group@) => {
                    &&& r matches Ok(got)
                    &&& told_autoclaim(
                        m,
                        m.groups[group@],
                        new_owner@,
                        min_idle_ms,
                        start,
                        count,
                        justid,
                        now_ms,
                        got,
                    )
                    &&& final(self).became(
                        *old(self),
                        stream_changed(
                            old(self)@,
                            key@,
                            crate::stream::with_group(
                                m,
                                group@,
                                crate::stream_ops::claim_group(
                                    m,
                                    m.groups[group@],
                                    new_owner@,
                                    crate::stream_claim::idle_ids(
                                        m.groups[group@].pel,
                                        min_idle_ms,
                                        start,
                                        count,
                                        now_ms,
                                    ),
                                    crate::stream_ops::auto_opts(min_idle_ms, justid),
                                    now_ms,
                                ),
                            ),
                            got.1@.len() > 0,
                        ),
                    )
                },
                Ok(_o) => r == Err::<(StreamId, EntryBatch, Vec<StreamId>), StoreError>(StoreError::NoSuchKey) && final(self).became(*old(self), super::seen(old(self)@, key@)),
            },
            final(self).kept_others(*old(self), key@),
            final(self).used_at(*old(self), key@),
    {
        match self.open_stream(key) {
            Err(e) => {
                return Err(e);
            },
            Ok(false) => {
                return Err(StoreError::NoSuchKey);
            },
            Ok(true) => {},
        }
        let ghost t = self@;
        let mut s = self.lend_stream(key);
        let ghost m = s@;
        let got = s.autoclaim(group, new_owner, min_idle_ms, start, count, justid, now_ms);
        match got {
            Err(e) => {
                self.restore_stream(key, s, false);
                proof {
                    super::lists::lemma_revalue_twice(
                        t,
                        key@,
                        crate::value::Val::Str(crate::text::decimal(0)),
                        crate::value::Val::Stream(s@),
                    );
                    assert(self@.slots =~= t.slots);
                }
                Err(e)
            },
            Ok(got) => {
                let AutoclaimResult { next_cursor, claimed_ids, deleted_ids } = got;
                let payloads = s.payloads_for(claimed_ids.as_slice());
                let some: bool = payloads.len() > 0;
                assert(crate::stream_ops::exists_in(s@) == crate::stream_ops::exists_in(m));
                self.restore_stream(key, s, some);
                proof {
                    super::lists::lemma_revalue_twice(
                        t,
                        key@,
                        crate::value::Val::Str(crate::text::decimal(0)),
                        crate::value::Val::Stream(s@),
                    );
                }
                Ok((next_cursor, payloads, deleted_ids))
            },
        }
    }
}

/// How many entries a stream loses that is cut down to `maxlen`.
pub open spec fn trimmed(m: crate::stream::StreamModel, maxlen: u64) -> int {
    if m.entries.dom().len() <= maxlen {
        0
    } else {
        m.entries.dom().len() - maxlen
    }
}

/// What a hand-over of entries that were pending for long tells.
pub open spec fn told_autoclaim(
    m: crate::stream::StreamModel,
    g: crate::stream_group::GroupModel,
    who: Seq<u8>,
    min_idle: u64,
    start: StreamId,
    count: usize,
    justid: bool,
    now: u64,
    got: (StreamId, EntryBatch, Vec<StreamId>),
) -> bool {
    exists|a: AutoclaimResult|
        #[trigger] crate::stream_ops::autoclaimed(m, g, who, min_idle, start, count, justid, now, a)
            && got.0 == a.next_cursor && got.2@ == a.deleted_ids@ && crate::stream::holds_entries(
            got.1@,
            m.entries,
            crate::id_map::select(a.claimed_ids@, crate::stream_ops::exists_in(m)),
        )
}

/// What was added is read back, behind everything that was there.
pub proof fn lemma_xadd_xread(
    m: crate::stream::StreamModel,
    id: StreamId,
    f: Seq<(Seq<u8>, Seq<u8>)>,
)
    requires
        crate::stream_id::id_lt(m.last_id, id),
    ensures
        crate::stream::appended(m, id, f).entries.dom().contains(id),
        crate::stream::appended(m, id, f).entries[id] == f,
        crate::stream::appended(m, id, f).last_id == id,
        forall|i: StreamId|
            i != id && #[trigger] m.entries.dom().contains(i) ==> crate::stream::appended(
                m,
                id,
                f,
            ).entries.dom().contains(i) && crate::stream::appended(m, id, f).entries[i]
                == m.entries[i],
{
}

} // verus!
