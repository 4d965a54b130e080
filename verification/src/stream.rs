//! Streams: append-only logs of entries under ascending ids, with the
//! consumer groups that read them.
use vstd::prelude::*;
use crate::byte_map::ByteMap;
use crate::bytes::{copy_bytes, heap_bytes};
use crate::id_map::IdMap;
use crate::stream_group::ConsumerGroup;
use crate::stream_id::{id_before, id_same, StreamId, XAddIdSpec};
use crate::stream_read::FieldList;
use crate::types::StoreError;

verus! {

/// Bytes that one slot of an ordered table costs.
pub const BTREE_SLOT_BYTES: u64 = 64;

/// Bytes that one entry costs besides its slot and its fields.
pub const STREAM_ENTRY_BYTES: u64 = 24;

/// Bytes that one field-value pair costs besides its heap bytes.
pub const STREAM_PAIR_BYTES: u64 = 48;

/// Entries, copied out.
pub type EntryBatch = Vec<(StreamId, FieldList)>;

/// A pending entry as plain values: the two parts of its id, the owner,
/// the delivery time and the delivery count.
pub type LoadedPelEntry = (u64, u64, Vec<u8>, u64, u32);

/// An entry as plain values: the two parts of its id and its fields.
pub type LoadedStreamEntry = (u64, u64, FieldList);

/// A consumer group as plain values.
pub struct LoadedGroup {
    /// The group's name.
    pub name: Vec<u8>,
    /// The two parts of the last id handed out.
    pub last_delivered: (u64, u64),
    /// Each consumer's name and when it was last seen.
    pub consumers: Vec<(Vec<u8>, u64)>,
    /// Every pending entry.
    pub pel: Vec<LoadedPelEntry>,
}

/// What an automatic claim did.
pub struct AutoclaimResult {
    /// Where the next call goes on.
    pub next_cursor: StreamId,
    /// The ids that were claimed.
    pub claimed_ids: Vec<StreamId>,
    /// The ids that no longer exist.
    pub deleted_ids: Vec<StreamId>,
}

/// A stream.
pub struct StreamData {
    /// The entries.
    pub entries: IdMap<FieldList>,
    /// The last id ever added, also once its entry is gone.
    pub last_id: StreamId,
    /// The last id ever deleted.
    pub max_deleted_id: StreamId,
    /// The number of entries ever added.
    pub entries_added: u64,
    /// The consumer groups, by name.
    pub groups: ByteMap<ConsumerGroup>,
    /// The bytes that the entries cost, at most `u64::MAX`.
    pub bytes: u64,
}

/// A stream, mathematically.
#[verifier::ext_equal]
pub struct StreamModel {
    /// The entries.
    pub entries: Map<StreamId, Seq<(Seq<u8>, Seq<u8>)>>,
    /// The last id ever added.
    pub last_id: StreamId,
    /// The last id ever deleted.
    pub max_deleted: StreamId,
    /// The number of entries ever added.
    pub added: u64,
    /// The consumer groups.
    pub groups: Map<Seq<u8>, crate::stream_group::GroupModel>,
}

/// The fields of the entries of a table.
pub open spec fn entries_model(m: Map<StreamId, FieldList>) -> Map<
    StreamId,
    Seq<(Seq<u8>, Seq<u8>)>,
> {
    Map::new(
        |id: StreamId| m.dom().contains(id),
        |id: StreamId| crate::bytes::deep_pairs(m[id]@),
    )
}

/// The groups of a table.
pub open spec fn groups_model(m: Map<Seq<u8>, ConsumerGroup>) -> Map<
    Seq<u8>,
    crate::stream_group::GroupModel,
> {
    Map::new(|n: Seq<u8>| m.dom().contains(n), |n: Seq<u8>| m[n]@)
}

impl View for StreamData {
    type V = StreamModel;

    open spec fn view(&self) -> StreamModel {
        StreamModel {
            entries: entries_model(self.entries@),
            last_id: self.last_id,
            max_deleted: self.max_deleted_id,
            added: self.entries_added,
            groups: groups_model(self.groups@),
        }
    }
}

/// A stream without entries.
pub open spec fn empty_stream() -> StreamModel {
    StreamModel {
        entries: Map::empty(),
        last_id: crate::stream_id::min_id(),
        max_deleted: crate::stream_id::min_id(),
        added: 0,
        groups: Map::empty(),
    }
}

/// A stream with one group replaced.
pub open spec fn with_group(
    s: StreamModel,
    name: Seq<u8>,
    g: crate::stream_group::GroupModel,
) -> StreamModel {
    StreamModel { groups: s.groups.insert(name, g), ..s }
}

/// The id behind `last` within millisecond `ms`.
pub open spec fn follow(last: StreamId, ms: u64) -> Option<StreamId> {
    if ms != last.ms {
        Some(StreamId { ms, seq: 0 })
    } else if last.seq < u64::MAX {
        Some(StreamId { ms, seq: (last.seq + 1) as u64 })
    } else {
        None
    }
}

/// The id that an append gets, if there is one behind `last`.
pub open spec fn resolved(last: StreamId, spec: XAddIdSpec, now: u64) -> Option<StreamId> {
    match spec {
        XAddIdSpec::AutoAll => follow(
            last,
            if now > last.ms {
                now
            } else {
                last.ms
            },
        ),
        XAddIdSpec::AutoSeq(ms) => if ms < last.ms {
            None
        } else {
            follow(last, ms)
        },
        XAddIdSpec::Explicit(id) => if crate::stream_id::id_lt(last, id) {
            Some(id)
        } else {
            None
        },
    }
}

/// An append's id is behind every id of the stream before it.
pub proof fn lemma_resolved_behind(last: StreamId, spec: XAddIdSpec, now: u64)
    ensures
        resolved(last, spec, now) matches Some(id) ==> crate::stream_id::id_lt(last, id),
{
}

/// A stream after an entry was appended.
pub open spec fn appended(
    s: StreamModel,
    id: StreamId,
    fields: Seq<(Seq<u8>, Seq<u8>)>,
) -> StreamModel {
    StreamModel {
        entries: s.entries.insert(id, fields),
        last_id: id,
        added: if s.added < u64::MAX {
            (s.added + 1) as u64
        } else {
            u64::MAX
        },
        ..s
    }
}

/// The last of `floor` and of those of `ids` that exist.
pub open spec fn latest_of(ids: Seq<StreamId>, alive: Set<StreamId>, floor: StreamId) -> StreamId
    decreases ids.len(),
{
    if ids.len() == 0 {
        floor
    } else {
        let m = latest_of(ids.drop_last(), alive, floor);
        if alive.contains(ids.last()) {
            crate::stream_id::id_max(m, ids.last())
        } else {
            m
        }
    }
}

/// A stream after `ids` were deleted.
pub open spec fn without_ids(s: StreamModel, ids: Seq<StreamId>) -> StreamModel {
    StreamModel {
        entries: s.entries.remove_keys(ids.to_set()),
        max_deleted: latest_of(ids, s.entries.dom(), s.max_deleted),
        ..s
    }
}

/// A stream after its `k` oldest entries were dropped.
pub open spec fn without_oldest(s: StreamModel, k: int) -> StreamModel {
    let gone = crate::id_map::sorted_ids(s.entries.dom()).take(k);
    StreamModel {
        entries: s.entries.remove_keys(gone.to_set()),
        max_deleted: if k == 0 {
            s.max_deleted
        } else {
            crate::stream_id::id_max(s.max_deleted, gone.last())
        },
        ..s
    }
}

/// How many entries come before `floor`.
pub open spec fn older_than(s: StreamModel, floor: StreamId) -> nat {
    s.entries.dom().filter(|id: StreamId| crate::stream_id::id_lt(id, floor)).len()
}

/// Whether `out` holds the entries `ids` of the stream, in order.
pub open spec fn holds_entries(
    out: Seq<(StreamId, FieldList)>,
    entries: Map<StreamId, Seq<(Seq<u8>, Seq<u8>)>>,
    ids: Seq<StreamId>,
) -> bool {
    &&& out.len() == ids.len()
    &&& forall|i: int|
        0 <= i < out.len() ==> (#[trigger] out[i]).0 == ids[i] && entries.dom().contains(ids[i])
            && crate::bytes::deep_pairs(out[i].1@) == entries[ids[i]]
}

/// Whether `out` refers to the entries `ids` of the stream, in order.
pub open spec fn refers_to(
    out: Seq<(StreamId, &FieldList)>,
    entries: Map<StreamId, Seq<(Seq<u8>, Seq<u8>)>>,
    ids: Seq<StreamId>,
) -> bool {
    &&& out.len() == ids.len()
    &&& forall|i: int|
        0 <= i < out.len() ==> (#[trigger] out[i]).0 == ids[i] && entries.dom().contains(ids[i])
            && crate::bytes::deep_pairs(out[i].1@) == entries[ids[i]]
}

/// The bytes that a field list costs.
pub open spec fn pairs_cost(f: Seq<(Seq<u8>, Seq<u8>)>) -> nat
    decreases f.len(),
{
    if f.len() == 0 {
        0
    } else {
        pairs_cost(f.drop_last()) + STREAM_PAIR_BYTES as nat + crate::bytes::heap_bytes_spec(
            f.last().0.len(),
        ) + crate::bytes::heap_bytes_spec(f.last().1.len())
    }
}

/// The bytes that an entry costs.
pub open spec fn entry_cost(f: Seq<(Seq<u8>, Seq<u8>)>) -> nat {
    (BTREE_SLOT_BYTES + STREAM_ENTRY_BYTES) as nat + pairs_cost(f)
}

/// What the entries of a stream cost, id by id.
pub open spec fn entry_costs(m: Map<StreamId, Seq<(Seq<u8>, Seq<u8>)>>) -> Map<StreamId, nat> {
    Map::new(|id: StreamId| m.dom().contains(id), |id: StreamId| entry_cost(m[id]))
}

/// The bytes that a stream costs.
pub open spec fn stream_cost(s: StreamModel) -> nat {
    crate::weigh::total(entry_costs(s.entries))
}

/// What putting an entry in does to the cost.
proof fn lemma_cost_insert(
    m: Map<StreamId, Seq<(Seq<u8>, Seq<u8>)>>,
    id: StreamId,
    f: Seq<(Seq<u8>, Seq<u8>)>,
)
    requires
        m.dom().finite(),
    ensures
        crate::weigh::total(entry_costs(m.insert(id, f))) == crate::weigh::total(
            entry_costs(m.remove(id)),
        ) + entry_cost(f),
        m.dom().contains(id) ==> crate::weigh::total(entry_costs(m)) == crate::weigh::total(
            entry_costs(m.remove(id)),
        ) + entry_cost(m[id]),
        !m.dom().contains(id) ==> crate::weigh::total(entry_costs(m)) == crate::weigh::total(
            entry_costs(m.remove(id)),
        ),
{
    let c = entry_costs(m);
    assert(c.dom() =~= m.dom());
    assert(entry_costs(m.insert(id, f)) =~= c.insert(id, entry_cost(f)));
    assert(entry_costs(m.remove(id)) =~= c.remove(id));
    crate::weigh::lemma_total_insert(c, id, entry_cost(f));
}

/// A copy of a field list.
pub fn copy_fields(f: &FieldList) -> (r: FieldList)
    ensures
        crate::bytes::deep_pairs(r@) == crate::bytes::deep_pairs(f@),
{
    let mut out: FieldList = Vec::with_capacity(f.len());
    let mut i: usize = 0;
    while i < f.len()
        invariant
            i <= f@.len(),
            out@.len() == i,
            forall|j: int|
                0 <= j < i ==> (#[trigger] out@[j]).0@ == f@[j].0@ && out@[j].1@ == f@[j].1@,
        decreases f@.len() - i,
    {
        out.push((copy_bytes(f[i].0.as_slice()), copy_bytes(f[i].1.as_slice())));
        i = i + 1;
    }
    assert(crate::bytes::deep_pairs(out@) =~= crate::bytes::deep_pairs(f@));
    out
}

/// The bytes that an entry with these fields costs, at most `u64::MAX`.
pub fn stream_entry_weight(f: &FieldList) -> (r: u64)
    ensures
        r == crate::list_data::capped(entry_cost(crate::bytes::deep_pairs(f@))),
{
    let ghost d = crate::bytes::deep_pairs(f@);
    let mut sum: u64 = BTREE_SLOT_BYTES + STREAM_ENTRY_BYTES;
    let mut i: usize = 0;
    assert(d.take(0) =~= Seq::empty());
    while i < f.len()
        invariant
            d == crate::bytes::deep_pairs(f@),
            i <= f@.len(),
            sum == crate::list_data::capped(entry_cost(d.take(i as int))),
        decreases f@.len() - i,
    {
        proof {
            assert(d.take(i + 1).drop_last() =~= d.take(i as int));
            assert(d.take(i + 1).last() == d[i as int]);
        }
        let a: u64 = heap_bytes(f[i].0.len());
        let b: u64 = heap_bytes(f[i].1.len());
        sum = sum.saturating_add(STREAM_PAIR_BYTES).saturating_add(a).saturating_add(b);
        i = i + 1;
    }
    assert(d.take(d.len() as int) =~= d);
    sum
}

impl StreamData {
    /// The tables are well-formed and the cost is counted.
    pub open spec fn wf(&self) -> bool {
        &&& self.bytes == crate::list_data::capped(stream_cost(self@))
        &&& self.entries.wf()
        &&& self.groups.wf()
        &&& forall|n: Seq<u8>| #[trigger]
            self.groups@.dom().contains(n) ==> self.groups@[n].wf()
    }

    /// A stream without entries.
    pub fn new() -> (r: StreamData)
        ensures
            r.wf(),
            r@ == empty_stream(),
    {
        let r = StreamData {
            entries: IdMap::new(),
            last_id: StreamId::min(),
            max_deleted_id: StreamId::min(),
            entries_added: 0,
            groups: ByteMap::new(),
            bytes: 0,
        };
        proof {
            assert(r@.entries =~= Map::empty());
            assert(r@.groups =~= Map::empty());
            assert(entry_costs(r@.entries) =~= Map::empty());
            crate::weigh::lemma_total_empty::<StreamId>();
        }
        r
    }

    /// The entry ids in order are those of the model.
    proof fn lemma_entry_ids(&self)
        requires
            self.wf(),
        ensures
            self@.entries.dom() == self.entries@.dom(),
            self.entries.ids() == crate::id_map::sorted_ids(self@.entries.dom()),
            self.entries.ids().len() == self@.entries.dom().len(),
            self@.entries.dom().finite(),
    {
        self.entries.lemma_ids();
        assert(self@.entries.dom() =~= self.entries@.dom());
    }

    /// Number of entries.
    pub fn length(&self) -> (r: u64)
        requires
            self.wf(),
        ensures
            r == self@.entries.dom().len(),
            r <= usize::MAX,
    {
        proof {
            self.lemma_entry_ids();
        }
        self.entries.len() as u64
    }

    /// The last id ever added.
    pub fn last_id(&self) -> (r: StreamId)
        ensures
            r == self@.last_id,
    {
        self.last_id
    }

    /// The number of entries ever added.
    pub fn entries_added(&self) -> (r: u64)
        ensures
            r == self@.added,
    {
        self.entries_added
    }

    /// The last id ever deleted.
    pub fn max_deleted_id(&self) -> (r: StreamId)
        ensures
            r == self@.max_deleted,
    {
        self.max_deleted_id
    }

    /// References to the entries at the places `lo..hi`.
    fn refs(&self, lo: usize, hi: usize) -> (r: Vec<(StreamId, &FieldList)>)
        requires
            self.wf(),
            lo <= hi <= self.entries.ids().len(),
        ensures
            refers_to(r@, self@.entries, self.entries.ids().subrange(lo as int, hi as int)),
    {
        let mut out: Vec<(StreamId, &FieldList)> = Vec::new();
        let mut i: usize = lo;
        let ghost q = self.entries.ids();
        while i < hi
            invariant
                self.wf(),
                q == self.entries.ids(),
                lo <= i <= hi <= q.len(),
                refers_to(out@, self@.entries, q.subrange(lo as int, i as int)),
            decreases hi - i,
        {
            let id: StreamId = self.entries.id_of(i);
            let f = self.entries.value_of(i);
            out.push((id, f));
            assert(self@.entries[id] == crate::bytes::deep_pairs(f@));
            assert(q.subrange(lo as int, i + 1) =~= q.subrange(lo as int, i as int).push(id));
            i = i + 1;
        }
        out
    }

    /// Every entry, in id order.
    pub fn iter_entries(&self) -> (r: Vec<(StreamId, &FieldList)>)
        requires
            self.wf(),
        ensures
            refers_to(r@, self@.entries, crate::id_map::sorted_ids(self@.entries.dom())),
    {
        let n: usize = self.entries.len();
        proof {
            self.lemma_entry_ids();
            assert(self.entries.ids().subrange(0, n as int) =~= self.entries.ids());
        }
        self.refs(0, n)
    }

    /// The first entry.
    pub fn first_entry(&self) -> (r: Option<(StreamId, &FieldList)>)
        requires
            self.wf(),
        ensures
            match r {
                None => self@.entries.dom().len() == 0,
                Some((id, f)) => self@.entries.dom().len() > 0 && id == crate::id_map::sorted_ids(
                    self@.entries.dom(),
                ).first() && self@.entries.dom().contains(id) && crate::bytes::deep_pairs(f@)
                    == self@.entries[id],
            },
    {
        let n: usize = self.entries.len();
        proof {
            self.lemma_entry_ids();
        }
        if n == 0 {
            None
        } else {
            Some((self.entries.id_of(0), self.entries.value_of(0)))
        }
    }

    /// The last entry.
    pub fn last_entry(&self) -> (r: Option<(StreamId, &FieldList)>)
        requires
            self.wf(),
        ensures
            match r {
                None => self@.entries.dom().len() == 0,
                Some((id, f)) => self@.entries.dom().len() > 0 && id == crate::id_map::sorted_ids(
                    self@.entries.dom(),
                ).last() && self@.entries.dom().contains(id) && crate::bytes::deep_pairs(f@)
                    == self@.entries[id],
            },
    {
        let n: usize = self.entries.len();
        proof {
            self.lemma_entry_ids();
        }
        if n == 0 {
            None
        } else {
            Some((self.entries.id_of(n - 1), self.entries.value_of(n - 1)))
        }
    }

    /// Whether an entry exists.
    pub fn contains_entry(&self, id: StreamId) -> (r: bool)
        requires
            self.wf(),
        ensures
            r == self@.entries.dom().contains(id),
    {
        self.entries.contains_key(id)
    }

    /// Puts an entry under an id.
    fn put(&mut self, id: StreamId, fields: FieldList)
        requires
            old(self).wf(),
        ensures
            final(self).wf(),
            final(self)@ == (StreamModel {
                entries: old(self)@.entries.insert(id, crate::bytes::deep_pairs(fields@)),
                ..old(self)@
            }),
    {
        let ghost s0 = self@;
        let ghost f = crate::bytes::deep_pairs(fields@);
        proof {
            self.lemma_entry_ids();
            lemma_cost_insert(s0.entries, id, f);
        }
        let cost: u64 = stream_entry_weight(&fields);
        let gone = self.entries.insert(id, fields);
        assert(self@.entries =~= s0.entries.insert(id, f));
        match gone {
            None => {
                self.bytes = self.bytes.saturating_add(cost);
            },
            Some(g) => {
                assert(crate::bytes::deep_pairs(g@) == s0.entries[id]);
                if self.bytes < u64::MAX {
                    self.bytes = (self.bytes - stream_entry_weight(&g)).saturating_add(cost);
                } else {
                    self.recount();
                }
            },
        }
    }

    /// Counts the cost anew.
    fn recount(&mut self)
        requires
            old(self).entries.wf(),
            old(self).groups.wf(),
            forall|n: Seq<u8>| #[trigger]
                old(self).groups@.dom().contains(n) ==> old(self).groups@[n].wf(),
        ensures
            final(self).wf(),
            final(self)@ == old(self)@,
    {
        let n: usize = self.entries.len();
        let ghost q = self.entries.ids();
        let ghost costs = entry_costs(self@.entries);
        proof {
            self.entries.lemma_ids();
            assert(costs.dom() =~= self.entries@.dom());
            lemma_ascending_distinct(q);
            crate::weigh::lemma_sum_of(costs, q);
            assert(q.take(0) =~= Seq::empty());
        }
        let mut sum: u64 = 0;
        let mut i: usize = 0;
        while i < n
            invariant
                self.entries.wf(),
                q == self.entries.ids(),
                costs == entry_costs(self@.entries),
                n == q.len(),
                i <= n,
                sum == crate::list_data::capped(crate::weigh::sum_of(costs, q.take(i as int))),
            decreases n - i,
        {
            let f = self.entries.value_of(i);
            proof {
                assert(q.take(i + 1).drop_last() =~= q.take(i as int));
                assert(q.take(i + 1).last() == q[i as int]);
                assert(self@.entries[q[i as int]] == crate::bytes::deep_pairs(f@));
            }
            sum = sum.saturating_add(stream_entry_weight(f));
            i = i + 1;
        }
        assert(q.take(n as int) =~= q);
        self.bytes = sum;
    }

    /// Puts an entry back without counting it as added.
    pub fn load_entry(&mut self, id: StreamId, fields: FieldList)
        requires
            old(self).wf(),
        ensures
            final(self).wf(),
            final(self)@ == (StreamModel {
                entries: old(self)@.entries.insert(id, crate::bytes::deep_pairs(fields@)),
                ..old(self)@
            }),
    {
        self.put(id, fields);
    }

    /// Puts the stream's counters back.
    pub fn set_loaded_state(
        &mut self,
        last_id: StreamId,
        max_deleted_id: StreamId,
        entries_added: u64,
    )
        requires
            old(self).wf(),
        ensures
            final(self).wf(),
            final(self)@ == (StreamModel {
                last_id,
                max_deleted: max_deleted_id,
                added: entries_added,
                ..old(self)@
            }),
    {
        self.last_id = last_id;
        self.max_deleted_id = max_deleted_id;
        self.entries_added = entries_added;
    }

    /// Appends an entry under an id behind the last one.
    pub fn insert(&mut self, id: StreamId, fields: FieldList)
        requires
            old(self).wf(),
            crate::stream_id::id_lt(old(self)@.last_id, id),
        ensures
            final(self).wf(),
            final(self)@ == appended(old(self)@, id, crate::bytes::deep_pairs(fields@)),
    {
        self.put(id, fields);
        self.last_id = id;
        self.entries_added = self.entries_added.saturating_add(1);
    }

    /// The id that an append gets; refused unless it is behind the last one.
    pub fn resolve_xadd_id(&self, spec: XAddIdSpec, now_ms: u64) -> (r: Result<
        StreamId,
        StoreError,
    >)
        ensures
            r == (match resolved(self@.last_id, spec, now_ms) {
                Some(id) => Ok(id),
                None => Err(StoreError::OutOfRange),
            }),
    {
        let last: StreamId = self.last_id;
        let ms: u64 = match spec {
            XAddIdSpec::AutoAll => if now_ms > last.ms {
                now_ms
            } else {
                last.ms
            },
            XAddIdSpec::AutoSeq(ms) => {
                if ms < last.ms {
                    return Err(StoreError::OutOfRange);
                }
                ms
            },
            XAddIdSpec::Explicit(id) => {
                if !id_before(last, id) {
                    return Err(StoreError::OutOfRange);
                }
                return Ok(id);
            },
        };
        if ms != last.ms {
            Ok(StreamId { ms, seq: 0 })
        } else if last.seq < u64::MAX {
            Ok(StreamId { ms, seq: last.seq + 1 })
        } else {
            Err(StoreError::OutOfRange)
        }
    }

    /// The entries from `start` to `end`, both included, at most `count`.
    pub fn range(&self, start: StreamId, end: StreamId, count: Option<usize>) -> (r: Vec<
        (StreamId, &FieldList),
    >)
        requires
            self.wf(),
        ensures
            refers_to(
                r@,
                self@.entries,
                crate::id_map::first_of(
                    crate::id_map::ids_between(self@.entries.dom(), start, end),
                    count,
                ),
            ),
    {
        let (lo, hi) = self.entries.between(start, end);
        let stop: usize = match count {
            Some(n) => if n < hi - lo {
                lo + n
            } else {
                hi
            },
            None => hi,
        };
        proof {
            self.lemma_entry_ids();
            let q = self.entries.ids();
            assert(q.subrange(lo as int, stop as int) =~= crate::id_map::first_of(
                q.subrange(lo as int, hi as int),
                count,
            ));
        }
        self.refs(lo, stop)
    }

    /// The entries from `end` down to `start`, both included, at most
    /// `count`.
    pub fn revrange(&self, start: StreamId, end: StreamId, count: Option<usize>) -> (r: Vec<
        (StreamId, &FieldList),
    >)
        requires
            self.wf(),
        ensures
            refers_to(
                r@,
                self@.entries,
                crate::id_map::first_of(
                    crate::id_map::ids_between(self@.entries.dom(), start, end).reverse(),
                    count,
                ),
            ),
    {
        let (lo, hi) = self.entries.between(start, end);
        let stop: usize = match count {
            Some(n) => if n < hi - lo {
                hi - n
            } else {
                lo
            },
            None => lo,
        };
        let ghost q = self.entries.ids();
        let ghost back = q.subrange(lo as int, hi as int).reverse();
        let mut out: Vec<(StreamId, &FieldList)> = Vec::new();
        let mut i: usize = hi;
        proof {
            self.lemma_entry_ids();
        }
        while i > stop
            invariant
                self.wf(),
                q == self.entries.ids(),
                lo <= stop <= i <= hi <= q.len(),
                back == q.subrange(lo as int, hi as int).reverse(),
                refers_to(out@, self@.entries, back.take(hi - i)),
            decreases i,
        {
            let id: StreamId = self.entries.id_of(i - 1);
            let f = self.entries.value_of(i - 1);
            out.push((id, f));
            proof {
                assert(back[hi - i] == id);
                assert(back.take(hi - i + 1) =~= back.take(hi - i).push(id));
                assert(self@.entries[id] == crate::bytes::deep_pairs(f@));
            }
            i = i - 1;
        }
        assert(back.take(hi - stop) =~= crate::id_map::first_of(back, count));
        out
    }

    /// The entries behind `last_seen`, at most `count`.
    pub fn read_after(&self, last_seen: StreamId, count: Option<usize>) -> (r: Vec<
        (StreamId, &FieldList),
    >)
        requires
            self.wf(),
        ensures
            refers_to(
                r@,
                self@.entries,
                crate::id_map::first_of(
                    crate::id_map::ids_after(self@.entries.dom(), last_seen),
                    count,
                ),
            ),
    {
        if id_same(last_seen, StreamId::max()) {
            let none: Vec<(StreamId, &FieldList)> = Vec::new();
            return none;
        }
        self.range(last_seen.next(), StreamId::max(), count)
    }

    /// Deletes entries and gives the number of those that existed.
    pub fn del_ids(&mut self, ids: &[StreamId]) -> (r: usize)
        requires
            old(self).wf(),
        ensures
            final(self).wf(),
            final(self)@ == without_ids(old(self)@, ids@),
            r == old(self)@.entries.dom().intersect(ids@.to_set()).len(),
    {
        let ghost s0 = self@;
        let ghost dom = s0.entries.dom();
        let count: usize = ids.len();
        let mut removed: usize = 0;
        let mut i: usize = 0;
        proof {
            self.lemma_entry_ids();
            assert(ids@.take(0).to_set() =~= Set::empty());
            assert(s0.entries.remove_keys(Set::empty()) =~= s0.entries);
            assert(dom.intersect(Set::empty()) =~= Set::empty());
        }
        while i < ids.len()
            invariant
                self.wf(),
                count == ids@.len(),
                i <= ids@.len(),
                removed <= i,
                dom == s0.entries.dom(),
                dom.finite(),
                self@ == without_ids(s0, ids@.take(i as int)),
                removed == dom.intersect(ids@.take(i as int).to_set()).len(),
            decreases ids@.len() - i,
        {
            let id: StreamId = ids[i];
            let ghost t = ids@.take(i as int);
            let ghost u = ids@.take(i + 1);
            let ghost s1 = self@;
            proof {
                assert(u.drop_last() =~= t);
                assert(u.last() == id);
                assert forall|x: StreamId| u.to_set().contains(x) == (t.to_set().contains(x) || x
                    == id) by {
                    if t.contains(x) {
                        let j = choose|j: int| 0 <= j < t.len() && t[j] == x;
                        assert(u[j] == x);
                    }
                    if x == id {
                        assert(u[i as int] == x);
                    }
                    if u.contains(x) && x != id {
                        let j = choose|j: int| 0 <= j < u.len() && u[j] == x;
                        assert(t[j] == x);
                    }
                }
                self.lemma_entry_ids();
                vstd::set_lib::lemma_len_intersect(dom, t.to_set());
                assert(dom.intersect(t.to_set()).finite());
            }
            match self.entries.remove(id) {
                Some(f) => {
                    proof {
                        assert(dom.contains(id) && !t.to_set().contains(id));
                        assert(dom.intersect(u.to_set()) =~= dom.intersect(t.to_set()).insert(id));
                        assert(self@.entries =~= s1.entries.remove(id));
                        assert(s1.entries[id] == crate::bytes::deep_pairs(f@));
                        lemma_cost_insert(s1.entries, id, s1.entries[id]);
                    }
                    removed = removed + 1;
                    if id_before(self.max_deleted_id, id) {
                        self.max_deleted_id = id;
                    }
                    if self.bytes < u64::MAX {
                        self.bytes = self.bytes - stream_entry_weight(&f);
                    } else {
                        self.recount();
                    }
                },
                None => {
                    proof {
                        assert(self@.entries =~= s1.entries);
                        assert(dom.intersect(u.to_set()) =~= dom.intersect(t.to_set()));
                        if dom.contains(id) {
                            assert(t.to_set().contains(id));
                            lemma_latest_covers(t, dom, s0.max_deleted, id);
                        }
                    }
                },
            }
            proof {
                assert(self@.entries =~= s1.entries.remove(id));
                assert(self@.entries =~= s0.entries.remove_keys(u.to_set()));
                assert(self@ =~= without_ids(s0, u));
            }
            i = i + 1;
        }
        assert(ids@.take(ids@.len() as int) =~= ids@);
        removed
    }

    /// What the `k` oldest entries cost.
    fn first_cost(&self, k: usize) -> (r: u64)
        requires
            self.wf(),
            k <= self@.entries.dom().len(),
        ensures
            exists|freed: nat|
                r == #[trigger] crate::list_data::capped(freed) && stream_cost(self@) == freed
                    + crate::weigh::total(
                    entry_costs(self@.entries).remove_keys(
                        crate::id_map::sorted_ids(self@.entries.dom()).take(k as int).to_set(),
                    ),
                ),
    {
        let ghost q = self.entries.ids();
        let ghost gone = q.take(k as int);
        let ghost costs = entry_costs(self@.entries);
        proof {
            self.lemma_entry_ids();
            self.entries.lemma_ids();
            assert(costs.dom() =~= self.entries@.dom());
            lemma_ascending_distinct(q);
            assert(gone.no_duplicates());
            assert forall|i: int| 0 <= i < gone.len() implies costs.dom().contains(
                #[trigger] gone[i],
            ) by {
                assert(gone[i] == q[i]);
            }
            crate::weigh::lemma_total_remove_keys(costs, gone);
            assert(q.take(0) =~= Seq::empty());
        }
        let mut sum: u64 = 0;
        let mut i: usize = 0;
        while i < k
            invariant
                self.wf(),
                q == self.entries.ids(),
                costs == entry_costs(self@.entries),
                k <= q.len(),
                i <= k,
                sum == crate::list_data::capped(crate::weigh::sum_of(costs, q.take(i as int))),
            decreases k - i,
        {
            let f = self.entries.value_of(i);
            proof {
                assert(q.take(i + 1).drop_last() =~= q.take(i as int));
                assert(q.take(i + 1).last() == q[i as int]);
                assert(self@.entries[q[i as int]] == crate::bytes::deep_pairs(f@));
            }
            sum = sum.saturating_add(stream_entry_weight(f));
            i = i + 1;
        }
        sum
    }

    /// Drops the `k` oldest entries.
    fn drop_oldest(&mut self, k: usize)
        requires
            old(self).wf(),
            k <= old(self)@.entries.dom().len(),
        ensures
            final(self).wf(),
            final(self)@ == without_oldest(old(self)@, k as int),
    {
        let ghost s0 = self@;
        proof {
            self.lemma_entry_ids();
        }
        if k == 0 {
            proof {
                let gone = crate::id_map::sorted_ids(s0.entries.dom()).take(0);
                assert(gone.to_set() =~= Set::empty());
                assert(s0.entries.remove_keys(gone.to_set()) =~= s0.entries);
            }
            return;
        }
        let last: StreamId = self.entries.id_of(k - 1);
        let ghost gone = crate::id_map::sorted_ids(s0.entries.dom()).take(k as int);
        let freed: u64 = self.first_cost(k);
        self.entries.drop_front(k);
        if id_before(self.max_deleted_id, last) {
            self.max_deleted_id = last;
        }
        proof {
            assert(gone.last() == last);
            assert(self@.entries =~= s0.entries.remove_keys(gone.to_set()));
            assert(entry_costs(self@.entries) =~= entry_costs(s0.entries).remove_keys(
                gone.to_set(),
            ));
        }
        if self.bytes < u64::MAX {
            self.bytes = self.bytes - freed;
        } else {
            self.recount();
        }
    }

    /// Keeps the newest `n` entries and gives the number of those dropped.
    pub fn trim_maxlen(&mut self, n: usize) -> (r: usize)
        requires
            old(self).wf(),
        ensures
            final(self).wf(),
            r == (if old(self)@.entries.dom().len() <= n {
                0
            } else {
                old(self)@.entries.dom().len() - n
            }),
            final(self)@ == without_oldest(old(self)@, r as int),
    {
        let len: usize = self.entries.len();
        proof {
            self.lemma_entry_ids();
        }
        let k: usize = if len <= n {
            0
        } else {
            len - n
        };
        self.drop_oldest(k);
        k
    }

    /// Drops every entry before `floor` and gives the number of those
    /// dropped.
    pub fn trim_minid(&mut self, floor: StreamId) -> (r: usize)
        requires
            old(self).wf(),
        ensures
            final(self).wf(),
            r == older_than(old(self)@, floor),
            final(self)@ == without_oldest(old(self)@, r as int),
            forall|id: StreamId| #[trigger]
                final(self)@.entries.dom().contains(id) <==> old(self)@.entries.dom().contains(id)
                    && !crate::stream_id::id_lt(id, floor),
    {
        let ghost s0 = self@;
        let k: usize = self.entries.lower_bound(floor);
        let ghost q = self.entries.ids();
        proof {
            self.lemma_entry_ids();
            self.entries.lemma_ids();
            let gone = q.take(k as int);
            let old_ones = s0.entries.dom().filter(
                |id: StreamId| crate::stream_id::id_lt(id, floor),
            );
            assert forall|id: StreamId| gone.to_set().contains(id) == old_ones.contains(id) by {
                if gone.contains(id) {
                    let j = choose|j: int| 0 <= j < gone.len() && gone[j] == id;
                    assert(q[j] == id);
                    assert(s0.entries.dom().contains(q[j]));
                }
                if old_ones.contains(id) {
                    assert(q.to_set().contains(id));
                    let j = choose|j: int| 0 <= j < q.len() && q[j] == id;
                    assert(j < k);
                    assert(gone[j] == id);
                }
            }
            assert(gone.to_set() =~= old_ones);
            assert(gone.no_duplicates()) by {
                assert forall|i: int, j: int|
                    0 <= i < gone.len() && 0 <= j < gone.len() && i != j implies gone[i]
                    != gone[j] by {
                    if i < j {
                        assert(crate::stream_id::id_lt(q[i], q[j]));
                    } else {
                        assert(crate::stream_id::id_lt(q[j], q[i]));
                    }
                }
            }
            gone.unique_seq_to_set();
        }
        self.drop_oldest(k);
        k
    }

    /// The bytes that the stream costs, at most `u64::MAX`.
    pub fn weight(&self) -> (r: u64)
        requires
            self.wf(),
        ensures
            r == crate::list_data::capped(stream_cost(self@)),
    {
        self.bytes
    }

    /// Sets the stream's counters. Refused if `last_id` is before the last
    /// entry.
    pub fn xsetid(
        &mut self,
        last_id: StreamId,
        entries_added: Option<u64>,
        max_deleted_id: Option<StreamId>,
    ) -> (r: Result<(), StoreError>)
        requires
            old(self).wf(),
        ensures
            final(self).wf(),
            match r {
                Ok(()) => setid_allowed(old(self)@, last_id) && final(self)@ == setid_spec(
                    old(self)@,
                    last_id,
                    entries_added,
                    max_deleted_id,
                ),
                Err(e) => !setid_allowed(old(self)@, last_id) && e == StoreError::OutOfRange
                    && *final(self) == *old(self),
            },
    {
        let n: usize = self.entries.len();
        proof {
            self.lemma_entry_ids();
        }
        if n > 0 {
            let top: StreamId = self.entries.id_of(n - 1);
            if id_before(last_id, top) {
                return Err(StoreError::OutOfRange);
            }
        }
        self.last_id = last_id;
        match entries_added {
            Some(a) => {
                self.entries_added = a;
            },
            None => {},
        }
        match max_deleted_id {
            Some(d) => {
                self.max_deleted_id = d;
            },
            None => {},
        }
        Ok(())
    }
}

/// Whether no entry is behind `last_id`.
pub open spec fn setid_allowed(s: StreamModel, last_id: StreamId) -> bool {
    s.entries.dom().len() == 0 || !crate::stream_id::id_lt(
        last_id,
        crate::id_map::sorted_ids(s.entries.dom()).last(),
    )
}

/// A stream with its counters set.
pub open spec fn setid_spec(
    s: StreamModel,
    last_id: StreamId,
    added: Option<u64>,
    max_deleted: Option<StreamId>,
) -> StreamModel {
    StreamModel {
        last_id,
        added: match added {
            Some(a) => a,
            None => s.added,
        },
        max_deleted: match max_deleted {
            Some(d) => d,
            None => s.max_deleted,
        },
        ..s
    }
}

/// An id that was already deleted does not move the last deleted id.
proof fn lemma_latest_covers(
    ids: Seq<StreamId>,
    alive: Set<StreamId>,
    floor: StreamId,
    id: StreamId,
)
    requires
        ids.contains(id),
        alive.contains(id),
    ensures
        !crate::stream_id::id_lt(latest_of(ids, alive, floor), id),
    decreases ids.len(),
{
    let j = choose|j: int| 0 <= j < ids.len() && ids[j] == id;
    let d = ids.drop_last();
    if j < d.len() {
        assert(d[j] == id);
        lemma_latest_covers(d, alive, floor, id);
    }
}

/// Ascending ids are distinct.
proof fn lemma_ascending_distinct(q: Seq<StreamId>)
    requires
        crate::id_map::ascending(q),
    ensures
        q.no_duplicates(),
{
    assert forall|i: int, j: int| 0 <= i < q.len() && 0 <= j < q.len() && i != j implies q[i]
        != q[j] by {
        if i < j {
            assert(crate::stream_id::id_lt(q[i], q[j]));
        } else {
            assert(crate::stream_id::id_lt(q[j], q[i]));
        }
    }
}

} // verus!
