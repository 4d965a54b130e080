//! Consumer groups: who has been handed which entry and has not yet
//! acknowledged it.
use vstd::prelude::*;
use crate::byte_map::ByteMap;
use crate::bytes::{bytes_eq, copy_bytes};
use crate::id_map::IdMap;
use crate::stream_id::StreamId;

verus! {

/// A pending entry: who got it, when, and how many times.
pub struct PelEntry {
    /// The owner's name.
    pub consumer: Vec<u8>,
    /// When it was last handed out, in Unix milliseconds.
    pub delivery_time_ms: u64,
    /// How many times it was handed out.
    pub delivery_count: u32,
}

/// What a group knows of one consumer.
pub struct ConsumerState {
    /// The consumer's name.
    pub name: Vec<u8>,
    /// When the consumer last read, in Unix milliseconds.
    pub last_seen_ms: u64,
    /// How many pending entries the consumer owns.
    pub pel_count: usize,
}

/// A consumer group.
pub struct ConsumerGroup {
    /// The last id handed to any consumer of the group.
    pub last_delivered_id: StreamId,
    /// Every entry handed out and not yet acknowledged.
    pub pel: IdMap<PelEntry>,
    /// The known consumers, by name.
    pub consumers: ByteMap<ConsumerState>,
}

/// Where a new group starts.
#[derive(Clone, Copy, Debug, PartialEq, Eq, Structural)]
pub enum GroupCreateMode {
    /// Behind this id.
    AtId(StreamId),
    /// Behind the stream's last id.
    AtCurrent,
}

/// What a group read asks for.
#[derive(Clone, Copy, Debug, PartialEq, Eq, Structural)]
pub enum ReadGroupId {
    /// Entries that no consumer of the group has been handed.
    New,
    /// The consumer's own pending entries behind this id.
    ReplayAfter(StreamId),
}

/// All pending entries of a group, summed up.
pub struct PendingSummary {
    /// How many entries are pending.
    pub total: u64,
    /// The first and the last pending id.
    pub id_range: Option<(StreamId, StreamId)>,
    /// The number of pending entries of each consumer that has any.
    pub by_consumer: Vec<(Vec<u8>, u64)>,
}

/// Pending entries, one by one.
pub struct PendingExtended {
    /// One row per entry, in id order.
    pub rows: Vec<PendingExtendedRow>,
}

/// One pending entry.
pub struct PendingExtendedRow {
    /// The entry's id.
    pub id: StreamId,
    /// The owner's name.
    pub consumer: Vec<u8>,
    /// Milliseconds since it was last handed out.
    pub idle_ms: u64,
    /// How many times it was handed out.
    pub delivery_count: u32,
}

/// How a claim is made.
#[derive(Clone, Copy, Debug, PartialEq, Eq)]
pub struct XClaimOpts {
    /// Only entries idle for at least this many milliseconds are claimed.
    pub min_idle_ms: u64,
    /// Makes the entry look idle for this many milliseconds.
    pub idle_override_ms: Option<u64>,
    /// Makes the entry look handed out at this time; comes before
    /// `idle_override_ms`.
    pub time_override_ms: Option<u64>,
    /// Sets the delivery count.
    pub retrycount_override: Option<u32>,
    /// Claims the entry also if it is not pending.
    pub force: bool,
    /// Leaves the delivery count as it is.
    pub justid: bool,
}

/// A pending entry, mathematically.
#[verifier::ext_equal]
pub struct PelModel {
    /// The owner's name.
    pub consumer: Seq<u8>,
    /// When it was last handed out.
    pub time: u64,
    /// How many times it was handed out.
    pub count: u32,
}

/// A consumer group, mathematically.
#[verifier::ext_equal]
pub struct GroupModel {
    /// The last id handed out.
    pub last_delivered: StreamId,
    /// The pending entries.
    pub pel: Map<StreamId, PelModel>,
    /// When each consumer was last seen.
    pub consumers: Map<Seq<u8>, u64>,
}

impl View for PelEntry {
    type V = PelModel;

    open spec fn view(&self) -> PelModel {
        PelModel {
            consumer: self.consumer@,
            time: self.delivery_time_ms,
            count: self.delivery_count,
        }
    }
}

/// The pending entries of a list.
pub open spec fn pel_model(pel: Map<StreamId, PelEntry>) -> Map<StreamId, PelModel> {
    Map::new(|id: StreamId| pel.dom().contains(id), |id: StreamId| pel[id]@)
}

/// When each consumer of a roster was last seen.
pub open spec fn roster_model(c: Map<Seq<u8>, ConsumerState>) -> Map<Seq<u8>, u64> {
    Map::new(|n: Seq<u8>| c.dom().contains(n), |n: Seq<u8>| c[n].last_seen_ms)
}

impl View for ConsumerGroup {
    type V = GroupModel;

    open spec fn view(&self) -> GroupModel {
        GroupModel {
            last_delivered: self.last_delivered_id,
            pel: pel_model(self.pel@),
            consumers: roster_model(self.consumers@),
        }
    }
}

/// The ids that `who` owns.
pub open spec fn rows_of(pel: Map<StreamId, PelModel>, who: Seq<u8>) -> Set<StreamId> {
    Set::new(|id: StreamId| pel.dom().contains(id) && pel[id].consumer == who)
}

/// Every consumer's count is the number of entries it owns.
pub open spec fn counts_ok(
    pel: Map<StreamId, PelEntry>,
    roster: Map<Seq<u8>, ConsumerState>,
) -> bool {
    forall|n: Seq<u8>| #[trigger]
        roster.dom().contains(n) ==> roster[n].name@ == n && roster[n].pel_count == rows_of(
            pel_model(pel),
            n,
        ).len()
}

/// Every pending entry has a known owner.
pub open spec fn owners_known(
    pel: Map<StreamId, PelEntry>,
    roster: Map<Seq<u8>, ConsumerState>,
) -> bool {
    forall|id: StreamId| #[trigger]
        pel.dom().contains(id) ==> roster.dom().contains(pel[id].consumer@)
}

/// Whether a model's pending entries all have a known owner.
pub open spec fn owned(g: GroupModel) -> bool {
    forall|id: StreamId| #[trigger]
        g.pel.dom().contains(id) ==> g.consumers.dom().contains(g.pel[id].consumer)
}

impl ConsumerGroup {
    /// The tables are well-formed, every pending entry has a known owner
    /// and every count is right.
    pub open spec fn wf(&self) -> bool {
        &&& self.pel.wf()
        &&& self.consumers.wf()
        &&& counts_ok(self.pel@, self.consumers@)
        &&& owners_known(self.pel@, self.consumers@)
    }

    /// A group's cached counts are the sizes of its consumers' shares of
    /// the pending entries, and no pending entry is without an owner.
    pub proof fn lemma_counts(&self, who: Seq<u8>)
        requires
            self.wf(),
        ensures
            self.consumers@.dom().contains(who) ==> self.consumers@[who].pel_count == rows_of(
                self@.pel,
                who,
            ).len(),
            !self.consumers@.dom().contains(who) ==> rows_of(self@.pel, who) == Set::<
                StreamId,
            >::empty(),
            owned(self@),
    {
        if !self.consumers@.dom().contains(who) {
            assert forall|id: StreamId| !rows_of(self@.pel, who).contains(id) by {
                if self.pel@.dom().contains(id) {
                    assert(self.consumers@.dom().contains(self.pel@[id].consumer@));
                }
            }
            assert(rows_of(self@.pel, who) =~= Set::empty());
        }
        assert forall|id: StreamId| #[trigger] self@.pel.dom().contains(id) implies self@.consumers.dom().contains(
        self@.pel[id].consumer) by {
            assert(self.pel@.dom().contains(id));
        }
    }
}

proof fn lemma_rows_finite(pel: Map<StreamId, PelModel>, who: Seq<u8>)
    requires
        pel.dom().finite(),
    ensures
        rows_of(pel, who).finite(),
        rows_of(pel, who).len() <= pel.dom().len(),
{
    vstd::set_lib::lemma_len_subset(rows_of(pel, who), pel.dom());
}

proof fn lemma_rows_insert(pel: Map<StreamId, PelModel>, id: StreamId, p: PelModel, who: Seq<u8>)
    requires
        pel.dom().finite(),
    ensures
        rows_of(pel.insert(id, p), who).finite(),
        rows_of(pel.insert(id, p), who).len() == rows_of(pel, who).len() - (if pel.dom().contains(
            id,
        ) && pel[id].consumer == who {
            1int
        } else {
            0
        }) + (if p.consumer == who {
            1int
        } else {
            0
        }),
{
    lemma_rows_finite(pel, who);
    let a = rows_of(pel, who);
    let b = rows_of(pel.insert(id, p), who);
    if p.consumer == who {
        assert(b =~= a.insert(id));
    } else {
        assert(b =~= a.remove(id));
    }
}

proof fn lemma_rows_remove(pel: Map<StreamId, PelModel>, id: StreamId, who: Seq<u8>)
    requires
        pel.dom().finite(),
    ensures
        rows_of(pel.remove(id), who).finite(),
        rows_of(pel.remove(id), who).len() == rows_of(pel, who).len() - (if pel.dom().contains(id)
            && pel[id].consumer == who {
            1int
        } else {
            0
        }),
{
    lemma_rows_finite(pel, who);
    let a = rows_of(pel, who);
    let b = rows_of(pel.remove(id), who);
    assert(b =~= a.remove(id));
}

/// Moves a consumer's count up by one.
fn raise(roster: &mut ByteMap<ConsumerState>, who: &[u8])
    requires
        old(roster).wf(),
        old(roster)@.dom().contains(who@),
        old(roster)@[who@].pel_count < usize::MAX,
    ensures
        final(roster).wf(),
        final(roster)@ == old(roster)@.insert(
            who@,
            (ConsumerState {
                pel_count: (old(roster)@[who@].pel_count + 1) as usize,
                ..old(roster)@[who@]
            }),
        ),
{
    match roster.get_mut(who) {
        Some(cs) => {
            cs.pel_count = cs.pel_count + 1;
        },
        None => {},
    }
}

/// Moves a consumer's count down by one.
fn lower(roster: &mut ByteMap<ConsumerState>, who: &[u8])
    requires
        old(roster).wf(),
        old(roster)@.dom().contains(who@),
        old(roster)@[who@].pel_count > 0,
    ensures
        final(roster).wf(),
        final(roster)@ == old(roster)@.insert(
            who@,
            (ConsumerState {
                pel_count: (old(roster)@[who@].pel_count - 1) as usize,
                ..old(roster)@[who@]
            }),
        ),
{
    match roster.get_mut(who) {
        Some(cs) => {
            cs.pel_count = cs.pel_count - 1;
        },
        None => {},
    }
}

impl ConsumerGroup {
    /// A group without consumers that starts behind `at`.
    pub fn starting_at(at: StreamId) -> (r: ConsumerGroup)
        ensures
            r.wf(),
            r@ == (GroupModel { last_delivered: at, pel: Map::empty(), consumers: Map::empty() }),
    {
        let r = ConsumerGroup {
            last_delivered_id: at,
            pel: IdMap::new(),
            consumers: ByteMap::new(),
        };
        assert(r@.pel =~= Map::empty());
        assert(r@.consumers =~= Map::empty());
        r
    }

    /// Adds a consumer, unless it is known; says whether it was added.
    pub fn join(&mut self, who: &[u8], now_ms: u64) -> (r: bool)
        requires
            old(self).wf(),
        ensures
            final(self).wf(),
            r == !old(self)@.consumers.dom().contains(who@),
            final(self)@ == joined(old(self)@, who@, now_ms),
    {
        if self.consumers.contains_key(who) {
            return false;
        }
        let ghost before = *self;
        let state = ConsumerState { name: copy_bytes(who), last_seen_ms: now_ms, pel_count: 0 };
        self.consumers.insert(copy_bytes(who), state);
        proof {
            before.lemma_counts(who@);
            assert(self@.consumers =~= before@.consumers.insert(who@, now_ms));
            assert(self@.pel == before@.pel);
        }
        true
    }

    /// Notes that a known consumer was seen.
    pub fn see(&mut self, who: &[u8], now_ms: u64)
        requires
            old(self).wf(),
            old(self)@.consumers.dom().contains(who@),
        ensures
            final(self).wf(),
            final(self)@ == (GroupModel {
                consumers: old(self)@.consumers.insert(who@, now_ms),
                ..old(self)@
            }),
    {
        let ghost before = *self;
        match self.consumers.get_mut(who) {
            Some(cs) => {
                cs.last_seen_ms = now_ms;
            },
            None => {},
        }
        proof {
            assert(self@.consumers =~= before@.consumers.insert(who@, now_ms));
        }
    }

    /// Takes an entry off the pending list; says whether it was on it.
    pub fn drop_row(&mut self, id: StreamId) -> (r: bool)
        requires
            old(self).wf(),
        ensures
            final(self).wf(),
            r == old(self)@.pel.dom().contains(id),
            final(self)@ == (GroupModel { pel: old(self)@.pel.remove(id), ..old(self)@ }),
    {
        let ghost before = *self;
        proof {
            self.pel.lemma_ids();
            assert(before@.pel.dom() =~= before.pel@.dom());
        }
        match self.pel.remove(id) {
            None => {
                assert(before@.pel.remove(id) =~= before@.pel);
                assert(before.pel@.remove(id) =~= before.pel@);
                false
            },
            Some(p) => {
                proof {
                    assert(before.pel@.dom().contains(id));
                    lemma_rows_remove(before@.pel, id, p.consumer@);
                }
                lower(&mut self.consumers, p.consumer.as_slice());
                proof {
                    assert(self@.pel =~= before@.pel.remove(id));
                    assert(self@.consumers =~= before@.consumers);
                    assert forall|n: Seq<u8>| #[trigger]
                        self.consumers@.dom().contains(n) implies self.consumers@[n].name@ == n
                        && self.consumers@[n].pel_count == rows_of(self@.pel, n).len() by {
                        assert(before.consumers@.dom().contains(n));
                        lemma_rows_remove(before@.pel, id, n);
                    }
                }
                true
            },
        }
    }

    /// Puts an entry on the pending list of a known consumer.
    pub fn put_row(&mut self, id: StreamId, who: &[u8], time: u64, count: u32)
        requires
            old(self).wf(),
            old(self)@.consumers.dom().contains(who@),
        ensures
            final(self).wf(),
            final(self)@ == (GroupModel {
                pel: old(self)@.pel.insert(
                    id,
                    (PelModel { consumer: who@, time, count }),
                ),
                ..old(self)@
            }),
    {
        let ghost before = *self;
        let ghost p1 = PelModel { consumer: who@, time, count };
        proof {
            self.pel.lemma_ids();
            assert(before@.pel.dom() =~= before.pel@.dom());
        }
        let prev = self.pel.insert(
            id,
            PelEntry { consumer: copy_bytes(who), delivery_time_ms: time, delivery_count: count },
        );
        let n: usize = self.pel.len();
        proof {
            assert(self@.pel =~= before@.pel.insert(id, p1));
            assert(self@.pel.dom() =~= self.pel@.dom());
            lemma_rows_insert(before@.pel, id, p1, who@);
            lemma_rows_finite(self@.pel, who@);
            assert(before.consumers@.dom().contains(who@));
        }
        match prev {
            None => {
                raise(&mut self.consumers, who);
            },
            Some(p) => {
                if !bytes_eq(p.consumer.as_slice(), who) {
                    proof {
                        assert(before.pel@.dom().contains(id));
                        lemma_rows_insert(before@.pel, id, p1, p.consumer@);
                    }
                    lower(&mut self.consumers, p.consumer.as_slice());
                    raise(&mut self.consumers, who);
                }
            },
        }
        proof {
            assert(self@.consumers =~= before@.consumers);
            assert forall|n: Seq<u8>| #[trigger] self.consumers@.dom().contains(n) implies self.consumers@[n].name@
                == n && self.consumers@[n].pel_count == rows_of(self@.pel, n).len() by {
                assert(before.consumers@.dom().contains(n));
                lemma_rows_insert(before@.pel, id, p1, n);
            }
        }
    }
}

/// A group after `who` joined it.
pub open spec fn joined(g: GroupModel, who: Seq<u8>, now: u64) -> GroupModel {
    if g.consumers.dom().contains(who) {
        g
    } else {
        GroupModel { consumers: g.consumers.insert(who, now), ..g }
    }
}

} // verus!
