//! A stream's consumer-group operations.
use vstd::prelude::*;
use crate::bytes::{bytes_eq, copy_bytes};
use crate::stream::{copy_fields, AutoclaimResult, EntryBatch, StreamData};
use crate::stream_group::{ConsumerGroup, GroupCreateMode, PendingExtended, PendingSummary, ReadGroupId, XClaimOpts};
use crate::stream_id::StreamId;
use crate::types::StoreError;

verus! {

/// The id behind which a group starts.
pub open spec fn start_id(s: crate::stream::StreamModel, mode: GroupCreateMode) -> StreamId {
    match mode {
        GroupCreateMode::AtId(id) => id,
        GroupCreateMode::AtCurrent => s.last_id,
    }
}

/// A group without consumers.
pub open spec fn fresh_group(at: StreamId) -> crate::stream_group::GroupModel {
    crate::stream_group::GroupModel {
        last_delivered: at,
        pel: Map::empty(),
        consumers: Map::empty(),
    }
}

/// A group that a consumer has left, with its pending entries.
pub open spec fn without_consumer(
    g: crate::stream_group::GroupModel,
    who: Seq<u8>,
) -> crate::stream_group::GroupModel {
    crate::stream_group::GroupModel {
        pel: g.pel.remove_keys(crate::stream_group::rows_of(g.pel, who)),
        consumers: g.consumers.remove(who),
        ..g
    }
}

/// The ids that a group read gives.
pub open spec fn read_ids(
    s: crate::stream::StreamModel,
    g: crate::stream_group::GroupModel,
    who: Seq<u8>,
    what: ReadGroupId,
    count: Option<usize>,
) -> Seq<StreamId> {
    match what {
        ReadGroupId::New => crate::id_map::first_of(
            crate::id_map::ids_after(s.entries.dom(), g.last_delivered),
            count,
        ),
        ReadGroupId::ReplayAfter(after) => crate::stream_read::replayed(
            g.pel,
            who,
            s.entries.dom(),
            after,
            count,
        ),
    }
}

/// A group after a read.
pub open spec fn read_group(
    s: crate::stream::StreamModel,
    g: crate::stream_group::GroupModel,
    who: Seq<u8>,
    what: ReadGroupId,
    count: Option<usize>,
    noack: bool,
    now: u64,
) -> crate::stream_group::GroupModel {
    match what {
        ReadGroupId::New => crate::stream_read::read_new_spec(
            g,
            who,
            read_ids(s, g, who, what, count),
            noack,
            now,
        ),
        ReadGroupId::ReplayAfter(_after) => crate::stream_read::seen(g, who, now),
    }
}

/// A group after a claim.
pub open spec fn claim_group(
    s: crate::stream::StreamModel,
    g: crate::stream_group::GroupModel,
    who: Seq<u8>,
    ids: Seq<StreamId>,
    opts: XClaimOpts,
    now: u64,
) -> crate::stream_group::GroupModel {
    crate::stream_group::GroupModel {
        pel: crate::stream_claim::claim_pels(g.pel, s.entries.dom(), ids, who, opts, now),
        ..crate::stream_group::joined(g, who, now)
    }
}

/// The options of an automatic claim.
pub open spec fn auto_opts(min_idle: u64, justid: bool) -> XClaimOpts {
    XClaimOpts {
        min_idle_ms: min_idle,
        idle_override_ms: None,
        time_override_ms: None,
        retrycount_override: None,
        force: false,
        justid,
    }
}

/// Whether an entry exists.
pub open spec fn exists_in(s: crate::stream::StreamModel) -> spec_fn(StreamId) -> bool {
    |id: StreamId| s.entries.dom().contains(id)
}

/// Whether an entry is gone.
pub open spec fn gone_from(s: crate::stream::StreamModel) -> spec_fn(StreamId) -> bool {
    |id: StreamId| !s.entries.dom().contains(id)
}

/// The groups of a table after one of them changed.
proof fn lemma_groups_insert(m: Map<Seq<u8>, ConsumerGroup>, n: Seq<u8>, g: ConsumerGroup)
    ensures
        crate::stream::groups_model(m.insert(n, g)) == crate::stream::groups_model(m).insert(n, g@),
{
    assert(crate::stream::groups_model(m.insert(n, g)) =~= crate::stream::groups_model(m).insert(
        n,
        g@,
    ));
}

impl ConsumerGroup {
    /// Removes a consumer together with its pending entries and gives their
    /// number.
    pub fn forget(&mut self, who: &[u8]) -> (r: usize)
        requires
            old(self).wf(),
        ensures
            final(self).wf(),
            final(self)@ == without_consumer(old(self)@, who@),
            r == crate::stream_group::rows_of(old(self)@.pel, who@).len(),
    {
        let ghost g0 = self@;
        let ghost mine = crate::stream_group::rows_of(g0.pel, who@);
        let n: usize = self.pel.len();
        let ghost q = self.pel.ids();
        proof {
            self.pel.lemma_ids();
            assert(g0.pel.dom() =~= self.pel@.dom());
        }
        let mut ids: Vec<StreamId> = Vec::new();
        let mut i: usize = 0;
        while i < n
            invariant
                self.wf(),
                self@ == g0,
                g0.pel.dom() == self.pel@.dom(),
                q == self.pel.ids(),
                n == q.len(),
                i <= n,
                mine == crate::stream_group::rows_of(g0.pel, who@),
                crate::id_map::ascending(q),
                forall|k: int| 0 <= k < ids@.len() ==> mine.contains(#[trigger] ids@[k]),
                forall|k: int| 0 <= k < i && mine.contains(q[k]) ==> ids@.contains(#[trigger] q[k]),
                forall|k: int|
                    0 <= k < ids@.len() && i < n ==> crate::stream_id::id_lt(
                        #[trigger] ids@[k],
                        q[i as int],
                    ),
                crate::id_map::ascending(ids@),
            decreases n - i,
        {
            let p = self.pel.value_of(i);
            let id: StreamId = self.pel.id_of(i);
            let ghost was = ids@;
            assert(g0.pel[id] == p@);
            let take: bool = bytes_eq(p.consumer.as_slice(), who);
            if take {
                ids.push(id);
            }
            proof {
                let now = ids@;
                assert forall|k: int| 0 <= k < i + 1 && mine.contains(q[k]) implies now.contains(
                    #[trigger] q[k],
                ) by {
                    if k < i {
                        assert(was.contains(q[k]));
                        let j = choose|j: int| 0 <= j < was.len() && was[j] == q[k];
                        assert(now[j] == q[k]);
                    } else {
                        assert(now[was.len() as int] == id);
                    }
                }
                assert forall|a: int, b: int| #![trigger now[a], now[b]] 0 <= a < b < now.len() implies crate::stream_id::id_lt(
                    now[a],
                    now[b],
                ) by {
                    if b < was.len() {
                        assert(crate::stream_id::id_lt(was[a], was[b]));
                    } else {
                        assert(crate::stream_id::id_lt(was[a], q[i as int]));
                    }
                }
                if i + 1 < n {
                    assert(crate::stream_id::id_lt(q[i as int], q[i + 1]));
                    assert forall|k: int| 0 <= k < now.len() implies crate::stream_id::id_lt(
                        #[trigger] now[k],
                        q[i + 1],
                    ) by {
                        if k < was.len() {
                            assert(crate::stream_id::id_lt(was[k], q[i as int]));
                        }
                    }
                }
            }
            i = i + 1;
        }
        proof {
            assert(ids@.no_duplicates()) by {
                assert forall|a: int, b: int|
                    0 <= a < ids@.len() && 0 <= b < ids@.len() && a != b implies ids@[a]
                    != ids@[b] by {
                    if a < b {
                        assert(crate::stream_id::id_lt(ids@[a], ids@[b]));
                    } else {
                        assert(crate::stream_id::id_lt(ids@[b], ids@[a]));
                    }
                }
            }
            ids@.unique_seq_to_set();
            assert forall|id: StreamId| ids@.to_set().contains(id) == mine.contains(id) by {
                if mine.contains(id) {
                    assert(q.to_set().contains(id));
                    let k = choose|k: int| 0 <= k < q.len() && q[k] == id;
                    assert(ids@.contains(q[k]));
                }
            }
            assert(ids@.to_set() =~= mine);
            assert(ids@.take(0).to_set() =~= Set::empty());
            assert(g0.pel.remove_keys(Set::empty()) =~= g0.pel);
        }
        let mut j: usize = 0;
        while j < ids.len()
            invariant
                self.wf(),
                j <= ids@.len(),
                self@ == (crate::stream_group::GroupModel {
                    pel: g0.pel.remove_keys(ids@.take(j as int).to_set()),
                    ..g0
                }),
            decreases ids@.len() - j,
        {
            let ghost t = ids@.take(j as int);
            let ghost u = ids@.take(j + 1);
            let id: StreamId = ids[j];
            let ghost before = self@.pel;
            self.drop_row(id);
            proof {
                assert forall|x: StreamId| u.to_set().contains(x) == (t.to_set().contains(x) || x
                    == id) by {
                    if t.contains(x) {
                        let k = choose|k: int| 0 <= k < t.len() && t[k] == x;
                        assert(u[k] == x);
                    }
                    if x == id {
                        assert(u[j as int] == x);
                    }
                    if u.contains(x) && x != id {
                        let k = choose|k: int| 0 <= k < u.len() && u[k] == x;
                        assert(t[k] == x);
                    }
                }
                assert(self@.pel =~= g0.pel.remove_keys(u.to_set()));
            }
            j = j + 1;
        }
        let ghost middle = *self;
        proof {
            assert(ids@.take(ids@.len() as int) =~= ids@);
        }
        self.consumers.remove(who);
        proof {
            assert(self@.pel == middle@.pel);
            assert(self@.consumers =~= middle@.consumers.remove(who@));
            assert forall|id: StreamId| #[trigger] self.pel@.dom().contains(id) implies self.consumers@.dom().contains(
            self.pel@[id].consumer@) by {
                assert(middle@.pel.dom().contains(id));
                assert(middle@.pel[id] == self.pel@[id]@);
                assert(g0.pel[id] == self.pel@[id]@);
                assert(!mine.contains(id));
            }
            assert forall|n: Seq<u8>| #[trigger] self.consumers@.dom().contains(n) implies self.consumers@[n].name@
                == n && self.consumers@[n].pel_count == crate::stream_group::rows_of(
                self@.pel,
                n,
            ).len() by {
                assert(middle.consumers@.dom().contains(n));
            }
        }
        ids.len()
    }
}

impl ConsumerGroup {
    /// Takes entries off the pending list and gives the number of those
    /// that were on it.
    pub fn ack_rows(&mut self, ids: &[StreamId]) -> (r: usize)
        requires
            old(self).wf(),
        ensures
            final(self).wf(),
            final(self)@ == acked(old(self)@, ids@),
            r == old(self)@.pel.dom().intersect(ids@.to_set()).len(),
    {
        let ghost g0 = self@;
        let ghost dom = g0.pel.dom();
        let count: usize = ids.len();
        let mut removed: usize = 0;
        let mut i: usize = 0;
        proof {
            self.pel.lemma_ids();
            assert(dom =~= self.pel@.dom());
            assert(ids@.take(0).to_set() =~= Set::empty());
            assert(g0.pel.remove_keys(Set::empty()) =~= g0.pel);
            assert(dom.intersect(Set::empty()) =~= Set::empty());
        }
        while i < ids.len()
            invariant
                self.wf(),
                count == ids@.len(),
                i <= ids@.len(),
                removed <= i,
                dom == g0.pel.dom(),
                dom.finite(),
                self@ == acked(g0, ids@.take(i as int)),
                removed == dom.intersect(ids@.take(i as int).to_set()).len(),
            decreases ids@.len() - i,
        {
            let id: StreamId = ids[i];
            let ghost t = ids@.take(i as int);
            let ghost u = ids@.take(i + 1);
            proof {
                assert forall|x: StreamId| u.to_set().contains(x) == (t.to_set().contains(x) || x
                    == id) by {
                    if t.contains(x) {
                        let j = choose|j: int| 0 <= j < t.len() && t[j] == x;
                        assert(u[j] == x);
                    }
                    if x == id {
                        assert(u[i as int] == x);
                    }
                    if u.contains(x) && x != id {
                        let j = choose|j: int| 0 <= j < u.len() && u[j] == x;
                        assert(t[j] == x);
                    }
                }
                vstd::set_lib::lemma_len_intersect(dom, t.to_set());
                assert(dom.intersect(t.to_set()).finite());
            }
            if self.drop_row(id) {
                assert(dom.intersect(u.to_set()) =~= dom.intersect(t.to_set()).insert(id));
                removed = removed + 1;
            } else {
                assert(dom.intersect(u.to_set()) =~= dom.intersect(t.to_set()));
            }
            assert(self@.pel =~= g0.pel.remove_keys(u.to_set()));
            i = i + 1;
        }
        assert(ids@.take(ids@.len() as int) =~= ids@);
        removed
    }
}

impl StreamData {
    /// Creates a group, unless there is one of that name; says whether it
    /// did.
    pub fn group_create(&mut self, name: &[u8], mode: GroupCreateMode) -> (r: Result<
        bool,
        StoreError,
    >)
        requires
            old(self).wf(),
        ensures
            final(self).wf(),
            r == Ok::<bool, StoreError>(!old(self)@.groups.dom().contains(name@)),
            final(self)@ == (if old(self)@.groups.dom().contains(name@) {
                old(self)@
            } else {
                crate::stream::with_group(
                    old(self)@,
                    name@,
                    fresh_group(start_id(old(self)@, mode)),
                )
            }),
    {
        if self.groups.contains_key(name) {
            return Ok(false);
        }
        let at: StreamId = match mode {
            GroupCreateMode::AtId(id) => id,
            GroupCreateMode::AtCurrent => self.last_id,
        };
        let ghost m = self.groups@;
        let g = ConsumerGroup::starting_at(at);
        proof {
            lemma_groups_insert(m, name@, g);
        }
        self.groups.insert(copy_bytes(name), g);
        Ok(true)
    }

    /// Drops a group; says whether there was one.
    pub fn group_destroy(&mut self, name: &[u8]) -> (r: bool)
        requires
            old(self).wf(),
        ensures
            final(self).wf(),
            r == old(self)@.groups.dom().contains(name@),
            final(self)@ == (crate::stream::StreamModel {
                groups: old(self)@.groups.remove(name@),
                ..old(self)@
            }),
    {
        let ghost s0 = self@;
        let r = self.groups.remove(name);
        assert(self@.groups =~= s0.groups.remove(name@));
        r.is_some()
    }

    /// Moves the last id that a group was handed; says whether there is
    /// such a group.
    pub fn group_setid(&mut self, name: &[u8], mode: GroupCreateMode) -> (r: bool)
        requires
            old(self).wf(),
        ensures
            final(self).wf(),
            r == old(self)@.groups.dom().contains(name@),
            final(self)@ == (if r {
                crate::stream::with_group(
                    old(self)@,
                    name@,
                    crate::stream_group::GroupModel {
                        last_delivered: start_id(old(self)@, mode),
                        ..old(self)@.groups[name@]
                    },
                )
            } else {
                old(self)@
            }),
    {
        let at: StreamId = match mode {
            GroupCreateMode::AtId(id) => id,
            GroupCreateMode::AtCurrent => self.last_id,
        };
        let ghost m = self.groups@;
        match self.groups.get_mut(name) {
            None => false,
            Some(g) => {
                g.last_delivered_id = at;
                proof {
                    lemma_groups_insert(m, name@, *g);
                }
                true
            },
        }
    }

    /// Adds a consumer to a group; says whether it did.
    pub fn group_create_consumer(&mut self, group: &[u8], consumer: &[u8], now_ms: u64) -> (r: bool)
        requires
            old(self).wf(),
        ensures
            final(self).wf(),
            r == (old(self)@.groups.dom().contains(group@)
                && !old(self)@.groups[group@].consumers.dom().contains(consumer@)),
            final(self)@ == (if old(self)@.groups.dom().contains(group@) {
                crate::stream::with_group(
                    old(self)@,
                    group@,
                    crate::stream_group::joined(old(self)@.groups[group@], consumer@, now_ms),
                )
            } else {
                old(self)@
            }),
    {
        let ghost m = self.groups@;
        match self.groups.get_mut(group) {
            None => false,
            Some(g) => {
                let r: bool = g.join(consumer, now_ms);
                proof {
                    lemma_groups_insert(m, group@, *g);
                }
                r
            },
        }
    }

    /// Removes a consumer from a group, together with its pending entries,
    /// and gives their number.
    pub fn group_del_consumer(&mut self, group: &[u8], consumer: &[u8]) -> (r: u64)
        requires
            old(self).wf(),
        ensures
            final(self).wf(),
            final(self)@ == (if old(self)@.groups.dom().contains(group@) {
                crate::stream::with_group(
                    old(self)@,
                    group@,
                    without_consumer(old(self)@.groups[group@], consumer@),
                )
            } else {
                old(self)@
            }),
            r == (if old(self)@.groups.dom().contains(group@) {
                crate::stream_group::rows_of(old(self)@.groups[group@].pel, consumer@).len()
            } else {
                0
            }),
    {
        let ghost m = self.groups@;
        match self.groups.get_mut(group) {
            None => 0,
            Some(g) => {
                let r: usize = g.forget(consumer);
                proof {
                    lemma_groups_insert(m, group@, *g);
                }
                r as u64
            },
        }
    }

    /// A group by its name.
    pub fn group(&self, name: &[u8]) -> (r: Option<&ConsumerGroup>)
        requires
            self.wf(),
        ensures
            match r {
                Some(g) => self@.groups.dom().contains(name@) && g@ == self@.groups[name@]
                    && g.wf(),
                None => !self@.groups.dom().contains(name@),
            },
    {
        self.groups.get(name)
    }

    /// Number of groups.
    pub fn group_count(&self) -> (r: usize)
        requires
            self.wf(),
        ensures
            self@.groups.dom().finite(),
            self@.groups.dom().len() <= usize::MAX ==> r == self@.groups.dom().len(),
    {
        assert(self@.groups.dom() =~= self.groups@.dom());
        self.groups.len()
    }

    /// The entries `ids` that exist, copied out.
    pub fn payloads_for(&self, ids: &[StreamId]) -> (r: EntryBatch)
        requires
            self.wf(),
        ensures
            crate::stream::holds_entries(
                r@,
                self@.entries,
                crate::id_map::select(ids@, exists_in(self@)),
            ),
    {
        let ghost f = exists_in(self@);
        let mut out: EntryBatch = Vec::new();
        let mut i: usize = 0;
        assert(ids@.subrange(0, 0) =~= Seq::empty());
        while i < ids.len()
            invariant
                self.wf(),
                f == exists_in(self@),
                i <= ids@.len(),
                crate::stream::holds_entries(
                    out@,
                    self@.entries,
                    crate::id_map::select(ids@.subrange(0, i as int), f),
                ),
            decreases ids@.len() - i,
        {
            let id: StreamId = ids[i];
            proof {
                crate::id_map::lemma_select_step(ids@, 0, i as int, f);
            }
            match self.entries.get(id) {
                Some(fields) => {
                    assert(self@.entries[id] == crate::bytes::deep_pairs(fields@));
                    out.push((id, copy_fields(fields)));
                },
                None => {},
            }
            i = i + 1;
        }
        assert(ids@.subrange(0, ids@.len() as int) =~= ids@);
        out
    }

    /// Reads through a group. New entries move the group on and, unless
    /// `noack`, become pending; a replay gives the consumer's own pending
    /// entries again.
    pub fn readgroup(
        &mut self,
        group: &[u8],
        consumer: &[u8],
        what: ReadGroupId,
        count: Option<usize>,
        noack: bool,
        now_ms: u64,
    ) -> (r: Result<EntryBatch, StoreError>)
        requires
            old(self).wf(),
        ensures
            final(self).wf(),
            match r {
                Err(e) => e == StoreError::NoSuchKey && !old(self)@.groups.dom().contains(group@)
                    && final(self)@ == old(self)@,
                Ok(batch) => {
                    &&& old(self)@.groups.dom().contains(group@)
                    &&& crate::stream::holds_entries(
                        batch@,
                        old(self)@.entries,
                        read_ids(
                            old(self)@,
                            old(self)@.groups[group@],
                            consumer@,
                            what,
                            count,
                        ),
                    )
                    &&& final(self)@ == crate::stream::with_group(
                        old(self)@,
                        group@,
                        read_group(
                            old(self)@,
                            old(self)@.groups[group@],
                            consumer@,
                            what,
                            count,
                            noack,
                            now_ms,
                        ),
                    )
                },
            },
    {
        let ghost m = self.groups@;
        let ghost s0 = self@;
        proof {
            self.entries.lemma_ids();
            assert(s0.entries.dom() =~= self.entries@.dom());
        }
        let ids: Vec<StreamId> = match self.groups.get_mut(group) {
            None => {
                return Err(StoreError::NoSuchKey);
            },
            Some(g) => {
                let ids = match what {
                    ReadGroupId::New => g.read_new(&self.entries, consumer, count, noack, now_ms),
                    ReadGroupId::ReplayAfter(after) => g.replay(
                        &self.entries,
                        consumer,
                        after,
                        count,
                        now_ms,
                    ),
                };
                proof {
                    lemma_groups_insert(m, group@, *g);
                }
                ids
            },
        };
        proof {
            lemma_read_ids_exist(s0, s0.groups[group@], consumer@, what, count);
            assert(ids@ == read_ids(s0, s0.groups[group@], consumer@, what, count));
            assert(self@.entries == s0.entries);
            lemma_select_all(ids@, exists_in(self@));
        }
        Ok(self.payloads_for(ids.as_slice()))
    }

    /// Takes entries off a group's pending list and gives the number of
    /// those that were on it.
    pub fn ack(&mut self, group: &[u8], ids: &[StreamId]) -> (r: u64)
        requires
            old(self).wf(),
        ensures
            final(self).wf(),
            final(self)@ == (if old(self)@.groups.dom().contains(group@) {
                crate::stream::with_group(
                    old(self)@,
                    group@,
                    acked(old(self)@.groups[group@], ids@),
                )
            } else {
                old(self)@
            }),
            r == (if old(self)@.groups.dom().contains(group@) {
                old(self)@.groups[group@].pel.dom().intersect(ids@.to_set()).len()
            } else {
                0
            }),
    {
        let ghost m = self.groups@;
        match self.groups.get_mut(group) {
            None => 0,
            Some(g) => {
                let r: usize = g.ack_rows(ids);
                proof {
                    lemma_groups_insert(m, group@, *g);
                }
                r as u64
            },
        }
    }

    /// All pending entries of a group, summed up.
    pub fn pending_summary(&self, group: &[u8]) -> (r: Option<PendingSummary>)
        requires
            self.wf(),
        ensures
            match r {
                None => !self@.groups.dom().contains(group@),
                Some(p) => self@.groups.dom().contains(group@) && sums_up(
                    p,
                    self@.groups[group@].pel,
                ),
            },
    {
        match self.groups.get(group) {
            None => None,
            Some(g) => Some(g.summary()),
        }
    }

    /// A group's pending entries from `start` to `end`, one by one: those
    /// idle for at least `idle_min_ms` and owned by `consumer_filter`, at
    /// most `count`.
    pub fn pending_extended(
        &self,
        group: &[u8],
        idle_min_ms: Option<u64>,
        start: StreamId,
        end: StreamId,
        count: usize,
        consumer_filter: Option<&[u8]>,
        now_ms: u64,
    ) -> (r: Option<PendingExtended>)
        requires
            self.wf(),
        ensures
            match r {
                None => !self@.groups.dom().contains(group@),
                Some(p) => self@.groups.dom().contains(group@) && crate::stream_read::tells_of(
                    p.rows@,
                    self@.groups[group@].pel,
                    crate::stream_read::wanted_ids(
                        self@.groups[group@].pel,
                        idle_min_ms,
                        start,
                        end,
                        count,
                        crate::stream_read::view_of(consumer_filter),
                        now_ms,
                    ),
                    now_ms,
                ),
            },
    {
        match self.groups.get(group) {
            None => None,
            Some(g) => Some(g.extended(idle_min_ms, start, end, count, consumer_filter, now_ms)),
        }
    }

    /// Claims pending entries for a consumer and gives the ids of those
    /// that it got.
    pub fn claim(
        &mut self,
        group: &[u8],
        new_owner: &[u8],
        ids: &[StreamId],
        opts: &XClaimOpts,
        now_ms: u64,
    ) -> (r: Result<Vec<StreamId>, StoreError>)
        requires
            old(self).wf(),
        ensures
            final(self).wf(),
            match r {
                Err(e) => e == StoreError::NoSuchKey && !old(self)@.groups.dom().contains(group@)
                    && final(self)@ == old(self)@,
                Ok(got) => {
                    &&& old(self)@.groups.dom().contains(group@)
                    &&& got@ == crate::stream_claim::claimed_ids(
                        old(self)@.groups[group@].pel,
                        old(self)@.entries.dom(),
                        ids@,
                        new_owner@,
                        *opts,
                        now_ms,
                    )
                    &&& final(self)@ == crate::stream::with_group(
                        old(self)@,
                        group@,
                        claim_group(
                            old(self)@,
                            old(self)@.groups[group@],
                            new_owner@,
                            ids@,
                            *opts,
                            now_ms,
                        ),
                    )
                },
            },
    {
        let ghost m = self.groups@;
        assert(self@.entries.dom() =~= self.entries@.dom());
        match self.groups.get_mut(group) {
            None => Err(StoreError::NoSuchKey),
            Some(g) => {
                let got = g.claim(&self.entries, new_owner, ids, opts, now_ms);
                proof {
                    lemma_groups_insert(m, group@, *g);
                }
                Ok(got)
            },
        }
    }

    /// Claims the first `count` entries from `start` on that have been idle
    /// for long enough.
    pub fn autoclaim(
        &mut self,
        group: &[u8],
        new_owner: &[u8],
        min_idle_ms: u64,
        start: StreamId,
        count: usize,
        justid: bool,
        now_ms: u64,
    ) -> (r: Result<AutoclaimResult, StoreError>)
        requires
            old(self).wf(),
        ensures
            final(self).wf(),
            match r {
                Err(e) => e == StoreError::NoSuchKey && !old(self)@.groups.dom().contains(group@)
                    && final(self)@ == old(self)@,
                Ok(a) => {
                    &&& old(self)@.groups.dom().contains(group@)
                    &&& autoclaimed(
                        old(self)@,
                        old(self)@.groups[group@],
                        new_owner@,
                        min_idle_ms,
                        start,
                        count,
                        justid,
                        now_ms,
                        a,
                    )
                    &&& final(self)@ == crate::stream::with_group(
                        old(self)@,
                        group@,
                        claim_group(
                            old(self)@,
                            old(self)@.groups[group@],
                            new_owner@,
                            crate::stream_claim::idle_ids(
                                old(self)@.groups[group@].pel,
                                min_idle_ms,
                                start,
                                count,
                                now_ms,
                            ),
                            auto_opts(min_idle_ms, justid),
                            now_ms,
                        ),
                    )
                },
            },
    {
        let opts = XClaimOpts {
            min_idle_ms,
            idle_override_ms: None,
            time_override_ms: None,
            retrycount_override: None,
            force: false,
            justid,
        };
        let candidates = match self.groups.get(group) {
            None => {
                return Err(StoreError::NoSuchKey);
            },
            Some(g) => g.idle_from(min_idle_ms, start, count, now_ms),
        };
        let next_cursor: StreamId = if candidates.len() == 0 {
            StreamId::min()
        } else {
            candidates[candidates.len() - 1].next()
        };
        let claimed_ids = match self.claim(
            group,
            new_owner,
            candidates.as_slice(),
            &opts,
            now_ms,
        ) {
            Err(e) => {
                return Err(e);
            },
            Ok(got) => got,
        };
        let deleted_ids = self.gone(candidates.as_slice());
        Ok(AutoclaimResult { next_cursor, claimed_ids, deleted_ids })
    }

    /// Those of `ids` that no entry has.
    fn gone(&self, ids: &[StreamId]) -> (r: Vec<StreamId>)
        requires
            self.wf(),
        ensures
            r@ == crate::id_map::select(ids@, gone_from(self@)),
    {
        let ghost f = gone_from(self@);
        let mut out: Vec<StreamId> = Vec::new();
        let mut i: usize = 0;
        assert(ids@.subrange(0, 0) =~= Seq::empty());
        while i < ids.len()
            invariant
                self.wf(),
                f == gone_from(self@),
                i <= ids@.len(),
                out@ == crate::id_map::select(ids@.subrange(0, i as int), f),
            decreases ids@.len() - i,
        {
            proof {
                crate::id_map::lemma_select_step(ids@, 0, i as int, f);
            }
            if !self.entries.contains_key(ids[i]) {
                out.push(ids[i]);
            }
            i = i + 1;
        }
        assert(ids@.subrange(0, ids@.len() as int) =~= ids@);
        out
    }
}

/// A group after `ids` were acknowledged.
pub open spec fn acked(
    g: crate::stream_group::GroupModel,
    ids: Seq<StreamId>,
) -> crate::stream_group::GroupModel {
    crate::stream_group::GroupModel { pel: g.pel.remove_keys(ids.to_set()), ..g }
}

/// Whether `p` sums the pending entries up.
pub open spec fn sums_up(
    p: PendingSummary,
    pel: Map<StreamId, crate::stream_group::PelModel>,
) -> bool {
    &&& p.total == pel.dom().len()
    &&& p.id_range == (if pel.dom().len() == 0 {
        None
    } else {
        Some(
            (
                crate::id_map::sorted_ids(pel.dom()).first(),
                crate::id_map::sorted_ids(pel.dom()).last(),
            ),
        )
    })
    &&& crate::stream_read::counts_by_consumer(p.by_consumer@, pel)
}

/// Whether `a` is what an automatic claim gives.
pub open spec fn autoclaimed(
    s: crate::stream::StreamModel,
    g: crate::stream_group::GroupModel,
    who: Seq<u8>,
    min_idle: u64,
    start: StreamId,
    count: usize,
    justid: bool,
    now: u64,
    a: AutoclaimResult,
) -> bool {
    let ids = crate::stream_claim::idle_ids(g.pel, min_idle, start, count, now);
    &&& a.next_cursor == (if ids.len() == 0 {
        crate::stream_id::min_id()
    } else {
        crate::stream_id::next_id(ids.last())
    })
    &&& a.claimed_ids@ == crate::stream_claim::claimed_ids(
        g.pel,
        s.entries.dom(),
        ids,
        who,
        auto_opts(min_idle, justid),
        now,
    )
    &&& a.deleted_ids@ == crate::id_map::select(ids, gone_from(s))
}

/// Selecting what all ids have selects them all.
proof fn lemma_select_all(q: Seq<StreamId>, keep: spec_fn(StreamId) -> bool)
    requires
        forall|i: int| 0 <= i < q.len() ==> keep(#[trigger] q[i]),
    ensures
        crate::id_map::select(q, keep) == q,
    decreases q.len(),
{
    if q.len() > 0 {
        let d = q.drop_last();
        assert forall|i: int| 0 <= i < d.len() implies keep(#[trigger] d[i]) by {
            assert(d[i] == q[i]);
        }
        lemma_select_all(d, keep);
        assert(q =~= d.push(q.last()));
    }
}

/// Every id that a group read gives exists.
pub proof fn lemma_read_ids_exist(
    s: crate::stream::StreamModel,
    g: crate::stream_group::GroupModel,
    who: Seq<u8>,
    what: ReadGroupId,
    count: Option<usize>,
)
    requires
        s.entries.dom().finite(),
    ensures
        forall|i: int|
            0 <= i < read_ids(s, g, who, what, count).len() ==> s.entries.dom().contains(
                #[trigger] read_ids(s, g, who, what, count)[i],
            ),
{
    let dom = s.entries.dom();
    let r = read_ids(s, g, who, what, count);
    match what {
        ReadGroupId::New => {
            crate::id_map::lemma_sortable(dom);
            let q = crate::id_map::sorted_ids(dom);
            let a = crate::stream_id::next_id(g.last_delivered);
            let b = crate::stream_id::max_id();
            crate::id_map::lemma_within_contains(q, a, b);
            assert forall|i: int| 0 <= i < r.len() implies dom.contains(#[trigger] r[i]) by {
                let w = crate::id_map::ids_after(dom, g.last_delivered);
                assert(r[i] == w[i]);
                assert(w.contains(w[i]));
                assert(q.contains(w[i]));
                assert(q.to_set().contains(w[i]));
            }
        },
        ReadGroupId::ReplayAfter(after) => {
            let q = crate::id_map::ids_after(g.pel.dom(), after);
            let f = crate::stream_read::is_mine_alive(g.pel, who, dom);
            let p = if count == Some(0usize) {
                crate::id_map::first_of(
                    crate::id_map::select(q, crate::stream_read::is_mine(g.pel, who)),
                    Some(1usize),
                )
            } else {
                q
            };
            crate::id_map::lemma_select_contains(p, f);
            assert forall|i: int| 0 <= i < r.len() implies dom.contains(#[trigger] r[i]) by {
                let w = crate::id_map::select(p, f);
                assert(r[i] == w[i]);
                assert(w.contains(w[i]));
            }
        },
    }
}

proof fn lemma_within_ascending(q: Seq<StreamId>, a: StreamId, b: StreamId)
    requires
        crate::id_map::ascending(q),
    ensures
        crate::id_map::ascending(crate::id_map::within(q, a, b)),
    decreases q.len(),
{
    if q.len() > 0 {
        let d = q.drop_last();
        assert(crate::id_map::ascending(d)) by {
            assert forall|i: int, j: int|
                #![trigger d[i], d[j]]
                0 <= i < j < d.len() implies crate::stream_id::id_lt(d[i], d[j]) by {
                assert(d[i] == q[i] && d[j] == q[j]);
            }
        }
        lemma_within_ascending(d, a, b);
        crate::id_map::lemma_within_contains(d, a, b);
        let p = crate::id_map::within(d, a, b);
        let w = crate::id_map::within(q, a, b);
        assert forall|i: int, j: int|
            #![trigger w[i], w[j]]
            0 <= i < j < w.len() implies crate::stream_id::id_lt(w[i], w[j]) by {
            assert(w[i] == p[i]);
            if j < p.len() {
                assert(w[j] == p[j]);
            } else {
                assert(p.contains(p[i]));
                assert(d.contains(p[i]));
                let k = choose|k: int| 0 <= k < d.len() && d[k] == p[i];
                assert(q[k] == d[k]);
                assert(w[j] == q[q.len() - 1]);
            }
        }
    }
}

/// What a group read gives as new no later read gives as new again, whoever
/// reads and whatever was added to the stream in between or removed from it,
/// unless the group is set back.
pub proof fn lemma_delivered_once(
    s: crate::stream::StreamModel,
    g: crate::stream_group::GroupModel,
    who: Seq<u8>,
    count: Option<usize>,
    noack: bool,
    now: u64,
    later: crate::stream::StreamModel,
    other: Seq<u8>,
    more: Option<usize>,
    i: int,
)
    requires
        s.entries.dom().finite(),
        later.entries.dom().finite(),
        0 <= i < read_ids(s, g, who, ReadGroupId::New, count).len(),
    ensures
        !read_ids(
            later,
            read_group(s, g, who, ReadGroupId::New, count, noack, now),
            other,
            ReadGroupId::New,
            more,
        ).contains(read_ids(s, g, who, ReadGroupId::New, count)[i]),
{
    let r = read_ids(s, g, who, ReadGroupId::New, count);
    let last = r.last();
    let q = crate::id_map::sorted_ids(s.entries.dom());
    let a = crate::stream_id::next_id(g.last_delivered);
    let b = crate::stream_id::max_id();
    crate::id_map::lemma_sortable(s.entries.dom());
    lemma_within_ascending(q, a, b);
    let w = crate::id_map::within(q, a, b);
    assert(r[i] == w[i] && last == w[r.len() - 1]);
    assert(i < r.len() - 1 ==> crate::stream_id::id_lt(w[i], w[r.len() - 1]));
    let again = read_ids(
        later,
        read_group(s, g, who, ReadGroupId::New, count, noack, now),
        other,
        ReadGroupId::New,
        more,
    );
    if again.contains(r[i]) {
        let all = crate::id_map::ids_after(later.entries.dom(), last);
        let j = choose|j: int| 0 <= j < again.len() && again[j] == r[i];
        assert(all[j] == r[i]);
        assert(all.contains(r[i]));
        crate::id_map::lemma_within_contains(
            crate::id_map::sorted_ids(later.entries.dom()),
            crate::stream_id::next_id(last),
            b,
        );
        crate::stream_id::lemma_next_id(last, r[i]);
        crate::stream_id::lemma_id_order(last, r[i], last);
    }
}

/// What a group read hands to a consumer is pending with that consumer until
/// it is acknowledged, unless the read itself acknowledges.
pub proof fn lemma_pending_until_acked(
    s: crate::stream::StreamModel,
    g: crate::stream_group::GroupModel,
    who: Seq<u8>,
    count: Option<usize>,
    now: u64,
    ids: Seq<StreamId>,
    i: int,
)
    requires
        0 <= i < read_ids(s, g, who, ReadGroupId::New, count).len(),
    ensures
        ({
            let id = read_ids(s, g, who, ReadGroupId::New, count)[i];
            let h = read_group(s, g, who, ReadGroupId::New, count, false, now);
            &&& h.pel.dom().contains(id) && h.pel[id].consumer == who && h.pel[id].time == now
            &&& acked(h, ids).pel.dom().contains(id) == !ids.contains(id)
        }),
{
    let r = read_ids(s, g, who, ReadGroupId::New, count);
    assert(r.contains(r[i]));
}

} // verus!
