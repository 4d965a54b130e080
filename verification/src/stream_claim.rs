//! Claims: a consumer takes pending entries over from others.
use vstd::prelude::*;
use crate::id_map::IdMap;
use crate::stream_group::{ConsumerGroup, XClaimOpts};
use crate::stream_id::StreamId;
use crate::stream_read::{idle_ms, FieldList};

verus! {

/// Whether a claim of `id` takes an entry that is not pending, or one that
/// has been idle for long enough.
pub open spec fn claimable(
    pel: Map<StreamId, crate::stream_group::PelModel>,
    id: StreamId,
    opts: XClaimOpts,
    now: u64,
) -> bool {
    if pel.dom().contains(id) {
        crate::stream_read::idle_spec(now, pel[id].time) >= opts.min_idle_ms
    } else {
        opts.force
    }
}

/// When a claimed entry counts as handed out.
pub open spec fn claim_time(opts: XClaimOpts, now: u64) -> u64 {
    match opts.time_override_ms {
        Some(t) => t,
        None => match opts.idle_override_ms {
            Some(i) => crate::stream_read::idle_spec(now, i),
            None => now,
        },
    }
}

/// How many times a claimed entry counts as handed out.
pub open spec fn claim_count(
    pel: Map<StreamId, crate::stream_group::PelModel>,
    id: StreamId,
    opts: XClaimOpts,
) -> u32 {
    match opts.retrycount_override {
        Some(n) => n,
        None => if !opts.justid {
            crate::stream_read::next_count(pel, id)
        } else if pel.dom().contains(id) && pel[id].count > 1 {
            pel[id].count
        } else {
            1
        },
    }
}

/// The pending entries after `who` tried to claim `id`. A pending entry
/// that no longer exists is dropped.
pub open spec fn claim_pel(
    pel: Map<StreamId, crate::stream_group::PelModel>,
    alive: Set<StreamId>,
    id: StreamId,
    who: Seq<u8>,
    opts: XClaimOpts,
    now: u64,
) -> Map<StreamId, crate::stream_group::PelModel> {
    if !alive.contains(id) {
        pel.remove(id)
    } else if !claimable(pel, id, opts, now) {
        pel
    } else {
        pel.insert(
            id,
            crate::stream_group::PelModel {
                consumer: who,
                time: claim_time(opts, now),
                count: claim_count(pel, id, opts),
            },
        )
    }
}

/// The pending entries after `who` tried to claim `ids`, one by one.
pub open spec fn claim_pels(
    pel: Map<StreamId, crate::stream_group::PelModel>,
    alive: Set<StreamId>,
    ids: Seq<StreamId>,
    who: Seq<u8>,
    opts: XClaimOpts,
    now: u64,
) -> Map<StreamId, crate::stream_group::PelModel>
    decreases ids.len(),
{
    if ids.len() == 0 {
        pel
    } else {
        claim_pel(
            claim_pels(pel, alive, ids.drop_last(), who, opts, now),
            alive,
            ids.last(),
            who,
            opts,
            now,
        )
    }
}

/// The ids that `who` claims of `ids`, one by one.
pub open spec fn claimed_ids(
    pel: Map<StreamId, crate::stream_group::PelModel>,
    alive: Set<StreamId>,
    ids: Seq<StreamId>,
    who: Seq<u8>,
    opts: XClaimOpts,
    now: u64,
) -> Seq<StreamId>
    decreases ids.len(),
{
    if ids.len() == 0 {
        Seq::empty()
    } else {
        let before = claimed_ids(pel, alive, ids.drop_last(), who, opts, now);
        if alive.contains(ids.last()) && claimable(
            claim_pels(pel, alive, ids.drop_last(), who, opts, now),
            ids.last(),
            opts,
            now,
        ) {
            before.push(ids.last())
        } else {
            before
        }
    }
}

/// Whether a pending entry has been idle for long enough.
pub open spec fn is_idle(
    pel: Map<StreamId, crate::stream_group::PelModel>,
    min_idle: u64,
    now: u64,
) -> spec_fn(StreamId) -> bool {
    |id: StreamId| crate::stream_read::idle_spec(now, pel[id].time) >= min_idle
}

/// The first `count` entries from `start` on that have been idle for long
/// enough.
pub open spec fn idle_ids(
    pel: Map<StreamId, crate::stream_group::PelModel>,
    min_idle: u64,
    start: StreamId,
    count: usize,
    now: u64,
) -> Seq<StreamId> {
    crate::id_map::first_of(
        crate::id_map::select(
            crate::id_map::ids_between(pel.dom(), start, crate::stream_id::max_id()),
            is_idle(pel, min_idle, now),
        ),
        Some(count),
    )
}

/// Every claimed id is one that was asked for and that still exists, and
/// its entry then belongs to the claimer.
pub proof fn lemma_claimed(
    pel: Map<StreamId, crate::stream_group::PelModel>,
    alive: Set<StreamId>,
    ids: Seq<StreamId>,
    who: Seq<u8>,
    opts: XClaimOpts,
    now: u64,
    id: StreamId,
)
    requires
        claimed_ids(pel, alive, ids, who, opts, now).contains(id),
    ensures
        ids.contains(id),
        alive.contains(id),
        claim_pels(pel, alive, ids, who, opts, now).dom().contains(id),
        claim_pels(pel, alive, ids, who, opts, now)[id].consumer == who,
    decreases ids.len(),
{
    if ids.len() > 0 {
        let rest = ids.drop_last();
        let before = claimed_ids(pel, alive, rest, who, opts, now);
        let all = claimed_ids(pel, alive, ids, who, opts, now);
        let k = choose|k: int| 0 <= k < all.len() && all[k] == id;
        if before.contains(id) {
            lemma_claimed(pel, alive, rest, who, opts, now, id);
            let j = choose|j: int| 0 <= j < rest.len() && rest[j] == id;
            assert(ids[j] == id);
        } else {
            assert(k >= before.len()) by {
                if k < before.len() {
                    assert(before[k] == id);
                }
            }
            assert(ids[ids.len() - 1] == id);
        }
    }
}

impl ConsumerGroup {
    /// Tries to claim one entry for `who`; says whether it did.
    pub fn claim_one(
        &mut self,
        entries: &IdMap<FieldList>,
        id: StreamId,
        who: &[u8],
        opts: &XClaimOpts,
        now_ms: u64,
    ) -> (r: bool)
        requires
            old(self).wf(),
            entries.wf(),
            old(self)@.consumers.dom().contains(who@),
        ensures
            final(self).wf(),
            final(self)@ == (crate::stream_group::GroupModel {
                pel: claim_pel(old(self)@.pel, entries@.dom(), id, who@, *opts, now_ms),
                ..old(self)@
            }),
            r == (entries@.dom().contains(id) && claimable(old(self)@.pel, id, *opts, now_ms)),
    {
        let ghost g0 = self@;
        assert(g0.pel.dom() =~= self.pel@.dom());
        if !entries.contains_key(id) {
            self.drop_row(id);
            return false;
        }
        let mut base: u32 = 0;
        match self.pel.get(id) {
            Some(p) => {
                assert(g0.pel[id] == p@);
                if idle_ms(now_ms, p.delivery_time_ms) < opts.min_idle_ms {
                    return false;
                }
                base = p.delivery_count;
            },
            None => {
                if !opts.force {
                    return false;
                }
            },
        }
        let time: u64 = match opts.time_override_ms {
            Some(t) => t,
            None => match opts.idle_override_ms {
                Some(i) => idle_ms(now_ms, i),
                None => now_ms,
            },
        };
        let count: u32 = match opts.retrycount_override {
            Some(n) => n,
            None => if opts.justid {
                if base > 1 {
                    base
                } else {
                    1
                }
            } else if base < u32::MAX {
                base + 1
            } else {
                u32::MAX
            },
        };
        self.put_row(id, who, time, count);
        true
    }

    /// Tries to claim entries for `who`, one by one, and gives the ids of
    /// those that it got.
    pub fn claim(
        &mut self,
        entries: &IdMap<FieldList>,
        who: &[u8],
        ids: &[StreamId],
        opts: &XClaimOpts,
        now_ms: u64,
    ) -> (r: Vec<StreamId>)
        requires
            old(self).wf(),
            entries.wf(),
        ensures
            final(self).wf(),
            final(self)@ == (crate::stream_group::GroupModel {
                pel: claim_pels(old(self)@.pel, entries@.dom(), ids@, who@, *opts, now_ms),
                ..crate::stream_group::joined(old(self)@, who@, now_ms)
            }),
            r@ == claimed_ids(old(self)@.pel, entries@.dom(), ids@, who@, *opts, now_ms),
    {
        let ghost pel0 = self@.pel;
        let ghost alive = entries@.dom();
        self.join(who, now_ms);
        let ghost g1 = self@;
        let mut out: Vec<StreamId> = Vec::new();
        let mut i: usize = 0;
        while i < ids.len()
            invariant
                self.wf(),
                entries.wf(),
                i <= ids@.len(),
                alive == entries@.dom(),
                g1.consumers.dom().contains(who@),
                self@ == (crate::stream_group::GroupModel {
                    pel: claim_pels(pel0, alive, ids@.take(i as int), who@, *opts, now_ms),
                    ..g1
                }),
                out@ == claimed_ids(pel0, alive, ids@.take(i as int), who@, *opts, now_ms),
            decreases ids@.len() - i,
        {
            assert(ids@.take(i + 1).drop_last() =~= ids@.take(i as int));
            if self.claim_one(entries, ids[i], who, opts, now_ms) {
                out.push(ids[i]);
            }
            i = i + 1;
        }
        assert(ids@.take(ids@.len() as int) =~= ids@);
        out
    }

    /// The ids of the first `count` entries from `start` on that have been
    /// idle for long enough.
    pub fn idle_from(&self, min_idle_ms: u64, start: StreamId, count: usize, now_ms: u64) -> (r: Vec<
        StreamId,
    >)
        requires
            self.wf(),
        ensures
            r@ == idle_ids(self@.pel, min_idle_ms, start, count, now_ms),
    {
        let (lo, hi) = self.pel.between(start, StreamId::max());
        let ghost q = self.pel.ids();
        let ghost pel = self@.pel;
        let ghost f = is_idle(pel, min_idle_ms, now_ms);
        let ghost all = q.subrange(lo as int, hi as int);
        proof {
            assert(pel.dom() =~= self.pel@.dom());
            assert(q.subrange(lo as int, lo as int) =~= Seq::<StreamId>::empty());
        }
        let mut out: Vec<StreamId> = Vec::new();
        let mut i: usize = lo;
        while i < hi
            invariant
                self.wf(),
                q == self.pel.ids(),
                pel == self@.pel,
                pel.dom() == self.pel@.dom(),
                f == is_idle(pel, min_idle_ms, now_ms),
                lo <= i <= hi <= q.len(),
                all == q.subrange(lo as int, hi as int),
                all == crate::id_map::ids_between(pel.dom(), start, crate::stream_id::max_id()),
                out@ == crate::id_map::select(q.subrange(lo as int, i as int), f),
                out@.len() <= count,
            decreases hi - i,
        {
            if out.len() >= count {
                proof {
                    crate::id_map::lemma_select_prefix(q, lo as int, i as int, hi as int, f);
                    let w = crate::id_map::select(all, f);
                    assert(w.take(w.len() as int) =~= w);
                }
                return out;
            }
            let id: StreamId = self.pel.id_of(i);
            let p = self.pel.value_of(i);
            proof {
                crate::id_map::lemma_select_step(q, lo as int, i as int, f);
                assert(pel[id] == p@);
            }
            if idle_ms(now_ms, p.delivery_time_ms) >= min_idle_ms {
                out.push(id);
            }
            i = i + 1;
        }
        out
    }
}

} // verus!
