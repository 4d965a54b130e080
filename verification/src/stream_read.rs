//! Reads through a consumer group: new entries, replays, and what is
//! pending.
use vstd::prelude::*;
use crate::bytes::{bytes_eq, copy_bytes};
use crate::id_map::IdMap;
use crate::stream_group::{
    ConsumerGroup, PendingExtended, PendingExtendedRow, PendingSummary,
};
use crate::stream_id::StreamId;

verus! {

/// The field-value pairs of an entry.
pub type FieldList = Vec<(Vec<u8>, Vec<u8>)>;

/// Milliseconds from `then` to `now`, or 0.
pub open spec fn idle_spec(now: u64, then: u64) -> u64 {
    if now >= then {
        (now - then) as u64
    } else {
        0
    }
}

/// Milliseconds from `then` to `now`, or 0.
pub fn idle_ms(now: u64, then: u64) -> (r: u64)
    ensures
        r == idle_spec(now, then),
{
    if now >= then {
        now - then
    } else {
        0
    }
}

/// The delivery count of an entry once it is handed out again.
pub open spec fn next_count(
    pel: Map<StreamId, crate::stream_group::PelModel>,
    id: StreamId,
) -> u32 {
    if !pel.dom().contains(id) {
        1
    } else if pel[id].count < u32::MAX {
        (pel[id].count + 1) as u32
    } else {
        u32::MAX
    }
}

/// The pending entries once `ids` were handed to `who`.
pub open spec fn handed(
    pel: Map<StreamId, crate::stream_group::PelModel>,
    who: Seq<u8>,
    ids: Seq<StreamId>,
    now: u64,
) -> Map<StreamId, crate::stream_group::PelModel> {
    Map::new(
        |id: StreamId| pel.dom().contains(id) || ids.contains(id),
        |id: StreamId|
            if ids.contains(id) {
                crate::stream_group::PelModel { consumer: who, time: now, count: next_count(pel, id) }
            } else {
                pel[id]
            },
    )
}

/// A group after `who` was seen.
pub open spec fn seen(
    g: crate::stream_group::GroupModel,
    who: Seq<u8>,
    now: u64,
) -> crate::stream_group::GroupModel {
    crate::stream_group::GroupModel { consumers: g.consumers.insert(who, now), ..g }
}

/// A group after `who` read the new entries `ids`.
pub open spec fn read_new_spec(
    g: crate::stream_group::GroupModel,
    who: Seq<u8>,
    ids: Seq<StreamId>,
    noack: bool,
    now: u64,
) -> crate::stream_group::GroupModel {
    if ids.len() == 0 {
        seen(g, who, now)
    } else {
        crate::stream_group::GroupModel {
            last_delivered: ids.last(),
            pel: if noack {
                g.pel
            } else {
                handed(g.pel, who, ids, now)
            },
            consumers: g.consumers.insert(who, now),
        }
    }
}

/// Whether `who` owns the pending entry `id`.
pub open spec fn is_mine(
    pel: Map<StreamId, crate::stream_group::PelModel>,
    who: Seq<u8>,
) -> spec_fn(StreamId) -> bool {
    |id: StreamId| pel[id].consumer == who
}

/// Whether `who` owns the pending entry `id` and the entry still exists.
pub open spec fn is_mine_alive(
    pel: Map<StreamId, crate::stream_group::PelModel>,
    who: Seq<u8>,
    alive: Set<StreamId>,
) -> spec_fn(StreamId) -> bool {
    |id: StreamId| pel[id].consumer == who && alive.contains(id)
}

/// The entries that a replay behind `after` hands `who` again: its pending
/// entries that still exist, at most `count` of them. A `count` of 0 looks
/// at the first pending entry alone.
pub open spec fn replayed(
    pel: Map<StreamId, crate::stream_group::PelModel>,
    who: Seq<u8>,
    alive: Set<StreamId>,
    after: StreamId,
    count: Option<usize>,
) -> Seq<StreamId> {
    let q = crate::id_map::ids_after(pel.dom(), after);
    if count == Some(0usize) {
        crate::id_map::select(
            crate::id_map::first_of(crate::id_map::select(q, is_mine(pel, who)), Some(1usize)),
            is_mine_alive(pel, who, alive),
        )
    } else {
        crate::id_map::first_of(crate::id_map::select(q, is_mine_alive(pel, who, alive)), count)
    }
}

/// Whether a pending entry is one that was asked for.
pub open spec fn is_wanted(
    pel: Map<StreamId, crate::stream_group::PelModel>,
    idle_min: Option<u64>,
    who: Option<Seq<u8>>,
    now: u64,
) -> spec_fn(StreamId) -> bool {
    |id: StreamId|
        (idle_min matches Some(min) ==> idle_spec(now, pel[id].time) >= min) && (who matches Some(
            w,
        ) ==> pel[id].consumer == w)
}

/// Whether `row` tells of the pending entry `id`.
pub open spec fn row_tells(
    row: PendingExtendedRow,
    pel: Map<StreamId, crate::stream_group::PelModel>,
    id: StreamId,
    now: u64,
) -> bool {
    &&& row.id == id
    &&& row.consumer@ == pel[id].consumer
    &&& row.idle_ms == idle_spec(now, pel[id].time)
    &&& row.delivery_count == pel[id].count
}

/// Whether a pair is there for `who`.
pub open spec fn names(pairs: Seq<(Vec<u8>, u64)>, who: Seq<u8>) -> bool {
    exists|i: int| 0 <= i < pairs.len() && (#[trigger] pairs[i]).0@ == who
}

/// Whether `pairs` counts the pending entries of every consumer with any.
pub open spec fn counts_by_consumer(
    pairs: Seq<(Vec<u8>, u64)>,
    pel: Map<StreamId, crate::stream_group::PelModel>,
) -> bool {
    &&& forall|i: int|
        0 <= i < pairs.len() ==> (#[trigger] pairs[i]).1 > 0 && pairs[i].1
            == crate::stream_group::rows_of(pel, pairs[i].0@).len()
    &&& forall|i: int, j: int|
        #![trigger pairs[i], pairs[j]]
        0 <= i < j < pairs.len() ==> pairs[i].0@ != pairs[j].0@
    &&& forall|id: StreamId| #[trigger]
        pel.dom().contains(id) ==> names(pairs, pel[id].consumer)
}

impl ConsumerGroup {
    /// Notes that `who` was seen, adding it first where it is new.
    pub fn touch(&mut self, who: &[u8], now_ms: u64)
        requires
            old(self).wf(),
        ensures
            final(self).wf(),
            final(self)@ == seen(old(self)@, who@, now_ms),
    {
        let ghost before = self@;
        self.join(who, now_ms);
        self.see(who, now_ms);
        assert(self@ =~= seen(before, who@, now_ms));
    }

    /// Puts the entries at `places` of `q` on `who`'s pending list.
    fn hand_out(&mut self, who: &[u8], ids: &Vec<StreamId>, now_ms: u64)
        requires
            old(self).wf(),
            old(self)@.consumers.dom().contains(who@),
            crate::id_map::ascending(ids@),
        ensures
            final(self).wf(),
            final(self)@ == (crate::stream_group::GroupModel {
                pel: handed(old(self)@.pel, who@, ids@, now_ms),
                ..old(self)@
            }),
    {
        let ghost g0 = self@;
        let mut i: usize = 0;
        assert(handed(g0.pel, who@, ids@.take(0), now_ms) =~= g0.pel);
        while i < ids.len()
            invariant
                self.wf(),
                i <= ids@.len(),
                crate::id_map::ascending(ids@),
                g0.consumers.dom().contains(who@),
                self@ == (crate::stream_group::GroupModel {
                    pel: handed(g0.pel, who@, ids@.take(i as int), now_ms),
                    ..g0
                }),
            decreases ids@.len() - i,
        {
            let id: StreamId = ids[i];
            let ghost t = ids@.take(i as int);
            let ghost u = ids@.take(i + 1);
            proof {
                if t.contains(id) {
                    let j = choose|j: int| 0 <= j < t.len() && t[j] == id;
                    assert(crate::stream_id::id_lt(ids@[j], ids@[i as int]));
                }
                assert(u =~= t.push(id));
                assert(self@.pel.dom().contains(id) == self.pel@.dom().contains(id));
                assert(self@.pel.dom().contains(id) == g0.pel.dom().contains(id));
                if self.pel@.dom().contains(id) {
                    assert(self@.pel[id] == self.pel@[id]@);
                    assert(self@.pel[id] == g0.pel[id]);
                }
            }
            let count: u32 = match self.pel.get(id) {
                Some(p) => if p.delivery_count < u32::MAX {
                    p.delivery_count + 1
                } else {
                    u32::MAX
                },
                None => 1,
            };
            assert(count == next_count(g0.pel, id));
            let ghost before = self@.pel;
            self.put_row(id, who, now_ms, count);
            proof {
                let after = handed(g0.pel, who@, u, now_ms);
                assert forall|x: StreamId| u.contains(x) == (t.contains(x) || x == id) by {
                    if t.contains(x) {
                        let j = choose|j: int| 0 <= j < t.len() && t[j] == x;
                        assert(u[j] == x);
                    }
                    if x == id {
                        assert(u[i as int] == x);
                    }
                    if u.contains(x) && x != id {
                        let j = choose|j: int| 0 <= j < u.len() && u[j] == x;
                        assert(t[j] == x);
                    }
                }
                assert(self@.pel =~= after);
            }
            i = i + 1;
        }
        assert(ids@.take(ids@.len() as int) =~= ids@);
    }

    /// Hands `who` the entries behind the last one handed out, at most
    /// `count`. Unless `noack`, they become pending. Gives their ids.
    pub fn read_new(
        &mut self,
        entries: &IdMap<FieldList>,
        who: &[u8],
        count: Option<usize>,
        noack: bool,
        now_ms: u64,
    ) -> (r: Vec<StreamId>)
        requires
            old(self).wf(),
            entries.wf(),
        ensures
            final(self).wf(),
            r@ == crate::id_map::first_of(
                crate::id_map::ids_after(entries@.dom(), old(self)@.last_delivered),
                count,
            ),
            final(self)@ == read_new_spec(old(self)@, who@, r@, noack, now_ms),
    {
        let ghost g0 = self@;
        self.touch(who, now_ms);
        let ids = entries.ids_behind(self.last_delivered_id, count);
        if ids.len() == 0 {
            return ids;
        }
        if !noack {
            self.hand_out(who, &ids, now_ms);
        }
        self.last_delivered_id = ids[ids.len() - 1];
        assert(self@ =~= read_new_spec(g0, who@, ids@, noack, now_ms));
        ids
    }

    /// The ids of `who`'s pending entries behind `after` that still exist.
    pub fn replay(
        &mut self,
        entries: &IdMap<FieldList>,
        who: &[u8],
        after: StreamId,
        count: Option<usize>,
        now_ms: u64,
    ) -> (r: Vec<StreamId>)
        requires
            old(self).wf(),
            entries.wf(),
        ensures
            final(self).wf(),
            final(self)@ == seen(old(self)@, who@, now_ms),
            r@ == replayed(old(self)@.pel, who@, entries@.dom(), after, count),
    {
        self.touch(who, now_ms);
        self.owned_behind(entries, who, after, count)
    }

    fn owned_behind(
        &self,
        entries: &IdMap<FieldList>,
        who: &[u8],
        after: StreamId,
        count: Option<usize>,
    ) -> (r: Vec<StreamId>)
        requires
            self.wf(),
            entries.wf(),
        ensures
            r@ == replayed(self@.pel, who@, entries@.dom(), after, count),
    {
        let (lo, hi) = self.pel.after(after);
        let ghost q = self.pel.ids();
        let ghost all = q.subrange(lo as int, hi as int);
        let ghost alive = entries@.dom();
        let ghost mine = is_mine(self@.pel, who@);
        let ghost good = is_mine_alive(self@.pel, who@, alive);
        proof {
            assert(self@.pel.dom() =~= self.pel@.dom());
        }
        let mut out: Vec<StreamId> = Vec::new();
        let mut i: usize = lo;
        assert(q.subrange(lo as int, lo as int) =~= Seq::<StreamId>::empty());
        while i < hi
            invariant
                self.wf(),
                entries.wf(),
                q == self.pel.ids(),
                lo <= i <= hi <= q.len(),
                all == q.subrange(lo as int, hi as int),
                all == crate::id_map::ids_after(self@.pel.dom(), after),
                alive == entries@.dom(),
                mine == is_mine(self@.pel, who@),
                good == is_mine_alive(self@.pel, who@, alive),
                out@ == crate::id_map::select(q.subrange(lo as int, i as int), good),
                count matches Some(n) ==> (n > 0 ==> out@.len() < n) && (n == 0 ==> out@.len() == 0
                    && crate::id_map::select(q.subrange(lo as int, i as int), mine) == Seq::<
                    StreamId,
                >::empty()),
            decreases hi - i,
        {
            let id: StreamId = self.pel.id_of(i);
            let p = self.pel.value_of(i);
            proof {
                crate::id_map::lemma_select_step(q, lo as int, i as int, good);
                crate::id_map::lemma_select_step(q, lo as int, i as int, mine);
                assert(self@.pel[id] == p@);
            }
            if bytes_eq(p.consumer.as_slice(), who) {
                if entries.contains_key(id) {
                    out.push(id);
                }
                assert(out@ == crate::id_map::select(q.subrange(lo as int, i + 1), good));
                match count {
                    Some(n) => if out.len() >= n {
                        proof {
                            crate::id_map::lemma_select_prefix(
                                q,
                                lo as int,
                                i + 1,
                                hi as int,
                                good,
                            );
                            if n > 0 {
                                assert(out@.len() == n);
                                let w = crate::id_map::select(all, good);
                                assert(w.take(w.len() as int) =~= w);
                            } else {
                                crate::id_map::lemma_select_prefix(
                                    q,
                                    lo as int,
                                    i + 1,
                                    hi as int,
                                    mine,
                                );
                                let m = crate::id_map::select(all, mine);
                                let one = Seq::<StreamId>::empty().push(id);
                                assert(crate::id_map::select(q.subrange(lo as int, i + 1), mine)
                                    =~= one);
                                assert(m.take(1) == one);
                                assert(m.take(m.len() as int) =~= m);
                                assert(crate::id_map::first_of(m, Some(1usize)) == one);
                                assert(one.drop_last() =~= Seq::<StreamId>::empty());
                                assert(crate::id_map::select(one.drop_last(), good) =~= Seq::<
                                    StreamId,
                                >::empty());
                                assert(out@ =~= crate::id_map::select(one, good));
                            }
                        }
                        return out;
                    },
                    None => {},
                }
            }
            i = i + 1;
        }
        proof {
            if count == Some(0usize) {
                let m = crate::id_map::select(all, mine);
                assert(crate::id_map::first_of(m, Some(1usize)) == m);
                assert(crate::id_map::select(m, good) =~= Seq::<StreamId>::empty());
            }
        }
        out
    }
}

impl<V> IdMap<V> {
    /// The ids behind `a`, at most `count` of them.
    pub fn ids_behind(&self, a: StreamId, count: Option<usize>) -> (r: Vec<StreamId>)
        requires
            self.wf(),
        ensures
            r@ == crate::id_map::first_of(crate::id_map::ids_after(self@.dom(), a), count),
            crate::id_map::ascending(r@),
    {
        let (lo, hi) = self.after(a);
        let end: usize = match count {
            Some(n) => if n < hi - lo {
                lo + n
            } else {
                hi
            },
            None => hi,
        };
        let mut out: Vec<StreamId> = Vec::new();
        let mut i: usize = lo;
        let ghost q = self.ids();
        while i < end
            invariant
                self.wf(),
                q == self.ids(),
                lo <= i <= end <= q.len(),
                out@ == q.subrange(lo as int, i as int),
            decreases end - i,
        {
            out.push(self.id_of(i));
            i = i + 1;
            assert(out@ =~= q.subrange(lo as int, i as int));
        }
        proof {
            self.lemma_ids();
            let all = q.subrange(lo as int, hi as int);
            assert(out@ =~= crate::id_map::first_of(all, count));
            assert forall|i: int, j: int| #![trigger out@[i], out@[j]] 0 <= i < j < out@.len() implies crate::stream_id::id_lt(
                out@[i],
                out@[j],
            ) by {
                assert(crate::stream_id::id_lt(q[lo + i], q[lo + j]));
            }
        }
        out
    }
}

/// The number of ids of `q` that `who` owns.
spec fn owned_in(
    pel: Map<StreamId, crate::stream_group::PelModel>,
    q: Seq<StreamId>,
    who: Seq<u8>,
) -> nat {
    crate::id_map::select(q, is_mine(pel, who)).len()
}

/// In the end, the ids counted for a consumer are those that it owns.
proof fn lemma_owned_all(
    pel: Map<StreamId, crate::stream_group::PelModel>,
    q: Seq<StreamId>,
    who: Seq<u8>,
)
    requires
        crate::id_map::ascending(q),
        q.to_set() == pel.dom(),
    ensures
        owned_in(pel, q, who) == crate::stream_group::rows_of(pel, who).len(),
{
    let f = is_mine(pel, who);
    let s = crate::id_map::select(q, f);
    crate::id_map::lemma_select_contains(q, f);
    assert(s.no_duplicates()) by {
        assert forall|i: int, j: int| 0 <= i < s.len() && 0 <= j < s.len() && i != j implies s[i]
            != s[j] by {
            if i < j {
                assert(crate::stream_id::id_lt(s[i], s[j]));
            } else {
                assert(crate::stream_id::id_lt(s[j], s[i]));
            }
        }
    }
    s.unique_seq_to_set();
    assert forall|id: StreamId| s.to_set().contains(id) == crate::stream_group::rows_of(
        pel,
        who,
    ).contains(id) by {
        assert(s.to_set().contains(id) == s.contains(id));
        assert(q.to_set().contains(id) == q.contains(id));
    }
    assert(s.to_set() =~= crate::stream_group::rows_of(pel, who));
}

/// Counts of the owners of the first ids.
spec fn tally(
    pairs: Seq<(Vec<u8>, u64)>,
    pel: Map<StreamId, crate::stream_group::PelModel>,
    q: Seq<StreamId>,
) -> bool {
    &&& forall|i: int|
        0 <= i < pairs.len() ==> (#[trigger] pairs[i]).1 > 0 && pairs[i].1 == owned_in(
            pel,
            q,
            pairs[i].0@,
        )
    &&& forall|i: int, j: int|
        #![trigger pairs[i], pairs[j]]
        0 <= i < j < pairs.len() ==> pairs[i].0@ != pairs[j].0@
    &&& forall|k: int| 0 <= k < q.len() ==> names(pairs, pel[#[trigger] q[k]].consumer)
}

/// Counts one more id for `who`.
fn count_one(
    pairs: &mut Vec<(Vec<u8>, u64)>,
    who: &[u8],
    Ghost(pel): Ghost<Map<StreamId, crate::stream_group::PelModel>>,
    Ghost(q): Ghost<Seq<StreamId>>,
    Ghost(id): Ghost<StreamId>,
)
    requires
        tally(old(pairs)@, pel, q),
        pel[id].consumer == who@,
        q.len() < u64::MAX,
    ensures
        tally(final(pairs)@, pel, q.push(id)),
{
    let ghost old_pairs = pairs@;
    let ghost q1 = q.push(id);
    proof {
        assert(q1.drop_last() =~= q);
        assert forall|w: Seq<u8>| #[trigger] owned_in(pel, q1, w) == owned_in(pel, q, w) + (if w
            == who@ {
            1nat
        } else {
            0
        }) by {}
        assert forall|w: Seq<u8>| #[trigger] owned_in(pel, q, w) <= q.len() by {
            crate::id_map::lemma_select_contains(q, is_mine(pel, w));
        }
    }
    let mut i: usize = 0;
    while i < pairs.len()
        invariant
            pairs@ == old_pairs,
            i <= pairs@.len(),
            tally(old_pairs, pel, q),
            q.len() < u64::MAX,
            q1 == q.push(id),
            pel[id].consumer == who@,
            forall|w: Seq<u8>| #[trigger]
                owned_in(pel, q1, w) == owned_in(pel, q, w) + (if w == who@ {
                    1nat
                } else {
                    0
                }),
            forall|w: Seq<u8>| #[trigger] owned_in(pel, q, w) <= q.len(),
            forall|j: int| 0 <= j < i ==> (#[trigger] old_pairs[j]).0@ != who@,
        decreases pairs@.len() - i,
    {
        if bytes_eq(pairs[i].0.as_slice(), who) {
            proof {
                assert(owned_in(pel, q, who@) <= q.len());
                assert(old_pairs[i as int].1 == owned_in(pel, q, who@));
            }
            let n: u64 = pairs[i].1;
            let name = copy_bytes(who);
            pairs.set(i, (name, n + 1));
            proof {
                let np = pairs@;
                assert forall|k: int| 0 <= k < np.len() implies (#[trigger] np[k]).1 > 0
                    && np[k].1 == owned_in(pel, q1, np[k].0@) by {
                    if k != i {
                        assert(np[k] == old_pairs[k]);
                        if k < i {
                            assert(old_pairs[k].0@ != old_pairs[i as int].0@);
                        } else {
                            assert(old_pairs[i as int].0@ != old_pairs[k].0@);
                        }
                    }
                }
                assert forall|a: int, b: int| #![trigger np[a], np[b]] 0 <= a < b < np.len() implies np[a].0@
                    != np[b].0@ by {
                    assert(old_pairs[a].0@ != old_pairs[b].0@);
                }
                assert forall|k: int| 0 <= k < q1.len() implies names(
                    np,
                    pel[#[trigger] q1[k]].consumer,
                ) by {
                    if k < q.len() {
                        assert(q1[k] == q[k]);
                        assert(names(old_pairs, pel[q[k]].consumer));
                        let x = choose|x: int|
                            0 <= x < old_pairs.len() && (#[trigger] old_pairs[x]).0@
                                == pel[q[k]].consumer;
                        assert(np[x].0@ == pel[q1[k]].consumer);
                    } else {
                        assert(np[i as int].0@ == pel[q1[k]].consumer);
                    }
                }
            }
            return;
        }
        i = i + 1;
    }
    let name = copy_bytes(who);
    pairs.push((name, 1));
    proof {
        let np = pairs@;
        let last = old_pairs.len() as int;
        assert(owned_in(pel, q, who@) == 0) by {
            if owned_in(pel, q, who@) > 0 {
                let s = crate::id_map::select(q, is_mine(pel, who@));
                crate::id_map::lemma_select_contains(q, is_mine(pel, who@));
                assert(s.contains(s[0]));
                let k = choose|k: int| 0 <= k < q.len() && q[k] == s[0];
                assert(pel[q[k]].consumer == who@);
                assert(names(old_pairs, pel[q[k]].consumer));
                let x = choose|x: int|
                    0 <= x < old_pairs.len() && (#[trigger] old_pairs[x]).0@
                        == pel[q[k]].consumer;
                assert(old_pairs[x].0@ != who@);
            }
        }
        assert forall|k: int| 0 <= k < np.len() implies (#[trigger] np[k]).1 > 0 && np[k].1
            == owned_in(pel, q1, np[k].0@) by {
            if k < last {
                assert(np[k] == old_pairs[k]);
            }
        }
        assert forall|a: int, b: int| #![trigger np[a], np[b]] 0 <= a < b < np.len() implies np[a].0@
            != np[b].0@ by {
            if b < last {
                assert(old_pairs[a].0@ != old_pairs[b].0@);
            } else {
                assert(old_pairs[a].0@ != who@);
            }
        }
        assert forall|k: int| 0 <= k < q1.len() implies names(
            np,
            pel[#[trigger] q1[k]].consumer,
        ) by {
            if k < q.len() {
                assert(q1[k] == q[k]);
                assert(names(old_pairs, pel[q[k]].consumer));
                let x = choose|x: int|
                    0 <= x < old_pairs.len() && (#[trigger] old_pairs[x]).0@ == pel[q[k]].consumer;
                assert(np[x].0@ == pel[q1[k]].consumer);
            } else {
                assert(np[last].0@ == pel[q1[k]].consumer);
            }
        }
    }
}

impl ConsumerGroup {
    /// All pending entries, summed up.
    pub fn summary(&self) -> (r: PendingSummary)
        requires
            self.wf(),
        ensures
            r.total == self@.pel.dom().len(),
            self@.pel.dom().finite(),
            r.id_range == (if self@.pel.dom().len() == 0 {
                None
            } else {
                Some(
                    (
                        crate::id_map::sorted_ids(self@.pel.dom()).first(),
                        crate::id_map::sorted_ids(self@.pel.dom()).last(),
                    ),
                )
            }),
            counts_by_consumer(r.by_consumer@, self@.pel),
    {
        let n: usize = self.pel.len();
        let ghost q = self.pel.ids();
        let ghost pel = self@.pel;
        proof {
            self.pel.lemma_ids();
            assert(pel.dom() =~= self.pel@.dom());
        }
        let id_range = if n == 0 {
            None
        } else {
            Some((self.pel.id_of(0), self.pel.id_of(n - 1)))
        };
        let mut pairs: Vec<(Vec<u8>, u64)> = Vec::new();
        let mut i: usize = 0;
        while i < n
            invariant
                self.wf(),
                q == self.pel.ids(),
                pel == self@.pel,
                pel.dom() == self.pel@.dom(),
                n == q.len(),
                i <= n,
                tally(pairs@, pel, q.take(i as int)),
            decreases n - i,
        {
            let p = self.pel.value_of(i);
            proof {
                assert(pel[q[i as int]] == p@);
                assert(q.take(i + 1) =~= q.take(i as int).push(q[i as int]));
            }
            count_one(
                &mut pairs,
                p.consumer.as_slice(),
                Ghost(pel),
                Ghost(q.take(i as int)),
                Ghost(q[i as int]),
            );
            i = i + 1;
        }
        proof {
            assert(q.take(n as int) =~= q);
            assert forall|k: int| 0 <= k < pairs@.len() implies (#[trigger] pairs@[k]).1 > 0
                && pairs@[k].1 == crate::stream_group::rows_of(pel, pairs@[k].0@).len() by {
                lemma_owned_all(pel, q, pairs@[k].0@);
            }
            assert forall|id: StreamId| #[trigger] pel.dom().contains(id) implies names(
                pairs@,
                pel[id].consumer,
            ) by {
                assert(q.to_set().contains(id));
                let k = choose|k: int| 0 <= k < q.len() && q[k] == id;
                assert(names(pairs@, pel[q[k]].consumer));
            }
        }
        PendingSummary { total: n as u64, id_range, by_consumer: pairs }
    }

    /// The pending entries from `start` to `end`, one by one: those idle for
    /// at least `idle_min_ms` and owned by `who`, at most `count`.
    pub fn extended(
        &self,
        idle_min_ms: Option<u64>,
        start: StreamId,
        end: StreamId,
        count: usize,
        who: Option<&[u8]>,
        now_ms: u64,
    ) -> (r: PendingExtended)
        requires
            self.wf(),
        ensures
            tells_of(
                r.rows@,
                self@.pel,
                wanted_ids(self@.pel, idle_min_ms, start, end, count, view_of(who), now_ms),
                now_ms,
            ),
    {
        let (lo, hi) = self.pel.between(start, end);
        let ghost q = self.pel.ids();
        let ghost pel = self@.pel;
        let ghost f = is_wanted(pel, idle_min_ms, view_of(who), now_ms);
        let ghost all = q.subrange(lo as int, hi as int);
        proof {
            assert(pel.dom() =~= self.pel@.dom());
            assert(q.subrange(lo as int, lo as int) =~= Seq::<StreamId>::empty());
        }
        let mut rows: Vec<PendingExtendedRow> = Vec::new();
        let mut i: usize = lo;
        while i < hi
            invariant
                self.wf(),
                q == self.pel.ids(),
                pel == self@.pel,
                pel.dom() == self.pel@.dom(),
                f == is_wanted(pel, idle_min_ms, view_of(who), now_ms),
                lo <= i <= hi <= q.len(),
                all == q.subrange(lo as int, hi as int),
                all == crate::id_map::ids_between(pel.dom(), start, end),
                tells_of(
                    rows@,
                    pel,
                    crate::id_map::select(q.subrange(lo as int, i as int), f),
                    now_ms,
                ),
                rows@.len() <= count,
            decreases hi - i,
        {
            if rows.len() >= count {
                proof {
                    crate::id_map::lemma_select_prefix(q, lo as int, i as int, hi as int, f);
                    let w = crate::id_map::select(all, f);
                    assert(w.take(w.len() as int) =~= w);
                }
                return PendingExtended { rows };
            }
            let id: StreamId = self.pel.id_of(i);
            let p = self.pel.value_of(i);
            proof {
                crate::id_map::lemma_select_step(q, lo as int, i as int, f);
                assert(pel[id] == p@);
            }
            let idle: u64 = idle_ms(now_ms, p.delivery_time_ms);
            let idle_fits: bool = match idle_min_ms {
                Some(min) => idle >= min,
                None => true,
            };
            let owner_fits: bool = match who {
                Some(w) => bytes_eq(p.consumer.as_slice(), w),
                None => true,
            };
            if idle_fits && owner_fits {
                rows.push(
                    PendingExtendedRow {
                        id,
                        consumer: copy_bytes(p.consumer.as_slice()),
                        idle_ms: idle,
                        delivery_count: p.delivery_count,
                    },
                );
            }
            i = i + 1;
        }
        PendingExtended { rows }
    }
}

/// The bytes of an optional name.
pub open spec fn view_of(who: Option<&[u8]>) -> Option<Seq<u8>> {
    match who {
        Some(w) => Some(w@),
        None => None,
    }
}

/// The pending entries that were asked for.
pub open spec fn wanted_ids(
    pel: Map<StreamId, crate::stream_group::PelModel>,
    idle_min: Option<u64>,
    start: StreamId,
    end: StreamId,
    count: usize,
    who: Option<Seq<u8>>,
    now: u64,
) -> Seq<StreamId> {
    crate::id_map::first_of(
        crate::id_map::select(
            crate::id_map::ids_between(pel.dom(), start, end),
            is_wanted(pel, idle_min, who, now),
        ),
        Some(count),
    )
}

/// Whether `rows` tells of the pending entries `ids`, in order.
pub open spec fn tells_of(
    rows: Seq<PendingExtendedRow>,
    pel: Map<StreamId, crate::stream_group::PelModel>,
    ids: Seq<StreamId>,
    now: u64,
) -> bool {
    &&& rows.len() == ids.len()
    &&& forall|i: int| 0 <= i < rows.len() ==> row_tells(#[trigger] rows[i], pel, ids[i], now)
}

} // verus!
