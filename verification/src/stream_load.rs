//! A stream's groups as plain values, there and back, and copies of
//! streams.
use vstd::prelude::*;
use crate::bytes::copy_bytes;
use crate::id_map::Copied;
use crate::stream::{copy_fields, LoadedGroup, LoadedPelEntry, StreamData};
use crate::stream_group::{ConsumerGroup, ConsumerState, PelEntry};
use crate::stream_id::StreamId;
use crate::stream_read::FieldList;

verus! {

/// The id of a pending entry given as plain values.
pub open spec fn loaded_id(row: LoadedPelEntry) -> StreamId {
    StreamId { ms: row.0, seq: row.1 }
}

/// A pending entry given as plain values.
pub open spec fn loaded_row(row: LoadedPelEntry) -> crate::stream_group::PelModel {
    crate::stream_group::PelModel { consumer: row.2@, time: row.3, count: row.4 }
}

/// The pending entries given as plain values; the last of several under one
/// id counts.
pub open spec fn loaded_pel(rows: Seq<LoadedPelEntry>) -> Map<
    StreamId,
    crate::stream_group::PelModel,
>
    decreases rows.len(),
{
    if rows.len() == 0 {
        Map::empty()
    } else {
        loaded_pel(rows.drop_last()).insert(loaded_id(rows.last()), loaded_row(rows.last()))
    }
}

/// The roster given as plain values; the last of several under one name
/// counts.
pub open spec fn loaded_roster(list: Seq<(Vec<u8>, u64)>) -> Map<Seq<u8>, u64>
    decreases list.len(),
{
    if list.len() == 0 {
        Map::empty()
    } else {
        loaded_roster(list.drop_last()).insert(list.last().0@, list.last().1)
    }
}

/// A roster to which every owner of a pending entry was added.
pub open spec fn with_owners(roster: Map<Seq<u8>, u64>, rows: Seq<LoadedPelEntry>) -> Map<
    Seq<u8>,
    u64,
>
    decreases rows.len(),
{
    if rows.len() == 0 {
        roster
    } else {
        let r = with_owners(roster, rows.drop_last());
        if r.dom().contains(rows.last().2@) {
            r
        } else {
            r.insert(rows.last().2@, 0)
        }
    }
}

/// The group that plain values stand for.
pub open spec fn loaded_model(g: LoadedGroup) -> crate::stream_group::GroupModel {
    crate::stream_group::GroupModel {
        last_delivered: StreamId { ms: g.last_delivered.0, seq: g.last_delivered.1 },
        pel: loaded_pel(g.pel@),
        consumers: with_owners(loaded_roster(g.consumers@), g.pel@),
    }
}

/// The groups after some were put in, the last of several under one name
/// counting.
pub open spec fn imported(
    m: Map<Seq<u8>, crate::stream_group::GroupModel>,
    list: Seq<LoadedGroup>,
) -> Map<Seq<u8>, crate::stream_group::GroupModel>
    decreases list.len(),
{
    if list.len() == 0 {
        m
    } else {
        imported(m, list.drop_last()).insert(list.last().name@, loaded_model(list.last()))
    }
}

/// Whether `list` names the consumers of a roster, each once, with its
/// time.
pub open spec fn lists_roster(list: Seq<(Vec<u8>, u64)>, roster: Map<Seq<u8>, u64>) -> bool {
    &&& forall|i: int|
        0 <= i < list.len() ==> roster.dom().contains((#[trigger] list[i]).0@)
            && roster[list[i].0@] == list[i].1
    &&& forall|i: int, j: int|
        #![trigger list[i], list[j]]
        0 <= i < j < list.len() ==> list[i].0@ != list[j].0@
    &&& forall|n: Seq<u8>| #[trigger]
        roster.dom().contains(n) ==> exists|i: int|
            0 <= i < list.len() && (#[trigger] list[i]).0@ == n
}

/// Whether `rows` lists the pending entries in id order.
pub open spec fn lists_pel(
    rows: Seq<LoadedPelEntry>,
    pel: Map<StreamId, crate::stream_group::PelModel>,
) -> bool {
    let q = crate::id_map::sorted_ids(pel.dom());
    &&& rows.len() == q.len()
    &&& forall|i: int|
        0 <= i < rows.len() ==> loaded_id(#[trigger] rows[i]) == q[i] && loaded_row(rows[i])
            == pel[q[i]]
}

/// Whether plain values tell all of a group.
pub open spec fn exported(g: LoadedGroup, m: crate::stream_group::GroupModel) -> bool {
    &&& g.last_delivered == (m.last_delivered.ms, m.last_delivered.seq)
    &&& lists_roster(g.consumers@, m.consumers)
    &&& lists_pel(g.pel@, m.pel)
}

/// Whether `list` tells all of every group, each once.
pub open spec fn exports(
    list: Seq<LoadedGroup>,
    groups: Map<Seq<u8>, crate::stream_group::GroupModel>,
) -> bool {
    &&& forall|i: int|
        0 <= i < list.len() ==> groups.dom().contains((#[trigger] list[i]).name@) && exported(
            list[i],
            groups[list[i].name@],
        )
    &&& forall|i: int, j: int|
        #![trigger list[i], list[j]]
        0 <= i < j < list.len() ==> list[i].name@ != list[j].name@
    &&& forall|n: Seq<u8>| #[trigger]
        groups.dom().contains(n) ==> exists|i: int|
            0 <= i < list.len() && (#[trigger] list[i]).name@ == n
}

proof fn lemma_roster_prefix(list: Seq<(Vec<u8>, u64)>, roster: Map<Seq<u8>, u64>, n: int)
    requires
        lists_roster(list, roster),
        0 <= n <= list.len(),
    ensures
        forall|x: Seq<u8>| #[trigger]
            loaded_roster(list.take(n)).dom().contains(x) <==> exists|i: int|
                0 <= i < n && (#[trigger] list[i]).0@ == x,
        forall|x: Seq<u8>| #[trigger]
            loaded_roster(list.take(n)).dom().contains(x) ==> roster.dom().contains(x)
                && loaded_roster(list.take(n))[x] == roster[x],
    decreases n,
{
    if n > 0 {
        lemma_roster_prefix(list, roster, n - 1);
        let t = list.take(n);
        assert(t.drop_last() =~= list.take(n - 1));
        assert(t.last() == list[n - 1]);
        let m = loaded_roster(t);
        let m0 = loaded_roster(list.take(n - 1));
        assert forall|x: Seq<u8>| #[trigger] m.dom().contains(x) <==> exists|i: int|
            0 <= i < n && (#[trigger] list[i]).0@ == x by {
            if m.dom().contains(x) {
                if x != list[n - 1].0@ {
                    assert(m0.dom().contains(x));
                    let i = choose|i: int| 0 <= i < n - 1 && (#[trigger] list[i]).0@ == x;
                    assert(list[i].0@ == x);
                } else {
                    assert(list[n - 1].0@ == x);
                }
            }
            if exists|i: int| 0 <= i < n && (#[trigger] list[i]).0@ == x {
                let i = choose|i: int| 0 <= i < n && (#[trigger] list[i]).0@ == x;
                if i < n - 1 {
                    assert(m0.dom().contains(x));
                }
            }
        }
        assert forall|x: Seq<u8>| #[trigger] m.dom().contains(x) implies roster.dom().contains(x)
            && m[x] == roster[x] by {
            if x != list[n - 1].0@ {
                assert(m0.dom().contains(x));
            }
        }
    } else {
        assert(list.take(0) =~= Seq::empty());
    }
}

proof fn lemma_owners_present(roster: Map<Seq<u8>, u64>, rows: Seq<LoadedPelEntry>)
    requires
        forall|i: int| 0 <= i < rows.len() ==> roster.dom().contains((#[trigger] rows[i]).2@),
    ensures
        with_owners(roster, rows) == roster,
    decreases rows.len(),
{
    if rows.len() > 0 {
        let d = rows.drop_last();
        assert forall|i: int| 0 <= i < d.len() implies roster.dom().contains((#[trigger] d[i]).2@) by {
            assert(d[i] == rows[i]);
        }
        lemma_owners_present(roster, d);
        assert(rows.last() == rows[rows.len() - 1]);
    }
}

proof fn lemma_pel_prefix(
    rows: Seq<LoadedPelEntry>,
    pel: Map<StreamId, crate::stream_group::PelModel>,
    n: int,
)
    requires
        pel.dom().finite(),
        lists_pel(rows, pel),
        0 <= n <= rows.len(),
    ensures
        forall|x: StreamId| #[trigger]
            loaded_pel(rows.take(n)).dom().contains(x) <==> exists|i: int|
                0 <= i < n && #[trigger] crate::id_map::sorted_ids(pel.dom())[i] == x,
        forall|x: StreamId| #[trigger]
            loaded_pel(rows.take(n)).dom().contains(x) ==> loaded_pel(rows.take(n))[x] == pel[x],
    decreases n,
{
    let q = crate::id_map::sorted_ids(pel.dom());
    if n > 0 {
        lemma_pel_prefix(rows, pel, n - 1);
        let t = rows.take(n);
        assert(t.drop_last() =~= rows.take(n - 1));
        assert(t.last() == rows[n - 1]);
        let m = loaded_pel(t);
        let m0 = loaded_pel(rows.take(n - 1));
        assert(loaded_id(rows[n - 1]) == q[n - 1]);
        assert forall|x: StreamId| #[trigger] m.dom().contains(x) <==> exists|i: int|
            0 <= i < n && #[trigger] q[i] == x by {
            if m.dom().contains(x) {
                if x != q[n - 1] {
                    assert(m0.dom().contains(x));
                    let i = choose|i: int| 0 <= i < n - 1 && #[trigger] q[i] == x;
                    assert(q[i] == x);
                } else {
                    assert(q[n - 1] == x);
                }
            }
            if exists|i: int| 0 <= i < n && #[trigger] q[i] == x {
                let i = choose|i: int| 0 <= i < n && #[trigger] q[i] == x;
                if i < n - 1 {
                    assert(m0.dom().contains(x));
                }
            }
        }
        assert forall|x: StreamId| #[trigger] m.dom().contains(x) implies m[x] == pel[x] by {
            if x != q[n - 1] {
                assert(m0.dom().contains(x));
            }
        }
    } else {
        assert(rows.take(0) =~= Seq::empty());
    }
}

/// What was exported of a group loads as that group.
pub proof fn lemma_export_import(g: LoadedGroup, m: crate::stream_group::GroupModel)
    requires
        exported(g, m),
        crate::stream_group::owned(m),
        m.pel.dom().finite(),
    ensures
        loaded_model(g) == m,
{
    let list = g.consumers@;
    let rows = g.pel@;
    let q = crate::id_map::sorted_ids(m.pel.dom());
    crate::id_map::lemma_sortable(m.pel.dom());
    lemma_roster_prefix(list, m.consumers, list.len() as int);
    assert(list.take(list.len() as int) =~= list);
    assert(loaded_roster(list) =~= m.consumers) by {
        assert forall|n: Seq<u8>| #[trigger] m.consumers.dom().contains(n) implies loaded_roster(
            list,
        ).dom().contains(n) by {
            let i = choose|i: int| 0 <= i < list.len() && (#[trigger] list[i]).0@ == n;
            assert(list[i].0@ == n);
        }
    }
    lemma_pel_prefix(rows, m.pel, rows.len() as int);
    assert(rows.take(rows.len() as int) =~= rows);
    assert(loaded_pel(rows) =~= m.pel) by {
        assert forall|x: StreamId| m.pel.dom().contains(x) == loaded_pel(rows).dom().contains(x) by {
            if m.pel.dom().contains(x) {
                assert(q.to_set().contains(x));
                let i = choose|i: int| 0 <= i < q.len() && q[i] == x;
                assert(q[i] == x);
            }
            if loaded_pel(rows).dom().contains(x) {
                let i = choose|i: int| 0 <= i < rows.len() && #[trigger] q[i] == x;
                assert(m.pel.dom().contains(q[i]));
            }
        }
    }
    assert forall|i: int| 0 <= i < rows.len() implies m.consumers.dom().contains(
        (#[trigger] rows[i]).2@,
    ) by {
        assert(loaded_row(rows[i]) == m.pel[q[i]]);
        assert(m.pel.dom().contains(q[i]));
    }
    lemma_owners_present(m.consumers, rows);
}

/// What was exported of a stream's groups, put into a stream without
/// groups, gives those groups back.
pub proof fn lemma_groups_roundtrip(
    list: Seq<LoadedGroup>,
    groups: Map<Seq<u8>, crate::stream_group::GroupModel>,
)
    requires
        exports(list, groups),
        forall|n: Seq<u8>| #[trigger]
            groups.dom().contains(n) ==> crate::stream_group::owned(groups[n])
                && groups[n].pel.dom().finite(),
    ensures
        imported(Map::empty(), list) == groups,
{
    lemma_import_prefix(list, groups, list.len() as int);
    assert(list.take(list.len() as int) =~= list);
    let m = imported(Map::empty(), list);
    assert forall|n: Seq<u8>| #[trigger] groups.dom().contains(n) implies m.dom().contains(n) by {
        let i = choose|i: int| 0 <= i < list.len() && (#[trigger] list[i]).name@ == n;
        assert(list[i].name@ == n);
    }
    assert(m =~= groups);
}

proof fn lemma_import_prefix(
    list: Seq<LoadedGroup>,
    groups: Map<Seq<u8>, crate::stream_group::GroupModel>,
    n: int,
)
    requires
        exports(list, groups),
        forall|x: Seq<u8>| #[trigger]
            groups.dom().contains(x) ==> crate::stream_group::owned(groups[x])
                && groups[x].pel.dom().finite(),
        0 <= n <= list.len(),
    ensures
        forall|x: Seq<u8>| #[trigger]
            imported(Map::empty(), list.take(n)).dom().contains(x) <==> exists|i: int|
                0 <= i < n && (#[trigger] list[i]).name@ == x,
        forall|x: Seq<u8>| #[trigger]
            imported(Map::empty(), list.take(n)).dom().contains(x) ==> groups.dom().contains(x)
                && imported(Map::empty(), list.take(n))[x] == groups[x],
    decreases n,
{
    if n > 0 {
        lemma_import_prefix(list, groups, n - 1);
        let t = list.take(n);
        assert(t.drop_last() =~= list.take(n - 1));
        assert(t.last() == list[n - 1]);
        let m = imported(Map::empty(), t);
        let m0 = imported(Map::empty(), list.take(n - 1));
        lemma_export_import(list[n - 1], groups[list[n - 1].name@]);
        assert forall|x: Seq<u8>| #[trigger] m.dom().contains(x) <==> exists|i: int|
            0 <= i < n && (#[trigger] list[i]).name@ == x by {
            if m.dom().contains(x) {
                if x != list[n - 1].name@ {
                    assert(m0.dom().contains(x));
                    let i = choose|i: int| 0 <= i < n - 1 && (#[trigger] list[i]).name@ == x;
                    assert(list[i].name@ == x);
                } else {
                    assert(list[n - 1].name@ == x);
                }
            }
            if exists|i: int| 0 <= i < n && (#[trigger] list[i]).name@ == x {
                let i = choose|i: int| 0 <= i < n && (#[trigger] list[i]).name@ == x;
                if i < n - 1 {
                    assert(m0.dom().contains(x));
                }
            }
        }
        assert forall|x: Seq<u8>| #[trigger] m.dom().contains(x) implies groups.dom().contains(x)
            && m[x] == groups[x] by {
            if x != list[n - 1].name@ {
                assert(m0.dom().contains(x));
            }
        }
    } else {
        assert(list.take(0) =~= Seq::empty());
    }
}

impl ConsumerGroup {
    /// The group that plain values stand for.
    pub fn load(g: &LoadedGroup) -> (r: ConsumerGroup)
        ensures
            r.wf(),
            r@ == loaded_model(*g),
    {
        let at = StreamId { ms: g.last_delivered.0, seq: g.last_delivered.1 };
        let mut out = ConsumerGroup::starting_at(at);
        let mut i: usize = 0;
        let ghost list = g.consumers@;
        let ghost rows = g.pel@;
        assert(list.take(0) =~= Seq::empty());
        while i < g.consumers.len()
            invariant
                out.wf(),
                list == g.consumers@,
                i <= list.len(),
                out@ == (crate::stream_group::GroupModel {
                    last_delivered: at,
                    pel: Map::empty(),
                    consumers: loaded_roster(list.take(i as int)),
                }),
            decreases list.len() - i,
        {
            assert(list.take(i + 1).drop_last() =~= list.take(i as int));
            out.touch(g.consumers[i].0.as_slice(), g.consumers[i].1);
            i = i + 1;
        }
        let ghost roster = loaded_roster(list);
        proof {
            assert(list.take(list.len() as int) =~= list);
            assert(rows.take(0) =~= Seq::empty());
        }
        let mut j: usize = 0;
        while j < g.pel.len()
            invariant
                out.wf(),
                rows == g.pel@,
                j <= rows.len(),
                out@ == (crate::stream_group::GroupModel {
                    last_delivered: at,
                    pel: loaded_pel(rows.take(j as int)),
                    consumers: with_owners(roster, rows.take(j as int)),
                }),
            decreases rows.len() - j,
        {
            assert(rows.take(j + 1).drop_last() =~= rows.take(j as int));
            let id = StreamId { ms: g.pel[j].0, seq: g.pel[j].1 };
            out.join(g.pel[j].2.as_slice(), 0);
            out.put_row(id, g.pel[j].2.as_slice(), g.pel[j].3, g.pel[j].4);
            j = j + 1;
        }
        assert(rows.take(rows.len() as int) =~= rows);
        out
    }

    /// The consumers and when each was last seen.
    fn dump_roster(&self) -> (r: Vec<(Vec<u8>, u64)>)
        requires
            self.wf(),
        ensures
            lists_roster(r@, self@.consumers),
    {
        let names = self.consumers.keys();
        let ghost order = self.consumers.key_order();
        proof {
            self.consumers.lemma_key_order();
        }
        let mut out: Vec<(Vec<u8>, u64)> = Vec::new();
        let mut i: usize = 0;
        while i < names.len()
            invariant
                self.wf(),
                order == self.consumers.key_order(),
                crate::bytes::deep(names@) == order,
                order.to_set() == self.consumers@.dom(),
                i <= names@.len(),
                out@.len() == i,
                forall|k: int|
                    0 <= k < i ==> (#[trigger] out@[k]).0@ == order[k]
                        && self@.consumers.dom().contains(order[k]) && self@.consumers[order[k]]
                        == out@[k].1,
            decreases names@.len() - i,
        {
            proof {
                assert(order[i as int] == names@[i as int]@);
                assert(order.to_set().contains(order[i as int]));
            }
            match self.consumers.get(names[i].as_slice()) {
                Some(cs) => {
                    out.push((copy_bytes(names[i].as_slice()), cs.last_seen_ms));
                },
                None => {
                    assert(false);
                },
            }
            i = i + 1;
        }
        proof {
            assert(order.len() == names@.len());
            assert forall|n: Seq<u8>| #[trigger] self@.consumers.dom().contains(n) implies exists|
                k: int,
            | 0 <= k < out@.len() && (#[trigger] out@[k]).0@ == n by {
                assert(order.to_set().contains(n));
                let k = choose|k: int| 0 <= k < order.len() && order[k] == n;
                assert(out@[k].0@ == n);
            }
        }
        out
    }

    /// The pending entries, in id order.
    fn dump_pel(&self) -> (r: Vec<LoadedPelEntry>)
        requires
            self.wf(),
        ensures
            lists_pel(r@, self@.pel),
    {
        let n: usize = self.pel.len();
        let ghost q = self.pel.ids();
        proof {
            self.pel.lemma_ids();
            assert(self@.pel.dom() =~= self.pel@.dom());
        }
        let mut out: Vec<LoadedPelEntry> = Vec::new();
        let mut i: usize = 0;
        while i < n
            invariant
                self.wf(),
                q == self.pel.ids(),
                n == q.len(),
                i <= n,
                out@.len() == i,
                forall|k: int|
                    0 <= k < i ==> loaded_id(#[trigger] out@[k]) == q[k] && loaded_row(out@[k])
                        == self@.pel[q[k]],
            decreases n - i,
        {
            let id: StreamId = self.pel.id_of(i);
            let p = self.pel.value_of(i);
            assert(self@.pel[id] == p@);
            out.push(
                (
                    id.ms,
                    id.seq,
                    copy_bytes(p.consumer.as_slice()),
                    p.delivery_time_ms,
                    p.delivery_count,
                ),
            );
            i = i + 1;
        }
        out
    }
}

impl StreamData {
    /// The groups, each with its name.
    pub fn groups_iter(&self) -> (r: Vec<(Vec<u8>, &ConsumerGroup)>)
        requires
            self.wf(),
        ensures
            r@.len() == self.groups.key_order().len(),
            forall|i: int|
                0 <= i < r@.len() ==> (#[trigger] r@[i]).0@ == self.groups.key_order()[i]
                    && self@.groups.dom().contains(r@[i].0@) && r@[i].1@
                    == self@.groups[r@[i].0@] && r@[i].1.wf(),
            self.groups.key_order().no_duplicates(),
            self.groups.key_order().to_set() == self@.groups.dom(),
    {
        let names = self.groups.keys();
        let ghost order = self.groups.key_order();
        proof {
            self.groups.lemma_key_order();
            assert(self@.groups.dom() =~= self.groups@.dom());
        }
        let mut out: Vec<(Vec<u8>, &ConsumerGroup)> = Vec::new();
        let mut i: usize = 0;
        while i < names.len()
            invariant
                self.wf(),
                order == self.groups.key_order(),
                crate::bytes::deep(names@) == order,
                order.to_set() == self.groups@.dom(),
                i <= names@.len(),
                out@.len() == i,
                forall|k: int|
                    0 <= k < i ==> (#[trigger] out@[k]).0@ == order[k]
                        && self@.groups.dom().contains(out@[k].0@) && out@[k].1@
                        == self@.groups[out@[k].0@] && out@[k].1.wf(),
            decreases names@.len() - i,
        {
            proof {
                assert(order[i as int] == names@[i as int]@);
                assert(order.to_set().contains(order[i as int]));
            }
            match self.groups.get(names[i].as_slice()) {
                Some(g) => {
                    out.push((copy_bytes(names[i].as_slice()), g));
                },
                None => {
                    assert(false);
                },
            }
            i = i + 1;
        }
        assert(order.len() == names@.len());
        out
    }

    /// Every group as plain values.
    pub fn export_groups(&self) -> (r: Vec<LoadedGroup>)
        requires
            self.wf(),
        ensures
            exports(r@, self@.groups),
    {
        let list = self.groups_iter();
        let ghost order = self.groups.key_order();
        let mut out: Vec<LoadedGroup> = Vec::new();
        let mut i: usize = 0;
        while i < list.len()
            invariant
                self.wf(),
                order == self.groups.key_order(),
                list@.len() == order.len(),
                i <= list@.len(),
                out@.len() == i,
                forall|k: int|
                    0 <= k < list@.len() ==> (#[trigger] list@[k]).0@ == order[k]
                        && self@.groups.dom().contains(list@[k].0@) && list@[k].1@
                        == self@.groups[list@[k].0@] && list@[k].1.wf(),
                forall|k: int|
                    0 <= k < i ==> (#[trigger] out@[k]).name@ == order[k] && exported(
                        out@[k],
                        self@.groups[order[k]],
                    ),
            decreases list@.len() - i,
        {
            let g: &ConsumerGroup = list[i].1;
            let at: StreamId = g.last_delivered_id;
            assert(list@[i as int].0@ == order[i as int]);
            let consumers = g.dump_roster();
            let pel = g.dump_pel();
            out.push(
                LoadedGroup {
                    name: copy_bytes(list[i].0.as_slice()),
                    last_delivered: (at.ms, at.seq),
                    consumers,
                    pel,
                },
            );
            i = i + 1;
        }
        proof {
            assert forall|k: int| 0 <= k < out@.len() implies self@.groups.dom().contains(
                (#[trigger] out@[k]).name@,
            ) && exported(out@[k], self@.groups[out@[k].name@]) by {
                assert(list@[k].0@ == order[k]);
            }
            assert forall|n: Seq<u8>| #[trigger] self@.groups.dom().contains(n) implies exists|
                k: int,
            | 0 <= k < out@.len() && (#[trigger] out@[k]).name@ == n by {
                assert(order.to_set().contains(n));
                let k = choose|k: int| 0 <= k < order.len() && order[k] == n;
                assert(out@[k].name@ == n);
            }
        }
        out
    }

    /// Puts groups in that were given as plain values.
    pub fn import_groups(&mut self, groups: Vec<LoadedGroup>)
        requires
            old(self).wf(),
        ensures
            final(self).wf(),
            final(self)@ == (crate::stream::StreamModel {
                groups: imported(old(self)@.groups, groups@),
                ..old(self)@
            }),
    {
        let ghost s0 = self@;
        let ghost list = groups@;
        let mut i: usize = 0;
        assert(list.take(0) =~= Seq::empty());
        while i < groups.len()
            invariant
                self.wf(),
                list == groups@,
                i <= list.len(),
                self@ == (crate::stream::StreamModel {
                    groups: imported(s0.groups, list.take(i as int)),
                    ..s0
                }),
            decreases list.len() - i,
        {
            let ghost before = self@;
            let ghost m = self.groups@;
            assert(list.take(i + 1).drop_last() =~= list.take(i as int));
            let g = ConsumerGroup::load(&groups[i]);
            let ghost gm = g@;
            let name = copy_bytes(groups[i].name.as_slice());
            self.groups.insert(name, g);
            assert(self@.groups =~= before.groups.insert(list[i as int].name@, gm));
            i = i + 1;
        }
        assert(list.take(list.len() as int) =~= list);
    }
}

impl Clone for PelEntry {
    fn clone(&self) -> (r: Self)
        ensures
            r@ == self@,
    {
        PelEntry {
            consumer: copy_bytes(self.consumer.as_slice()),
            delivery_time_ms: self.delivery_time_ms,
            delivery_count: self.delivery_count,
        }
    }
}

impl Clone for ConsumerState {
    fn clone(&self) -> (r: Self)
        ensures
            r.name@ == self.name@,
            r.last_seen_ms == self.last_seen_ms,
            r.pel_count == self.pel_count,
    {
        ConsumerState {
            name: copy_bytes(self.name.as_slice()),
            last_seen_ms: self.last_seen_ms,
            pel_count: self.pel_count,
        }
    }
}

impl Copied for PelEntry {
    open spec fn same(a: Self, b: Self) -> bool {
        a@ == b@
    }

    fn copied(&self) -> (r: Self) {
        self.clone()
    }
}

impl Copied for FieldList {
    open spec fn same(a: Self, b: Self) -> bool {
        crate::bytes::deep_pairs(a@) == crate::bytes::deep_pairs(b@)
    }

    fn copied(&self) -> (r: Self) {
        copy_fields(self)
    }
}

impl Clone for ConsumerGroup {
    fn clone(&self) -> (r: Self)
        ensures
            self.wf() ==> r.wf(),
            self.wf() ==> r@ == self@,
    {
        let r = ConsumerGroup {
            last_delivered_id: self.last_delivered_id,
            pel: self.pel.copied(),
            consumers: self.consumers.clone(),
        };
        proof {
            if self.wf() {
                assert forall|n: Seq<u8>| #[trigger] self.consumers@.dom().contains(n) implies r.consumers@[n].last_seen_ms
                    == self.consumers@[n].last_seen_ms && r.consumers@[n].pel_count
                    == self.consumers@[n].pel_count && r.consumers@[n].name@
                    == self.consumers@[n].name@ by {
                    assert(cloned(self.consumers@[n], r.consumers@[n]));
                }
                assert forall|id: StreamId| #[trigger] self.pel@.dom().contains(id) implies r.pel@[id]@
                    == self.pel@[id]@ by {
                    assert(PelEntry::same(self.pel@[id], r.pel@[id]));
                }
                assert(r@.pel =~= self@.pel);
                assert(r@.consumers =~= self@.consumers);
                assert forall|n: Seq<u8>| #[trigger] r.consumers@.dom().contains(n) implies r.consumers@[n].name@
                    == n && r.consumers@[n].pel_count == crate::stream_group::rows_of(
                    r@.pel,
                    n,
                ).len() by {
                    assert(self.consumers@.dom().contains(n));
                }
                assert forall|id: StreamId| #[trigger] r.pel@.dom().contains(id) implies r.consumers@.dom().contains(
                r.pel@[id].consumer@) by {
                    assert(self.pel@.dom().contains(id));
                    assert(r.pel@[id]@ == self.pel@[id]@);
                }
            }
        }
        r
    }
}

impl Clone for StreamData {
    fn clone(&self) -> (r: Self)
        ensures
            self.wf() ==> r.wf(),
            self.wf() ==> r@ == self@,
    {
        let r = StreamData {
            entries: self.entries.copied(),
            last_id: self.last_id,
            max_deleted_id: self.max_deleted_id,
            entries_added: self.entries_added,
            groups: self.groups.clone(),
            bytes: self.bytes,
        };
        proof {
            if self.wf() {
                assert forall|n: Seq<u8>| #[trigger] self.groups@.dom().contains(n) implies r.groups@[n].wf()
                    && r.groups@[n]@ == self.groups@[n]@ by {
                    assert(cloned(self.groups@[n], r.groups@[n]));
                }
                assert forall|id: StreamId| #[trigger] self.entries@.dom().contains(id) implies crate::bytes::deep_pairs(
                r.entries@[id]@) == crate::bytes::deep_pairs(self.entries@[id]@) by {
                    assert(FieldList::same(self.entries@[id], r.entries@[id]));
                }
                assert(r@.entries =~= self@.entries);
                assert(r@.groups =~= self@.groups);
            }
        }
        r
    }
}

} // verus!
