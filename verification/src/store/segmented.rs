//! Rows that move out of memory for good, into segments: the store decides
//! which rows move and what is left under their keys.
use vstd::prelude::*;
use super::Store;
use crate::bytes::copy_bytes;
use crate::cold::{Backing, ColdKind, ColdRef};
use crate::segrows::{comes_before, file_name, SealedRows, SegError, SegRows};
use crate::tier_codec::{decode, encode, CodecError};
use crate::value::Value;

verus! {

/// Whether a row in this encoding can be turned into a stub.
pub open spec fn rowish(v: Value) -> bool {
    v is Hash || v is SmallHashInline || v is PackedRow
}

/// What a value costs beside its key, as far as a weight can tell.
pub open spec fn row_weight(key: Seq<u8>, v: Value) -> u32 {
    let w = crate::entry::weight_spec(key.len(), v) - crate::bytes::heap_bytes_spec(key.len());
    if w >= 0 {
        w as u32
    } else {
        0
    }
}

/// A keyspace in which a row became a stub for a row of a segment.
pub open spec fn row_turned(
    s: super::StoreModel,
    key: Seq<u8>,
    v: Value,
    seq: u32,
) -> super::StoreModel {
    super::revalued(
        s,
        key,
        crate::value::Val::Cold(crate::cold::seg_stub(seq, row_weight(key, v))),
    )
}

/// The keyspace after rows became stubs one after the other, and how many
/// did. A key that holds no row by then is passed over.
pub open spec fn rows_turned(first: Store, keys: Seq<Seq<u8>>, seq: u32) -> (
    super::StoreModel,
    nat,
)
    decreases keys.len(),
{
    if keys.len() == 0 {
        (first@, 0)
    } else {
        let (s, n) = rows_turned(first, keys.drop_last(), seq);
        let k = keys.last();
        if s.slots.dom().contains(k) && s.slots[k].value is Hash && rowish(first.held(k)) {
            (row_turned(s, k, first.held(k), seq), n + 1)
        } else {
            (s, n)
        }
    }
}

/// The record of a row that may move into a segment: one in memory, of a kind
/// that moves, without a deadline and without deadlines of fields.
pub open spec fn row_record(s: Store, k: Seq<u8>) -> Option<Seq<u8>> {
    if s@.slots.dom().contains(k) && s@.slots[k].expire is None && !s@.ttls.dom().contains(k) && (
    s.held(k) is Hash || s.held(k) is SmallHashInline) {
        match crate::tier_codec::encoded(s.held(k)) {
            Some((p, _kind)) => Some(p),
            None => None,
        }
    } else {
        None
    }
}

/// The keyspace after keys were looked up one after the other; those with
/// deadlines of fields were not.
pub open spec fn looked_up(s: super::StoreModel, keys: Seq<Seq<u8>>) -> super::StoreModel
    decreases keys.len(),
{
    if keys.len() == 0 {
        s
    } else {
        let t = looked_up(s, keys.drop_last());
        if t.ttls.dom().contains(keys.last()) {
            t
        } else {
            super::seen(t, keys.last())
        }
    }
}

/// How many of some keys hold a row that may move into a segment.
pub open spec fn row_count(s: Store, keys: Seq<Seq<u8>>) -> nat
    decreases keys.len(),
{
    if keys.len() == 0 {
        0
    } else {
        row_count(s, keys.drop_last()) + (if row_record(s, keys.last()) is Some {
            1nat
        } else {
            0
        })
    }
}

/// Whether rows are in the order of their keys.
pub open spec fn in_key_order(rows: Seq<(Seq<u8>, Seq<u8>)>) -> bool {
    forall|a: int, b: int|
        #![trigger rows[a], rows[b]]
        0 <= a <= b < rows.len() ==> !crate::segrows::lex_before(rows[b].0, rows[a].0)
}

/// Whether these are the rows of some keys that may move into a segment, with
/// their records.
pub open spec fn rows_of(
    s: Store,
    keys: Seq<Seq<u8>>,
    rows: Seq<(Seq<u8>, Seq<u8>)>,
) -> bool {
    &&& forall|a: int|
        0 <= a < rows.len() ==> keys.contains((#[trigger] rows[a]).0) && row_record(s, rows[a].0)
            == Some(rows[a].1)
    &&& forall|k: Seq<u8>| #[trigger]
        keys.contains(k) && row_record(s, k) is Some ==> rows.contains(
            (k, row_record(s, k)->Some_0),
        )
    &&& rows.len() == row_count(s, keys)
}

/// What one record of a segment does to the keyspace: a row in memory becomes
/// a stub, and so does a key that is not there.
pub open spec fn stitch_step(
    first: Store,
    s: super::StoreModel,
    key: Seq<u8>,
    p: Seq<u8>,
    seq: u32,
) -> (Result<bool, CodecError>, super::StoreModel) {
    let t = super::seen(s, key);
    if !t.slots.dom().contains(key) {
        match crate::tier_codec::parsed(p) {
            Err(e) => (Err(e), t),
            Ok(ps) => (
                Ok(true),
                super::StoreModel {
                    slots: t.slots.insert(
                        key,
                        crate::entry::Slot {
                            value: crate::value::Val::Cold(
                                crate::cold::seg_stub(seq, told_weight(ps)),
                            ),
                            expire: None,
                        },
                    ),
                    ..t
                },
            ),
        }
    } else if t.slots[key].value is Hash && (first.held(key) is Hash || first.held(
        key,
    ) is SmallHashInline) {
        (Ok(true), row_turned(t, key, first.held(key), seq))
    } else {
        (Ok(false), t)
    }
}

/// What the hash of a record costs, as far as a weight can tell.
pub open spec fn told_weight(ps: Seq<(Seq<u8>, Seq<u8>)>) -> u32 {
    let w = crate::table::table_cost::<Vec<u8>>(crate::value_hash::folded(ps));
    if w <= u32::MAX {
        w as u32
    } else {
        u32::MAX
    }
}

/// What the records of a segment do to the keyspace one after the other, and
/// how many left a stub. A broken record ends it.
pub open spec fn stitched(first: Store, recs: Seq<(Seq<u8>, Seq<u8>)>, seq: u32) -> (
    Result<nat, CodecError>,
    super::StoreModel,
)
    decreases recs.len(),
{
    if recs.len() == 0 {
        (Ok(0), first@)
    } else {
        let (r, s) = stitched(first, recs.drop_last(), seq);
        match r {
            Err(e) => (Err(e), s),
            Ok(n) => {
                let (q, t) = stitch_step(first, s, recs.last().0, recs.last().1, seq);
                match q {
                    Err(e) => (Err(e), t),
                    Ok(b) => (
                        Ok(
                            n + (if b {
                                1nat
                            } else {
                                0
                            }),
                        ),
                        t,
                    ),
                }
            },
        }
    }
}

/// The steps by which records of a segment are gone through, up to one that
/// cannot be read.
pub open spec fn stitch_path(first: Store, recs: Seq<(Seq<u8>, Seq<u8>)>, seq: u32) -> Seq<
    (Seq<u8>, super::StoreModel),
>
    decreases recs.len(),
{
    if recs.len() == 0 {
        Seq::empty()
    } else {
        let before = stitch_path(first, recs.drop_last(), seq);
        if stitched(first, recs.drop_last(), seq).0 is Err {
            before
        } else {
            before.push((recs.last().0, stitched(first, recs, seq).1))
        }
    }
}

/// Once a record is found broken, nothing more is done.
proof fn lemma_stitch_broken(first: Store, recs: Seq<(Seq<u8>, Seq<u8>)>, seq: u32, m: int)
    requires
        0 <= m <= recs.len(),
        stitched(first, recs.take(m), seq).0 is Err,
    ensures
        stitched(first, recs, seq) == stitched(first, recs.take(m), seq),
        stitch_path(first, recs, seq) == stitch_path(first, recs.take(m), seq),
    decreases recs.len(),
{
    if m < recs.len() {
        assert(recs.drop_last().take(m) =~= recs.take(m));
        lemma_stitch_broken(first, recs.drop_last(), seq, m);
    } else {
        assert(recs.take(m) =~= recs);
    }
}

/// Whether a stub names a segment.
pub open spec fn names_segment(s: super::StoreModel, k: Seq<u8>, seq: u32) -> bool {
    super::tiering::stub_at(s, k) matches Some(c) && c.backing() == Backing::Segment(seq)
}

/// Whether any stub names a segment.
pub open spec fn referenced(s: super::StoreModel, seq: u32) -> bool {
    exists|k: Seq<u8>| #[trigger] names_segment(s, k, seq)
}

/// Those of some segments that stubs name.
pub open spec fn still_named(s: super::StoreModel, files: Seq<(u32, Seq<u8>)>) -> Seq<
    (u32, Seq<u8>),
>
    decreases files.len(),
{
    if files.len() == 0 {
        Seq::empty()
    } else {
        let before = still_named(s, files.drop_last());
        if referenced(s, files.last().0) {
            before.push(files.last())
        } else {
            before
        }
    }
}

/// The files of those segments that no stub names.
pub open spec fn orphans(s: super::StoreModel, files: Seq<(u32, Seq<u8>)>) -> Seq<Seq<u8>>
    decreases files.len(),
{
    if files.len() == 0 {
        Seq::empty()
    } else {
        let before = orphans(s, files.drop_last());
        if referenced(s, files.last().0) {
            before
        } else {
            before.push(files.last().1)
        }
    }
}

/// Puts a row where it belongs among others.
fn put_row(rows: &mut Vec<(Vec<u8>, Vec<u8>)>, key: Vec<u8>, p: Vec<u8>)
    requires
        in_key_order(crate::bytes::deep_pairs(old(rows)@)),
    ensures
        in_key_order(crate::bytes::deep_pairs(final(rows)@)),
        exists|at: int|
            0 <= at <= old(rows)@.len() && crate::bytes::deep_pairs(final(rows)@)
                == #[trigger] crate::bytes::deep_pairs(old(rows)@).insert(at, (key@, p@)),
{
    let ghost before = crate::bytes::deep_pairs(rows@);
    let ghost e = (key@, p@);
    let mut i: usize = 0;
    while i < rows.len() && !comes_before(key.as_slice(), rows[i].0.as_slice())
        invariant
            before == crate::bytes::deep_pairs(rows@),
            e == (key@, p@),
            i <= rows@.len(),
            in_key_order(before),
            forall|a: int|
                0 <= a < i ==> !crate::segrows::lex_before(e.0, (#[trigger] before[a]).0),
        decreases rows@.len() - i,
    {
        assert(before[i as int].0 == rows@[i as int].0@);
        i = i + 1;
    }
    proof {
        if i < rows@.len() {
            assert(before[i as int].0 == rows@[i as int].0@);
        }
    }
    rows.insert(i, (key, p));
    proof {
        let after = crate::bytes::deep_pairs(rows@);
        assert(after =~= before.insert(i as int, e));
        assert forall|a: int, b: int|
            #![trigger after[a], after[b]]
            0 <= a <= b < after.len() implies !crate::segrows::lex_before(
            after[b].0,
            after[a].0,
        ) by {
            let at = i as int;
            crate::segrows::lemma_lex_total(e.0, e.0);
            if a < at && b < at {
                assert(after[a] == before[a] && after[b] == before[b]);
            } else if a < at && b == at {
                assert(after[a] == before[a]);
            } else if a < at && b > at {
                assert(after[a] == before[a] && after[b] == before[b - 1]);
            } else if a == at && b > at {
                assert(after[b] == before[b - 1]);
                let x = before[b - 1].0;
                let first = before[at].0;
                assert(crate::segrows::lex_before(e.0, first));
                if crate::segrows::lex_before(x, e.0) {
                    crate::segrows::lemma_lex_chain(x, e.0, first);
                    assert(!crate::segrows::lex_before(before[b - 1].0, before[at].0));
                }
            } else if a > at {
                assert(after[a] == before[a - 1] && after[b] == before[b - 1]);
            }
        }
    }
}

impl Store {
    /// What a key's value costs beside the key, by its encoding.
    proof fn lemma_row_weight(&self, k: Seq<u8>)
        requires
            self.wf(),
            self@.slots.dom().contains(k),
        ensures
            super::tiering::value_weight(*self, k) == row_weight(k, self.held(k)),
            self.held(k).wf(),
            self.held(k)@ == self@.slots[k].value,
    {
        self.lemma_accounting();
    }

    /// Makes segments known: those of an earlier run, by the names of their
    /// files. Where segments are known already, nothing changes.
    pub fn enable_seg_rows(&mut self, names: &Vec<Vec<u8>>) -> (r: Result<(), SegError>)
        requires
            old(self).wf(),
        ensures
            old(self)@.segs is Some ==> r is Ok && *final(self) == *old(self),
            old(self)@.segs is None && r is Ok ==> {
                let all = crate::bytes::deep(names@);
                &&& forall|i: int|
                    0 <= i < all.len() ==> crate::segrows::seq_in(#[trigger] all[i]) is Some
                &&& final(self).became(
                    *old(self),
                    (super::StoreModel {
                        segs: Some(
                            (crate::segrows::SegModel {
                                files: crate::segrows::listed(all),
                                next: crate::segrows::number_behind(
                                    crate::segrows::listed(all),
                                    0,
                                ),
                            }),
                        ),
                        ..old(self)@
                    }),
                )
            },
            r matches Err(e) ==> *final(self) == *old(self) && (e matches SegError::NoNumber(f)
                && exists|i: int| #[trigger]
                crate::segrows::unnumbered(crate::bytes::deep(names@), i) && f@ == names@[i]@),
            final(self).kept_all(*old(self)),
    {
        if self.segrows.is_some() {
            return Ok(());
        }
        match SegRows::load(names) {
            Err(e) => Err(e),
            Ok(rows) => {
                self.set_segrows(Some(rows));
                Ok(())
            },
        }
    }

    /// The number that the next segment gets.
    pub fn next_row_seg(&self) -> (r: Option<u32>)
        ensures
            r == (match self@.segs {
                Some(m) => Some(m.next),
                None => None,
            }),
    {
        match &self.segrows {
            Some(rows) => Some(rows.next),
            None => None,
        }
    }

    /// The segments that are known, with their files.
    pub fn row_seg_files(&self) -> (r: Vec<(u32, Vec<u8>)>)
        ensures
            crate::segrows::deep_files(r@) == (match self@.segs {
                Some(m) => m.files,
                None => Seq::empty(),
            }),
    {
        let mut out: Vec<(u32, Vec<u8>)> = Vec::new();
        match &self.segrows {
            None => {
                assert(crate::segrows::deep_files(out@) =~= Seq::empty());
            },
            Some(rows) => {
                let mut i: usize = 0;
                while i < rows.files.len()
                    invariant
                        i <= rows.files@.len(),
                        out@.len() == i,
                        forall|j: int|
                            0 <= j < i ==> (#[trigger] out@[j]).0 == rows.files@[j].0 && out@[j].1@
                                == rows.files@[j].1@,
                    decreases rows.files@.len() - i,
                {
                    out.push((rows.files[i].0, copy_bytes(rows.files[i].1.as_slice())));
                    i = i + 1;
                }
                assert(crate::segrows::deep_files(out@) =~= rows@.files);
            },
        }
        out
    }

    /// Whether any stub names a segment.
    fn segment_named(&self, seq: u32) -> (r: bool)
        requires
            self.wf(),
        ensures
            r == referenced(self@, seq),
    {
        let names = self.all_keys();
        let ghost order = self.key_order();
        let mut i: usize = 0;
        while i < names.len()
            invariant
                self.wf(),
                order == self.key_order(),
                order.to_set() == self@.slots.dom(),
                crate::bytes::deep(names@) == order,
                i <= names@.len(),
                forall|j: int| 0 <= j < i ==> !names_segment(self@, #[trigger] order[j], seq),
            decreases names@.len() - i,
        {
            assert(order[i as int] == names@[i as int]@);
            match self.value_ref(names[i].as_slice()) {
                Some(Value::Cold(c)) => match c.backing() {
                    Backing::Segment(q) => if q == seq {
                        assert(names_segment(self@, order[i as int], seq));
                        return true;
                    },
                    Backing::Log(_) => {},
                },
                _ => {},
            }
            i = i + 1;
        }
        proof {
            assert forall|k: Seq<u8>| !#[trigger] names_segment(self@, k, seq) by {
                if names_segment(self@, k, seq) {
                    assert(order.to_set().contains(k));
                    let j = choose|j: int| 0 <= j < order.len() && order[j] == k;
                    assert(!names_segment(self@, order[j], seq));
                }
            }
        }
        false
    }

    /// Forgets the segments that no stub names, and gives their files.
    pub fn sweep_orphan_row_segs(&mut self) -> (r: Vec<Vec<u8>>)
        requires
            old(self).wf(),
        ensures
            match old(self)@.segs {
                None => r@.len() == 0 && *final(self) == *old(self),
                Some(m) => crate::bytes::deep(r@) == orphans(old(self)@, m.files)
                    && final(self).became(
                    *old(self),
                    (super::StoreModel {
                        segs: Some(
                            (crate::segrows::SegModel {
                                files: still_named(old(self)@, m.files),
                                next: m.next,
                            }),
                        ),
                        ..old(self)@
                    }),
                ),
            },
            final(self).use_clock() == old(self).use_clock(),
    {
        let ghost s = *self;
        let mut gone: Vec<Vec<u8>> = Vec::new();
        let mut kept: Vec<(u32, Vec<u8>)> = Vec::new();
        let next: u32 = match &self.segrows {
            None => {
                return gone;
            },
            Some(rows) => {
                let ghost files = rows@.files;
                let mut i: usize = 0;
                proof {
                    assert(files.take(0) =~= Seq::empty());
                    assert(crate::bytes::deep(gone@) =~= Seq::empty());
                    assert(crate::segrows::deep_files(kept@) =~= Seq::empty());
                }
                while i < rows.files.len()
                    invariant
                        self.wf(),
                        files == rows@.files,
                        i <= rows.files@.len(),
                        crate::bytes::deep(gone@) == orphans(self@, files.take(i as int)),
                        crate::segrows::deep_files(kept@) == still_named(
                            self@,
                            files.take(i as int),
                        ),
                    decreases rows.files@.len() - i,
                {
                    proof {
                        assert(files.take(i + 1).drop_last() =~= files.take(i as int));
                        assert(files.take(i + 1).last() == files[i as int]);
                        assert(files[i as int] == (rows.files@[i as int].0, rows.files@[i as int].1@));
                    }
                    let ghost g = crate::bytes::deep(gone@);
                    let ghost k = crate::segrows::deep_files(kept@);
                    let file = copy_bytes(rows.files[i].1.as_slice());
                    if self.segment_named(rows.files[i].0) {
                        kept.push((rows.files[i].0, file));
                        assert(crate::segrows::deep_files(kept@) =~= k.push(files[i as int]));
                    } else {
                        gone.push(file);
                        assert(crate::bytes::deep(gone@) =~= g.push(files[i as int].1));
                    }
                    i = i + 1;
                }
                assert(files.take(files.len() as int) =~= files);
                rows.next
            },
        };
        self.set_segrows(Some(SegRows { files: kept, next }));
        gone
    }

    /// The record of a row that may move into a segment. The key is looked
    /// up, unless fields of it have deadlines.
    fn encode_evictable_row(&mut self, key: &[u8]) -> (r: Option<Vec<u8>>)
        requires
            old(self).wf(),
        ensures
            final(self).became(
                *old(self),
                if old(self)@.ttls.dom().contains(key@) {
                    old(self)@
                } else {
                    super::seen(old(self)@, key@)
                },
            ),
            final(self).used() <= old(self).used(),
            match r {
                Some(p) => row_record(*old(self), key@) == Some(p@),
                None => row_record(*old(self), key@) is None,
            },
            forall|k: Seq<u8>|
                #![trigger final(self).held(k)]
                final(self)@.slots.dom().contains(k) ==> final(self).held(k) == old(self).held(k),
            final(self).kept_others(*old(self), key@),
            old(self)@.ttls.dom().contains(key@) ==> *final(self) == *old(self),
            !old(self)@.ttls.dom().contains(key@) ==> final(self).used_at(*old(self), key@),
    {
        if self.hfttl.contains_key(key) {
            assert(self@.ttls.dom().contains(key@));
            return None;
        }
        assert(!self@.ttls.dom().contains(key@));
        if !self.live(key) {
            return None;
        }
        match self.deadline_of(key) {
            Some(None) => {},
            _ => {
                return None;
            },
        }
        match self.value_ref(key) {
            None => None,
            Some(v) => match v {
                Value::Hash(_) | Value::SmallHashInline(_) => match encode(v) {
                    Some((p, _)) => Some(p),
                    None => None,
                },
                _ => None,
            },
        }
    }

    /// Picks the rows of some keys that may move into a new segment, in the
    /// order of their keys, with their records; `None` where there are none
    /// or no segments. Nothing moves yet: the rows are to be sealed first.
    pub fn seal_rows_to_seg(&mut self, table: &[u8], keys: &[&[u8]]) -> (r: Option<
        (SealedRows, Vec<(Vec<u8>, Vec<u8>)>),
    >)
        requires
            old(self).wf(),
            old(self)@.segs matches Some(m) ==> m.next < u32::MAX,
        ensures
            old(self)@.segs is None ==> r is None && *final(self) == *old(self),
            old(self)@.segs matches Some(m) ==> ({
                let all = super::lists::referred(keys@);
                match r {
                    None => row_count(*old(self), all) == 0 && final(self).became(
                        *old(self),
                        looked_up(old(self)@, all),
                    ),
                    Some((sealed, rows)) => {
                        let ps = crate::bytes::deep_pairs(rows@);
                        &&& row_count(*old(self), all) > 0
                        &&& rows_of(*old(self), all, ps)
                        &&& in_key_order(ps)
                        &&& sealed.seq == m.next
                        &&& sealed.file@ == crate::segrows::file_of(table@, m.next)
                        &&& crate::bytes::deep(sealed.keys@) == crate::bytes::firsts(ps)
                        &&& final(self).became(
                            *old(self),
                            (super::StoreModel {
                                segs: Some(
                                    (crate::segrows::SegModel {
                                        files: m.files,
                                        next: (m.next + 1) as u32,
                                    }),
                                ),
                                ..looked_up(old(self)@, all)
                            }),
                        )
                    },
                }
            }),
    {
        if self.segrows.is_none() {
            return None;
        }
        let ghost s = *self;
        let ghost all = super::lists::referred(keys@);
        let n: usize = keys.len();
        let mut rows: Vec<(Vec<u8>, Vec<u8>)> = Vec::new();
        let mut i: usize = 0;
        proof {
            assert(all.take(0) =~= Seq::empty());
            assert(crate::bytes::deep_pairs(rows@) =~= Seq::empty());
        }
        while i < n
            invariant
                n == keys@.len(),
                all == super::lists::referred(keys@),
                i <= n,
                s.wf(),
                self.used() <= s.used(),
                self.became(s, looked_up(s@, all.take(i as int))),
                self@.segs == s@.segs,
                rows_of(s, all.take(i as int), crate::bytes::deep_pairs(rows@)),
                in_key_order(crate::bytes::deep_pairs(rows@)),
                forall|k: Seq<u8>|
                    #![trigger self.held(k)]
                    #![trigger self@.slots.dom().contains(k)]
                    self@.slots.dom().contains(k) ==> s@.slots.dom().contains(k) && self@.slots[k]
                        == s@.slots[k] && self.held(k) == s.held(k) && self@.ttls.dom().contains(k)
                        == s@.ttls.dom().contains(k),
                forall|k: Seq<u8>|
                    #![trigger s@.slots.dom().contains(k)]
                    s@.slots.dom().contains(k) && s@.slots[k].expire is None
                        ==> self@.slots.dom().contains(k),
            decreases n - i,
        {
            let ghost k = all[i as int];
            let ghost before = crate::bytes::deep_pairs(rows@);
            let ghost part = all.take(i as int);
            let ghost t = *self;
            proof {
                assert(k == keys@[i as int]@);
                assert(all.take(i + 1).drop_last() =~= part);
                assert(all.take(i + 1).last() == k);
                assert(part.push(k) =~= all.take(i + 1));
                assert(row_record(t, k) == row_record(s, k));
            }
            match self.encode_evictable_row(keys[i]) {
                None => {
                    proof {
                        lemma_rows_same(s, part, before, k);
                    }
                },
                Some(p) => {
                    let ghost pv = p@;
                    put_row(&mut rows, copy_bytes(keys[i]), p);
                    proof {
                        let now = crate::bytes::deep_pairs(rows@);
                        let at = choose|at: int|
                            0 <= at <= before.len() && now == #[trigger] before.insert(
                                at,
                                (k, pv),
                            );
                        lemma_rows_more(s, part, before, k, pv, at);
                    }
                },
            }
            i = i + 1;
        }
        assert(all.take(n as int) =~= all);
        if rows.len() == 0 {
            return None;
        }
        let mut sealed_keys: Vec<Vec<u8>> = Vec::new();
        let mut j: usize = 0;
        while j < rows.len()
            invariant
                j <= rows@.len(),
                sealed_keys@.len() == j,
                forall|a: int| 0 <= a < j ==> (#[trigger] sealed_keys@[a])@ == rows@[a].0@,
            decreases rows@.len() - j,
        {
            sealed_keys.push(copy_bytes(rows[j].0.as_slice()));
            j = j + 1;
        }
        assert(crate::bytes::deep(sealed_keys@) =~= crate::bytes::firsts(
            crate::bytes::deep_pairs(rows@),
        ));
        let files = self.row_seg_files();
        let seq: u32 = match &self.segrows {
            Some(r) => r.next,
            None => 0,
        };
        self.set_segrows(Some(SegRows { files, next: seq + 1 }));
        let file = file_name(table, seq);
        Some((SealedRows { seq, file, keys: sealed_keys }, rows))
    }

    /// Notes that a batch of rows is sealed: its segment can be read.
    pub fn segment_sealed(&mut self, sealed: &SealedRows)
        requires
            old(self).wf(),
        ensures
            final(self).became(
                *old(self),
                match old(self)@.segs {
                    Some(m) => super::StoreModel {
                        segs: Some(
                            (crate::segrows::SegModel {
                                files: m.files.push((sealed.seq, sealed.file@)),
                                next: m.next,
                            }),
                        ),
                        ..old(self)@
                    },
                    None => old(self)@,
                },
            ),
            final(self).kept_all(*old(self)),
    {
        let next: u32 = match &self.segrows {
            Some(r) => r.next,
            None => {
                return;
            },
        };
        let mut files = self.row_seg_files();
        let ghost before = crate::segrows::deep_files(files@);
        files.push((sealed.seq, copy_bytes(sealed.file.as_slice())));
        assert(crate::segrows::deep_files(files@) =~= before.push((sealed.seq, sealed.file@)));
        self.set_segrows(Some(SegRows { files, next }));
    }

    /// Turns a row into a stub for a row of a segment. Says whether there was
    /// a row. The deadlines of fields stay, and nobody is told.
    pub fn demote_row_to_seg(&mut self, key: &[u8], seq: u32) -> (r: bool)
        requires
            old(self).wf(),
        ensures
            r == (old(self)@.slots.dom().contains(key@) && rowish(old(self).held(key@))),
            !r ==> *final(self) == *old(self),
            r ==> final(self).became(
                *old(self),
                row_turned(old(self)@, key@, old(self).held(key@), seq),
            ),
            final(self).used() <= old(self).used(),
            final(self).kept_others(*old(self), key@),
            final(self).use_clock() == old(self).use_clock(),
    {
        let row: bool = match self.value_ref(key) {
            Some(v) => match v {
                Value::Hash(_) | Value::SmallHashInline(_) | Value::PackedRow(_) => true,
                _ => false,
            },
            None => false,
        };
        if !row {
            return false;
        }
        proof {
            self.lemma_row_weight(key@);
        }
        let weight: u32 = self.weight_beside(key);
        let mut v = Value::Cold(ColdRef::seg(seq, weight));
        self.swap_value(key, &mut v);
        true
    }

    /// Turns the rows of a sealed batch into stubs. Gives how many were
    /// still rows.
    pub fn commit_row_eviction(&mut self, sealed: &SealedRows) -> (r: u64)
        requires
            old(self).wf(),
        ensures
            ({
                let (s, n) = rows_turned(
                    *old(self),
                    crate::bytes::deep(sealed.keys@),
                    sealed.seq,
                );
                final(self).became(*old(self), s) && r == n
            }),
            final(self).use_clock() == old(self).use_clock(),
    {
        let ghost first = *self;
        let ghost all = crate::bytes::deep(sealed.keys@);
        let ghost seq = sealed.seq;
        let mut n: u64 = 0;
        let mut i: usize = 0;
        assert(all.take(0) =~= Seq::empty());
        while i < sealed.keys.len()
            invariant
                all == crate::bytes::deep(sealed.keys@),
                seq == sealed.seq,
                i <= sealed.keys@.len(),
                n <= i,
                first.wf(),
                self.used() <= first.used(),
                self.became(first, rows_turned(first, all.take(i as int), seq).0),
                n == rows_turned(first, all.take(i as int), seq).1,
                self.use_clock() == first.use_clock(),
                forall|k: Seq<u8>|
                    #![trigger self.held(k)]
                    self@.slots.dom().contains(k) && self@.slots[k].value is Hash ==> self.held(k)
                        == first.held(k),
            decreases sealed.keys@.len() - i,
        {
            let ghost k = all[i as int];
            let ghost t = *self;
            proof {
                assert(k == sealed.keys@[i as int]@);
                assert(all.take(i + 1).drop_last() =~= all.take(i as int));
                assert(all.take(i + 1).last() == k);
                if t@.slots.dom().contains(k) {
                    t.lemma_row_weight(k);
                    assert(rowish(t.held(k)) ==> t@.slots[k].value is Hash);
                }
            }
            if self.demote_row_to_seg(sealed.keys[i].as_slice(), sealed.seq) {
                n = n + 1;
            }
            i = i + 1;
        }
        assert(all.take(all.len() as int) =~= all);
        n
    }

    /// Puts back the stub of a row of a segment, as a snapshot tells it.
    pub fn load_row_stub(&mut self, key: &[u8], seq: u32, weight: u32)
        requires
            old(self).wf(),
        ensures
            final(self).became(
                *old(self),
                (super::StoreModel {
                    slots: old(self)@.slots.insert(
                        key@,
                        crate::entry::Slot {
                            value: crate::value::Val::Cold(crate::cold::seg_stub(seq, weight)),
                            expire: None,
                        },
                    ),
                    ttls: if old(self)@.slots.dom().contains(key@) {
                        old(self)@.ttls.remove(key@)
                    } else {
                        old(self)@.ttls
                    },
                    ..old(self)@
                }),
            ),
            final(self).kept_others(*old(self), key@),
    {
        self.place_stub(key, ColdRef::seg(seq, weight));
    }

    /// Does what one record of a segment asks for.
    fn stitch(&mut self, key: &[u8], payload: &[u8], seq: u32, Ghost(first): Ghost<Store>) -> (r:
        Result<bool, CodecError>)
        requires
            old(self).wf(),
            forall|k: Seq<u8>|
                #![trigger old(self).held(k)]
                old(self)@.slots.dom().contains(k) && old(self)@.slots[k].value is Hash
                    ==> old(self).held(k) == first.held(k),
        ensures
            r == stitch_step(first, old(self)@, key@, payload@, seq).0,
            final(self).became(
                *old(self),
                stitch_step(first, old(self)@, key@, payload@, seq).1,
            ),
            forall|k: Seq<u8>|
                #![trigger final(self).held(k)]
                final(self)@.slots.dom().contains(k) && final(self)@.slots[k].value is Hash
                    ==> final(self).held(k) == first.held(k),
            final(self).kept_others(*old(self), key@),
    {
        if !self.live(key) {
            return match decode(ColdKind::Hash, copy_bytes(payload)) {
                Err(e) => Err(e),
                Ok(v) => {
                    let w: u64 = v.weight();
                    let weight: u32 = if w <= u32::MAX as u64 {
                        w as u32
                    } else {
                        u32::MAX
                    };
                    self.place_stub(key, ColdRef::seg(seq, weight));
                    Ok(true)
                },
            };
        }
        let hot: bool = match self.value_ref(key) {
            Some(v) => match v {
                Value::Hash(_) | Value::SmallHashInline(_) => true,
                _ => false,
            },
            None => false,
        };
        proof {
            self.lemma_row_weight(key@);
        }
        if hot {
            self.demote_row_to_seg(key, seq);
        }
        Ok(hot)
    }
}

/// Brings the rows of a segment back as stubs, by its records: rows that are
/// in memory and keys that are not there become stubs, the rest stays. Gives
/// how many became stubs.
pub fn apply_segmented(
    store: &mut Store,
    file: &[u8],
    records: &Vec<(Vec<u8>, Vec<u8>)>,
) -> (r: Result<u64, SegError>)
    requires
        old(store).wf(),
    ensures
        ({
            let found = match old(store)@.segs {
                Some(m) => crate::segrows::number_of(m, file@),
                None => None,
            };
            match found {
                None => *final(store) == *old(store) && (r matches Err(SegError::NotListed(f))
                    && f@ == file@),
                Some(seq) => {
                    let (n, s) = stitched(
                        *old(store),
                        crate::bytes::deep_pairs(records@),
                        seq,
                    );
                    &&& final(store).wf()
                    &&& final(store)@ == s
                    &&& final(store).came_by(
                        *old(store),
                        stitch_path(*old(store), crate::bytes::deep_pairs(records@), seq),
                    )
                    &&& match n {
                        Ok(n) => r matches Ok(c) && c == n,
                        Err(e) => r matches Err(SegError::Broken(d)) && d == e,
                    }
                },
            }
        }),
{
    let seq: u32 = match &store.segrows {
        None => {
            return Err(SegError::NotListed(copy_bytes(file)));
        },
        Some(rows) => match rows.number(file) {
            None => {
                return Err(SegError::NotListed(copy_bytes(file)));
            },
            Some(q) => q,
        },
    };
    let ghost first = *store;
    let ghost recs = crate::bytes::deep_pairs(records@);
    let mut n: u64 = 0;
    let mut i: usize = 0;
    proof {
        assert(recs.take(0) =~= Seq::empty());
        store.lemma_no_step();
    }
    while i < records.len()
        invariant
            recs == crate::bytes::deep_pairs(records@),
            first == *old(store),
            first@.segs is Some,
            crate::segrows::number_of(first@.segs->Some_0, file@) == Some(seq),
            i <= records@.len(),
            n <= i,
            store.wf(),
            store@ == stitched(first, recs.take(i as int), seq).1,
            store.came_by(first, stitch_path(first, recs.take(i as int), seq)),
            stitched(first, recs.take(i as int), seq).0 == Ok::<nat, CodecError>(n as nat),
            forall|k: Seq<u8>|
                #![trigger store.held(k)]
                store@.slots.dom().contains(k) && store@.slots[k].value is Hash ==> store.held(k)
                    == first.held(k),
        decreases records@.len() - i,
    {
        proof {
            assert(recs[i as int] == (records@[i as int].0@, records@[i as int].1@));
            assert(recs.take(i + 1).drop_last() =~= recs.take(i as int));
            assert(recs.take(i + 1).last() == recs[i as int]);
        }
        let ghost at = *store;
        let done = store.stitch(
            records[i].0.as_slice(),
            records[i].1.as_slice(),
            seq,
            Ghost(first),
        );
        proof {
            store.lemma_step(
                at,
                first,
                stitch_path(first, recs.take(i as int), seq),
                recs[i as int].0,
                store@,
            );
        }
        match done {
            Err(e) => {
                proof {
                    lemma_stitch_broken(first, recs, seq, i + 1);
                }
                return Err(SegError::Broken(e));
            },
            Ok(b) => {
                if b {
                    n = n + 1;
                }
            },
        }
        i = i + 1;
    }
    assert(recs.take(recs.len() as int) =~= recs);
    Ok(n)
}

/// A row that moves into a segment is told by its record.
pub proof fn lemma_row_comes_back(s: Store, k: Seq<u8>)
    requires
        s.wf(),
        row_record(s, k) is Some,
    ensures
        crate::tier_codec::decoded(ColdKind::Hash, row_record(s, k)->Some_0) == Ok::<
            crate::value::Val,
            CodecError,
        >(s@.slots[k].value),
{
    s.lemma_accounting();
    crate::tier_codec::lemma_round_trip(s.held(k));
}

/// A key that holds a stub already is left alone when its segment is brought
/// back.
pub proof fn lemma_stitch_again(
    first: Store,
    s: super::StoreModel,
    key: Seq<u8>,
    p: Seq<u8>,
    seq: u32,
)
    requires
        super::tiering::stub_at(s, key) is Some,
        !super::key_due(s, key, super::read_now(s)),
    ensures
        stitch_step(first, s, key, p, seq) == (Ok::<bool, CodecError>(false), s),
{
}

proof fn lemma_rows_same(
    s: Store,
    keys: Seq<Seq<u8>>,
    rows: Seq<(Seq<u8>, Seq<u8>)>,
    k: Seq<u8>,
)
    requires
        rows_of(s, keys, rows),
        row_record(s, k) is None,
    ensures
        rows_of(s, keys.push(k), rows),
{
    let next = keys.push(k);
    assert(next.drop_last() =~= keys);
    assert forall|a: int| 0 <= a < rows.len() implies next.contains((#[trigger] rows[a]).0) by {
        crate::value_set::lemma_push_contains(keys, k, rows[a].0);
        assert(keys.contains(rows[a].0));
    }
    assert forall|x: Seq<u8>| #[trigger]
        next.contains(x) && row_record(s, x) is Some implies rows.contains(
        (x, row_record(s, x)->Some_0),
    ) by {
        crate::value_set::lemma_push_contains(keys, k, x);
        assert(keys.contains(x));
    }
}

proof fn lemma_rows_more(
    s: Store,
    keys: Seq<Seq<u8>>,
    rows: Seq<(Seq<u8>, Seq<u8>)>,
    k: Seq<u8>,
    p: Seq<u8>,
    at: int,
)
    requires
        rows_of(s, keys, rows),
        row_record(s, k) == Some(p),
        0 <= at <= rows.len(),
    ensures
        rows_of(s, keys.push(k), rows.insert(at, (k, p))),
{
    let next = keys.push(k);
    let more = rows.insert(at, (k, p));
    assert(next.drop_last() =~= keys);
    assert forall|a: int| 0 <= a < more.len() implies next.contains((#[trigger] more[a]).0)
        && row_record(s, more[a].0) == Some(more[a].1) by {
        crate::value_set::lemma_push_contains(keys, k, more[a].0);
        if a < at {
            assert(more[a] == rows[a]);
            assert(keys.contains(rows[a].0));
        } else if a > at {
            assert(more[a] == rows[a - 1]);
            assert(keys.contains(rows[a - 1].0));
        }
    }
    assert forall|x: Seq<u8>| #[trigger]
        next.contains(x) && row_record(s, x) is Some implies more.contains(
        (x, row_record(s, x)->Some_0),
    ) by {
        crate::value_set::lemma_push_contains(keys, k, x);
        if x == k {
            assert(more[at] == (k, p));
        } else {
            assert(keys.contains(x));
            let e = (x, row_record(s, x)->Some_0);
            assert(rows.contains(e));
            let a = choose|a: int| 0 <= a < rows.len() && rows[a] == e;
            if a < at {
                assert(more[a] == e);
            } else {
                assert(more[a + 1] == e);
            }
        }
    }
}

} // verus!
