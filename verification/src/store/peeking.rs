//! Reads of rows that leave no trace of use: values that are out of memory
//! stay there.
use vstd::prelude::*;
use super::tiering::{Access, ColdStep};
use super::Store;
use crate::bytes::copy_bytes;
use crate::cold::{Backing, ColdKind, ColdRef};
use crate::tier_codec::{decode, CodecError};
use crate::types::StoreError;
use crate::value::Value;

verus! {

/// A row as a peek finds it: the asked fields' values, `None` where there is
/// no such key.
pub type PeekRow = Result<Option<Vec<Option<Vec<u8>>>>, StoreError>;

/// What a peek at a row comes to.
pub enum Peeked {
    /// The row.
    Row(PeekRow),
    /// The row's record is to be read; the row stays out of memory.
    Read(ColdRef),
    /// The row's record is to be read and the row put back in memory, as
    /// deadlines of its fields have come.
    Promote(ColdRef),
}

/// What a peek at a row comes to, mathematically.
pub enum PeekedModel {
    /// The row.
    Row(Result<Option<Seq<Option<Seq<u8>>>>, StoreError>),
    /// Its record is to be read.
    Read(ColdRef),
    /// Its record is to be read and the row put back in memory.
    Promote(ColdRef),
}

impl View for Peeked {
    type V = PeekedModel;

    open spec fn view(&self) -> PeekedModel {
        match self {
            Peeked::Row(Ok(Some(v))) => PeekedModel::Row(
                Ok(Some(super::hashes::deep_options(v@))),
            ),
            Peeked::Row(Ok(None)) => PeekedModel::Row(Ok(None)),
            Peeked::Row(Err(e)) => PeekedModel::Row(Err(*e)),
            Peeked::Read(c) => PeekedModel::Read(*c),
            Peeked::Promote(c) => PeekedModel::Promote(*c),
        }
    }
}

/// What fields of a hash are bound to.
pub open spec fn picked(h: Map<Seq<u8>, Seq<u8>>, fs: Seq<Seq<u8>>) -> Seq<Option<Seq<u8>>> {
    Seq::new(fs.len(), |i: int| super::hashes::field_of(h, fs[i]))
}

/// What a peek at a row comes to, and the keyspace afterwards.
pub open spec fn peek_next(s: super::StoreModel, key: Seq<u8>, fs: Seq<Seq<u8>>) -> (
    PeekedModel,
    super::StoreModel,
) {
    let (step, t) = super::tiering::cold_next(
        super::hash_ttl::purged(s, key),
        key,
        ColdKind::Hash,
        Access::Peek,
    );
    let p = match step {
        Err(e) => PeekedModel::Row(Err(e)),
        Ok(ColdStep::Serve(c)) => PeekedModel::Read(c),
        Ok(ColdStep::Promote(c)) => PeekedModel::Promote(c),
        Ok(ColdStep::InMemory) => match super::hash_ttl::hash_at(t, key) {
            Err(e) => PeekedModel::Row(Err(e)),
            Ok(None) => PeekedModel::Row(Ok(None)),
            Ok(Some(h)) => PeekedModel::Row(Ok(Some(picked(h, fs)))),
        },
    };
    (p, t)
}

/// What peeks at rows one after the other come to.
pub open spec fn peek_all(
    s: super::StoreModel,
    keys: Seq<Seq<u8>>,
    fs: Seq<Seq<u8>>,
) -> (Seq<PeekedModel>, super::StoreModel)
    decreases keys.len(),
{
    if keys.len() == 0 {
        (Seq::empty(), s)
    } else {
        let (before, t) = peek_all(s, keys.drop_last(), fs);
        let (p, u) = peek_next(t, keys.last(), fs);
        (before.push(p), u)
    }
}

/// Peeks, mathematically.
pub open spec fn peeked(v: Seq<Peeked>) -> Seq<PeekedModel> {
    Seq::new(v.len(), |i: int| v[i]@)
}

/// What fields of a hash are bound to.
pub fn row_fields(v: &Value, fields: &[&[u8]]) -> (r: Vec<Option<Vec<u8>>>)
    requires
        v.wf(),
        v@ is Hash,
    ensures
        super::hashes::deep_options(r@) == picked(
            v@->Hash_0,
            super::lists::referred(fields@),
        ),
{
    let ghost h = v@->Hash_0;
    let n: usize = fields.len();
    let mut out: Vec<Option<Vec<u8>>> = Vec::new();
    let mut i: usize = 0;
    while i < n
        invariant
            n == fields@.len(),
            i <= n,
            v.wf(),
            v@ is Hash,
            h == v@->Hash_0,
            out@.len() == i,
            forall|k: int|
                #![trigger out@[k]]
                0 <= k < i ==> (match out@[k] {
                    Some(b) => Some(b@),
                    None => None,
                }) == super::hashes::field_of(h, fields@[k]@),
        decreases n - i,
    {
        let b: Option<Vec<u8>> = match v.hash_get(fields[i]) {
            Some(b) => Some(copy_bytes(b)),
            None => None,
        };
        out.push(b);
        i = i + 1;
    }
    assert(super::hashes::deep_options(out@) =~= picked(
        h,
        super::lists::referred(fields@),
    ));
    out
}

/// What fields of the hash that a record tells are bound to.
pub fn record_fields(payload: Vec<u8>, fields: &[&[u8]]) -> (r: Result<
    Vec<Option<Vec<u8>>>,
    CodecError,
>)
    ensures
        match crate::tier_codec::decoded(ColdKind::Hash, payload@) {
            Ok(v) => r matches Ok(row) && super::hashes::deep_options(row@) == picked(
                v->Hash_0,
                super::lists::referred(fields@),
            ),
            Err(e) => r == Err::<Vec<Option<Vec<u8>>>, CodecError>(e),
        },
{
    match decode(ColdKind::Hash, payload) {
        Err(e) => Err(e),
        Ok(v) => Ok(row_fields(&v, fields)),
    }
}

/// Where the record of a row that is to be read stands.
pub open spec fn read_place(p: PeekedModel) -> Option<(u32, u64)> {
    match p {
        PeekedModel::Read(c) => match c.backing() {
            Backing::Log(at) => Some((at.file_id, at.offset)),
            Backing::Segment(_) => None,
        },
        _ => None,
    }
}

/// Whether one place of the spill log is not behind another.
pub open spec fn not_behind(a: (u32, u64), b: (u32, u64)) -> bool {
    a.0 < b.0 || (a.0 == b.0 && a.1 <= b.1)
}

/// The place that a planned read names.
pub open spec fn plan_place(e: (usize, ColdRef)) -> (u32, u64) {
    match e.1.backing() {
        Backing::Log(at) => (at.file_id, at.offset),
        Backing::Segment(_) => (0, 0),
    }
}

/// Whether planned reads are in the order of the spill log.
pub open spec fn in_log_order(plan: Seq<(usize, ColdRef)>) -> bool {
    forall|a: int, b: int|
        #![trigger plan[a], plan[b]]
        0 <= a <= b < plan.len() ==> not_behind(plan_place(plan[a]), plan_place(plan[b]))
}

/// Whether planned reads are of the first `n` rows, each at most once, and
/// only of those that are to be read from the spill log.
pub open spec fn plan_sound(rows: Seq<PeekedModel>, plan: Seq<(usize, ColdRef)>, n: int) -> bool {
    &&& forall|a: int, b: int|
        #![trigger plan[a], plan[b]]
        0 <= a < b < plan.len() ==> plan[a].0 != plan[b].0
    &&& forall|a: int|
        0 <= a < plan.len() ==> (#[trigger] plan[a]).0 < n && plan[a].0 < rows.len()
            && rows[plan[a].0 as int] == PeekedModel::Read(plan[a].1) && read_place(
            rows[plan[a].0 as int],
        ) is Some
}

/// Whether a row is among the planned reads.
pub open spec fn planned(plan: Seq<(usize, ColdRef)>, i: int) -> bool {
    exists|a: int| 0 <= a < plan.len() && (#[trigger] plan[a]).0 == i
}

/// Puts a read where it belongs among planned ones.
fn plan_read(plan: &mut Vec<(usize, ColdRef)>, e: (usize, ColdRef))
    requires
        in_log_order(old(plan)@),
    ensures
        in_log_order(final(plan)@),
        exists|at: int|
            0 <= at <= old(plan)@.len() && final(plan)@ == #[trigger] old(plan)@.insert(at, e),
{
    let ghost before = plan@;
    let (f, o) = place_of(&e);
    let mut i: usize = 0;
    while i < plan.len() && goes_first(&plan[i], f, o)
        invariant
            plan@ == before,
            i <= plan@.len(),
            (f, o) == plan_place(e),
            in_log_order(before),
            forall|a: int| 0 <= a < i ==> not_behind(plan_place(#[trigger] before[a]), (f, o)),
        decreases plan@.len() - i,
    {
        i = i + 1;
    }
    plan.insert(i, e);
    proof {
        assert(plan@ == before.insert(i as int, e));
        assert forall|a: int, b: int|
            #![trigger plan@[a], plan@[b]]
            0 <= a <= b < plan@.len() implies not_behind(
            plan_place(plan@[a]),
            plan_place(plan@[b]),
        ) by {
            if a < i {
                assert(plan@[a] == before[a]);
            } else if a > i {
                assert(plan@[a] == before[a - 1]);
            }
            if b < i {
                assert(plan@[b] == before[b]);
            } else if b > i {
                assert(plan@[b] == before[b - 1]);
                assert(not_behind(plan_place(before[i as int]), plan_place(before[b - 1])));
            }
        }
    }
}

/// Whether a planned read is not behind a place.
fn goes_first(e: &(usize, ColdRef), f: u32, o: u64) -> (r: bool)
    ensures
        r == not_behind(plan_place(*e), (f, o)),
{
    let (g, p) = place_of(e);
    g < f || (g == f && p <= o)
}

fn place_of(e: &(usize, ColdRef)) -> (r: (u32, u64))
    ensures
        r == plan_place(*e),
{
    match e.1.backing() {
        Backing::Log(at) => (at.file_id, at.offset),
        Backing::Segment(_) => (0, 0),
    }
}

/// The reads of the spill log that a page of rows wants, in the order of the
/// log, with the places of the rows in the page.
pub fn read_plan(rows: &Vec<Peeked>) -> (r: Vec<(usize, ColdRef)>)
    ensures
        in_log_order(r@),
        plan_sound(peeked(rows@), r@, rows@.len() as int),
        forall|i: int|
            #![trigger rows@[i]]
            0 <= i < rows@.len() && read_place(rows@[i]@) is Some ==> planned(r@, i),
{
    let ghost ps = peeked(rows@);
    let n: usize = rows.len();
    let mut plan: Vec<(usize, ColdRef)> = Vec::new();
    let mut i: usize = 0;
    while i < n
        invariant
            n == rows@.len(),
            ps == peeked(rows@),
            i <= n,
            in_log_order(plan@),
            plan_sound(ps, plan@, i as int),
            forall|k: int|
                #![trigger ps[k]]
                0 <= k < i && read_place(ps[k]) is Some ==> planned(plan@, k),
        decreases n - i,
    {
        let ghost before = plan@;
        let want: Option<ColdRef> = match &rows[i] {
            Peeked::Read(c) => if c.is_seg() {
                None
            } else {
                Some(*c)
            },
            _ => None,
        };
        assert(ps[i as int] == rows@[i as int]@);
        assert(want is Some == read_place(ps[i as int]) is Some);
        match want {
            None => {},
            Some(c) => {
                plan_read(&mut plan, (i, c));
                proof {
                    let at = choose|at: int|
                        0 <= at <= before.len() && plan@ == #[trigger] before.insert(at, (i, c));
                    lemma_plan(ps, before, at, i, c);
                    assert forall|k: int|
                        #![trigger ps[k]]
                        0 <= k < i + 1 && read_place(ps[k]) is Some implies planned(plan@, k) by {
                        if k < i {
                            let a = choose|a: int|
                                0 <= a < before.len() && (#[trigger] before[a]).0 == k;
                            if a < at {
                                assert(plan@[a].0 == k);
                            } else {
                                assert(plan@[a + 1].0 == k);
                            }
                        } else {
                            assert(plan@[at].0 == k);
                        }
                    }
                }
            },
        }
        i = i + 1;
    }
    proof {
        assert forall|k: int|
            #![trigger rows@[k]]
            0 <= k < rows@.len() && read_place(rows@[k]@) is Some implies planned(plan@, k) by {
            assert(ps[k] == rows@[k]@);
        }
    }
    plan
}

proof fn lemma_plan(
    rows: Seq<PeekedModel>,
    plan: Seq<(usize, ColdRef)>,
    at: int,
    i: usize,
    c: ColdRef,
)
    requires
        plan_sound(rows, plan, i as int),
        0 <= at <= plan.len(),
        i < rows.len(),
        rows[i as int] == PeekedModel::Read(c),
        read_place(rows[i as int]) is Some,
    ensures
        plan_sound(rows, plan.insert(at, (i, c)), i + 1),
{
    let next = plan.insert(at, (i, c));
    assert forall|a: int| 0 <= a < next.len() implies (#[trigger] next[a]).0 < i + 1 && next[a].0
        < rows.len() && rows[next[a].0 as int] == PeekedModel::Read(next[a].1) && read_place(
        rows[next[a].0 as int],
    ) is Some by {
        if a < at {
            assert(next[a] == plan[a]);
        } else if a > at {
            assert(next[a] == plan[a - 1]);
        }
    }
    assert forall|a: int, b: int|
        #![trigger next[a], next[b]]
        0 <= a < b < next.len() implies next[a].0 != next[b].0 by {
        if a < at {
            assert(next[a] == plan[a]);
        } else if a > at {
            assert(next[a] == plan[a - 1]);
        }
        if b < at {
            assert(next[b] == plan[b]);
        } else if b > at {
            assert(next[b] == plan[b - 1]);
        }
    }
}

/// The steps of a peek at a page of rows: each row loses the fields whose
/// deadlines have come and is then looked at.
pub open spec fn peek_path(s: super::StoreModel, keys: Seq<Seq<u8>>, fs: Seq<Seq<u8>>) -> Seq<
    (Seq<u8>, super::StoreModel),
>
    decreases keys.len(),
{
    if keys.len() == 0 {
        Seq::empty()
    } else {
        let before = peek_all(s, keys.drop_last(), fs).1;
        let k = keys.last();
        peek_path(s, keys.drop_last(), fs).push((k, super::hash_ttl::purged(before, k))).push(
            (k, peek_all(s, keys, fs).1),
        )
    }
}

impl Store {
    /// Peeks at a row: fields of the hash under a key. A row that is out of
    /// memory is neither put back nor marked as read.
    pub fn peek_hash_fields(&mut self, key: &[u8], fields: &[&[u8]]) -> (r: Peeked)
        requires
            old(self).wf(),
        ensures
            (r@, final(self)@) == peek_next(
                old(self)@,
                key@,
                super::lists::referred(fields@),
            ),
            final(self).came_past(*old(self), key@, final(self)@),
            final(self).kept_others(*old(self), key@),
            final(self).used_past(*old(self), key@),
    {
        self.purge_hash_ttl(key);
        assert(super::hash_ttl::swept(*old(self), *self, key@));
        match self.cold_step(key, ColdKind::Hash, Access::Peek) {
            Err(e) => Peeked::Row(Err(e)),
            Ok(ColdStep::Serve(c)) => Peeked::Read(c),
            Ok(ColdStep::Promote(c)) => Peeked::Promote(c),
            Ok(ColdStep::InMemory) => match self.value_ref(key) {
                None => Peeked::Row(Ok(None)),
                Some(v) => if v.is_hash() {
                    Peeked::Row(Ok(Some(row_fields(v, fields))))
                } else {
                    Peeked::Row(Err(StoreError::WrongType))
                },
            },
        }
    }

    /// Peeks at a page of rows, one after the other.
    pub fn peek_hash_rows(&mut self, keys: &[&[u8]], fields: &[&[u8]]) -> (r: Vec<Peeked>)
        requires
            old(self).wf(),
        ensures
            (peeked(r@), final(self)@) == peek_all(
                old(self)@,
                super::lists::referred(keys@),
                super::lists::referred(fields@),
            ),
            final(self).wf(),
            final(self).came_by(
                *old(self),
                peek_path(
                    old(self)@,
                    super::lists::referred(keys@),
                    super::lists::referred(fields@),
                ),
            ),
    {
        let ghost s = *self;
        let ghost all = super::lists::referred(keys@);
        let ghost fs = super::lists::referred(fields@);
        let n: usize = keys.len();
        let mut out: Vec<Peeked> = Vec::new();
        let mut i: usize = 0;
        proof {
            assert(all.take(0) =~= Seq::empty());
            assert(peeked(out@) =~= Seq::empty());
            self.lemma_no_step();
        }
        while i < n
            invariant
                n == keys@.len(),
                all == super::lists::referred(keys@),
                fs == super::lists::referred(fields@),
                i <= n,
                self.wf(),
                self.came_by(s, peek_path(s@, all.take(i as int), fs)),
                (peeked(out@), self@) == peek_all(s@, all.take(i as int), fs),
            decreases n - i,
        {
            proof {
                assert(all.take(i + 1).drop_last() =~= all.take(i as int));
                assert(all.take(i + 1).last() == keys@[i as int]@);
            }
            let ghost before = peeked(out@);
            let ghost at = *self;
            let p = self.peek_hash_fields(keys[i], fields);
            let ghost q = p@;
            proof {
                let k = keys@[i as int]@;
                let path = peek_path(s@, all.take(i as int), fs);
                let mid = choose|mid: Store| #[trigger]
                    super::hash_ttl::swept(at, mid, k) && self.became(mid, self@)
                        && self.kept_others(mid, k);
                mid.lemma_step(at, s, path, k, mid@);
                self.lemma_step(mid, s, path.push((k, mid@)), k, self@);
            }
            out.push(p);
            assert(peeked(out@) =~= before.push(q));
            i = i + 1;
        }
        assert(all.take(n as int) =~= all);
        out
    }
}

/// One record is read for a row, however many fields are asked for, and none
/// for a row in memory or a key of another type.
pub proof fn lemma_one_read_per_row(s: super::StoreModel, key: Seq<u8>, fs: Seq<Seq<u8>>)
    requires
        s.tier is Some,
        s.tier->Some_0.preads < u64::MAX,
    ensures
        ({
            let t = super::hash_ttl::purged(s, key);
            let (p, u) = peek_next(s, key, fs);
            &&& p is Row ==> u.tier == s.tier
            &&& p matches PeekedModel::Read(c) ==> u.tier is Some && u.tier->Some_0.preads
                == s.tier->Some_0.preads + (if c.backing() is Log {
                1int
            } else {
                0
            })
            &&& t.tier == s.tier
        }),
{
}

} // verus!
