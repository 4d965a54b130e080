//! Looks at rows that leave them where they are.
use vstd::prelude::*;
use crate::cold::ColdRef;
use crate::store::peeking::{read_plan, Peeked};
use crate::store::Store;
use crate::value::Val;
use super::hashes::none_past;
use super::{holds, lacks};

verus! {

/// A look at a row in memory gives each field that is asked for, or nothing
/// where the row has none, and changes nothing.
pub proof fn lemma_peek_row(
    s: &mut Store,
    key: &[u8],
    fields: &[&[u8]],
    r: Peeked,
    h: Map<Seq<u8>, Seq<u8>>,
    i: int,
)
    requires
        call_ensures(Store::peek_hash_fields, (s, key, fields), r),
        holds(*old(s), key@, Val::Hash(h)),
        none_past(*old(s), key@),
        0 <= i < fields@.len(),
    ensures
        r matches Peeked::Row(Ok(Some(v))) && v@.len() == fields@.len() && (if h.dom().contains(
            fields@[i]@,
        ) {
            v@[i] matches Some(b) && b@ == h[fields@[i]@]
        } else {
            v@[i] is None
        }),
        final(s)@ == old(s)@,
{
    super::hashes::lemma_none_past(*old(s), key@);
    if let Peeked::Row(Ok(Some(v))) = r {
        let d = crate::store::hashes::deep_options(v@);
        assert(d.len() == v@.len());
        assert(d[i] == (match v@[i] {
            Some(b) => Some(b@),
            None => None,
        }));
    }
}

/// A look at a row that is out of memory asks for its record, and neither
/// brings it back nor marks it as read.
pub proof fn lemma_peek_stub(
    s: &mut Store,
    key: &[u8],
    fields: &[&[u8]],
    r: Peeked,
    c: ColdRef,
)
    requires
        call_ensures(Store::peek_hash_fields, (s, key, fields), r),
        none_past(*old(s), key@),
    ensures
        holds(*old(s), key@, Val::Cold(c)) && c.kind is Hash ==> r == Peeked::Read(c)
            && final(s)@.slots == old(s)@.slots,
        holds(*old(s), key@, Val::Cold(c)) && c.kind is Str ==> (r matches Peeked::Row(Err(e)) && e
            == crate::types::StoreError::WrongType),
        lacks(*old(s), key@) ==> (r matches Peeked::Row(Ok(None))),
{
    super::hashes::lemma_none_past(*old(s), key@);
    let past = crate::store::hash_ttl::fields_past(old(s)@, key@);
    assert forall|f: Seq<u8>| !past.contains(f) by {
        let e = super::hashes::field_ends(*old(s), key@, f);
    }
    assert(past =~= Set::empty());
}

/// Planned reads go through the spill log from one end to the other: file by
/// file, and within a file from its start on.
pub proof fn lemma_plan_order(
    rows: &Vec<Peeked>,
    r: Vec<(usize, ColdRef)>,
    a: int,
    b: int,
)
    requires
        call_ensures(read_plan, (rows,), r),
        0 <= a < b < r@.len(),
    ensures
        r@[a].1.rec.file_id <= r@[b].1.rec.file_id,
        r@[a].1.rec.file_id == r@[b].1.rec.file_id ==> r@[a].1.rec.offset <= r@[b].1.rec.offset,
        r@[a].0 != r@[b].0,
        rows@[r@[a].0 as int] == Peeked::Read(r@[a].1),
{
    let ps = crate::store::peeking::peeked(rows@);
    let x = r@[a];
    let y = r@[b];
    assert(ps[x.0 as int] == rows@[x.0 as int]@);
    assert(crate::store::peeking::not_behind(
        crate::store::peeking::plan_place(x),
        crate::store::peeking::plan_place(y),
    ));
    assert(crate::store::peeking::read_place(ps[y.0 as int]) is Some);
}

} // verus!
