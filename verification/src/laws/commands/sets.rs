//! Commands on sets.
use vstd::prelude::*;
use crate::store::Store;
use crate::types::StoreError;
use crate::value::Val;
use super::{deadline_kept, holds, lacks, others_kept};

verus! {

/// Members that are added are there with those that were, and those that are
/// new are counted, each once.
pub proof fn lemma_sadd(
    s: &mut Store,
    key: &[u8],
    members: &[&[u8]],
    r: Result<usize, StoreError>,
    m: Set<Seq<u8>>,
    x: Seq<u8>,
)
    requires
        call_ensures(Store::sadd, (s, key, members), r),
        members@.len() > 0,
        m.finite(),
    ensures
        holds(*old(s), key@, Val::Members(m)) ==> (final(s)@.slots[key@].value matches Val::Members(
            n,
        ) && (n.contains(x) <==> m.contains(x) || exists|i: int|
            0 <= i < members@.len() && (#[trigger] members@[i])@ == x) && (r matches Ok(k)
            && k == n.len() - m.len())) && deadline_kept(*old(s), *final(s), key@),
        lacks(*old(s), key@) ==> (final(s)@.slots[key@].value matches Val::Members(n) && (n.contains(
            x,
        ) <==> exists|i: int| 0 <= i < members@.len() && (#[trigger] members@[i])@ == x) && (
        r matches Ok(k) && k == n.len())) && final(s)@.slots[key@].expire is None,
        others_kept(*old(s), *final(s), key@),
{
    lemma_named(members@, x);
}

proof fn lemma_named(members: Seq<&[u8]>, x: Seq<u8>)
    ensures
        crate::store::lists::referred(members).to_set().contains(x) <==> exists|i: int|
            0 <= i < members.len() && (#[trigger] members[i])@ == x,
{
    let ms = crate::store::lists::referred(members);
    if ms.contains(x) {
        let i = choose|i: int| 0 <= i < ms.len() && ms[i] == x;
        assert(members[i]@ == x);
    }
    if exists|i: int| 0 <= i < members.len() && (#[trigger] members[i])@ == x {
        let i = choose|i: int| 0 <= i < members.len() && (#[trigger] members[i])@ == x;
        assert(ms[i] == x);
    }
}

/// Members that are removed are gone, the others stay, and a set that is
/// empty goes with its key.
pub proof fn lemma_srem(
    s: &mut Store,
    key: &[u8],
    members: &[&[u8]],
    r: Result<usize, StoreError>,
    m: Set<Seq<u8>>,
    x: Seq<u8>,
)
    requires
        call_ensures(Store::srem, (s, key, members), r),
        holds(*old(s), key@, Val::Members(m)),
        m.finite(),
        m.contains(x),
    ensures
        (exists|i: int| 0 <= i < members@.len() && (#[trigger] members@[i])@ == x) ==> (
        final(s)@.slots.dom().contains(key@) ==> (final(s)@.slots[key@].value matches Val::Members(
            n,
        ) && !n.contains(x))),
        (forall|i: int| 0 <= i < members@.len() ==> (#[trigger] members@[i])@ != x) ==> (
        final(s)@.slots[key@].value matches Val::Members(n) && n.contains(x)) && deadline_kept(
            *old(s),
            *final(s),
            key@,
        ),
        r is Ok,
        others_kept(*old(s), *final(s), key@),
{
    lemma_named(members@, x);
    let n = m.difference(crate::store::lists::referred(members@).to_set());
    assert(n.contains(x) ==> n != Set::<Seq<u8>>::empty());
}

/// Whether something is a member.
pub proof fn lemma_sismember(
    s: &mut Store,
    key: &[u8],
    x: &[u8],
    r: Result<bool, StoreError>,
    m: Set<Seq<u8>>,
)
    requires
        call_ensures(Store::sismember, (s, key, x), r),
    ensures
        holds(*old(s), key@, Val::Members(m)) ==> r == Ok::<bool, StoreError>(m.contains(x@))
            && final(s)@ == old(s)@,
        lacks(*old(s), key@) ==> r == Ok::<bool, StoreError>(false),
{
}

/// How many members there are.
pub proof fn lemma_scard(
    s: &mut Store,
    key: &[u8],
    r: Result<usize, StoreError>,
    m: Set<Seq<u8>>,
)
    requires
        call_ensures(Store::scard, (s, key), r),
        m.len() <= usize::MAX,
    ensures
        holds(*old(s), key@, Val::Members(m)) ==> (r matches Ok(n) && n == m.len()) && final(s)@
            == old(s)@,
        lacks(*old(s), key@) ==> r == Ok::<usize, StoreError>(0),
{
}

/// A listing has every member, and as many as there are.
pub proof fn lemma_smembers(
    s: &mut Store,
    key: &[u8],
    r: Result<Vec<Vec<u8>>, StoreError>,
    m: Set<Seq<u8>>,
    x: Seq<u8>,
)
    requires
        call_ensures(Store::smembers, (s, key), r),
        holds(*old(s), key@, Val::Members(m)),
    ensures
        r matches Ok(v) && v@.len() == m.len() && (m.contains(x) <==> exists|i: int|
            0 <= i < v@.len() && (#[trigger] v@[i])@ == x),
        final(s)@ == old(s)@,
{
    lemma_given(r->Ok_0@, x);
}

proof fn lemma_given(v: Seq<Vec<u8>>, x: Seq<u8>)
    ensures
        crate::bytes::deep(v).to_set().contains(x) <==> exists|i: int|
            0 <= i < v.len() && (#[trigger] v[i])@ == x,
{
    let d = crate::bytes::deep(v);
    if d.contains(x) {
        let i = choose|i: int| 0 <= i < d.len() && d[i] == x;
        assert(v[i]@ == x);
    }
    if exists|i: int| 0 <= i < v.len() && (#[trigger] v[i])@ == x {
        let i = choose|i: int| 0 <= i < v.len() && (#[trigger] v[i])@ == x;
        assert(d[i] == x);
    }
}

/// Popped members were there and are gone, as many as were asked for or all;
/// the others stay.
pub proof fn lemma_spop(
    s: &mut Store,
    key: &[u8],
    count: usize,
    r: Result<Vec<Vec<u8>>, StoreError>,
    m: Set<Seq<u8>>,
    x: Seq<u8>,
)
    requires
        call_ensures(Store::spop, (s, key, count), r),
        holds(*old(s), key@, Val::Members(m)),
        m.finite(),
        m.contains(x),
    ensures
        r matches Ok(v) && v@.len() == (if count < m.len() {
            count as nat
        } else {
            m.len()
        }) && (forall|i: int| 0 <= i < v@.len() ==> m.contains((#[trigger] v@[i])@)),
        (exists|i: int| 0 <= i < r->Ok_0@.len() && (#[trigger] r->Ok_0@[i])@ == x) ==> (
        final(s)@.slots.dom().contains(key@) ==> (final(s)@.slots[key@].value matches Val::Members(
            n,
        ) && !n.contains(x))),
        (forall|i: int| 0 <= i < r->Ok_0@.len() ==> (#[trigger] r->Ok_0@[i])@ != x) ==> (
        final(s)@.slots[key@].value matches Val::Members(n) && n.contains(x)),
        others_kept(*old(s), *final(s), key@),
{
    let v = r->Ok_0;
    let d = crate::bytes::deep(v@);
    lemma_given(v@, x);
    let n = m.difference(d.to_set());
    assert(n.contains(x) ==> n != Set::<Seq<u8>>::empty());
    assert(d.len() == v@.len());
    assert forall|i: int| 0 <= i < v@.len() implies m.contains((#[trigger] v@[i])@) by {
        assert(d[i] == v@[i]@);
        assert(d.to_set().contains(d[i]));
    }
}

/// A draw that takes nothing leaves the set as it is, and gives members.
pub proof fn lemma_srandmember(
    s: &mut Store,
    key: &[u8],
    count: usize,
    r: Result<Vec<Vec<u8>>, StoreError>,
    m: Set<Seq<u8>>,
)
    requires
        call_ensures(Store::srandmember, (s, key, count), r),
        holds(*old(s), key@, Val::Members(m)),
    ensures
        r matches Ok(v) && v@.len() == (if count < m.len() {
            count as nat
        } else {
            m.len()
        }) && (forall|i: int| 0 <= i < v@.len() ==> m.contains((#[trigger] v@[i])@)),
        final(s)@.slots == old(s)@.slots,
{
    let v = r->Ok_0;
    let d = crate::bytes::deep(v@);
    assert(d.len() == v@.len());
    assert forall|i: int| 0 <= i < v@.len() implies m.contains((#[trigger] v@[i])@) by {
        assert(d[i] == v@[i]@);
        assert(d.to_set().contains(d[i]));
    }
}

} // verus!
