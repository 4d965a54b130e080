//! Collections that are kept in place while they are small: 22 bytes, of
//! which every string takes one more than it has.
use vstd::prelude::*;
use crate::small_hash::SmallHashData;
use crate::small_list::{PushResult, SmallListData};
use crate::small_set::SmallSetData;
use crate::small_zset::SmallZSetData;

verus! {

/// The bytes that strings take in place.
pub open spec fn taken(es: Seq<Seq<u8>>) -> nat
    decreases es.len(),
{
    if es.len() == 0 {
        0
    } else {
        taken(es.drop_last()) + 1 + es.last().len()
    }
}

proof fn lemma_taken(es: Seq<Seq<u8>>)
    ensures
        crate::packed::cat(crate::packed::chunks(es)).len() == taken(es),
    decreases es.len(),
{
    let c = crate::packed::chunks(es);
    if es.len() > 0 {
        lemma_taken(es.drop_last());
        assert(c.drop_last() =~= crate::packed::chunks(es.drop_last()));
        assert(c.last().len() == 1 + es.last().len());
    }
}

/// An element joins a small list behind the others, just if the list has
/// fewer than 8 and all of them fit into 22 bytes.
pub proof fn lemma_small_push_back(s: &mut SmallListData, elem: &[u8], r: PushResult)
    requires
        call_ensures(SmallListData::try_push_back, (s, elem), r),
    ensures
        r is Pushed <==> old(s)@.len() < 8 && taken(old(s)@) + 1 + elem@.len() <= 22,
        r is Pushed ==> final(s)@ == old(s)@.push(elem@),
        !(r is Pushed) ==> final(s)@ == old(s)@,
{
    lemma_taken(old(s)@);
}

/// The same before the others.
pub proof fn lemma_small_push_front(s: &mut SmallListData, elem: &[u8], r: PushResult)
    requires
        call_ensures(SmallListData::try_push_front, (s, elem), r),
    ensures
        r is Pushed <==> old(s)@.len() < 8 && taken(old(s)@) + 1 + elem@.len() <= 22,
        r is Pushed ==> final(s)@ == seq![elem@] + old(s)@,
        !(r is Pushed) ==> final(s)@ == old(s)@,
{
    lemma_taken(old(s)@);
}

/// A member joins a small set just if it is not in it, the set has fewer than
/// 8, and all of them fit into 22 bytes.
pub proof fn lemma_small_add(
    s: &mut SmallSetData,
    member: &[u8],
    r: crate::small_set::AddResult,
    x: Seq<u8>,
)
    requires
        call_ensures(SmallSetData::try_add, (s, member), r),
    ensures
        r is AlreadyPresent <==> old(s)@.contains(member@),
        r is Added <==> !old(s)@.contains(member@) && old(s)@.len() < 8 && taken(old(s)@) + 1
            + member@.len() <= 22,
        r is Added ==> (final(s)@.contains(x) <==> old(s)@.contains(x) || x == member@),
        !(r is Added) ==> final(s)@ == old(s)@,
{
    lemma_taken(old(s)@);
    crate::value_set::lemma_push_contains(old(s)@, member@, x);
}

/// A member that is removed from a small set is gone, and no other.
pub proof fn lemma_small_remove(s: &mut SmallSetData, member: &[u8], r: bool, x: Seq<u8>)
    requires
        call_ensures(SmallSetData::try_remove, (s, member), r),
        old(s)@.no_duplicates(),
    ensures
        r == old(s)@.contains(member@),
        final(s)@.contains(x) <==> old(s)@.contains(x) && x != member@,
{
    let a = old(s)@;
    let b = final(s)@;
    if a.contains(member@) {
        let at = a.index_of(member@);
        assert(0 <= at < a.len() && a[at] == member@);
        if b.contains(x) {
            let i = choose|i: int| 0 <= i < b.len() && b[i] == x;
            if i < at {
                assert(a[i] == x);
            } else {
                assert(a[i + 1] == x);
            }
        }
        if a.contains(x) && x != member@ {
            let i = choose|i: int| 0 <= i < a.len() && a[i] == x;
            if i < at {
                assert(b[i] == x);
            } else {
                assert(b[i - 1] == x);
            }
        }
    }
}

/// A field of a small hash is bound to its value, the others stay, or nothing
/// changes for want of room.
pub proof fn lemma_small_set(
    s: &mut SmallHashData,
    field: &[u8],
    value: &[u8],
    r: crate::small_hash::AddResult,
)
    requires
        call_ensures(SmallHashData::try_set, (s, field, value), r),
        old(s).wf(),
    ensures
        ({
            let a = crate::small_hash::pairs_map(old(s)@);
            let b = crate::small_hash::pairs_map(final(s)@);
            &&& r is NoRoom ==> b == a
            &&& !(r is NoRoom) ==> b == a.insert(field@, value@)
            &&& r is Updated ==> a.dom().contains(field@)
            &&& r is Added ==> !a.dom().contains(field@) && old(s)@.len() < 8
            &&& field@.len() > 19 || value@.len() > 19 ==> r is NoRoom
            &&& old(s)@.len() == 0 && field@.len() + value@.len() <= 20 && field@.len() <= 19
                && value@.len() <= 19 ==> r is Added
        }),
{
    old(s).lemma_wf();
    crate::small_hash::lemma_pairs_map(old(s)@, field@, value@);
    if old(s)@.len() == 0 {
        assert(crate::small_hash::pair_records(old(s)@) =~= Seq::empty());
    }
}

/// A small sorted set has up to 2 members of up to 13 bytes; one that is
/// there gets its new score in place.
pub proof fn lemma_small_score(
    s: &mut SmallZSetData,
    member: &[u8],
    bits: u64,
    r: crate::small_zset::AddResult,
)
    requires
        call_ensures(SmallZSetData::try_set, (s, member, bits), r),
    ensures
        r is NoRoom ==> final(s)@ == old(s)@,
        member@.len() > 13 ==> r is NoRoom,
        old(s)@.len() >= 2 ==> !(r is Added),
        old(s)@.len() == 0 && member@.len() <= 13 ==> r is Added && final(s)@ == seq![
            (member@, bits),
        ],
        r is Added ==> final(s)@ == old(s)@.push((member@, bits)) && forall|i: int|
            0 <= i < old(s)@.len() ==> (#[trigger] old(s)@[i]).0 != member@,
        r is Updated ==> final(s)@.len() == old(s)@.len() && exists|i: int|
            0 <= i < old(s)@.len() && (#[trigger] old(s)@[i]).0 == member@ && final(s)@[i] == (
                member@,
                bits,
            ),
{
    let ps = old(s)@;
    if ps.len() == 0 {
        assert(crate::small_zset::item_records(ps) =~= Seq::empty());
        assert(ps.push((member@, bits)) =~= seq![(member@, bits)]);
    }
    if r is Updated {
        let i = crate::small_zset::member_index(ps, member@);
        assert(crate::small_zset::member_at(ps, member@, i));
        assert(ps[i].0 == member@ && final(s)@[i] == (member@, bits));
    }
    if r is Added {
        assert forall|i: int| 0 <= i < ps.len() implies (#[trigger] ps[i]).0 != member@ by {
            if ps[i].0 == member@ {
                assert(crate::small_zset::member_at(ps, member@, i));
            }
        }
    }
}

/// Strings in place stand one behind the other, each behind its length in one
/// byte, and scores before their members, lowest byte first.
pub proof fn lemma_small_layout(es: Seq<Seq<u8>>, x: Seq<u8>, ps: Seq<(Seq<u8>, u64)>, bits: u64)
    requires
        x.len() < 256,
    ensures
        crate::packed::cat(crate::packed::chunks(es.push(x))) == crate::packed::cat(
            crate::packed::chunks(es),
        ) + seq![x.len() as u8] + x,
        crate::packed::cat(crate::small_zset::item_records(ps.push((x, bits))))
            == crate::packed::cat(crate::small_zset::item_records(ps)) + crate::le::le_bytes(
            bits as nat,
            8,
        ) + seq![x.len() as u8] + x,
{
    let c = crate::packed::chunks(es.push(x));
    assert(c.drop_last() =~= crate::packed::chunks(es));
    assert(c.last() == seq![x.len() as u8] + x);
    let d = crate::small_zset::item_records(ps.push((x, bits)));
    assert(d.drop_last() =~= crate::small_zset::item_records(ps));
    assert(d.last() == crate::le::le_bytes(bits as nat, 8) + (seq![x.len() as u8] + x));
    assert(crate::packed::cat(c) =~= crate::packed::cat(crate::packed::chunks(es)) + seq![
        x.len() as u8,
    ] + x);
    assert(crate::packed::cat(d) =~= crate::packed::cat(crate::small_zset::item_records(ps))
        + crate::le::le_bytes(bits as nat, 8) + seq![x.len() as u8] + x);
}

} // verus!
