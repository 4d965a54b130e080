//! Commands on hashes.
use vstd::prelude::*;
use crate::store::hash_ttl::{HExpireCode, HExpireCond};
use crate::store::Store;
use crate::types::StoreError;
use crate::value::Val;
use super::{holds, lacks, others_kept};

verus! {

/// The deadline of a field, in Unix milliseconds.
pub open spec fn field_ends(s: Store, k: Seq<u8>, f: Seq<u8>) -> Option<u64> {
    if s@.ttls.dom().contains(k) && s@.ttls[k].dom().contains(f) {
        Some(s@.ttls[k][f])
    } else {
        None
    }
}

/// Whether no field of a key is past its deadline.
pub open spec fn none_past(s: Store, k: Seq<u8>) -> bool {
    forall|f: Seq<u8>| #[trigger] field_ends(s, k, f) matches Some(d) ==> s@.wall < d
}

/// Where no field is past its deadline, no field is to be removed.
pub proof fn lemma_none_past(s: Store, k: Seq<u8>)
    requires
        none_past(s, k),
    ensures
        crate::store::hash_ttl::purged(s@, k) == s@,
{
    let past = crate::store::hash_ttl::fields_past(s@, k);
    assert forall|f: Seq<u8>| !past.contains(f) by {
        let e = field_ends(s, k, f);
    }
    assert(past =~= Set::empty());
}

/// A deadline to come is set for a field just as its condition says: always;
/// only where there is none; only where there is one; only if it is later
/// than the one there is; only if it is earlier, or there is none. Where it
/// is not set the one there is stays.
pub proof fn lemma_hexpire_at(
    s: &mut Store,
    key: &[u8],
    fields: &[&[u8]],
    at: u64,
    cond: HExpireCond,
    r: Result<Vec<HExpireCode>, StoreError>,
    h: Map<Seq<u8>, Seq<u8>>,
)
    requires
        call_ensures(Store::hexpire_at, (s, key, fields, at, cond), r),
        holds(*old(s), key@, Val::Hash(h)),
        none_past(*old(s), key@),
        fields@.len() == 1,
        h.dom().contains(fields@[0]@),
        at > old(s)@.wall,
    ensures
        ({
            let f = fields@[0]@;
            let was = field_ends(*old(s), key@, f);
            let set = match cond {
                HExpireCond::Always => true,
                HExpireCond::Nx => was is None,
                HExpireCond::Xx => was is Some,
                HExpireCond::Gt => was is Some && was->Some_0 < at,
                HExpireCond::Lt => was is None || at < was->Some_0,
            };
            &&& set ==> field_ends(*final(s), key@, f) == Some(at)
            &&& !set ==> field_ends(*final(s), key@, f) == was
            &&& r matches Ok(v) && v@.len() == 1 && v@[0] == (if set {
                1i8
            } else {
                0i8
            })
        }),
        forall|g: Seq<u8>|
            g != fields@[0]@ ==> #[trigger] field_ends(*final(s), key@, g) == field_ends(
                *old(s),
                key@,
                g,
            ),
        final(s)@.slots == old(s)@.slots,
{
    lemma_none_past(*old(s), key@);
    let fs = crate::store::lists::referred(fields@);
    assert(fs.len() == 1 && fs[0] == fields@[0]@);
    assert(fs.drop_last() =~= Seq::empty());
    reveal_with_fuel(crate::store::hash_ttl::hexpire_steps, 2);
    assert(fs.last() == fields@[0]@);
}

/// A deadline that has come takes the field at once, where the condition lets
/// it be set.
pub proof fn lemma_hexpire_now(
    s: &mut Store,
    key: &[u8],
    fields: &[&[u8]],
    at: u64,
    r: Result<Vec<HExpireCode>, StoreError>,
    h: Map<Seq<u8>, Seq<u8>>,
    g: Seq<u8>,
)
    requires
        call_ensures(Store::hexpire_at, (s, key, fields, at, HExpireCond::Always), r),
        old(s)@.slots.dom().contains(key@),
        old(s)@.slots[key@].value == Val::Hash(h),
        old(s)@.slots[key@].expire is None,
        none_past(*old(s), key@),
        fields@.len() == 1,
        h.dom().contains(fields@[0]@),
        at <= old(s)@.wall,
        h.dom().contains(g),
        g != fields@[0]@,
    ensures
        r matches Ok(v) && v@.len() == 1 && v@[0] == 2i8,
        final(s)@.slots[key@].value == Val::Hash(h.remove(fields@[0]@)),
        field_ends(*final(s), key@, fields@[0]@) is None,
{
    lemma_none_past(*old(s), key@);
    let fs = crate::store::lists::referred(fields@);
    let f = fields@[0]@;
    assert(fs.len() == 1 && fs[0] == f);
    assert(fs.drop_last() =~= Seq::empty());
    reveal_with_fuel(crate::store::hash_ttl::hexpire_steps, 2);
    assert(fs.last() == f);
    assert(h.remove_keys(set![f]) =~= h.remove(f));
    assert(h.remove(f).dom().contains(g));
    assert(h.remove(f) != Map::<Seq<u8>, Seq<u8>>::empty());
}

/// How long a field has left: the milliseconds to its deadline, -1 where it
/// has none, -2 where there is no such field.
pub proof fn lemma_hpttl(
    s: &mut Store,
    key: &[u8],
    fields: &[&[u8]],
    r: Result<Vec<i64>, StoreError>,
    h: Map<Seq<u8>, Seq<u8>>,
    i: int,
)
    requires
        call_ensures(Store::hpttl, (s, key, fields), r),
        holds(*old(s), key@, Val::Hash(h)),
        none_past(*old(s), key@),
        0 <= i < fields@.len(),
    ensures
        r matches Ok(v) && v@.len() == fields@.len() && (!h.dom().contains(fields@[i]@) ==> v@[i]
            == -2) && (h.dom().contains(fields@[i]@) ==> match field_ends(
            *old(s),
            key@,
            fields@[i]@,
        ) {
            None => v@[i] == -1,
            Some(d) => d - old(s)@.wall <= i64::MAX ==> v@[i] == d - old(s)@.wall,
        }),
        final(s)@ == old(s)@,
{
    lemma_none_past(*old(s), key@);
}

/// A field is bound to what was set, unless it was there: then it stays.
pub proof fn lemma_hsetnx(
    s: &mut Store,
    key: &[u8],
    field: &[u8],
    val: &[u8],
    r: Result<bool, StoreError>,
    h: Map<Seq<u8>, Seq<u8>>,
)
    requires
        call_ensures(Store::hsetnx, (s, key, field, val), r),
        none_past(*old(s), key@),
    ensures
        holds(*old(s), key@, Val::Hash(h)) && h.dom().contains(field@) ==> r == Ok::<
            bool,
            StoreError,
        >(false) && final(s)@.slots == old(s)@.slots,
        holds(*old(s), key@, Val::Hash(h)) && !h.dom().contains(field@) ==> r == Ok::<
            bool,
            StoreError,
        >(true) && final(s)@.slots[key@].value == Val::Hash(h.insert(field@, val@)),
        lacks(*old(s), key@) ==> r == Ok::<bool, StoreError>(true) && final(s)@.slots[key@].value
            == Val::Hash(map![field@ => val@]) && final(s)@.slots[key@].expire is None,
        others_kept(*old(s), *final(s), key@),
{
    lemma_none_past(*old(s), key@);
    assert(Map::<Seq<u8>, Seq<u8>>::empty().insert(field@, val@) =~= map![field@ => val@]);
}

/// A field is read just if it is there, and reading changes nothing.
pub proof fn lemma_hget(
    s: &mut Store,
    key: &[u8],
    field: &[u8],
    r: Result<Option<Vec<u8>>, StoreError>,
    h: Map<Seq<u8>, Seq<u8>>,
)
    requires
        call_ensures(Store::hget, (s, key, field), r),
        none_past(*old(s), key@),
    ensures
        holds(*old(s), key@, Val::Hash(h)) && h.dom().contains(field@) ==> (r matches Ok(Some(v))
            && v@ == h[field@]),
        holds(*old(s), key@, Val::Hash(h)) && !h.dom().contains(field@) ==> r == Ok::<
            Option<Vec<u8>>,
            StoreError,
        >(None),
        lacks(*old(s), key@) ==> r == Ok::<Option<Vec<u8>>, StoreError>(None),
        holds(*old(s), key@, Val::Hash(h)) ==> final(s)@ == old(s)@,
{
    lemma_none_past(*old(s), key@);
}

/// Whether a field is there.
pub proof fn lemma_hexists(
    s: &mut Store,
    key: &[u8],
    field: &[u8],
    r: Result<bool, StoreError>,
    h: Map<Seq<u8>, Seq<u8>>,
)
    requires
        call_ensures(Store::hexists, (s, key, field), r),
        none_past(*old(s), key@),
    ensures
        holds(*old(s), key@, Val::Hash(h)) ==> r == Ok::<bool, StoreError>(
            h.dom().contains(field@),
        ) && final(s)@ == old(s)@,
        lacks(*old(s), key@) ==> r == Ok::<bool, StoreError>(false),
{
    lemma_none_past(*old(s), key@);
}

/// How many fields there are.
pub proof fn lemma_hlen(
    s: &mut Store,
    key: &[u8],
    r: Result<usize, StoreError>,
    h: Map<Seq<u8>, Seq<u8>>,
)
    requires
        call_ensures(Store::hlen, (s, key), r),
        none_past(*old(s), key@),
        h.dom().len() <= usize::MAX,
    ensures
        holds(*old(s), key@, Val::Hash(h)) ==> (r matches Ok(n) && n == h.dom().len()) && final(s)@
            == old(s)@,
        lacks(*old(s), key@) ==> r == Ok::<usize, StoreError>(0),
{
    lemma_none_past(*old(s), key@);
}

/// Fields are read in the order in which they are named, each as it is alone.
pub proof fn lemma_hmget(
    s: &mut Store,
    key: &[u8],
    fields: &[&[u8]],
    r: Result<Vec<Option<Vec<u8>>>, StoreError>,
    h: Map<Seq<u8>, Seq<u8>>,
    i: int,
)
    requires
        call_ensures(Store::hmget, (s, key, fields), r),
        holds(*old(s), key@, Val::Hash(h)),
        none_past(*old(s), key@),
    ensures
        r matches Ok(v) && v@.len() == fields@.len(),
        0 <= i < fields@.len() && h.dom().contains(fields@[i]@) ==> (r->Ok_0@[i] matches Some(b)
            && b@ == h[fields@[i]@]),
        0 <= i < fields@.len() && !h.dom().contains(fields@[i]@) ==> r->Ok_0@[i] is None,
        final(s)@ == old(s)@,
{
    lemma_none_past(*old(s), key@);
    let d = crate::store::hashes::deep_options(r->Ok_0@);
    assert(d.len() == r->Ok_0@.len());
    if 0 <= i < fields@.len() {
        let x = d[i];
        assert(x == (match r->Ok_0@[i] {
            Some(b) => Some(b@),
            None => None,
        }));
    }
}

/// A field is set to a value, and loses its deadline; it counts if it is new.
/// Other fields stay.
pub proof fn lemma_hset(
    s: &mut Store,
    key: &[u8],
    pairs: &[(&[u8], &[u8])],
    r: Result<usize, StoreError>,
    h: Map<Seq<u8>, Seq<u8>>,
)
    requires
        call_ensures(Store::hset, (s, key, pairs), r),
        none_past(*old(s), key@),
        pairs@.len() == 1,
        h.dom().finite(),
    ensures
        ({
            let f = pairs@[0].0@;
            let v = pairs@[0].1@;
            &&& holds(*old(s), key@, Val::Hash(h)) ==> final(s)@.slots[key@].value == Val::Hash(
                h.insert(f, v),
            ) && final(s)@.slots[key@].expire == old(s)@.slots[key@].expire && r == Ok::<
                usize,
                StoreError,
            >(if h.dom().contains(f) {
                0
            } else {
                1
            })
            &&& lacks(*old(s), key@) ==> final(s)@.slots[key@].value == Val::Hash(map![f => v])
                && final(s)@.slots[key@].expire is None && r == Ok::<usize, StoreError>(1)
            &&& holds(*old(s), key@, Val::Hash(h)) ==> field_ends(*final(s), key@, f) is None
        }),
        others_kept(*old(s), *final(s), key@),
{
    lemma_none_past(*old(s), key@);
    let ps = crate::store::hashes::referred_pairs(pairs@);
    let f = pairs@[0].0@;
    let v = pairs@[0].1@;
    assert(ps.len() == 1 && ps[0] == (f, v) && ps.last() == (f, v));
    assert(ps.drop_last() =~= Seq::empty());
    reveal_with_fuel(crate::store::hashes::overlaid, 2);
    let fs = crate::bytes::firsts(ps);
    assert(fs =~= seq![f]);
    assert(fs.to_set() =~= set![f]) by {
        assert(fs[0] == f);
    }
    assert(fs.to_set().contains(f));
    assert(Map::<Seq<u8>, Seq<u8>>::empty().insert(f, v) =~= map![f => v]);
    assert(map![f => v].dom() =~= set![f]);
    if h.dom().contains(f) {
        assert(h.insert(f, v).dom() =~= h.dom());
    } else {
        assert(h.insert(f, v).dom() =~= h.dom().insert(f));
    }
}

/// Fields are removed, those that are not there passed over; the others stay,
/// and where none is left there is no key.
pub proof fn lemma_hdel(
    s: &mut Store,
    key: &[u8],
    fields: &[&[u8]],
    r: Result<usize, StoreError>,
    h: Map<Seq<u8>, Seq<u8>>,
    g: Seq<u8>,
)
    requires
        call_ensures(Store::hdel, (s, key, fields), r),
        old(s)@.slots.dom().contains(key@),
        old(s)@.slots[key@].value == Val::Hash(h),
        old(s)@.slots[key@].expire is None,
        none_past(*old(s), key@),
        h.dom().finite(),
        h.dom().contains(g),
    ensures
        (forall|i: int| 0 <= i < fields@.len() ==> (#[trigger] fields@[i])@ != g) ==> (
        final(s)@.slots[key@].value matches Val::Hash(n) && n.dom().contains(g) && n[g] == h[g]),
        (exists|i: int| 0 <= i < fields@.len() && (#[trigger] fields@[i])@ == g) ==> (
        final(s)@.slots.dom().contains(key@) ==> (final(s)@.slots[key@].value matches Val::Hash(n)
            && !n.dom().contains(g))) && (r matches Ok(n) && n > 0),
        others_kept(*old(s), *final(s), key@),
{
    lemma_none_past(*old(s), key@);
    let fs = crate::store::lists::referred(fields@);
    let n = h.remove_keys(fs.to_set());
    assert(fs.len() == fields@.len());
    assert forall|i: int| 0 <= i < fs.len() implies fs[i] == (#[trigger] fields@[i])@ by {}
    if forall|i: int| 0 <= i < fields@.len() ==> (#[trigger] fields@[i])@ != g {
        assert(!fs.to_set().contains(g)) by {
            if fs.contains(g) {
                let i = choose|i: int| 0 <= i < fs.len() && fs[i] == g;
                assert(fields@[i]@ == g);
            }
        }
        assert(n.dom().contains(g));
        assert(n != Map::<Seq<u8>, Seq<u8>>::empty());
    }
    if exists|i: int| 0 <= i < fields@.len() && (#[trigger] fields@[i])@ == g {
        let i = choose|i: int| 0 <= i < fields@.len() && (#[trigger] fields@[i])@ == g;
        assert(fs[i] == g);
        assert(fs.to_set().contains(g));
        assert(n.dom().subset_of(h.dom().remove(g)));
        vstd::set_lib::lemma_len_subset(n.dom(), h.dom().remove(g));
    }
}

/// An increment adds to the number in a field, and starts from 0 where there
/// is none.
pub proof fn lemma_hincrby(
    s: &mut Store,
    key: &[u8],
    field: &[u8],
    delta: i64,
    r: Result<i64, StoreError>,
    h: Map<Seq<u8>, Seq<u8>>,
    n: i64,
)
    requires
        call_ensures(Store::hincrby, (s, key, field, delta), r),
        holds(*old(s), key@, Val::Hash(h)),
        none_past(*old(s), key@),
    ensures
        h.dom().contains(field@) && h[field@] == crate::text::decimal(n as int) && i64::MIN <= n
            + delta <= i64::MAX ==> r == Ok::<i64, StoreError>((n + delta) as i64)
            && final(s)@.slots[key@].value == Val::Hash(
            h.insert(field@, crate::text::decimal(n + delta)),
        ),
        h.dom().contains(field@) && h[field@] == crate::text::decimal(n as int) && !(i64::MIN <= n
            + delta <= i64::MAX) ==> r == Err::<i64, StoreError>(StoreError::Overflow)
            && final(s)@.slots == old(s)@.slots,
        !h.dom().contains(field@) ==> r == Ok::<i64, StoreError>(delta)
            && final(s)@.slots[key@].value == Val::Hash(
            h.insert(field@, crate::text::decimal(delta as int)),
        ),
        others_kept(*old(s), *final(s), key@),
{
    lemma_none_past(*old(s), key@);
    crate::text::lemma_decimal_roundtrip(n);
}

/// A listing of the fields has each of them once.
pub proof fn lemma_hkeys(
    s: &mut Store,
    key: &[u8],
    k: Result<Vec<Vec<u8>>, StoreError>,
    h: Map<Seq<u8>, Seq<u8>>,
    f: Seq<u8>,
)
    requires
        call_ensures(Store::hkeys, (s, key), k),
        holds(*old(s), key@, Val::Hash(h)),
        none_past(*old(s), key@),
    ensures
        k matches Ok(v) && v@.len() == h.dom().len() && (h.dom().contains(f) <==> exists|i: int|
            0 <= i < v@.len() && (#[trigger] v@[i])@ == f),
        final(s)@ == old(s)@,
{
    lemma_none_past(*old(s), key@);
    let v = k->Ok_0;
    let d = crate::bytes::deep(v@);
    assert(d.len() == v@.len());
    assert forall|i: int| 0 <= i < v@.len() implies (#[trigger] v@[i])@ == d[i] by {}
    if h.dom().contains(f) {
        assert(d.to_set().contains(f));
        let i = choose|i: int| 0 <= i < d.len() && d[i] == f;
        assert(v@[i]@ == f);
    }
    if exists|i: int| 0 <= i < v@.len() && (#[trigger] v@[i])@ == f {
        let i = choose|i: int| 0 <= i < v@.len() && (#[trigger] v@[i])@ == f;
        assert(d[i] == f);
        assert(d.to_set().contains(f));
    }
}

/// A field loses its deadline, which is told: 1 if it had one, -1 if it had
/// none, -2 if there is no such field. Other fields keep theirs.
pub proof fn lemma_hpersist(
    s: &mut Store,
    key: &[u8],
    fields: &[&[u8]],
    r: Result<Vec<HExpireCode>, StoreError>,
    h: Map<Seq<u8>, Seq<u8>>,
    g: Seq<u8>,
)
    requires
        call_ensures(Store::hpersist, (s, key, fields), r),
        holds(*old(s), key@, Val::Hash(h)),
        none_past(*old(s), key@),
        fields@.len() == 1,
    ensures
        ({
            let f = fields@[0]@;
            let had = field_ends(*old(s), key@, f) is Some;
            &&& r matches Ok(v) && v@.len() == 1 && v@[0] == (if !h.dom().contains(f) {
                -2int
            } else if had {
                1
            } else {
                -1
            })
            &&& h.dom().contains(f) ==> field_ends(*final(s), key@, f) is None
            &&& g != f ==> field_ends(*final(s), key@, g) == field_ends(*old(s), key@, g)
        }),
        final(s)@.slots == old(s)@.slots,
{
    lemma_none_past(*old(s), key@);
    let fs = crate::store::lists::referred(fields@);
    let f = fields@[0]@;
    assert(fs =~= seq![f]);
    assert(fs.take(0).len() == 0);
    assert(!fs.take(0).contains(f));
    assert(fs.to_set() =~= set![f]) by {
        assert(fs[0] == f);
    }
    let named = crate::store::hash_ttl::named_fields(old(s)@, key@, fs.to_set());
    assert(!named.contains(g) || g == f);
    if old(s)@.ttls.dom().contains(key@) && g != f && old(s)@.ttls[key@].dom().contains(g) {
        assert(old(s)@.ttls[key@].remove_keys(named).dom().contains(g));
    }
}

/// A listing of fields and values tells each field right before its value.
pub proof fn lemma_hgetall(
    s: &mut Store,
    key: &[u8],
    r: Result<Vec<Vec<u8>>, StoreError>,
    h: Map<Seq<u8>, Seq<u8>>,
    i: int,
)
    requires
        call_ensures(Store::hgetall, (s, key), r),
        holds(*old(s), key@, Val::Hash(h)),
        none_past(*old(s), key@),
    ensures
        r matches Ok(v) && v@.len() == 2 * h.dom().len() && (0 <= i < h.dom().len()
            ==> h.dom().contains(v@[2 * i]@) && h[v@[2 * i]@] == v@[2 * i + 1]@),
        final(s)@ == old(s)@,
{
    lemma_none_past(*old(s), key@);
    let v = r->Ok_0;
    let d = crate::bytes::deep(v@);
    let x = final(s).held(key@);
    assert(d.len() == v@.len());
    if 0 <= i < h.dom().len() {
        assert((2 * i) / 2 == i && (2 * i + 1) / 2 == i);
        assert(d[2 * i] == v@[2 * i]@ && d[2 * i + 1] == v@[2 * i + 1]@);
        assert(x.listing()[i].0 == x.field_order()[i]);
        assert(x.field_order().to_set().contains(x.field_order()[i]));
    }
}

} // verus!
