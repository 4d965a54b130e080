//! Commands on keys of any kind.
use vstd::prelude::*;
use crate::store::Store;
use crate::types::RenameOutcome;
use crate::value::Val;
use super::others_kept;

verus! {

/// Whether a key is there at a time.
pub open spec fn there(s: Store, k: Seq<u8>, t: u64) -> bool {
    s@.slots.dom().contains(k) && (s@.slots[k].expire matches Some(d) ==> t < d)
}

/// A key that is there gets a deadline as far off as it is told; its value
/// stays. A key that is not there gets none.
pub proof fn lemma_expire(s: &mut Store, key: &[u8], ttl: u64, r: bool)
    requires
        call_ensures(Store::expire, (s, key, ttl), r),
        0 < old(s)@.now + ttl <= u64::MAX,
    ensures
        r == there(*old(s), key@, old(s)@.now),
        r ==> final(s)@.slots[key@].expire == Some((old(s)@.now + ttl) as u64)
            && final(s)@.slots[key@].value == old(s)@.slots[key@].value,
        !r ==> !final(s)@.slots.dom().contains(key@),
        others_kept(*old(s), *final(s), key@),
{
}

/// A key is given a deadline in wall time: it is as far off as that is from
/// the wall clock, and a time that has come takes the key at once.
pub proof fn lemma_expire_at(s: &mut Store, key: &[u8], at: u64, r: bool)
    requires
        call_ensures(Store::expire_at_unix_ms, (s, key, at), r),
        at > old(s)@.wall ==> 0 < old(s)@.now + (at - old(s)@.wall) * 1_000_000 <= u64::MAX,
    ensures
        r == there(*old(s), key@, old(s)@.now),
        r && at > old(s)@.wall ==> final(s)@.slots[key@].expire == Some(
            (old(s)@.now + (at - old(s)@.wall) * 1_000_000) as u64,
        ) && final(s)@.slots[key@].value == old(s)@.slots[key@].value,
        at <= old(s)@.wall ==> !final(s)@.slots.dom().contains(key@),
        others_kept(*old(s), *final(s), key@),
{
}

/// A key that is there loses its deadline, which is told; its value stays.
pub proof fn lemma_persist(s: &mut Store, key: &[u8], r: bool)
    requires
        call_ensures(Store::persist, (s, key), r),
    ensures
        r <==> there(*old(s), key@, old(s)@.now) && old(s)@.slots[key@].expire is Some,
        there(*old(s), key@, old(s)@.now) ==> final(s)@.slots.dom().contains(key@)
            && final(s)@.slots[key@].expire is None && final(s)@.slots[key@].value
            == old(s)@.slots[key@].value,
        others_kept(*old(s), *final(s), key@),
{
}

/// How long a key has left: whole milliseconds to its deadline, -1 where it
/// has none, -2 where it is not there.
pub proof fn lemma_pttl(s: &mut Store, key: &[u8], r: i64)
    requires
        call_ensures(Store::pttl, (s, key), r),
    ensures
        !there(*old(s), key@, old(s)@.now) ==> r == -2,
        there(*old(s), key@, old(s)@.now) ==> match old(s)@.slots[key@].expire {
            None => r == -1,
            Some(d) => r * 1_000_000 <= d - old(s)@.now < (r + 1) * 1_000_000,
        },
        there(*old(s), key@, old(s)@.now) ==> final(s)@ == old(s)@,
{
}

/// A key that is asked for is there just until its deadline.
pub proof fn lemma_key_exists(s: &mut Store, key: &[u8], r: bool)
    requires
        call_ensures(Store::key_exists, (s, key), r),
    ensures
        r == there(*old(s), key@, old(s)@.now),
        final(s)@.slots.dom().contains(key@) == r,
        others_kept(*old(s), *final(s), key@),
{
}

/// Deleting one key takes it, tells whether it was there, and takes no other.
pub proof fn lemma_del(s: &mut Store, keys: &[&[u8]], r: usize)
    requires
        call_ensures(Store::del, (s, keys), r),
        keys@.len() == 1,
    ensures
        r == (if there(*old(s), keys@[0]@, old(s)@.now) {
            1int
        } else {
            0
        }),
        !final(s)@.slots.dom().contains(keys@[0]@),
        others_kept(*old(s), *final(s), keys@[0]@),
{
    let ks = crate::store::lists::referred(keys@);
    let k = keys@[0]@;
    assert(ks =~= seq![k]);
    assert(ks.drop_last() =~= Seq::empty());
    assert(ks.last() == k);
    crate::laws::keys::lemma_delete(old(s)@, ks, k);
    assert(ks[0] == k);
    assert forall|o: Seq<u8>| o != k implies final(s)@.slots.dom().contains(o)
        == old(s)@.slots.dom().contains(o) && final(s)@.slots[o] == old(s)@.slots[o] by {
        crate::laws::keys::lemma_delete(old(s)@, ks, o);
        assert(!ks.contains(o));
        reveal_with_fuel(crate::store::keyspace::deleted, 2);
    }
    reveal_with_fuel(crate::store::keyspace::deleted_count, 2);
    reveal_with_fuel(crate::store::keyspace::deleted, 2);
}

/// A key that is renamed takes its value and its deadline along; what the new
/// name held is gone.
pub proof fn lemma_rename(s: &mut Store, src: &[u8], dst: &[u8], nx: bool, r: RenameOutcome)
    requires
        call_ensures(Store::rename, (s, src, dst, nx), r),
    ensures
        r is Renamed && src@ != dst@ ==> final(s)@.slots[dst@] == old(s)@.slots[src@]
            && final(s)@.slots.dom().contains(dst@) && !final(s)@.slots.dom().contains(src@),
        !there(*old(s), src@, old(s)@.now) <==> r is NoSuchSrc,
        r is DstExists ==> nx && (src@ == dst@ || there(*old(s), dst@, old(s)@.now)),
        r is Renamed && nx ==> src@ != dst@ && !there(*old(s), dst@, old(s)@.now),
        forall|k: Seq<u8>|
            #![trigger final(s)@.slots[k]]
            k != src@ && k != dst@ ==> final(s)@.slots[k] == old(s)@.slots[k]
                && final(s)@.slots.dom().contains(k) == old(s)@.slots.dom().contains(k),
{
}

/// A value that is taken with its time to live leaves its key, and tells how
/// long it had.
pub proof fn lemma_take(
    s: &mut Store,
    key: &[u8],
    r: Result<Option<(crate::value::Value, Option<u64>)>, crate::types::StoreError>,
)
    requires
        call_ensures(Store::take_with_ttl, (s, key), r),
        !(old(s)@.slots[key@].value is Cold),
    ensures
        there(*old(s), key@, old(s)@.now) <==> (r matches Ok(Some(_x))),
        r matches Ok(Some((v, ttl))) ==> v@ == old(s)@.slots[key@].value && (ttl is None
            <==> old(s)@.slots[key@].expire is None) && (ttl matches Some(ms) ==> ms * 1_000_000
            <= old(s)@.slots[key@].expire->Some_0 - old(s)@.now),
        !final(s)@.slots.dom().contains(key@),
        others_kept(*old(s), *final(s), key@),
{
}

/// A key tells the name of its type, and "none" where it is not there.
pub proof fn lemma_type_of(s: &mut Store, key: &[u8], r: &'static str)
    requires
        call_ensures(Store::type_of, (s, key), r),
    ensures
        there(*old(s), key@, old(s)@.now) ==> r@ == crate::value::kind_name_spec(
            old(s)@.slots[key@].value,
        ) && final(s)@ == old(s)@,
        !there(*old(s), key@, old(s)@.now) ==> r@ == "none"@,
{
}

/// A value that is put under a key is there, with as much time as it is
/// given, and nothing is left of what was there before.
pub proof fn lemma_put(
    s: &mut Store,
    key: Vec<u8>,
    value: crate::value::Value,
    ttl: Option<u64>,
)
    requires
        call_ensures(Store::put_with_ttl, (s, key, value, ttl), ()),
        ttl matches Some(ms) ==> 0 < old(s)@.now + ms * 1_000_000 <= u64::MAX,
    ensures
        final(s)@.slots.dom().contains(key@),
        final(s)@.slots[key@].value == value@,
        final(s)@.slots[key@].expire == (match ttl {
            Some(ms) => Some((old(s)@.now + ms * 1_000_000) as u64),
            None => None,
        }),
        !final(s)@.ttls.dom().contains(key@),
        others_kept(*old(s), *final(s), key@),
{
}

/// What is loaded is there as it was written.
pub proof fn lemma_load_str(s: &mut Store, key: Vec<u8>, value: Vec<u8>, ttl: Option<u64>)
    requires
        call_ensures(Store::load_str, (s, key, value, ttl), ()),
    ensures
        final(s)@.slots[key@].value == Val::Str(value@),
        ttl is None ==> final(s)@.slots[key@].expire is None,
        others_kept(*old(s), *final(s), key@),
{
}

/// A list that is loaded has its elements in their order.
pub proof fn lemma_load_list(s: &mut Store, key: Vec<u8>, items: Vec<Vec<u8>>, ttl: Option<u64>)
    requires
        call_ensures(Store::load_list, (s, key, items, ttl), ()),
    ensures
        final(s)@.slots[key@].value matches Val::List(l) && l.len() == items@.len() && forall|i: int|

            0 <= i < l.len() ==> l[i] == (#[trigger] items@[i])@,
        others_kept(*old(s), *final(s), key@),
{
}

/// How many keys there are, and which, is told of all that are held.
pub proof fn lemma_all_keys(s: &Store, r: Vec<Vec<u8>>, n: usize, k: Seq<u8>)
    requires
        call_ensures(Store::all_keys, (s,), r),
        call_ensures(Store::dbsize, (s,), n),
    ensures
        n == r@.len(),
        s@.slots.dom().contains(k) <==> exists|i: int| 0 <= i < r@.len() && (#[trigger] r@[i])@ == k,
{
    let d = crate::bytes::deep(r@);
    assert(d.len() == r@.len());
    assert(r.len() == r@.len());
    if s@.slots.dom().contains(k) {
        assert(d.to_set().contains(k));
        let i = choose|i: int| 0 <= i < d.len() && d[i] == k;
        assert(r@[i]@ == k);
    }
    if exists|i: int| 0 <= i < r@.len() && (#[trigger] r@[i])@ == k {
        let i = choose|i: int| 0 <= i < r@.len() && (#[trigger] r@[i])@ == k;
        assert(d[i] == k);
        assert(d.to_set().contains(k));
    }
}

/// A listing by pattern has just the keys that are there and match.
pub proof fn lemma_collect(s: &Store, pattern: &[u8], r: Vec<Vec<u8>>, k: Seq<u8>)
    requires
        call_ensures(Store::collect_keys, (s, Some(pattern), None::<usize>), r),
        s.wf(),
    ensures
        there(*s, k, s@.now) && crate::text::glob_matches(pattern@, k) <==> exists|i: int|
            0 <= i < r@.len() && (#[trigger] r@[i])@ == k,
{
    let d = crate::bytes::deep(r@);
    assert(d.len() == r@.len());
    s.lemma_key_order();
    crate::store::walk::lemma_wanted_keys(s@, Some(pattern@), s.key_order());
    assert(d.contains(k) <==> crate::store::walk::wanted(s@, Some(pattern@), k));
    if d.contains(k) {
        let i = choose|i: int| 0 <= i < d.len() && d[i] == k;
        assert(r@[i]@ == k);
    }
    if exists|i: int| 0 <= i < r@.len() && (#[trigger] r@[i])@ == k {
        let i = choose|i: int| 0 <= i < r@.len() && (#[trigger] r@[i])@ == k;
        assert(d[i] == k);
    }
}

/// Keys under a prefix are counted, and those of them that have deadlines.
pub proof fn lemma_prefix_stats(s: &Store, prefix: &[u8], r: (u64, u64))
    requires
        call_ensures(Store::prefix_stats, (s, prefix), r),
        s.wf(),
        s@.slots.dom().len() <= u64::MAX,
    ensures
        r.0 == s@.slots.dom().filter(
            |k: Seq<u8>|
                there(*s, k, s@.now) && prefix@.len() <= k.len() && k.take(prefix@.len() as int)
                    == prefix@,
        ).len(),
        r.1 <= r.0,
{
    s.lemma_key_order();
    let all = crate::store::walk::live_under(s@, prefix@);
    let f = |k: Seq<u8>|
        there(*s, k, s@.now) && prefix@.len() <= k.len() && k.take(prefix@.len() as int) == prefix@;
    assert(all =~= s@.slots.dom().filter(f));
    vstd::set_lib::lemma_len_subset(all, s@.slots.dom());
    vstd::set_lib::lemma_len_subset(crate::store::walk::dated_under(s@, prefix@), all);
}

/// One key that is asked for is there, or is not.
pub proof fn lemma_exists(s: &mut Store, keys: &[&[u8]], r: usize)
    requires
        call_ensures(Store::exists_keys, (s, keys), r),
        keys@.len() == 1,
    ensures
        r == (if there(*old(s), keys@[0]@, super::lookup_time(*old(s))) {
            1int
        } else {
            0
        }),
{
    let ks = crate::store::lists::referred(keys@);
    assert(ks.drop_last() =~= Seq::empty());
    assert(ks.last() == keys@[0]@);
    reveal_with_fuel(crate::store::keyspace::live_count, 2);
}

/// A page that starts at cursor 0 and ends the scan has every key that is
/// there; a key that is not has no page.
pub proof fn lemma_whole_scan(s: &Store, count: usize, r: (u64, Vec<Vec<u8>>, usize), k: Seq<u8>)
    requires
        call_ensures(Store::scan_page, (s, 0u64, count, None::<&[u8]>, None::<&[u8]>), r),
    ensures
        r.0 == 0 && there(*s, k, s@.now) ==> exists|i: int|
            0 <= i < r.1@.len() && (#[trigger] r.1@[i])@ == k,
        (exists|i: int| 0 <= i < r.1@.len() && (#[trigger] r.1@[i])@ == k) ==> there(
            *s,
            k,
            s@.now,
        ),
{
    let d = crate::bytes::deep(r.1@);
    assert(d.len() == r.1@.len());
    if r.0 == 0 && there(*s, k, s@.now) {
        assert(crate::store::scan::page_wants(s@, None, None, k));
        assert(d.contains(k));
        let i = choose|i: int| 0 <= i < d.len() && d[i] == k;
        assert(r.1@[i]@ == k);
    }
    if exists|i: int| 0 <= i < r.1@.len() && (#[trigger] r.1@[i])@ == k {
        let i = choose|i: int| 0 <= i < r.1@.len() && (#[trigger] r.1@[i])@ == k;
        assert(d[i] == k);
        assert(d.contains(k));
    }
}

/// A snapshot tells every key that is there, with its value, and how long it
/// has left.
pub proof fn lemma_snapshot(
    s: &Store,
    r: Vec<crate::store::snapshot::SnapshotEntry>,
    k: Seq<u8>,
    i: int,
)
    requires
        call_ensures(Store::snapshot_each, (s,), r),
        s.wf(),
    ensures
        there(*s, k, s@.now) ==> exists|j: int| 0 <= j < r@.len() && (#[trigger] r@[j]).0@ == k,
        0 <= i < r@.len() ==> there(*s, r@[i].0@, s@.now) && r@[i].1@ == s@.slots[r@[i].0@].value
            && (r@[i].2 is None <==> s@.slots[r@[i].0@].expire is None),
{
    let f = crate::store::snapshot::frozen(r@);
    let live = crate::store::walk::wanted_keys(s@, None, s.key_order());
    s.lemma_key_order();
    crate::store::walk::lemma_wanted_keys(s@, None, s.key_order());
    assert(f.len() == r@.len() && f.len() == live.len());
    if there(*s, k, s@.now) {
        assert(crate::store::walk::wanted(s@, None, k));
        let j = choose|j: int| 0 <= j < live.len() && live[j] == k;
        assert(f[j].key == k);
        assert(r@[j].0@ == k);
    }
    if 0 <= i < r@.len() {
        assert(f[i].key == r@[i].0@ && f[i].key == live[i]);
        assert(live.contains(live[i]));
        assert(crate::store::walk::wanted(s@, None, live[i]));
    }
}

} // verus!
