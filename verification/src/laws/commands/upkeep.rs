//! Clocks, limits, notes, sweeps, and values out of memory.
use vstd::prelude::*;
use crate::cold::{ColdRef, RecordRef};
use crate::store::expire::ExpireStats;
use crate::store::Store;
use crate::types::StoreError;
use crate::value::Val;
use super::keys::there;
use super::others_kept;

verus! {

/// A write is refused just where more is in use than may be, there is such a
/// limit, and nothing may be evicted.
pub proof fn lemma_precheck(s: &Store, r: Result<(), StoreError>)
    requires
        call_ensures(Store::precheck_for_write, (s,), r),
    ensures
        r is Err <==> s@.limit > 0 && s.used() > s@.limit && s@.policy is NoEviction,
        r matches Err(e) ==> e == StoreError::OutOfMemory,
{
}

/// A version that was recorded tells of a change: it is the key's until the
/// key is changed, and another right behind that.
pub proof fn lemma_watch(s: &mut Store, key: &[u8], r: u64)
    requires
        call_ensures(Store::record_watch, (s, key), r),
    ensures
        final(s)@.watch.dom().contains(key@),
        final(s)@.watch[key@] == r,
        old(s)@.watch.dom().contains(key@) ==> r == old(s)@.watch[key@],
        !old(s)@.watch.dom().contains(key@) ==> r == 0,
        final(s)@.slots == old(s)@.slots,
{
}

/// A change moves the version of a key that is watched.
pub proof fn lemma_bump(s: &mut Store, key: &[u8], other: Seq<u8>)
    requires
        call_ensures(Store::bump_if_watched, (s, key), ()),
    ensures
        old(s)@.watch.dom().contains(key@) ==> final(s)@.watch[key@] != old(s)@.watch[key@],
        other != key@ ==> final(s)@.watch[other] == old(s)@.watch[other],
        final(s)@.watch.dom() == old(s)@.watch.dom(),
        final(s)@.slots == old(s)@.slots,
{
    assert(final(s)@.watch.dom() =~= old(s)@.watch.dom());
}

/// A flush leaves nothing, and no memory in use.
pub proof fn lemma_flush(s: &mut Store)
    requires
        call_ensures(Store::flush, (s,), ()),
    ensures
        forall|k: Seq<u8>| !#[trigger] final(s)@.slots.dom().contains(k),
        final(s).used() == 0,
        final(s)@.limit == old(s)@.limit,
{
}

/// While reads go by the cached clock they see the time at which it was
/// refreshed.
pub proof fn lemma_cached_clock(s: &mut Store, on: bool)
    requires
        call_ensures(Store::set_cached_clock, (s, on), ()),
    ensures
        final(s)@.use_cached == on,
        super::lookup_time(*final(s)) == old(s)@.now,
        final(s)@.slots == old(s)@.slots,
{
}

/// The notes of keys that expired are handed over in order and forgotten.
pub proof fn lemma_take_expired(s: &mut Store, r: Vec<Vec<u8>>)
    requires
        call_ensures(Store::take_expired_keys, (s,), r),
    ensures
        r@.len() == old(s)@.expired.len(),
        forall|i: int| 0 <= i < r@.len() ==> (#[trigger] r@[i])@ == old(s)@.expired[i],
        final(s)@.expired.len() == 0,
        final(s)@.slots == old(s)@.slots,
        final(s)@.events == old(s)@.events,
{
    assert(crate::bytes::deep(r@).len() == r@.len());
    assert forall|i: int| 0 <= i < r@.len() implies (#[trigger] r@[i])@ == old(s)@.expired[i] by {
        assert(crate::bytes::deep(r@)[i] == r@[i]@);
    }
}

/// A sweep leaves every key whose deadline has not come as it is.
pub proof fn lemma_tick_expire(
    s: &mut Store,
    samples: usize,
    rounds: u32,
    r: ExpireStats,
    k: Seq<u8>,
)
    requires
        call_ensures(Store::tick_expire, (s, samples, rounds), r),
        there(*old(s), k, old(s)@.now),
    ensures
        final(s)@.slots.dom().contains(k),
        final(s)@.slots[k] == old(s)@.slots[k],
        r.rounds <= rounds,
{
    let m = crate::store::StoreModel { cached: old(s)@.now, ..old(s)@ };
    if samples == 0 || rounds == 0 || m.slots == Map::<Seq<u8>, crate::entry::Slot>::empty() {
    } else {
        let states = choose|states: Seq<Store>| #[trigger]
            crate::store::expire::sweep_run(states, samples as nat, rounds as nat, r)
                && states.first().became(*old(s), m) && states.first().kept_all(*old(s))
                && states.last() == *final(s);
        let all = crate::store::expire::samples_seen(states, samples as nat);
        crate::store::expire::lemma_sweep_spares(m, all, k);
        assert(states[states.len() - 1]@ == crate::store::expire::after_rounds(
            m,
            all.take(states.len() - 1),
        ));
        assert(all.take(states.len() - 1) =~= all);
    }
}

/// Every run of a tick that passes brings the next one nearer, and a run is
/// due just when none is left to pass.
pub proof fn lemma_tick_due(s: &mut Store, r: bool)
    requires
        call_ensures(Store::tick_due, (s,), r),
        old(s)@.tier is Some,
    ensures
        final(s)@.tier is Some,
        r <==> old(s)@.tier->Some_0.tick_wait == 0,
        !r ==> final(s)@.tier->Some_0.tick_wait + 1 == old(s)@.tier->Some_0.tick_wait,
        r ==> final(s)@ == old(s)@,
        final(s)@.tier->Some_0.tick_skip == old(s)@.tier->Some_0.tick_skip,
        final(s)@.slots == old(s)@.slots,
{
}

/// Only a run that was wanted and moved nothing makes ticks pass.
pub proof fn lemma_tick_done(s: &mut Store, wanted: bool, moved: usize)
    requires
        call_ensures(Store::tick_done, (s, wanted, moved), ()),
        old(s)@.tier is Some,
    ensures
        !wanted || moved > 0 ==> final(s)@ == old(s)@,
        wanted && moved == 0 ==> final(s)@.tier is Some && final(s)@.tier->Some_0.tick_wait > 0,
        final(s)@.slots == old(s)@.slots,
{
}

/// A record that moved in the spill log is found where it went, by a stub
/// that named its old place; any other stub stays.
pub proof fn lemma_record_moved(
    s: &mut Store,
    key: &[u8],
    was: RecordRef,
    is: RecordRef,
    r: bool,
    c: ColdRef,
)
    requires
        call_ensures(Store::record_moved, (s, key, was, is), r),
        old(s)@.slots.dom().contains(key@),
        old(s)@.slots[key@].value == Val::Cold(c),
    ensures
        r <==> !c.segmented && c.rec.file_id == was.file_id && c.rec.offset == was.offset,
        r ==> (final(s)@.slots[key@].value matches Val::Cold(d) && d.rec == is && d.kind == c.kind
            && d.weight == c.weight && d.touched == c.touched && !d.segmented),
        !r ==> final(s)@ == old(s)@,
        final(s)@.slots[key@].expire == old(s)@.slots[key@].expire,
        others_kept(*old(s), *final(s), key@),
{
}

/// A limit on memory that is not passed, or a policy that evicts nothing,
/// makes no key go.
pub proof fn lemma_no_eviction(s: &mut Store, r: usize)
    requires
        call_ensures(Store::try_evict_after_write, (s,), r),
        old(s)@.limit == 0 || old(s).used() <= old(s)@.limit || old(s)@.policy is NoEviction,
    ensures
        r == 0,
        final(s)@ == old(s)@,
{
}

/// Under a policy for keys with deadlines, a key without one is never evicted.
pub proof fn lemma_eviction_spares(s: &mut Store, r: usize, k: Seq<u8>)
    requires
        call_ensures(Store::evict_until_under_limit, (s,), r),
        old(s)@.policy is VolatileLru || old(s)@.policy is VolatileLfu
            || old(s)@.policy is VolatileRandom || old(s)@.policy is VolatileTtl,
        old(s)@.slots.dom().contains(k),
        old(s)@.slots[k].expire is None,
    ensures
        final(s)@.slots.dom().contains(k),
        final(s)@.slots[k] == old(s)@.slots[k],
{
    let (states, victims) = choose|states: Seq<Store>, victims: Seq<Seq<u8>>| #[trigger]
        crate::store::evicting::eviction_run(states, victims) && states.first() == *old(s)
            && states.last() == *final(s) && victims.len() == r;
    crate::store::evicting::lemma_volatile_spares(old(s)@, victims, k);
}

/// A value that moves out leaves a stub of its kind for its record, and its
/// deadline; one that may not move stays.
pub proof fn lemma_demote(s: &mut Store, key: &[u8], rec: RecordRef, r: bool)
    requires
        call_ensures(Store::demote_in_place, (s, key, rec), r),
    ensures
        r ==> there(*old(s), key@, super::lookup_time(*old(s))) && (
        final(s)@.slots[key@].value matches Val::Cold(c) && c.rec == rec && !c.segmented
            && !c.touched) && final(s)@.slots[key@].expire == old(s)@.slots[key@].expire,
        !r ==> final(s)@ == old(s)@,
        old(s)@.tier is None ==> !r,
        final(s)@.ttls == old(s)@.ttls,
        others_kept(*old(s), *final(s), key@),
{
}

/// A string that comes back is the bytes of its record, with the deadline
/// that it had; a value in memory stays.
pub proof fn lemma_promote(
    s: &mut Store,
    key: &[u8],
    payload: Vec<u8>,
    r: Result<bool, crate::tier_codec::CodecError>,
    c: ColdRef,
)
    requires
        call_ensures(Store::promote_in_place, (s, key, payload), r),
        old(s)@.slots.dom().contains(key@),
    ensures
        old(s)@.slots[key@].value == Val::Cold(c) && c.kind is Str ==> r == Ok::<
            bool,
            crate::tier_codec::CodecError,
        >(true) && final(s)@.slots[key@].value == Val::Str(payload@),
        !(old(s)@.slots[key@].value is Cold) ==> r == Ok::<bool, crate::tier_codec::CodecError>(
            false,
        ) && final(s)@ == old(s)@,
        r is Err ==> final(s)@ == old(s)@,
        final(s)@.slots[key@].expire == old(s)@.slots[key@].expire,
        final(s)@.ttls == old(s)@.ttls,
        others_kept(*old(s), *final(s), key@),
{
}

/// Values start to move with nothing counted and no pause.
pub proof fn lemma_enable_tiering(s: &mut Store, budget: u64)
    requires
        call_ensures(Store::enable_tiering, (s, budget), ()),
    ensures
        final(s)@.tier matches Some(t) && t.budget == budget && t.demotions == 0 && t.promotions
            == 0 && t.reserved == 0 && t.max_spill == 0 && t.tick_wait == 0,
        final(s)@.slots == old(s)@.slots,
{
}

/// A row that moves into a segment leaves a stub for it, and its deadline.
pub proof fn lemma_row_demoted(s: &mut Store, key: &[u8], seq: u32, r: bool)
    requires
        call_ensures(Store::demote_row_to_seg, (s, key, seq), r),
    ensures
        r ==> (final(s)@.slots[key@].value matches Val::Cold(c) && c.segmented && c.rec.file_id
            == seq) && final(s)@.slots[key@].expire == old(s)@.slots[key@].expire,
        !r ==> final(s)@ == old(s)@,
        final(s).used() <= old(s).used(),
        others_kept(*old(s), *final(s), key@),
{
}

/// A sealed segment is listed behind the others, and its number is not given
/// out again.
pub proof fn lemma_segment_sealed(s: &mut Store, sealed: &crate::segrows::SealedRows)
    requires
        call_ensures(Store::segment_sealed, (s, sealed), ()),
        old(s)@.segs is Some,
    ensures
        final(s)@.segs is Some,
        final(s)@.segs->Some_0.files == old(s)@.segs->Some_0.files.push(
            (sealed.seq, sealed.file@),
        ),
        final(s)@.segs->Some_0.next == old(s)@.segs->Some_0.next,
        final(s)@.slots == old(s)@.slots,
{
}

/// A swept segment is one that no key's row lies in.
pub proof fn lemma_sweep_segments(
    s: &mut Store,
    r: Vec<Vec<u8>>,
    x: (u32, Seq<u8>),
    k: Seq<u8>,
    c: ColdRef,
)
    requires
        call_ensures(Store::sweep_orphan_row_segs, (s,), r),
        old(s)@.segs is Some,
        old(s)@.segs->Some_0.files.contains(x),
        old(s)@.slots.dom().contains(k),
        old(s)@.slots[k].value == Val::Cold(c),
        c.segmented,
        c.rec.file_id == x.0,
    ensures
        final(s)@.segs is Some,
        final(s)@.segs->Some_0.files.contains(x),
        final(s)@.segs->Some_0.next == old(s)@.segs->Some_0.next,
        final(s)@.slots == old(s)@.slots,
{
    crate::laws::segments::lemma_stay_or_orphan(old(s)@, old(s)@.segs->Some_0.files, x);
    assert(crate::store::tiering::stub_at(old(s)@, k) == Some(c));
}

/// Rows that are sealed come in the order of their keys, without any that has
/// a deadline, and the segment gets a number that none had.
pub proof fn lemma_seal(
    s: &mut Store,
    table: &[u8],
    keys: &[&[u8]],
    r: Option<(crate::segrows::SealedRows, Vec<(Vec<u8>, Vec<u8>)>)>,
    i: int,
    j: int,
)
    requires
        call_ensures(Store::seal_rows_to_seg, (s, table, keys), r),
        old(s)@.segs is Some,
        old(s)@.segs->Some_0.next < u32::MAX,
        r is Some,
    ensures
        r->Some_0.0.seq == old(s)@.segs->Some_0.next,
        final(s)@.segs is Some,
        final(s)@.segs->Some_0.next == old(s)@.segs->Some_0.next + 1,
        final(s)@.segs->Some_0.files == old(s)@.segs->Some_0.files,
        0 <= i < r->Some_0.1@.len() ==> old(s)@.slots[r->Some_0.1@[i].0@].expire is None
            && !old(s)@.ttls.dom().contains(r->Some_0.1@[i].0@),
        0 <= i <= j < r->Some_0.1@.len() ==> !crate::segrows::lex_before(
            r->Some_0.1@[j].0@,
            r->Some_0.1@[i].0@,
        ),
{
    let rows = r->Some_0.1@;
    let ps = crate::bytes::deep_pairs(rows);
    assert(ps.len() == rows.len());
    if 0 <= i < rows.len() {
        assert(ps[i] == (rows[i].0@, rows[i].1@));
    }
    if 0 <= i <= j < rows.len() {
        assert(ps[j] == (rows[j].0@, rows[j].1@));
        assert(!crate::segrows::lex_before(ps[j].0, ps[i].0));
    }
}

/// A tick for fields removes those whose deadlines have come, of as many keys
/// as it may look after.
pub proof fn lemma_tick_fields(
    s: &mut Store,
    max: usize,
    r: Vec<(Vec<u8>, Vec<Vec<u8>>)>,
    i: int,
    f: Seq<u8>,
)
    requires
        call_ensures(Store::tick_hash_ttl, (s, max), r),
        0 <= i < r@.len(),
        crate::bytes::deep(r@[i].1@).contains(f),
    ensures
        r@.len() <= max,
        super::hashes::field_ends(*old(s), r@[i].0@, f) matches Some(d) && d <= old(s)@.wall,
{
    let d = crate::bytes::deep(r@[i].1@);
    assert(d.to_set().contains(f));
    assert(crate::store::hash_ttl::swept_keys(r@).len() == r@.len());
}

} // verus!
