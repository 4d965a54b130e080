//! Values out of memory: when runs move them, what an access does, and the
//! records that they leave.
use vstd::prelude::*;
use crate::cold::{cold_count, logged_at, Backing, ColdKind, ColdRef, RecordRef};
use crate::entry::Slot;
use crate::store::evicting::{fits, Purpose};
use crate::store::hash_ttl::fields_past;
use crate::store::tiering::{
    cold_next, demoted, dried, in_file, late_keys, promoted, spill_record, stub_at, value_weight,
    Access, ColdStep,
};
use crate::store::{key_live, read_now, Store, StoreModel};
use crate::tier::{blocked_spec, compact_due, next_skip, target_spec, watermark_spec, SpillRun, TierState};
use crate::tier_codec::{chunk_at, hash_record, pairs_at, parsed, word_at, written, CodecError};
use crate::types::StoreError;
use crate::value::{Val, Value};

verus! {

/// Runs aim at 95 of 100 bytes of the budget, less what cannot be made free:
/// together these are the watermark, unless there is no room at all.
pub proof fn lemma_aim(t: TierState, stubs: u64)
    requires
        t.budget * 19 <= u64::MAX,
    ensures
        ({
            let w = watermark_spec(t.budget) as int;
            &&& 100 * w <= 95 * t.budget < 100 * w + 100
            &&& w > t.reserved + stubs ==> target_spec(t, stubs) + t.reserved + stubs == w
            &&& w <= t.reserved + stubs ==> target_spec(t, stubs) == 0
        }),
{
}

/// There is no room for more just if what cannot be made free comes to the
/// watermark; what is refused stays refused when more is asked for.
pub proof fn lemma_no_room(t: TierState, stubs: u64, extra: u64, more: u64)
    requires
        extra <= more,
    ensures
        blocked_spec(t, stubs, extra) <==> watermark_spec(t.budget) <= t.reserved + stubs + extra,
        blocked_spec(t, stubs, extra) ==> blocked_spec(t, stubs, more),
{
}

/// A run goes on until 32 values have moved, or 3 in a row were kept back.
pub proof fn lemma_run_goes_on(r: SpillRun)
    ensures
        r.open() <==> r.demoted <= 31 && r.misses <= 2,
{
}

/// A file of the spill log is rewritten just if less than half of it is still
/// needed.
pub proof fn lemma_rewrite(live: u64, total: u64, r: bool)
    requires
        call_ensures(compact_due, (live, total), r),
    ensures
        r <==> 2 * live < total,
{
}

/// A run that is told of a move or a miss comes nearer to its end each time,
/// so that it ends after 96 of them at the latest.
pub proof fn lemma_run_ends(run: &mut SpillRun, moved: bool)
    requires
        old(run).demoted <= 31,
        old(run).misses <= 2,
        call_ensures(SpillRun::note, (run, moved), ()),
    ensures
        3 * old(run).demoted + old(run).misses < 3 * final(run).demoted + final(run).misses <= 96,
        moved ==> final(run).demoted == old(run).demoted + 1 && final(run).misses == 0,
        !moved ==> final(run).demoted == old(run).demoted && final(run).misses == old(run).misses
            + 1,
{
}

/// Each dry run makes twice as many ticks pass as the one before it, from 1
/// up to 512, and changes no key.
pub proof fn lemma_dry_runs(skip: u32, s: StoreModel)
    requires
        s.tier matches Some(t) && t.tick_skip == skip,
    ensures
        skip == 0 ==> next_skip(skip) == 1,
        0 < skip <= 256 ==> next_skip(skip) == skip + skip,
        256 <= skip ==> next_skip(skip) == 512,
        dried(s).slots == s.slots,
        dried(s).tier matches Some(t) && t.tick_wait == t.tick_skip && t.tick_wait == next_skip(
            skip,
        ),
{
}

/// An access for a value that is out of memory: a change always puts it back,
/// a read does so if it was read before, and a sweep never does. What is of
/// another kind is refused, and what is in memory needs nothing.
pub proof fn lemma_access(
    s: StoreModel,
    key: Seq<u8>,
    c: ColdRef,
    want: ColdKind,
    access: Access,
)
    requires
        stub_at(s, key) == Some(c),
        key_live(s, key, read_now(s)),
    ensures
        c.kind != want ==> cold_next(s, key, want, access).0 == Err::<ColdStep, StoreError>(
            StoreError::WrongType,
        ),
        c.kind == want && access is Write ==> cold_next(s, key, want, access).0 == Ok::<
            ColdStep,
            StoreError,
        >(ColdStep::Promote(c)),
        c.kind == want && access is Read && c.touched ==> cold_next(s, key, want, access).0 == Ok::<
            ColdStep,
            StoreError,
        >(ColdStep::Promote(c)),
        c.kind == want && access is Peek && fields_past(s, key) == Set::<Seq<u8>>::empty()
            ==> cold_next(s, key, want, access).0 == Ok::<ColdStep, StoreError>(ColdStep::Serve(c))
            && cold_next(s, key, want, access).1.slots == s.slots,
        c.kind == want && access is Read && !c.touched && fields_past(s, key) == Set::<
            Seq<u8>,
        >::empty() ==> cold_next(s, key, want, access).0 == Ok::<ColdStep, StoreError>(
            ColdStep::Serve(c),
        ) && (stub_at(cold_next(s, key, want, access).1, key) matches Some(d) && d.touched
            && d.rec == c.rec && d.kind == c.kind && d.weight == c.weight),
        want is Hash && c.kind is Hash && fields_past(s, key) != Set::<Seq<u8>>::empty()
            ==> cold_next(s, key, want, access).0 == Ok::<ColdStep, StoreError>(
            ColdStep::Promote(c),
        ),
{
}

/// What is in memory, or not there at all, needs no record.
pub proof fn lemma_access_in_memory(s: StoreModel, key: Seq<u8>, want: ColdKind, access: Access)
    requires
        stub_at(s, key) is None || !key_live(s, key, read_now(s)),
    ensures
        cold_next(s, key, want, access).0 == Ok::<ColdStep, StoreError>(ColdStep::InMemory),
        cold_next(s, key, want, access).1.tier == s.tier,
{
}

/// Reads of the spill log are counted, sweeps apart too; reads of a segment
/// are not.
pub proof fn lemma_reads_counted(
    s: StoreModel,
    key: Seq<u8>,
    c: ColdRef,
    access: Access,
    t: TierState,
)
    requires
        stub_at(s, key) == Some(c),
        key_live(s, key, read_now(s)),
        s.tier == Some(t),
        t.preads < u64::MAX,
        t.peek_preads < u64::MAX,
        fields_past(s, key) == Set::<Seq<u8>>::empty(),
    ensures
        cold_next(s, key, c.kind, access).1.tier matches Some(u) && u.preads == t.preads + (
        if c.segmented {
            0int
        } else {
            1
        }) && u.peek_preads == t.peek_preads + (if access is Peek && !c.segmented {
            1int
        } else {
            0
        }),
{
}

/// A value may move just while its key is live and it is within the greatest
/// size, where 0 sets none; a long string leaves its bytes. Values kept
/// whole in memory, such as lists, never move.
pub proof fn lemma_may_move(s: Store, key: Seq<u8>, t: TierState)
    requires
        s@.tier == Some(t),
    ensures
        !key_live(s@, key, read_now(s@)) ==> spill_record(s, key) is None,
        t.max_spill > 0 && value_weight(s, key) > t.max_spill ==> spill_record(s, key) is None,
        key_live(s@, key, read_now(s@)) && (t.max_spill == 0 || value_weight(s, key)
            <= t.max_spill) ==> (s.held(key) matches Value::ArcBulk(a) ==> spill_record(s, key)
            == Some((a@, ColdKind::Str))),
        s.held(key) is List || s.held(key) is SegList || s.held(key) is FlatSet || s.held(
            key,
        ) is SegSet || s.held(key) is ZSet || s.held(key) is Stream || s.held(key) is Str
            || s.held(key) is Int || s.held(key) is Cold || s.held(key) is SegHash
            ==> spill_record(s, key) is None,
{
}

/// Keys to be moved out cost at least 64 bytes beside the flat rate, and hold
/// something that moves.
pub proof fn lemma_worth_moving(s: Store, k: Seq<u8>)
    ensures
        fits(s, Purpose::Spill, k) ==> s@.slots.dom().contains(k) && s.weights()[k] >= 96 + 64 && (
        s.held(k) is ArcBulk || s.held(k) is Hash || s.held(k) is SmallHashInline),
        s@.slots.dom().contains(k) && s.weights()[k] >= 160 && s.held(k) is ArcBulk ==> fits(
            s,
            Purpose::Spill,
            k,
        ),
{
}

/// Moving a value out or back leaves its deadline, the deadlines of its
/// fields and every other key; a move out is counted and ends the pause that
/// dry runs made.
pub proof fn lemma_moves(
    s: StoreModel,
    key: Seq<u8>,
    stub: ColdRef,
    v: Val,
    other: Seq<u8>,
    t: TierState,
)
    requires
        s.tier == Some(t),
        s.slots.dom().contains(key),
        t.demotions < u64::MAX,
        t.promotions < u64::MAX,
    ensures
        demoted(s, key, stub).slots[key] == (Slot {
            value: Val::Cold(stub),
            expire: s.slots[key].expire,
        }),
        promoted(s, key, v).slots[key] == (Slot { value: v, expire: s.slots[key].expire }),
        demoted(s, key, stub).slots.dom() == s.slots.dom(),
        promoted(s, key, v).slots.dom() == s.slots.dom(),
        other != key ==> demoted(s, key, stub).slots[other] == s.slots[other] && promoted(
            s,
            key,
            v,
        ).slots[other] == s.slots[other],
        demoted(s, key, stub).ttls == s.ttls,
        promoted(s, key, v).ttls == s.ttls,
        demoted(s, key, stub).tier matches Some(u) && u.demotions == t.demotions + 1 && u.tick_wait
            == 0 && u.tick_skip == 0 && u.promotions == t.promotions,
        promoted(s, key, v).tier matches Some(u) && u.promotions == t.promotions + 1
            && u.demotions == t.demotions,
{
    assert(demoted(s, key, stub).slots.dom() =~= s.slots.dom());
    assert(promoted(s, key, v).slots.dom() =~= s.slots.dom());
}

/// Listed for a file are just the keys whose records stand in it.
pub proof fn lemma_listed_for_file(
    s: StoreModel,
    keys: Seq<Seq<u8>>,
    file: u32,
    k: Seq<u8>,
    c: ColdRef,
)
    ensures
        in_file(s, keys, file).contains((k, c)) <==> keys.contains(k) && stub_at(s, k) == Some(c)
            && !c.segmented && c.rec.file_id == file,
    decreases keys.len(),
{
    if keys.len() > 0 {
        let d = keys.drop_last();
        lemma_listed_for_file(s, d, file, k, c);
        assert(keys =~= d.push(keys.last()));
        crate::value_set::lemma_push_contains(d, keys.last(), k);
        if let Some(e) = stub_at(s, keys.last()) {
            crate::value_set::lemma_push_contains(in_file(s, d, file), (keys.last(), e), (k, c));
        }
    }
}

/// Late are just the hashes out of memory that have a field whose deadline
/// has come.
pub proof fn lemma_late(s: StoreModel, keys: Seq<Seq<u8>>, k: Seq<u8>)
    ensures
        late_keys(s, keys).contains(k) <==> keys.contains(k) && (stub_at(s, k) matches Some(c)
            && c.kind is Hash) && exists|f: Seq<u8>|
            #![trigger s.ttls[k].dom().contains(f)]
            s.ttls.dom().contains(k) && s.ttls[k].dom().contains(f) && s.ttls[k][f] <= s.wall,
    decreases keys.len(),
{
    if keys.len() > 0 {
        let d = keys.drop_last();
        lemma_late(s, d, k);
        assert(keys =~= d.push(keys.last()));
        crate::value_set::lemma_push_contains(d, keys.last(), k);
        crate::value_set::lemma_push_contains(late_keys(s, d), keys.last(), k);
        let past = fields_past(s, k);
        if past != Set::<Seq<u8>>::empty() {
            let f = past.choose();
            assert(past.contains(f)) by {
                if forall|g: Seq<u8>| !past.contains(g) {
                    assert(past =~= Set::empty());
                }
            }
            assert(s.ttls[k].dom().contains(f));
        }
        assert forall|f: Seq<u8>|
            #![trigger s.ttls[k].dom().contains(f)]
            s.ttls.dom().contains(k) && s.ttls[k].dom().contains(f) && s.ttls[k][f]
                <= s.wall implies past != Set::<Seq<u8>>::empty() by {
            assert(past.contains(f));
        }
    }
}

/// How many keys are told to be out of memory is how many have a record in
/// the spill log.
pub proof fn lemma_cold_keys(m: Map<Seq<u8>, Slot>)
    requires
        m.dom().finite(),
    ensures
        cold_count(m) == m.dom().filter(
            |k: Seq<u8>| m[k].value matches Val::Cold(c) && !c.segmented,
        ).len(),
    decreases m.dom().len(),
{
    let p = |k: Seq<u8>| m[k].value matches Val::Cold(c) && !c.segmented;
    let here = m.dom().filter(p);
    m.dom().lemma_len_filter(p);
    if m.dom().len() == 0 {
        assert(m =~= Map::empty());
        assert(crate::cold::cold_marks(m) =~= Map::empty());
        crate::weigh::lemma_total_empty::<Seq<u8>>();
        assert(here =~= Set::empty());
    } else {
        let k = m.dom().choose();
        let n = m.remove(k);
        assert(n.dom().len() < m.dom().len());
        lemma_cold_keys(n);
        crate::cold::lemma_apart(m, k);
        let q = |k: Seq<u8>| n[k].value matches Val::Cold(c) && !c.segmented;
        let there = n.dom().filter(q);
        n.dom().lemma_len_filter(q);
        if logged_at(m, k) is Some {
            assert(here =~= there.insert(k));
        } else {
            assert(here =~= there);
        }
    }
}

/// A record tells its pairs in full: from what was read, the record can be
/// written again, byte by byte.
pub proof fn lemma_record_exact(p: Seq<u8>)
    ensures
        parsed(p) matches Ok(ps) ==> hash_record(ps) == p,
{
    if let Ok(ps) = parsed(p) {
        let n = word_at(p, 0)->Some_0;
        lemma_word(p, 0);
        lemma_pairs(p, 4, n);
        assert(p =~= p.subrange(0, 4) + p.subrange(4, p.len() as int));
    }
}

proof fn lemma_word(p: Seq<u8>, at: int)
    ensures
        word_at(p, at) matches Some(n) ==> crate::le::le_bytes(n, 4) == p.subrange(at, at + 4),
{
    if word_at(p, at) is Some {
        crate::le::lemma_le_value(p.subrange(at, at + 4));
    }
}

proof fn lemma_pairs(p: Seq<u8>, at: int, n: nat)
    requires
        0 <= at <= p.len(),
    ensures
        pairs_at(p, at, n) matches Ok((ps, end)) ==> ps.len() == n && at <= end <= p.len()
            && written(ps) == p.subrange(at, end),
    decreases n,
{
    if n == 0 {
        assert(p.subrange(at, at) =~= Seq::empty());
    } else {
        lemma_pairs(p, at, (n - 1) as nat);
        if let Ok((ps, end)) = pairs_at(p, at, n) {
            let (qs, c) = pairs_at(p, at, (n - 1) as nat)->Ok_0;
            let (f, d) = chunk_at(p, c)->Ok_0;
            let (v, e) = chunk_at(p, d)->Ok_0;
            lemma_word(p, c);
            lemma_word(p, d);
            assert(ps.drop_last() =~= qs);
            assert(p.subrange(at, end) =~= p.subrange(at, c) + (p.subrange(c, c + 4) + p.subrange(
                c + 4,
                d,
            )) + (p.subrange(d, d + 4) + p.subrange(d + 4, e)));
        }
    }
}

/// A record is the number of its pairs, then for each pair the length of the
/// field, the field, the length of the value and the value.
pub proof fn lemma_record_layout(ps: Seq<(Seq<u8>, Seq<u8>)>, f: Seq<u8>, v: Seq<u8>)
    ensures
        hash_record(ps).take(4) == crate::le::le_bytes(ps.len(), 4),
        hash_record(ps.push((f, v))).skip(4) == hash_record(ps).skip(4) + crate::le::le_bytes(
            f.len(),
            4,
        ) + f + crate::le::le_bytes(v.len(), 4) + v,
        hash_record(Seq::empty()).len() == 4,
{
    let qs = ps.push((f, v));
    crate::le::lemma_le_len(ps.len(), 4);
    crate::le::lemma_le_len(qs.len(), 4);
    crate::le::lemma_le_len(0, 4);
    assert(qs.drop_last() =~= ps);
    assert(hash_record(ps).take(4) =~= crate::le::le_bytes(ps.len(), 4));
    assert(hash_record(ps).skip(4) =~= written(ps));
    assert(hash_record(qs).skip(4) =~= written(ps) + crate::le::le_bytes(f.len(), 4) + f
        + crate::le::le_bytes(v.len(), 4) + v);
}

/// A record with bytes behind its end is refused for them, and one that is
/// cut off anywhere is refused as cut off.
pub proof fn lemma_record_ends(p: Seq<u8>, more: Seq<u8>)
    requires
        more.len() > 0,
    ensures
        parsed(p) is Ok ==> parsed(p + more) == Err::<Seq<(Seq<u8>, Seq<u8>)>, CodecError>(
            CodecError::TrailingBytes,
        ),
        parsed(p + more) is Ok ==> parsed(p) == Err::<Seq<(Seq<u8>, Seq<u8>)>, CodecError>(
            CodecError::TruncatedLength,
        ) || parsed(p) == Err::<Seq<(Seq<u8>, Seq<u8>)>, CodecError>(CodecError::TruncatedChunk),
{
    if let Some(n) = word_at(p, 0) {
        assert((p + more).subrange(0, 4) =~= p.subrange(0, 4));
        lemma_pairs_longer(p, more, 4, n);
        lemma_pairs(p, 4, n);
    }
}

proof fn lemma_pairs_longer(p: Seq<u8>, more: Seq<u8>, at: int, n: nat)
    requires
        0 <= at <= p.len(),
    ensures
        pairs_at(p, at, n) is Ok ==> pairs_at(p + more, at, n) == pairs_at(p, at, n),
        pairs_at(p, at, n) matches Err(e) ==> !(e is TrailingBytes),
    decreases n,
{
    if n > 0 {
        lemma_pairs_longer(p, more, at, (n - 1) as nat);
        lemma_pairs(p, at, (n - 1) as nat);
        if let Ok((_qs, c)) = pairs_at(p, at, (n - 1) as nat) {
            lemma_chunk_longer(p, more, c);
            if let Ok((_f, d)) = chunk_at(p, c) {
                lemma_chunk_longer(p, more, d);
            }
        }
    }
}

proof fn lemma_chunk_longer(p: Seq<u8>, more: Seq<u8>, at: int)
    ensures
        chunk_at(p, at) is Ok ==> chunk_at(p + more, at) == chunk_at(p, at),
{
    if let Ok((f, d)) = chunk_at(p, at) {
        assert((p + more).subrange(at, at + 4) =~= p.subrange(at, at + 4));
        assert((p + more).subrange(at + 4, d) =~= p.subrange(at + 4, d));
    }
}

/// A stub leads to one place: a row of a segment, or a record of the spill
/// log.
pub proof fn lemma_one_place(c: ColdRef, rec: RecordRef, seq: u32, weight: u32, kind: ColdKind)
    ensures
        c.backing() is Segment <==> c.segmented,
        c.backing() matches Backing::Segment(n) ==> n == c.rec.file_id,
        c.backing() matches Backing::Log(at) ==> at == c.rec,
        crate::cold::log_stub(rec, weight, kind).backing() == Backing::Log(rec),
        crate::cold::seg_stub(seq, weight).backing() == Backing::Segment(seq),
        !crate::cold::log_stub(rec, weight, kind).touched,
        crate::cold::seg_stub(seq, weight).kind is Hash,
{
}

} // verus!
