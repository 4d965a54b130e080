//! Keys of any kind: when they are there, what deleting, renaming, expiring,
//! counting and listing them comes to.
use vstd::prelude::*;
use crate::entry::Slot;
use crate::store::admin::{all_versioned, flushed, over_limit, version_of, watched};
use crate::store::expire::{
    after_round, after_rounds, dated_of, due_of, expired_all, expired_in, goes_on, idle_rounds,
    sampled_in,
};
use crate::store::keyspace::{
    bound_stub, deadline_in_ms, deleted, deleted_count, live_count, loaded, renamed, ttl_left,
};
use crate::store::scan::{
    kind_bytes, lower, page_end, page_keys, page_start, page_wants, same_name,
};
use crate::store::snapshot::{all_loaded, frozen_keys};
use crate::store::walk::{begins_with, dated_under, live_under};
use crate::store::{
    dropped, key_due, key_live, put, read_now, reaped, redated, refused, revalued,
    seen, versioned, KeyspaceEvent, StoreModel,
};
use crate::types::StoreError;
use crate::value::Val;

verus! {

/// A key lives until its deadline and is due from then on; without a deadline
/// it lives for ever.
pub proof fn lemma_lives_until(s: StoreModel, k: Seq<u8>, t: u64)
    requires
        s.slots.dom().contains(k),
    ensures
        s.slots[k].expire matches Some(d) ==> (key_live(s, k, t) <==> t < d) && (key_due(s, k, t)
            <==> d <= t),
        s.slots[k].expire is None ==> key_live(s, k, t) && !key_due(s, k, t),
        key_live(s, k, t) != key_due(s, k, t),
{
}

/// A lookup drops the key if it is due, with a note of it, and touches no
/// other key. Reads go by the cached clock where there is one.
pub proof fn lemma_lookup(s: StoreModel, k: Seq<u8>, t: u64, other: Seq<u8>)
    ensures
        reaped(s, k, t).slots.dom().contains(k) <==> key_live(s, k, t),
        key_live(s, k, t) ==> reaped(s, k, t) == s,
        other != k ==> reaped(s, k, t).slots.dom().contains(other) == s.slots.dom().contains(other)
            && reaped(s, k, t).slots[other] == s.slots[other],
        key_due(s, k, t) ==> reaped(s, k, t).expired == s.expired.push(k) && (s.capture.expired
            ==> reaped(s, k, t).events == s.events.push((KeyspaceEvent::Expired, k))) && (
        !s.capture.expired ==> reaped(s, k, t).events == s.events) && (s.expired_total < u64::MAX
            ==> reaped(s, k, t).expired_total == s.expired_total + 1),
        !key_due(s, k, t) ==> reaped(s, k, t).expired == s.expired,
        seen(s, k) == reaped(s, k, if s.use_cached {
            s.cached
        } else {
            s.now
        }),
{
}

/// Binding a key replaces what it held and forgets the deadlines of its
/// fields; a key that was not there is told as new, if that is wanted. No
/// other key changes.
pub proof fn lemma_bind(s: StoreModel, k: Seq<u8>, slot: Slot, other: Seq<u8>)
    ensures
        put(s, k, slot).slots.dom().contains(k),
        put(s, k, slot).slots[k] == slot,
        s.slots.dom().contains(k) ==> !put(s, k, slot).ttls.dom().contains(k) && put(
            s,
            k,
            slot,
        ).events == s.events,
        !s.slots.dom().contains(k) && s.capture.new_key ==> put(s, k, slot).events
            == s.events.push((KeyspaceEvent::New, k)),
        !s.capture.new_key ==> put(s, k, slot).events == s.events,
        other != k ==> put(s, k, slot).slots.dom().contains(other) == s.slots.dom().contains(other)
            && put(s, k, slot).slots[other] == s.slots[other] && put(s, k, slot).ttls.dom().contains(
            other,
        ) == s.ttls.dom().contains(other),
        !dropped(s, k).slots.dom().contains(k),
        !dropped(s, k).ttls.dom().contains(k),
        other != k ==> dropped(s, k).slots.dom().contains(other) == s.slots.dom().contains(other)
            && dropped(s, k).slots[other] == s.slots[other],
        dropped(s, k).events == s.events,
        revalued(s, k, slot.value).slots[k] == (Slot {
            value: slot.value,
            expire: s.slots[k].expire,
        }),
        redated(s, k, slot.expire).slots[k] == (Slot {
            value: s.slots[k].value,
            expire: slot.expire,
        }),
{
}

/// Deleting keys deletes just those that are named.
pub proof fn lemma_delete(s: StoreModel, keys: Seq<Seq<u8>>, k: Seq<u8>)
    ensures
        deleted(s, keys).slots.dom().contains(k) <==> s.slots.dom().contains(k) && !keys.contains(k),
        deleted(s, keys).slots.dom().contains(k) ==> deleted(s, keys).slots[k] == s.slots[k],
        deleted(s, keys).now == s.now,
    decreases keys.len(),
{
    if keys.len() > 0 {
        let d = keys.drop_last();
        lemma_delete(s, d, k);
        lemma_delete(s, d, keys.last());
        assert(keys =~= d.push(keys.last()));
        crate::value_set::lemma_push_contains(d, keys.last(), k);
    }
}

/// Deleting tells how many live keys went: one that is named twice counts
/// once, and one whose time has run out not at all.
pub proof fn lemma_delete_count(s: StoreModel, keys: Seq<Seq<u8>>)
    ensures
        ({
            let live = Set::new(|k: Seq<u8>| keys.contains(k) && key_live(s, k, s.now));
            live.finite() && deleted_count(s, keys) == live.len()
        }),
    decreases keys.len(),
{
    let live = Set::new(|k: Seq<u8>| keys.contains(k) && key_live(s, k, s.now));
    if keys.len() == 0 {
        assert(live =~= Set::empty());
    } else {
        let d = keys.drop_last();
        let x = keys.last();
        lemma_delete_count(s, d);
        lemma_delete(s, d, x);
        let before = Set::new(|k: Seq<u8>| d.contains(k) && key_live(s, k, s.now));
        assert(keys =~= d.push(x));
        assert forall|k: Seq<u8>| keys.contains(k) == (d.contains(k) || k == x) by {
            crate::value_set::lemma_push_contains(d, x, k);
        }
        if key_live(s, x, s.now) {
            assert(live =~= before.insert(x));
        } else {
            assert(live =~= before);
        }
    }
}

/// Asking for keys counts each live one as often as it is named.
pub proof fn lemma_count_live(s: StoreModel, keys: Seq<Seq<u8>>, k: Seq<u8>)
    ensures
        live_count(s, keys.push(k)) == live_count(s, keys) + (if key_live(s, k, read_now(s)) {
            1int
        } else {
            0
        }),
        live_count(s, Seq::empty()) == 0,
        live_count(s, keys) <= keys.len(),
    decreases keys.len(),
{
    assert(keys.push(k).drop_last() =~= keys);
    if keys.len() > 0 {
        lemma_count_live(s, keys.drop_last(), k);
    }
}

/// A rename fails for want of a source just if that is not live, and is held
/// back by a target just if it is not to be overwritten and is live, or is
/// the source itself. Where it fails no live key is touched, and no third key
/// ever is.
pub proof fn lemma_rename_outcome(
    s: StoreModel,
    src: Seq<u8>,
    dst: Seq<u8>,
    nx: bool,
    k: Seq<u8>,
)
    ensures
        ({
            let (t, r) = renamed(s, src, dst, nx);
            &&& r is NoSuchSrc <==> !key_live(s, src, s.now)
            &&& r is DstExists <==> nx && key_live(s, src, s.now) && bound_stub(s, src) is None && (
            src == dst || key_live(s, dst, s.now))
            &&& !(r is Renamed) && key_live(s, k, s.now) ==> t.slots.dom().contains(k)
                && t.slots[k] == s.slots[k]
            &&& k != src && k != dst ==> t.slots.dom().contains(k) == s.slots.dom().contains(k)
                && t.slots[k] == s.slots[k]
            &&& r is Renamed && src == dst ==> t == s
            &&& r is Renamed ==> t.slots.dom().contains(dst) && t.slots[dst] == s.slots[src]
            &&& r is Renamed && src != dst ==> !t.slots.dom().contains(src)
                && !t.ttls.dom().contains(dst)
        }),
{
}

/// A key that is loaded with a time to live has that much left, and none left
/// out of it; without one it has no deadline.
pub proof fn lemma_load(s: StoreModel, k: Seq<u8>, v: Val, ms: u64)
    requires
        0 < s.now + ms * 1_000_000 <= u64::MAX,
    ensures
        ttl_left(loaded(s, k, v, Some(ms)), k) == Some(ms),
        ttl_left(loaded(s, k, v, None), k) is None,
        loaded(s, k, v, Some(ms)).slots[k].value == v,
        key_live(loaded(s, k, v, Some(ms)), k, s.now) <==> ms > 0,
{
    super::numbers::lemma_time_left(s.now, ms, s.now);
}

/// A flush leaves no key and no deadline of a field, and changes no setting.
pub proof fn lemma_flush(s: StoreModel, k: Seq<u8>)
    ensures
        !flushed(s).slots.dom().contains(k),
        !flushed(s).ttls.dom().contains(k),
        flushed(s).watch == s.watch,
        flushed(s).now == s.now,
        flushed(s).limit == s.limit,
        flushed(s).policy == s.policy,
        flushed(s).tier == s.tier,
        flushed(s).events == s.events,
        flushed(s).expired == s.expired,
{
}

/// The limit is passed just if there is one and more is in use.
pub proof fn lemma_limit(s: StoreModel, used: u64)
    ensures
        s.limit == 0 ==> !over_limit(s, used),
        s.limit > 0 ==> (over_limit(s, used) <==> s.limit < used),
{
}

/// Moving every version on changes what each watcher has recorded; watching a
/// key again does not.
pub proof fn lemma_versions(s: StoreModel, k: Seq<u8>)
    ensures
        s.watch.dom().contains(k) ==> all_versioned(s.watch)[k] != s.watch[k],
        all_versioned(s.watch).dom() == s.watch.dom(),
        watched(watched(s, k), k) == watched(s, k),
        version_of(watched(s, k), k) == version_of(s, k),
        !s.watch.dom().contains(k) ==> versioned(s, k) == s,
{
    assert(all_versioned(s.watch).dom() =~= s.watch.dom());
}

/// A key begins with a prefix just if it is the prefix with something, or
/// nothing, behind it. Counting keys under a prefix counts just the live ones
/// that do.
pub proof fn lemma_prefix(s: StoreModel, p: Seq<u8>, t: Seq<u8>, k: Seq<u8>)
    ensures
        begins_with(p + t, p),
        begins_with(k, p) ==> k == p + k.skip(p.len() as int),
        begins_with(k, Seq::empty()),
        live_under(s, p).contains(k) <==> key_live(s, k, s.now) && begins_with(k, p),
        dated_under(s, p).contains(k) <==> key_live(s, k, s.now) && begins_with(k, p)
            && s.slots[k].expire is Some,
{
    assert((p + t).take(p.len() as int) =~= p);
    if begins_with(k, p) {
        assert(k =~= k.take(p.len() as int) + k.skip(p.len() as int));
    }
    assert(k.take(0) =~= Seq::empty());
}

/// Names are the same whatever the case of their letters, and differ in
/// anything else.
pub proof fn lemma_names(a: Seq<u8>, b: Seq<u8>, i: int)
    ensures
        same_name(a, a),
        same_name(a, b) <==> same_name(b, a),
        same_name(a, b) ==> a.len() == b.len(),
        same_name(a, b) && 0 <= i < a.len() ==> a[i] == b[i] || a[i] == b[i] + 32 || b[i] == a[i]
            + 32,
        0 <= i < a.len() && 97 <= a[i] <= 122 ==> same_name(a, a.update(i, (a[i] - 32) as u8)),
        0 <= i < a.len() && !(65 <= a[i] <= 90) && !(97 <= a[i] <= 122) && same_name(a, b) ==> b[i]
            == a[i],
{
    if 0 <= i < a.len() && 97 <= a[i] <= 122 {
        let c = a.update(i, (a[i] - 32) as u8);
        assert forall|j: int| 0 <= j < a.len() implies lower(#[trigger] a[j]) == lower(c[j]) by {
            if j != i {
                assert(c[j] == a[j]);
            }
        }
    }
    if same_name(a, b) {
        assert forall|j: int| 0 <= j < b.len() implies lower(#[trigger] b[j]) == lower(a[j]) by {
            assert(lower(a[j]) == lower(b[j]));
        }
        if 0 <= i < a.len() {
            assert(lower(a[i]) == lower(b[i]));
        }
    }
    if same_name(b, a) {
        assert forall|j: int| 0 <= j < a.len() implies lower(#[trigger] a[j]) == lower(b[j]) by {
            assert(lower(b[j]) == lower(a[j]));
        }
    }
}

/// A page with a type asks for keys of that type only: of two types with
/// different names a key is of one at most.
pub proof fn lemma_page_type(
    s: StoreModel,
    pattern: Option<Seq<u8>>,
    kind: Seq<u8>,
    k: Seq<u8>,
)
    ensures
        page_wants(s, pattern, Some(kind), k) <==> page_wants(s, pattern, None, k) && same_name(
            kind,
            kind_bytes(s.slots[k].value),
        ),
        page_wants(s, pattern, None, k) ==> key_live(s, k, s.now),
        page_wants(s, None, None, k) <==> key_live(s, k, s.now),
        key_live(s, k, s.now) ==> page_wants(s, pattern, Some(kind_bytes(s.slots[k].value)), k)
            == page_wants(s, pattern, None, k),
{
    lemma_names(
        kind_bytes(s.slots[k].value),
        kind_bytes(s.slots[k].value),
        0,
    );
}

/// A page of a scan goes at least one bucket further, and no further than the
/// last.
pub proof fn lemma_page_goes_on(cursor: u64, count: nat, n: nat)
    requires
        0 < n <= 0x1_0000_0000_0000_0000,
    ensures
        0 <= page_start(cursor, n) < page_end(cursor, count, n) <= n,
{
    crate::byte_map::lemma_bucket_of_rank(cursor, n);
    let a = page_start(cursor, n);
    let steps = crate::store::scan::page_steps(cursor, count, n);
    assert(steps >= 1);
}

/// Of the keys that a sweep looks at just those go whose deadlines have come.
pub proof fn lemma_round(s: StoreModel, keys: Seq<Seq<u8>>, k: Seq<u8>)
    ensures
        due_of(s, keys).contains(k) <==> keys.contains(k) && key_due(s, k, s.now),
        after_round(s, keys).slots.dom().contains(k) <==> s.slots.dom().contains(k) && !(
        keys.contains(k) && key_due(s, k, s.now)),
        after_round(s, keys).slots.dom().contains(k) ==> after_round(s, keys).slots[k]
            == s.slots[k],
        dated_of(s, keys).contains(k) <==> keys.contains(k) && s.slots.dom().contains(k)
            && s.slots[k].expire is Some,
{
    lemma_due_of(s, keys, k);
    lemma_expired(s, due_of(s, keys), k);
    lemma_dated_of(s, keys, k);
}

proof fn lemma_due_of(s: StoreModel, keys: Seq<Seq<u8>>, k: Seq<u8>)
    ensures
        due_of(s, keys).contains(k) <==> keys.contains(k) && key_due(s, k, s.now),
    decreases keys.len(),
{
    if keys.len() > 0 {
        let d = keys.drop_last();
        lemma_due_of(s, d, k);
        assert(keys =~= d.push(keys.last()));
        crate::value_set::lemma_push_contains(d, keys.last(), k);
        crate::value_set::lemma_push_contains(due_of(s, d), keys.last(), k);
    }
}

proof fn lemma_dated_of(s: StoreModel, keys: Seq<Seq<u8>>, k: Seq<u8>)
    ensures
        dated_of(s, keys).contains(k) <==> keys.contains(k) && s.slots.dom().contains(k)
            && s.slots[k].expire is Some,
    decreases keys.len(),
{
    if keys.len() > 0 {
        let d = keys.drop_last();
        lemma_dated_of(s, d, k);
        assert(keys =~= d.push(keys.last()));
        crate::value_set::lemma_push_contains(d, keys.last(), k);
        crate::value_set::lemma_push_contains(dated_of(s, d), keys.last(), k);
    }
}

proof fn lemma_expired(s: StoreModel, keys: Seq<Seq<u8>>, k: Seq<u8>)
    ensures
        ({
            let t = expired_all(s, keys);
            &&& t.slots.dom().contains(k) <==> s.slots.dom().contains(k) && !keys.contains(k)
            &&& t.slots.dom().contains(k) ==> t.slots[k] == s.slots[k]
        }),
    decreases keys.len(),
{
    if keys.len() > 0 {
        let d = keys.drop_last();
        lemma_expired(s, d, k);
        assert(keys =~= d.push(keys.last()));
        crate::value_set::lemma_push_contains(d, keys.last(), k);
    }
}

/// A sweep goes on while at least a quarter of what it looked at had expired,
/// and while no more than two rounds in a row had nothing to look at.
pub proof fn lemma_sweep_goes_on(s: StoreModel, rounds: Seq<Seq<Seq<u8>>>)
    requires
        rounds.len() > 0,
    ensures
        rounds.last().len() > 0 ==> (goes_on(s, rounds) <==> 4 * due_of(
            after_rounds(s, rounds.drop_last()),
            rounds.last(),
        ).len() >= rounds.last().len()),
        rounds.last().len() == 0 ==> (goes_on(s, rounds) <==> idle_rounds(rounds) <= 2),
        rounds.last().len() > 0 ==> idle_rounds(rounds) == 0,
        rounds.last().len() == 0 ==> idle_rounds(rounds) == idle_rounds(rounds.drop_last()) + 1,
{
}

/// Rounds of a sweep together drop as many keys as they tell.
pub proof fn lemma_sweep_counts(s: StoreModel, rounds: Seq<Seq<Seq<u8>>>)
    requires
        s.slots.dom().finite(),
        forall|i: int| 0 <= i < rounds.len() ==> (#[trigger] rounds[i]).no_duplicates(),
    ensures
        after_rounds(s, rounds).slots.dom().finite(),
        after_rounds(s, rounds).slots.dom().len() + expired_in(s, rounds) == s.slots.dom().len(),
        expired_in(s, rounds) <= sampled_in(rounds),
    decreases rounds.len(),
{
    if rounds.len() > 0 {
        let d = rounds.drop_last();
        assert forall|i: int| 0 <= i < d.len() implies (#[trigger] d[i]).no_duplicates() by {
            assert(rounds[i].no_duplicates());
        }
        lemma_sweep_counts(s, d);
        let t = after_rounds(s, d);
        let last = rounds.last();
        assert(rounds[rounds.len() - 1].no_duplicates());
        lemma_due_list(t, last);
        lemma_expired_count(t, due_of(t, last));
    }
}

proof fn lemma_due_list(s: StoreModel, keys: Seq<Seq<u8>>)
    requires
        keys.no_duplicates(),
    ensures
        due_of(s, keys).no_duplicates(),
        due_of(s, keys).len() <= keys.len(),
        forall|i: int|
            0 <= i < due_of(s, keys).len() ==> s.slots.dom().contains(#[trigger] due_of(s, keys)[i]),
    decreases keys.len(),
{
    if keys.len() > 0 {
        let d = keys.drop_last();
        lemma_due_list(s, d);
        lemma_due_of(s, d, keys.last());
        assert(!d.contains(keys.last()));
    }
}

proof fn lemma_expired_count(s: StoreModel, keys: Seq<Seq<u8>>)
    requires
        s.slots.dom().finite(),
        keys.no_duplicates(),
        forall|i: int| 0 <= i < keys.len() ==> s.slots.dom().contains(#[trigger] keys[i]),
    ensures
        expired_all(s, keys).slots.dom().finite(),
        expired_all(s, keys).slots.dom().len() + keys.len() == s.slots.dom().len(),
    decreases keys.len(),
{
    if keys.len() > 0 {
        let d = keys.drop_last();
        let k = keys[keys.len() - 1];
        assert forall|i: int| 0 <= i < d.len() implies s.slots.dom().contains(#[trigger] d[i]) by {
            assert(d[i] == keys[i]);
        }
        lemma_expired_count(s, d);
        lemma_expired(s, d, k);
        assert(!d.contains(k));
    }
}

/// A page lists just those keys of its buckets that are wanted.
pub proof fn lemma_page_lists(
    s: StoreModel,
    pattern: Option<Seq<u8>>,
    kind: Option<Seq<u8>>,
    keys: Seq<Seq<u8>>,
    k: Seq<u8>,
)
    ensures
        page_keys(s, pattern, kind, keys).contains(k) <==> keys.contains(k) && page_wants(
            s,
            pattern,
            kind,
            k,
        ),
    decreases keys.len(),
{
    if keys.len() > 0 {
        let d = keys.drop_last();
        lemma_page_lists(s, pattern, kind, d, k);
        assert(keys =~= d.push(keys.last()));
        crate::value_set::lemma_push_contains(d, keys.last(), k);
        crate::value_set::lemma_push_contains(
            page_keys(s, pattern, kind, d),
            keys.last(),
            k,
        );
    }
}

/// Values of different types have different type names, whatever the case of
/// the letters, and a value out of memory has the name that it has in memory.
pub proof fn lemma_type_names(
    b: Seq<u8>,
    h: Map<Seq<u8>, Seq<u8>>,
    l: Seq<Seq<u8>>,
    m: Set<Seq<u8>>,
    z: Map<Seq<u8>, crate::score::Score>,
    x: crate::stream::StreamModel,
    c: crate::cold::ColdRef,
)
    ensures
        ({
            let names = seq![
                kind_bytes(Val::Str(b)),
                kind_bytes(Val::Hash(h)),
                kind_bytes(Val::List(l)),
                kind_bytes(Val::Members(m)),
                kind_bytes(Val::Sorted(z)),
                kind_bytes(Val::Stream(x)),
            ];
            forall|i: int, j: int|
                #![trigger names[i], names[j]]
                0 <= i < j < names.len() ==> !same_name(names[i], names[j])
        }),
        c.kind is Str ==> kind_bytes(Val::Cold(c)) == kind_bytes(Val::Str(b)),
        c.kind is Hash ==> kind_bytes(Val::Cold(c)) == kind_bytes(Val::Hash(h)),
{
    let names = seq![
        kind_bytes(Val::Str(b)),
        kind_bytes(Val::Hash(h)),
        kind_bytes(Val::List(l)),
        kind_bytes(Val::Members(m)),
        kind_bytes(Val::Sorted(z)),
        kind_bytes(Val::Stream(x)),
    ];
    assert forall|i: int, j: int|
        #![trigger names[i], names[j]]
        0 <= i < j < names.len() implies !same_name(names[i], names[j]) by {
        let p = names[i];
        let q = names[j];
        if p.len() == q.len() {
            assert(lower(p[0]) != lower(q[0]) || lower(p[3]) != lower(q[3]));
        }
    }
}

/// A snapshot that is loaded brings every live key back with as much time as
/// it had left, give or take a millisecond, and none with more.
pub proof fn lemma_snapshot_deadlines(
    s: StoreModel,
    order: Seq<Seq<u8>>,
    fresh: StoreModel,
    k: Seq<u8>,
)
    requires
        order.no_duplicates(),
        order.to_set() == s.slots.dom(),
        fresh.slots == Map::<Seq<u8>, Slot>::empty(),
        fresh.now == s.now,
        s.now > 0,
        key_live(s, k, s.now),
    ensures
        ({
            let t = all_loaded(fresh, frozen_keys(s, order));
            &&& t.slots.dom().contains(k)
            &&& match s.slots[k].expire {
                None => t.slots[k].expire is None,
                Some(d) => t.slots[k].expire matches Some(e) && e <= d && d - e < 1_000_000,
            }
        }),
{
    let v = frozen_keys(s, order);
    let live = crate::store::walk::wanted_keys(s, None, order);
    crate::store::walk::lemma_wanted_keys(s, None, order);
    assert(crate::store::walk::wanted(s, None, k));
    assert(live.contains(k));
    let i = choose|i: int| 0 <= i < live.len() && live[i] == k;
    assert forall|a: int, b: int|
        0 <= a < v.len() && 0 <= b < v.len() && a != b implies v[a].key != v[b].key by {
        assert(live[a] != live[b]);
    }
    lemma_loaded_at(fresh, v, i);
    let d = ttl_left(s, k);
    if let Some(e) = s.slots[k].expire {
        let ms = ((e - s.now) / 1_000_000) as u64;
        assert(ms as int * 1_000_000 <= e - s.now);
    }
}

proof fn lemma_loaded_at(s: StoreModel, v: Seq<crate::store::snapshot::Frozen>, i: int)
    requires
        0 <= i < v.len(),
        forall|a: int, b: int|
            0 <= a < v.len() && 0 <= b < v.len() && a != b ==> v[a].key != v[b].key,
    ensures
        all_loaded(s, v).slots.dom().contains(v[i].key),
        all_loaded(s, v).slots[v[i].key] == (Slot {
            value: v[i].value,
            expire: deadline_in_ms(s, v[i].ttl),
        }),
        all_loaded(s, v).now == s.now,
    decreases v.len(),
{
    let d = v.drop_last();
    lemma_loaded_now(s, d);
    if i < d.len() {
        assert forall|a: int, b: int|
            0 <= a < d.len() && 0 <= b < d.len() && a != b implies d[a].key != d[b].key by {
            assert(v[a].key != v[b].key);
        }
        lemma_loaded_at(s, d, i);
        assert(v[i].key != v[v.len() - 1].key);
        assert(d[i] == v[i]);
    }
}

proof fn lemma_loaded_now(s: StoreModel, v: Seq<crate::store::snapshot::Frozen>)
    ensures
        all_loaded(s, v).now == s.now,
    decreases v.len(),
{
    if v.len() > 0 {
        lemma_loaded_now(s, v.drop_last());
    }
}

/// A value is refused as out of memory just if it is a stub of the wanted
/// kind, and as of the wrong type otherwise.
pub proof fn lemma_refusal(v: Val, want: crate::cold::ColdKind)
    ensures
        refused(v, want) == StoreError::NotInMemory <==> (v matches Val::Cold(c)
            && c.kind == want),
        refused(v, want) == StoreError::NotInMemory || refused(v, want) == StoreError::WrongType,
{
}

} // verus!
