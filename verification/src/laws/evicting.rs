//! Which keys go when memory runs out, and when keys count as used.
use vstd::prelude::*;
use crate::evict::{lfu_odds, lfu_spec, score_spec, splitmix32_spec, touched};
use crate::store::evicting::{
    chosen, eligible, eviction_run, fits, fitting, ring, sample, target_of, Purpose,
};
use crate::store::Store;
use crate::types::EvictionPolicy;

verus! {

/// Where the shortest time to live goes first, a key whose deadline is at
/// least a millisecond nearer scores lower, whatever the marks; a nearer one
/// never scores higher, a deadline that has come scores lowest, and no
/// deadline at all scores highest.
pub proof fn lemma_nearest_deadline_first(
    m1: u32,
    m2: u32,
    d1: u64,
    d2: u64,
    now: u64,
    c1: u32,
    c2: u32,
)
    ensures
        ({
            let a = score_spec(m1, Some(d1), EvictionPolicy::VolatileTtl, now, c1);
            let b = score_spec(m2, Some(d2), EvictionPolicy::VolatileTtl, now, c2);
            let none = score_spec(m2, None, EvictionPolicy::VolatileTtl, now, c2);
            &&& now <= d1 && d1 + 1_000_000 <= d2 ==> a < b
            &&& d1 <= d2 ==> a <= b
            &&& d1 <= now ==> a == 0
            &&& 0 <= a < none
            &&& now <= d1 ==> a * 1_000_000 <= d1 - now < (a + 1) * 1_000_000
        }),
{
    if now <= d1 && d1 + 1_000_000 <= d2 {
        assert((d2 - now) / 1_000_000 >= (d1 - now) / 1_000_000 + 1);
    }
    if d1 <= d2 {
        assert(d1 >= now ==> (d2 - now) / 1_000_000 >= (d1 - now) / 1_000_000);
    }
}

/// Where the least recently used key goes first, the key that was used
/// earlier scores lower, whatever the marks were before and whatever the
/// deadlines.
pub proof fn lemma_earliest_use_first(
    m1: u32,
    m2: u32,
    e1: Option<u64>,
    e2: Option<u64>,
    policy: EvictionPolicy,
    used1: u32,
    used2: u32,
    now: u64,
    clock: u32,
)
    requires
        policy is AllKeysLru || policy is VolatileLru,
    ensures
        score_spec(touched(m1, policy, used1), e1, policy, now, clock) < score_spec(
            touched(m2, policy, used2),
            e2,
            policy,
            now,
            clock,
        ) <==> used1 < used2,
{
}

/// Where the least often used key goes first, the score is a counter between
/// 0 and 255 that the low byte of the mark holds: a use never lowers it and
/// never raises it by more than one, a low one always rises, the highest one
/// stays, and neither the rest of the mark nor the deadline counts.
pub proof fn lemma_rarest_use_first(
    mark: u32,
    policy: EvictionPolicy,
    used: u32,
    e1: Option<u64>,
    e2: Option<u64>,
    n1: u64,
    n2: u64,
    c1: u32,
    c2: u32,
)
    requires
        policy is AllKeysLfu || policy is VolatileLfu,
    ensures
        ({
            let a = score_spec(mark, e1, policy, n1, c1);
            let b = score_spec(touched(mark, policy, used), e2, policy, n2, c2);
            &&& a == mark as int % 256
            &&& touched(mark, policy, used) as int / 256 == mark as int / 256
            &&& a <= b <= a + 1 <= 256
            &&& b <= 255
            &&& a <= 5 ==> b == a + 1
            &&& a == 255 ==> b == 255
        }),
{
    let counter = (mark & 0xFFu32) as u8;
    let next = lfu_spec(counter, used);
    let after = touched(mark, policy, used);
    assert(mark & 0xFFu32 == mark % 256u32) by (bit_vector);
    assert(((mark & 0xFFFF_FF00u32) | (next as u32)) & 0xFFu32 == next as u32) by (bit_vector);
    assert(((mark & 0xFFFF_FF00u32) | (next as u32)) / 256u32 == mark / 256u32) by (bit_vector);
}

/// The higher a use counter is, the rarer it rises: up to 5 every use counts,
/// and from there on each step takes ten more chances. One scrambled clock in
/// as many raises the counter.
pub proof fn lemma_counter_gets_slower(counter: u8, clock: u32)
    ensures
        counter <= 5 ==> lfu_odds(counter) == 1,
        5 <= counter < 255 ==> lfu_odds((counter + 1) as u8) == lfu_odds(counter) + 10,
        counter < 255 ==> (lfu_spec(counter, clock) == counter + 1 <==> splitmix32_spec(clock)
            % lfu_odds(counter) == 0),
{
}

/// Where any key may go, neither the deadline nor the time counts: it is the
/// mark and the clock that decide.
pub proof fn lemma_random_ignores_time(
    mark: u32,
    policy: EvictionPolicy,
    e1: Option<u64>,
    e2: Option<u64>,
    n1: u64,
    n2: u64,
    clock: u32,
)
    requires
        policy is AllKeysRandom || policy is VolatileRandom,
    ensures
        score_spec(mark, e1, policy, n1, clock) == score_spec(mark, e2, policy, n2, clock),
        0 <= score_spec(mark, e1, policy, n1, clock) <= u32::MAX,
        touched(mark, policy, clock) == mark,
{
}

/// The key that goes is the one of the keys looked at that the policy is
/// about: the one with the nearest deadline, give or take a millisecond, the
/// one used least recently, or the one used least often.
pub proof fn lemma_victim(store: Store, k: Seq<u8>, from: int, n: nat, j: int)
    requires
        chosen(store, Purpose::Evict, k, from, n),
        0 <= j < sample(store, Purpose::Evict, from, n).len(),
    ensures
        ({
            let other = sample(store, Purpose::Evict, from, n)[j];
            match store@.policy {
                EvictionPolicy::VolatileTtl => {
                    let (d, e) = (store@.slots[k].expire, store@.slots[other].expire);
                    &&& d is Some && e is Some
                    &&& d->Some_0 < store@.now + 1_000_000 || d->Some_0 < e->Some_0 + 1_000_000
                },
                EvictionPolicy::AllKeysLru | EvictionPolicy::VolatileLru => store.mark(k)
                    <= store.mark(other),
                EvictionPolicy::AllKeysLfu | EvictionPolicy::VolatileLfu => store.mark(k) as int
                    % 256 <= store.mark(other) as int % 256,
                _ => true,
            }
        }),
{
    let s = sample(store, Purpose::Evict, from, n);
    let other = s[j];
    lemma_sampled(store, from, n);
    assert(s.contains(other));
    assert(store.score(Purpose::Evict, k) <= store.score(Purpose::Evict, other));
    let clock = (store.use_clock() % 0x1_0000_0000) as u32;
    match store@.policy {
        EvictionPolicy::VolatileTtl => {
            let d = store@.slots[k].expire->Some_0;
            let e = store@.slots[other].expire->Some_0;
            let now = store@.now;
            lemma_nearest_deadline_first(store.mark(k), store.mark(other), d, e, now, clock, clock);
            lemma_nearest_deadline_first(store.mark(other), store.mark(k), e, d, now, clock, clock);
        },
        EvictionPolicy::AllKeysLfu | EvictionPolicy::VolatileLfu => {
            let p = store@.policy;
            lemma_rarest_use_first(store.mark(k), p, 0, None, None, 0, 0, 0, 0);
            lemma_rarest_use_first(store.mark(other), p, 0, None, None, 0, 0, 0, 0);
        },
        _ => {},
    }
}

proof fn lemma_fitting(store: Store, p: Purpose, keys: Seq<Seq<u8>>)
    ensures
        forall|k: Seq<u8>| #[trigger]
            fitting(store, p, keys).contains(k) <==> keys.contains(k) && fits(store, p, k),
    decreases keys.len(),
{
    let f = fitting(store, p, keys);
    if keys.len() > 0 {
        let d = keys.drop_last();
        lemma_fitting(store, p, d);
        assert(keys =~= d.push(keys.last()));
        assert forall|k: Seq<u8>| #[trigger]
            f.contains(k) <==> keys.contains(k) && fits(store, p, k) by {
            crate::value_set::lemma_push_contains(d, keys.last(), k);
            crate::value_set::lemma_push_contains(fitting(store, p, d), keys.last(), k);
        }
    }
}

/// Only keys that are there are looked at, under a volatile policy only such
/// that have a deadline, and no more than were asked for.
pub proof fn lemma_sampled(store: Store, from: int, n: nat)
    ensures
        sample(store, Purpose::Evict, from, n).len() <= n,
        forall|k: Seq<u8>| #[trigger]
            sample(store, Purpose::Evict, from, n).contains(k) ==> store@.slots.dom().contains(k)
                && ((store@.policy is VolatileLru || store@.policy is VolatileLfu
                || store@.policy is VolatileRandom || store@.policy is VolatileTtl)
                ==> store@.slots[k].expire is Some),
{
    let way = ring(store.key_order(), from);
    let all = fitting(store, Purpose::Evict, way);
    let s = sample(store, Purpose::Evict, from, n);
    lemma_fitting(store, Purpose::Evict, way);
    assert forall|k: Seq<u8>| #[trigger] s.contains(k) implies eligible(store@, k) by {
        let i = choose|i: int| 0 <= i < s.len() && s[i] == k;
        assert(all[i] == k);
        assert(all.contains(k));
        assert(fits(store, Purpose::Evict, k));
    }
}

/// As long as some key may go, some key is looked at, wherever the walk
/// starts: without a volatile policy any key will do.
pub proof fn lemma_some_sampled(store: Store, from: int, n: nat, k: Seq<u8>)
    requires
        store.wf(),
        n > 0,
        0 <= from <= store.key_order().len(),
        store@.slots.dom().contains(k),
        store@.slots[k].expire is Some || store@.policy is AllKeysLru || store@.policy is AllKeysLfu
            || store@.policy is AllKeysRandom,
    ensures
        sample(store, Purpose::Evict, from, n).len() > 0,
{
    let order = store.key_order();
    let way = ring(order, from);
    let all = fitting(store, Purpose::Evict, way);
    store.lemma_key_order();
    lemma_fitting(store, Purpose::Evict, way);
    assert(order.to_set().contains(k));
    let i = choose|i: int| 0 <= i < order.len() && order[i] == k;
    assert(way[order.skip(from).len() + i] == k);
    assert(way.contains(k));
    assert(fits(store, Purpose::Evict, k));
    assert(all.contains(k));
}

/// Eviction aims at 19 twentieths of the limit, rounded down, and never above
/// the limit.
pub proof fn lemma_aim(limit: u64, more: u64)
    requires
        limit <= more,
    ensures
        limit * 19 <= u64::MAX ==> target_of(limit) * 20 <= limit * 19 < (target_of(limit) + 1)
            * 20,
        target_of(limit) <= limit,
        target_of(limit) <= target_of(more),
{
}

/// A run evicts a key only while more memory is in use than it aims at, and
/// stops short of the aim only if nothing is left that may go or a million
/// keys went. The keys that went are gone, and no other key is.
pub proof fn lemma_run(states: Seq<Store>, victims: Seq<Seq<u8>>, k: Seq<u8>)
    requires
        eviction_run(states, victims),
        states.first().wf(),
    ensures
        states.last()@.slots.dom().contains(k) <==> states.first()@.slots.dom().contains(k)
            && !victims.contains(k),
        states.last()@.slots.dom().contains(k) ==> states.last()@.slots[k]
            == states.first()@.slots[k],
        states.last().used() * 20 <= states.first()@.limit * 19 || victims.len() == 1_000_000
            || forall|q: Seq<u8>|
            #![trigger states.last()@.slots.dom().contains(q)]
            states.last()@.slots.dom().contains(q) ==> states.last()@.slots[q].expire is None && !(
            states.last()@.policy is AllKeysLru || states.last()@.policy is AllKeysLfu
                || states.last()@.policy is AllKeysRandom),
{
    let s = states.first()@;
    lemma_evicted(s, victims, k);
    assert forall|q: Seq<u8>|
        #![trigger states.last()@.slots.dom().contains(q)]
        states.last()@.slots.dom().contains(q) && crate::store::evicting::none_eligible(
            states.last()@,
        ) implies states.last()@.slots[q].expire is None && !(states.last()@.policy is AllKeysLru
        || states.last()@.policy is AllKeysLfu || states.last()@.policy is AllKeysRandom) by {
        assert(!eligible(states.last()@, q));
    }
    let t = target_of(s.limit);
    assert(t * 20 <= s.limit * 19);
}

proof fn lemma_evicted(s: crate::store::StoreModel, victims: Seq<Seq<u8>>, k: Seq<u8>)
    ensures
        ({
            let t = crate::store::evicting::evicted(s, victims);
            &&& t.slots.dom().contains(k) <==> s.slots.dom().contains(k) && !victims.contains(k)
            &&& t.slots.dom().contains(k) ==> t.slots[k] == s.slots[k]
        }),
    decreases victims.len(),
{
    if victims.len() > 0 {
        let d = victims.drop_last();
        lemma_evicted(s, d, k);
        assert(victims =~= d.push(victims.last()));
        crate::value_set::lemma_push_contains(d, victims.last(), k);
    }
}

} // verus!
