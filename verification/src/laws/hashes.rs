//! Hashes and the deadlines of their fields.
use vstd::prelude::*;
use crate::store::hash_ttl::{
    all_due, due_keys, fields_due, hash_at, hexpire_step, hexpire_steps, hpersist_code, hpttl_of,
    purged, refielded, untimed, unfielded, HExpireCond,
};
use crate::store::hashes::{
    alternating, asked, field_of, hash_opened, hincr_result, overlaid, rehashed, with_values_of,
};
use crate::store::{key_due, read_now, seen, StoreModel};
use crate::types::StoreError;

verus! {

/// Whether a field has this deadline.
pub open spec fn ends_at(s: StoreModel, key: Seq<u8>, f: Seq<u8>, d: u64) -> bool {
    s.ttls.dom().contains(key) && s.ttls[key].dom().contains(f) && s.ttls[key][f] == d
}

/// Whether a field has no deadline.
pub open spec fn endless(s: StoreModel, key: Seq<u8>, f: Seq<u8>) -> bool {
    !s.ttls.dom().contains(key) || !s.ttls[key].dom().contains(f)
}

/// Whether a key holds a hash with this field.
pub open spec fn has_field(s: StoreModel, key: Seq<u8>, f: Seq<u8>) -> bool {
    s.slots.dom().contains(key) && (s.slots[key].value matches crate::value::Val::Hash(h)
        && h.dom().contains(f))
}

/// A deadline that has not come is set only if it is earlier than the one
/// that the field has, where that is asked, or only if it is later: it is
/// told as set and is then the field's, or told as refused, and nothing
/// changes. Of two different deadlines one condition takes just what the
/// other refuses.
pub proof fn lemma_earlier_or_later(s: StoreModel, key: Seq<u8>, f: Seq<u8>, c: u64, d: u64)
    requires
        has_field(seen(s, key), key, f),
        ends_at(seen(s, key), key, f, c),
        s.wall < d,
    ensures
        ({
            let t = seen(s, key);
            let (lt, lt_code) = hexpire_step(s, key, f, d, HExpireCond::Lt);
            let (gt, gt_code) = hexpire_step(s, key, f, d, HExpireCond::Gt);
            &&& d < c ==> lt_code == 1 && ends_at(lt, key, f, d)
            &&& d >= c ==> lt_code == 0 && lt == t
            &&& d > c ==> gt_code == 1 && ends_at(gt, key, f, d)
            &&& d <= c ==> gt_code == 0 && gt == t
            &&& d != c ==> (lt_code == 1) != (gt_code == 1)
            &&& ends_at(lt, key, f, if d < c {
                d
            } else {
                c
            })
            &&& ends_at(gt, key, f, if d > c {
                d
            } else {
                c
            })
        }),
{
}

/// A field that has no deadline has none that another could be later than,
/// and counts as lasting longest: an earlier one is always taken, a later one
/// never.
pub proof fn lemma_endless_field(s: StoreModel, key: Seq<u8>, f: Seq<u8>, d: u64)
    requires
        has_field(seen(s, key), key, f),
        endless(seen(s, key), key, f),
        s.wall < d,
    ensures
        ({
            let t = seen(s, key);
            &&& hexpire_step(s, key, f, d, HExpireCond::Lt).1 == 1
            &&& ends_at(hexpire_step(s, key, f, d, HExpireCond::Lt).0, key, f, d)
            &&& hexpire_step(s, key, f, d, HExpireCond::Nx).1 == 1
            &&& ends_at(hexpire_step(s, key, f, d, HExpireCond::Nx).0, key, f, d)
            &&& hexpire_step(s, key, f, d, HExpireCond::Always).1 == 1
            &&& ends_at(hexpire_step(s, key, f, d, HExpireCond::Always).0, key, f, d)
            &&& hexpire_step(s, key, f, d, HExpireCond::Gt) == (t, 0i8)
            &&& hexpire_step(s, key, f, d, HExpireCond::Xx) == (t, 0i8)
        }),
{
}

/// A field that has a deadline keeps it where only fields without one are
/// meant, and gets the new one where only such with one are meant, or any.
pub proof fn lemma_timed_field(s: StoreModel, key: Seq<u8>, f: Seq<u8>, c: u64, d: u64)
    requires
        has_field(seen(s, key), key, f),
        ends_at(seen(s, key), key, f, c),
        s.wall < d,
    ensures
        hexpire_step(s, key, f, d, HExpireCond::Nx) == (seen(s, key), 0i8),
        hexpire_step(s, key, f, d, HExpireCond::Xx).1 == 1,
        ends_at(hexpire_step(s, key, f, d, HExpireCond::Xx).0, key, f, d),
        hexpire_step(s, key, f, d, HExpireCond::Always).1 == 1,
        ends_at(hexpire_step(s, key, f, d, HExpireCond::Always).0, key, f, d),
{
}

/// A deadline that has come removes the field at once, where it is taken, and
/// the key with its last field; a field that is not there gets none.
pub proof fn lemma_past_deadline(
    s: StoreModel,
    key: Seq<u8>,
    f: Seq<u8>,
    d: u64,
    cond: HExpireCond,
)
    ensures
        ({
            let (t, code) = hexpire_step(s, key, f, d, cond);
            &&& !has_field(seen(s, key), key, f) ==> code == -2 && t == seen(s, key)
            &&& code == 2 ==> d <= s.wall && !has_field(t, key, f) && endless(t, key, f)
            &&& code == 1 ==> s.wall < d && has_field(t, key, f) && ends_at(t, key, f, d)
            &&& d <= s.wall ==> code != 1
            &&& has_field(seen(s, key), key, f) && d <= s.wall && cond is Always ==> code == 2
            &&& code == 0 ==> t == seen(s, key)
            &&& code == -2 || code == 0 || code == 1 || code == 2
        }),
{
    let t = seen(s, key);
    let (u, code) = hexpire_step(s, key, f, d, cond);
    if code == 2 {
        let v = untimed(t, key, set![f]);
        assert(set![f].contains(f));
        let w = crate::store::reaped(v, key, v.now);
    }
}

/// Setting the deadline of one field changes neither the value nor the
/// deadline of another, unless the key's own time has run out.
pub proof fn lemma_other_field(
    s: StoreModel,
    key: Seq<u8>,
    f: Seq<u8>,
    d: u64,
    cond: HExpireCond,
    g: Seq<u8>,
    c: u64,
)
    requires
        g != f,
        has_field(seen(s, key), key, g),
        !key_due(s, key, s.now),
    ensures
        ({
            let t = seen(s, key);
            let u = hexpire_step(s, key, f, d, cond).0;
            &&& has_field(u, key, g)
            &&& u.slots[key].value->Hash_0[g] == t.slots[key].value->Hash_0[g]
            &&& u.slots[key].expire == t.slots[key].expire
            &&& ends_at(t, key, g, c) ==> ends_at(u, key, g, c)
            &&& endless(t, key, g) ==> endless(u, key, g)
        }),
{
    let t = seen(s, key);
    let v = untimed(t, key, set![f]);
    let h = t.slots[key].value->Hash_0;
    assert(h.remove_keys(set![f]).dom().contains(g));
    if t.ttls.dom().contains(key) && t.ttls[key].dom().contains(g) {
        assert(t.ttls[key].remove_keys(set![f]).dom().contains(g));
    }
}

/// One code is told for each field that is named.
pub proof fn lemma_codes(
    s: StoreModel,
    key: Seq<u8>,
    fs: Seq<Seq<u8>>,
    d: u64,
    cond: HExpireCond,
)
    ensures
        hexpire_steps(s, key, fs, d, cond).1.len() == fs.len(),
        fs.len() == 1 ==> hexpire_steps(s, key, fs, d, cond) == (
            hexpire_step(s, key, fs[0], d, cond).0,
            seq![hexpire_step(s, key, fs[0], d, cond).1],
        ),
    decreases fs.len(),
{
    if fs.len() > 0 {
        lemma_codes(s, key, fs.drop_last(), d, cond);
        if fs.len() == 1 {
            assert(fs.drop_last() =~= Seq::empty());
            assert(Seq::<i8>::empty().push(hexpire_step(s, key, fs[0], d, cond).1) =~= seq![
                hexpire_step(s, key, fs[0], d, cond).1,
            ]);
        }
    }
}

/// What a field is told to have left is the time to its deadline; -1 stands
/// for no deadline and -2 for no field.
pub proof fn lemma_time_left(s: StoreModel, key: Seq<u8>, f: Seq<u8>, d: u64)
    ensures
        !has_field(s, key, f) <==> hpttl_of(s, key, f) == -2,
        has_field(s, key, f) && endless(s, key, f) <==> hpttl_of(s, key, f) == -1,
        has_field(s, key, f) && ends_at(s, key, f, d) && s.wall <= d && d - s.wall <= i64::MAX
            ==> hpttl_of(s, key, f) == d - s.wall,
        has_field(s, key, f) && ends_at(s, key, f, d) && d <= s.wall ==> hpttl_of(s, key, f) == 0,
{
}

/// A field whose deadline is set has just that time left, and less as time
/// goes by.
pub proof fn lemma_set_time_left(
    s: StoreModel,
    key: Seq<u8>,
    f: Seq<u8>,
    d: u64,
    cond: HExpireCond,
    later: u64,
)
    requires
        hexpire_step(s, key, f, d, cond).1 == 1,
        s.wall <= later <= d,
        d - s.wall <= i64::MAX,
    ensures
        ({
            let t = hexpire_step(s, key, f, d, cond).0;
            hpttl_of(StoreModel { wall: later, ..t }, key, f) == d - later
        }),
{
}

/// A deadline that is forgotten is gone, those of other fields stay, and what
/// is told says whether there was one.
pub proof fn lemma_persist(s: StoreModel, key: Seq<u8>, f: Seq<u8>, g: Seq<u8>, c: u64)
    ensures
        endless(untimed(s, key, set![f]), key, f),
        has_field(s, key, f) ==> hpttl_of(untimed(s, key, set![f]), key, f) == -1,
        g != f && ends_at(s, key, g, c) ==> ends_at(untimed(s, key, set![f]), key, g, c),
        untimed(s, key, set![f]).slots == s.slots,
        hpersist_code(s, key, seq![f], 0) == (if !has_field(s, key, f) {
            -2int
        } else if endless(s, key, f) {
            -1
        } else {
            1
        }),
{
    assert(set![f].contains(f));
    assert(!seq![f].take(0).contains(f)) by {
        assert(seq![f].take(0).len() == 0);
    }
    if g != f && s.ttls.dom().contains(key) && s.ttls[key].dom().contains(g) {
        assert(s.ttls[key].remove_keys(set![f]).dom().contains(g));
    }
}

/// A command on a hash in memory finds a field just until its deadline: once
/// that has come the field is gone. A field whose deadline has not come, or
/// that has none, stays with its value and its deadline.
pub proof fn lemma_field_until_deadline(s: StoreModel, key: Seq<u8>, f: Seq<u8>, d: u64)
    requires
        has_field(s, key, f),
        !key_due(s, key, s.now),
    ensures
        ends_at(s, key, f, d) ==> (has_field(purged(s, key), key, f) <==> s.wall < d),
        endless(s, key, f) ==> has_field(purged(s, key), key, f),
        has_field(purged(s, key), key, f) ==> purged(s, key).slots[key].value->Hash_0[f]
            == s.slots[key].value->Hash_0[f] && purged(s, key).slots[key].expire
            == s.slots[key].expire,
        ends_at(s, key, f, d) && s.wall < d ==> ends_at(purged(s, key), key, f, d),
        forall|k: Seq<u8>|
            #![trigger purged(s, key).slots.dom().contains(k)]
            k != key ==> purged(s, key).slots.dom().contains(k) == s.slots.dom().contains(k)
                && purged(s, key).slots[k] == s.slots[k],
{
    let due = fields_due(s, key);
    let h = s.slots[key].value->Hash_0;
    if due != Set::<Seq<u8>>::empty() {
        let t = untimed(s, key, due);
        if !due.contains(f) {
            assert(h.remove_keys(due).dom().contains(f));
            if s.ttls.dom().contains(key) && s.ttls[key].dom().contains(f) {
                assert(s.ttls[key].remove_keys(due).dom().contains(f));
            }
        } else {
            assert(!h.remove_keys(due).dom().contains(f));
        }
    } else if ends_at(s, key, f, d) && d <= s.wall {
        assert(due.contains(f));
    }
}

/// The keys that a sweep of fields deals with are those that have fields
/// whose deadlines have come, as many as were asked for.
pub proof fn lemma_due_keys(s: StoreModel, keys: Seq<Seq<u8>>, n: nat, k: Seq<u8>)
    ensures
        all_due(s, keys).contains(k) <==> keys.contains(k) && fields_due(s, k) != Set::<
            Seq<u8>,
        >::empty(),
        due_keys(s, keys, n).len() <= n,
        n >= all_due(s, keys).len() ==> due_keys(s, keys, n) == all_due(s, keys),
    decreases keys.len(),
{
    if keys.len() > 0 {
        let d = keys.drop_last();
        lemma_due_keys(s, d, n, k);
        assert(keys =~= d.push(keys.last()));
        crate::value_set::lemma_push_contains(d, keys.last(), k);
        crate::value_set::lemma_push_contains(all_due(s, d), keys.last(), k);
    }
    if n >= all_due(s, keys).len() {
        assert(due_keys(s, keys, n) =~= all_due(s, keys));
    }
}

/// A field that is set loses its deadline, and no other field does.
pub proof fn lemma_set_forgets(
    s: StoreModel,
    key: Seq<u8>,
    fs: Set<Seq<u8>>,
    f: Seq<u8>,
    d: u64,
)
    requires
        !key_due(purged(s, key), key, read_now(s)),
    ensures
        fs.contains(f) ==> endless(hash_opened(s, key, fs), key, f),
        !fs.contains(f) && ends_at(purged(s, key), key, f, d) ==> ends_at(
            hash_opened(s, key, fs),
            key,
            f,
            d,
        ),
        hash_opened(s, key, fs).slots == purged(s, key).slots,
{
    let p = purged(s, key);
    let t = untimed(p, key, fs);
    assert(read_now(p) == read_now(s));
    if p.ttls.dom().contains(key) && p.ttls[key].dom().contains(f) && !fs.contains(f) {
        assert(p.ttls[key].remove_keys(fs).dom().contains(f));
    }
}

/// After several sets a field has the value that it was given last, or the
/// one that it had.
pub proof fn lemma_last_set(
    h: Map<Seq<u8>, Seq<u8>>,
    ps: Seq<(Seq<u8>, Seq<u8>)>,
    f: Seq<u8>,
    i: int,
)
    ensures
        0 <= i < ps.len() && ps[i].0 == f && (forall|j: int|
            i < j < ps.len() ==> (#[trigger] ps[j]).0 != f) ==> field_of(overlaid(h, ps), f)
            == Some(ps[i].1),
        (forall|j: int| 0 <= j < ps.len() ==> (#[trigger] ps[j]).0 != f) ==> field_of(
            overlaid(h, ps),
            f,
        ) == field_of(h, f),
    decreases ps.len(),
{
    if ps.len() > 0 {
        let d = ps.drop_last();
        lemma_last_set(h, d, f, i);
        assert(ps.last() == ps[ps.len() - 1]);
        assert forall|j: int| 0 <= j < d.len() implies #[trigger] d[j] == ps[j] by {}
    }
}

/// A set of fields makes the hash if the key is not there, and otherwise
/// leaves its deadline.
pub proof fn lemma_hash_made(s: StoreModel, key: Seq<u8>, h: Map<Seq<u8>, Seq<u8>>)
    ensures
        hash_at(rehashed(s, key, h), key) == Ok::<Option<Map<Seq<u8>, Seq<u8>>>, StoreError>(
            Some(h),
        ),
        rehashed(s, key, h).slots[key].expire == (if s.slots.dom().contains(key) {
            s.slots[key].expire
        } else {
            None
        }),
        refielded(s, key, h).slots.dom().contains(key) <==> h != Map::<Seq<u8>, Seq<u8>>::empty(),
{
}

/// Removing fields removes those and no others; a hash that has lost its last
/// field takes its key along.
pub proof fn lemma_remove_fields(s: StoreModel, key: Seq<u8>, fs: Set<Seq<u8>>, f: Seq<u8>)
    requires
        !key_due(s, key, s.now),
    ensures
        has_field(unfielded(s, key, fs), key, f) <==> has_field(s, key, f) && !fs.contains(f),
        has_field(unfielded(s, key, fs), key, f) ==> unfielded(s, key, fs).slots[key].value->Hash_0[f]
            == s.slots[key].value->Hash_0[f],
        hash_at(s, key) matches Ok(Some(h)) ==> (unfielded(s, key, fs).slots.dom().contains(key)
            <==> exists|g: Seq<u8>| #[trigger] h.dom().contains(g) && !fs.contains(g)),
{
    if let Ok(Some(h)) = hash_at(s, key) {
        let m = h.remove_keys(fs);
        if m == Map::<Seq<u8>, Seq<u8>>::empty() {
            assert forall|g: Seq<u8>| #[trigger] h.dom().contains(g) implies fs.contains(g) by {
                if !fs.contains(g) {
                    assert(m.dom().contains(g));
                }
            }
        } else {
            if forall|g: Seq<u8>| #[trigger] h.dom().contains(g) ==> fs.contains(g) {
                assert(m =~= Map::<Seq<u8>, Seq<u8>>::empty());
            }
        }
    }
}

/// An increment adds to the number that a field holds, or starts from 0. It
/// is refused where the field holds no number, or where the sum does not fit.
pub proof fn lemma_increment(h: Map<Seq<u8>, Seq<u8>>, f: Seq<u8>, n: i64, delta: i64)
    ensures
        !h.dom().contains(f) ==> hincr_result(Some(h), f, delta) == Ok::<i64, StoreError>(delta),
        hincr_result(None, f, delta) == Ok::<i64, StoreError>(delta),
        i64::MIN <= n + delta <= i64::MAX ==> hincr_result(
            Some(h.insert(f, crate::text::decimal(n as int))),
            f,
            delta,
        ) == Ok::<i64, StoreError>((n + delta) as i64),
        !(i64::MIN <= n + delta <= i64::MAX) ==> hincr_result(
            Some(h.insert(f, crate::text::decimal(n as int))),
            f,
            delta,
        ) == Err::<i64, StoreError>(StoreError::Overflow),
{
    crate::text::lemma_decimal_roundtrip(n);
}

/// Fields and values in turn: each field is followed by its value.
pub proof fn lemma_in_turn(ps: Seq<(Seq<u8>, Seq<u8>)>, i: int)
    requires
        0 <= i < ps.len(),
    ensures
        alternating(ps).len() == 2 * ps.len(),
        alternating(ps)[2 * i] == ps[i].0,
        alternating(ps)[2 * i + 1] == ps[i].1,
{
    assert((2 * i) / 2 == i && (2 * i) % 2 == 0);
    assert((2 * i + 1) / 2 == i && (2 * i + 1) % 2 == 1);
}

/// A positive count asks for so many fields, but no more than there are; a
/// negative one for exactly as many draws as it says.
pub proof fn lemma_asked(count: i64, n: nat)
    ensures
        n > 0 && count < 0 ==> asked(count, n) == -count,
        0 <= count <= n ==> asked(count, n) == count,
        count >= n ==> asked(count, n) == n,
        asked(count, 0) == 0,
{
}

/// Fields are told with their values where that is asked, and alone where it
/// is not.
pub proof fn lemma_told_values(fs: Seq<Seq<u8>>, h: Map<Seq<u8>, Seq<u8>>, i: int)
    requires
        0 <= i < fs.len(),
    ensures
        with_values_of(fs, h, true).len() == fs.len(),
        with_values_of(fs, h, false).len() == fs.len(),
        with_values_of(fs, h, true)[i] == (fs[i], h[fs[i]]),
        with_values_of(fs, h, false)[i].0 == fs[i],
        with_values_of(fs, h, false)[i].1.len() == 0,
{
}

} // verus!
