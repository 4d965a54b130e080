//! Lists, sets, sorted sets, hashes and streams under keys: what is stored is
//! what is found, nothing empty stays, and one kind is not taken for another.
use vstd::prelude::*;
use crate::entry::Slot;
use crate::score::Score;
use crate::store::hash_ttl::{hash_at, refielded};
use crate::store::hashes::hash_read;
use crate::store::lists::{list_at, relisted};
use crate::store::sets::{picks, remembered, repeats, set_at};
use crate::store::streams::{restreamed, stream_at, with_stream};
use crate::store::strings::string_at;
use crate::store::zsets::{resorted, zset_at};
use crate::store::{dropped, key_live, read_now, StoreModel};
use crate::stream::StreamModel;
use crate::types::StoreError;
use crate::value::Val;

verus! {

/// What is stored under a key is what is found there, and an empty collection
/// leaves no key.
pub proof fn lemma_stored_found(
    s: StoreModel,
    key: Seq<u8>,
    l: Seq<Seq<u8>>,
    m: Set<Seq<u8>>,
    z: Map<Seq<u8>, Score>,
    h: Map<Seq<u8>, Seq<u8>>,
    x: StreamModel,
)
    ensures
        l.len() > 0 ==> list_at(relisted(s, key, l), key) == Ok::<
            Option<Seq<Seq<u8>>>,
            StoreError,
        >(Some(l)),
        l.len() == 0 ==> !relisted(s, key, l).slots.dom().contains(key),
        (exists|k: Seq<u8>| #[trigger] m.contains(k)) ==> set_at(remembered(s, key, m), key)
            == Ok::<Option<Set<Seq<u8>>>, StoreError>(Some(m)),
        (forall|k: Seq<u8>| !#[trigger] m.contains(k)) ==> !remembered(
            s,
            key,
            m,
        ).slots.dom().contains(key),
        (exists|k: Seq<u8>| #[trigger] z.dom().contains(k)) ==> zset_at(resorted(s, key, z), key)
            == Ok::<Option<Map<Seq<u8>, Score>>, StoreError>(Some(z)),
        (forall|k: Seq<u8>| !#[trigger] z.dom().contains(k)) ==> !resorted(
            s,
            key,
            z,
        ).slots.dom().contains(key),
        (exists|k: Seq<u8>| #[trigger] h.dom().contains(k)) ==> hash_at(refielded(s, key, h), key)
            == Ok::<Option<Map<Seq<u8>, Seq<u8>>>, StoreError>(Some(h)),
        (forall|k: Seq<u8>| !#[trigger] h.dom().contains(k)) ==> !refielded(
            s,
            key,
            h,
        ).slots.dom().contains(key),
        stream_at(restreamed(s, key, x), key) == Ok::<Option<StreamModel>, StoreError>(Some(x)),
{
    if forall|k: Seq<u8>| !#[trigger] m.contains(k) {
        assert(m =~= Set::empty());
    }
    if forall|k: Seq<u8>| !#[trigger] z.dom().contains(k) {
        assert(z =~= Map::empty());
    }
    if forall|k: Seq<u8>| !#[trigger] h.dom().contains(k) {
        assert(h =~= Map::empty());
    }
    if exists|k: Seq<u8>| #[trigger] m.contains(k) {
        assert(m != Set::<Seq<u8>>::empty());
    }
    if exists|k: Seq<u8>| #[trigger] z.dom().contains(k) {
        let k = choose|k: Seq<u8>| #[trigger] z.dom().contains(k);
        assert(!Map::<Seq<u8>, Score>::empty().dom().contains(k));
    }
    if exists|k: Seq<u8>| #[trigger] h.dom().contains(k) {
        let k = choose|k: Seq<u8>| #[trigger] h.dom().contains(k);
        assert(!Map::<Seq<u8>, Seq<u8>>::empty().dom().contains(k));
    }
}

/// Storing a collection leaves every other key, its deadline, and the
/// deadline of the key itself.
pub proof fn lemma_others_stay(
    s: StoreModel,
    key: Seq<u8>,
    l: Seq<Seq<u8>>,
    m: Set<Seq<u8>>,
    z: Map<Seq<u8>, Score>,
    h: Map<Seq<u8>, Seq<u8>>,
    other: Seq<u8>,
)
    requires
        s.slots.dom().contains(other),
    ensures
        other != key ==> relisted(s, key, l).slots[other] == s.slots[other] && relisted(
            s,
            key,
            l,
        ).slots.dom().contains(other),
        other != key ==> remembered(s, key, m).slots[other] == s.slots[other] && remembered(
            s,
            key,
            m,
        ).slots.dom().contains(other),
        other != key ==> resorted(s, key, z).slots[other] == s.slots[other] && resorted(
            s,
            key,
            z,
        ).slots.dom().contains(other),
        other != key ==> refielded(s, key, h).slots[other] == s.slots[other] && refielded(
            s,
            key,
            h,
        ).slots.dom().contains(other),
        relisted(s, key, l).slots.dom().contains(key) ==> relisted(s, key, l).slots[key].expire
            == s.slots[key].expire,
        remembered(s, key, m).slots.dom().contains(key) ==> remembered(s, key, m).slots[key].expire
            == s.slots[key].expire,
        resorted(s, key, z).slots.dom().contains(key) ==> resorted(s, key, z).slots[key].expire
            == s.slots[key].expire,
        refielded(s, key, h).slots.dom().contains(key) ==> refielded(s, key, h).slots[key].expire
            == s.slots[key].expire,
{
}

/// A key that is not there has nothing of any kind, and what is of one kind
/// is refused as every other.
pub proof fn lemma_one_kind(s: StoreModel, key: Seq<u8>)
    ensures
        !s.slots.dom().contains(key) ==> list_at(s, key) == Ok::<
            Option<Seq<Seq<u8>>>,
            StoreError,
        >(None) && set_at(s, key) == Ok::<Option<Set<Seq<u8>>>, StoreError>(None) && zset_at(s, key)
            == Ok::<Option<Map<Seq<u8>, Score>>, StoreError>(None) && hash_at(s, key) == Ok::<
            Option<Map<Seq<u8>, Seq<u8>>>,
            StoreError,
        >(None) && stream_at(s, key) == Ok::<Option<StreamModel>, StoreError>(None) && string_at(
            s,
            key,
        ) == Ok::<Option<Seq<u8>>, StoreError>(None),
        list_at(s, key) matches Ok(Some(_l)) ==> set_at(s, key) is Err && zset_at(s, key) is Err
            && hash_at(s, key) is Err && stream_at(s, key) is Err && string_at(s, key) is Err,
        set_at(s, key) matches Ok(Some(_m)) ==> list_at(s, key) is Err && zset_at(s, key) is Err
            && hash_at(s, key) is Err && stream_at(s, key) is Err && string_at(s, key) is Err,
        zset_at(s, key) matches Ok(Some(_z)) ==> list_at(s, key) is Err && set_at(s, key) is Err
            && hash_at(s, key) is Err && stream_at(s, key) is Err && string_at(s, key) is Err,
        hash_at(s, key) matches Ok(Some(_h)) ==> list_at(s, key) is Err && set_at(s, key) is Err
            && zset_at(s, key) is Err && stream_at(s, key) is Err && string_at(s, key) is Err,
        stream_at(s, key) matches Ok(Some(_x)) ==> list_at(s, key) is Err && set_at(s, key) is Err
            && zset_at(s, key) is Err && hash_at(s, key) is Err && string_at(s, key) is Err,
        string_at(s, key) matches Ok(Some(_b)) ==> list_at(s, key) is Err && set_at(s, key) is Err
            && zset_at(s, key) is Err && hash_at(s, key) is Err && stream_at(s, key) is Err,
        list_at(s, key) matches Err(e) ==> e == StoreError::WrongType,
        set_at(s, key) matches Err(e) ==> e == StoreError::WrongType,
        zset_at(s, key) matches Err(e) ==> e == StoreError::WrongType,
        stream_at(s, key) matches Err(e) ==> e == StoreError::WrongType,
{
}

/// A command that needs a stream finds the one that is there, or makes an
/// empty one without a deadline, whose first entry may have any id above 0.
pub proof fn lemma_stream_made(s: StoreModel, key: Seq<u8>)
    ensures
        key_live(s, key, read_now(s)) ==> with_stream(s, key) == s,
        !key_live(s, key, read_now(s)) ==> with_stream(s, key).slots[key].expire is None && (
        stream_at(with_stream(s, key), key) matches Ok(Some(x)) && x.entries.dom() == Set::<
            crate::stream_id::StreamId,
        >::empty() && x.groups.dom() == Set::<Seq<u8>>::empty() && x.added == 0 && x.last_id.ms == 0
            && x.last_id.seq == 0),
{
    let x = crate::stream::empty_stream();
    assert(x.entries.dom() =~= Set::<crate::stream_id::StreamId>::empty());
    assert(x.groups.dom() =~= Set::<Seq<u8>>::empty());
}

/// A read finds the fields of a hash whose deadlines have not come, with
/// their values, and no others.
pub proof fn lemma_fields_read(s: StoreModel, key: Seq<u8>, h: Map<Seq<u8>, Seq<u8>>, f: Seq<u8>)
    requires
        s.slots.dom().contains(key),
        s.slots[key] == (Slot { value: Val::Hash(h), expire: None }),
        h.dom().contains(f),
    ensures
        s.ttls.dom().contains(key) && s.ttls[key].dom().contains(f) && s.ttls[key][f] <= s.wall
            ==> !(hash_read(s, key) matches Ok(Some(g)) && g.dom().contains(f)),
        !(s.ttls.dom().contains(key) && s.ttls[key].dom().contains(f) && s.ttls[key][f] <= s.wall)
            ==> (hash_read(s, key) matches Ok(Some(g)) && g.dom().contains(f) && g[f] == h[f]),
{
    let due = crate::store::hash_ttl::fields_due(s, key);
    if due == Set::<Seq<u8>>::empty() {
        assert(!due.contains(f));
    } else {
        let t = crate::store::hash_ttl::untimed(s, key, due);
        let g = h.remove_keys(due);
        assert(crate::store::hash_ttl::purged(s, key) == refielded(t, key, g));
        if !due.contains(f) {
            assert(g.dom().contains(f));
            assert(g != Map::<Seq<u8>, Seq<u8>>::empty());
        }
    }
}

/// A draw without repeats gives different members, and one with repeats gives
/// members only, as many as were asked for.
pub proof fn lemma_draws(order: Seq<Seq<u8>>, k: nat, state: u64, i: int)
    requires
        order.no_duplicates(),
        0 < order.len() <= u64::MAX,
    ensures
        k <= order.len() ==> picks(order, k, state).len() == k && picks(
            order,
            k,
            state,
        ).no_duplicates() && picks(order, k, state).to_set().subset_of(order.to_set()),
        repeats(order, k, state).len() == k,
        0 <= i < k ==> order.contains(repeats(order, k, state)[i]),
{
    if k <= order.len() {
        crate::store::sets::lemma_picked(order, k, crate::store::sets::draws_of(state, k));
    }
    if 0 <= i < k {
        let d = crate::store::sets::draws_of(state, k)[i];
        super::numbers::lemma_scaled(d, d, order.len() as u64, 0);
    }
}

/// Dropping a key leaves nothing of any kind under it.
pub proof fn lemma_dropped(s: StoreModel, key: Seq<u8>)
    ensures
        list_at(dropped(s, key), key) == Ok::<Option<Seq<Seq<u8>>>, StoreError>(None),
        hash_at(dropped(s, key), key) == Ok::<Option<Map<Seq<u8>, Seq<u8>>>, StoreError>(None),
        crate::store::hash_ttl::field_deadline(dropped(s, key), key, key) is None,
{
}

} // verus!
