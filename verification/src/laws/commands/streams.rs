//! Commands on streams.
use vstd::prelude::*;
use crate::laws::streams::number;
use crate::store::Store;
use crate::stream::{EntryBatch, StreamData, StreamModel};
use crate::stream_group::{GroupCreateMode, ReadGroupId};
use crate::stream_id::{StreamId, XAddIdSpec};
use crate::stream_read::FieldList;
use crate::types::StoreError;
use crate::value::Val;
use super::{holds, lacks, others_kept};

verus! {

/// A new group starts at the last id of the stream, or at the id that it is
/// given, with nothing pending; a group that is there stays as it is. Other
/// groups and the entries stay.
pub proof fn lemma_group_create(
    s: &mut StreamData,
    name: &[u8],
    mode: GroupCreateMode,
    r: Result<bool, StoreError>,
    other: Seq<u8>,
)
    requires
        call_ensures(StreamData::group_create, (s, name, mode), r),
    ensures
        r == Ok::<bool, StoreError>(!old(s)@.groups.dom().contains(name@)),
        final(s)@.groups.dom().contains(name@),
        !old(s)@.groups.dom().contains(name@) && mode is AtCurrent ==> number(
            final(s)@.groups[name@].last_delivered,
        ) == number(old(s)@.last_id),
        !old(s)@.groups.dom().contains(name@) ==> (mode matches GroupCreateMode::AtId(id)
            ==> final(s)@.groups[name@].last_delivered == id),
        !old(s)@.groups.dom().contains(name@) ==> final(s)@.groups[name@].pel.dom() == Set::<
            StreamId,
        >::empty() && final(s)@.groups[name@].consumers.dom() == Set::<Seq<u8>>::empty(),
        old(s)@.groups.dom().contains(name@) ==> final(s)@.groups[name@] == old(s)@.groups[name@],
        other != name@ ==> final(s)@.groups.dom().contains(other) == old(s)@.groups.dom().contains(
            other,
        ) && final(s)@.groups[other] == old(s)@.groups[other],
        final(s)@.entries == old(s)@.entries,
        final(s)@.last_id == old(s)@.last_id,
{
    let g = crate::stream_ops::fresh_group(old(s)@.last_id);
    assert(g.pel.dom() =~= Set::<StreamId>::empty());
    assert(g.consumers.dom() =~= Set::<Seq<u8>>::empty());
    let h = final(s)@.groups[name@];
    assert(!old(s)@.groups.dom().contains(name@) ==> h.pel.dom() =~= Set::<StreamId>::empty()
        && h.consumers.dom() =~= Set::<Seq<u8>>::empty());
}

/// A group is moved to the last id of the stream, or to the id that is given;
/// what is pending stays pending. Without such a group nothing changes.
pub proof fn lemma_group_setid(s: &mut StreamData, name: &[u8], mode: GroupCreateMode, r: bool)
    requires
        call_ensures(StreamData::group_setid, (s, name, mode), r),
    ensures
        r == old(s)@.groups.dom().contains(name@),
        !r ==> final(s)@ == old(s)@,
        r && mode is AtCurrent ==> number(final(s)@.groups[name@].last_delivered) == number(
            old(s)@.last_id,
        ),
        r ==> (mode matches GroupCreateMode::AtId(id) ==> final(s)@.groups[name@].last_delivered
            == id),
        r ==> final(s)@.groups[name@].pel == old(s)@.groups[name@].pel
            && final(s)@.groups[name@].consumers == old(s)@.groups[name@].consumers,
        final(s)@.entries == old(s)@.entries,
{
}

/// The same of a group of the stream under a key: it starts at the last id of
/// the stream that is there.
pub proof fn lemma_xgroup_create(
    s: &mut Store,
    key: &[u8],
    group: &[u8],
    mkstream: bool,
    r: Result<bool, StoreError>,
    m: StreamModel,
)
    requires
        call_ensures(Store::xgroup_create, (s, key, group, GroupCreateMode::AtCurrent, mkstream), r),
    ensures
        holds(*old(s), key@, Val::Stream(m)) ==> r == Ok::<bool, StoreError>(
            !m.groups.dom().contains(group@),
        ) && (final(s)@.slots[key@].value matches Val::Stream(n) && n.entries == m.entries
            && n.last_id == m.last_id && n.groups.dom().contains(group@) && (
        !m.groups.dom().contains(group@) ==> number(n.groups[group@].last_delivered) == number(
            m.last_id,
        ))),
        lacks(*old(s), key@) && !mkstream ==> r == Err::<bool, StoreError>(StoreError::NoSuchKey)
            && !final(s)@.slots.dom().contains(key@),
        lacks(*old(s), key@) && mkstream ==> r == Ok::<bool, StoreError>(true) && (
        final(s)@.slots[key@].value matches Val::Stream(n) && n.entries.dom().len() == 0
            && n.groups.dom().contains(group@)),
        others_kept(*old(s), *final(s), key@),
{
    let x = crate::stream::empty_stream();
    assert(x.entries.dom() =~= Set::<StreamId>::empty());
}

/// Moving a group of the stream under a key to its end.
pub proof fn lemma_xgroup_setid(
    s: &mut Store,
    key: &[u8],
    group: &[u8],
    r: Result<bool, StoreError>,
    m: StreamModel,
)
    requires
        call_ensures(Store::xgroup_setid, (s, key, group, GroupCreateMode::AtCurrent), r),
        holds(*old(s), key@, Val::Stream(m)),
    ensures
        r == Ok::<bool, StoreError>(m.groups.dom().contains(group@)),
        m.groups.dom().contains(group@) ==> (final(s)@.slots[key@].value matches Val::Stream(n)
            && number(n.groups[group@].last_delivered) == number(m.last_id)
            && n.groups[group@].pel == m.groups[group@].pel),
        others_kept(*old(s), *final(s), key@),
{
}

/// An entry that is added gets an id above all before it, and the stream has
/// it besides those that it had; an id that is not above is refused.
pub proof fn lemma_xadd(
    s: &mut Store,
    key: &[u8],
    spec: XAddIdSpec,
    fields: Vec<(Vec<u8>, Vec<u8>)>,
    nomkstream: bool,
    now: u64,
    r: Result<Option<StreamId>, StoreError>,
    m: StreamModel,
)
    requires
        call_ensures(Store::xadd, (s, key, spec, fields, nomkstream, now), r),
        holds(*old(s), key@, Val::Stream(m)),
        m.added < u64::MAX,
    ensures
        r matches Ok(o) ==> (o matches Some(id) && number(id) > number(m.last_id) && (
        final(s)@.slots[key@].value matches Val::Stream(n) && n.entries == m.entries.insert(
            id,
            crate::bytes::deep_pairs(fields@),
        ) && n.last_id == id && n.added == m.added + 1 && n.groups == m.groups)),
        spec matches XAddIdSpec::Explicit(id) ==> (r is Ok <==> number(id) > number(m.last_id)) && (
        r matches Ok(o) ==> o == Some(id)),
        spec is AutoAll && now > m.last_id.ms ==> r == Ok::<Option<StreamId>, StoreError>(
            Some(StreamId { ms: now, seq: 0 }),
        ),
        r matches Err(e) ==> e == StoreError::OutOfRange && final(s)@.slots == old(s)@.slots,
        others_kept(*old(s), *final(s), key@),
{
    crate::laws::streams::lemma_ids_are_numbers(m.last_id, m.last_id);
    if let Ok(Some(id)) = r {
        crate::stream::lemma_resolved_behind(m.last_id, spec, now);
        crate::laws::streams::lemma_ids_are_numbers(m.last_id, id);
    }
    if let XAddIdSpec::Explicit(id) = spec {
        crate::laws::streams::lemma_ids_are_numbers(m.last_id, id);
    }
}

/// A stream tells how many entries it has, and its last id; one that is not
/// there has none, and 0 for its last id.
pub proof fn lemma_xlen(
    s: &mut Store,
    key: &[u8],
    r: Result<u64, StoreError>,
    m: StreamModel,
)
    requires
        call_ensures(Store::xlen, (s, key), r),
    ensures
        holds(*old(s), key@, Val::Stream(m)) ==> (r matches Ok(n) && n == m.entries.dom().len())
            && final(s)@ == old(s)@,
        lacks(*old(s), key@) ==> r == Ok::<u64, StoreError>(0),
{
}

/// The last id of a stream, which reads of what is to come start behind.
pub proof fn lemma_xread_dollar(
    s: &mut Store,
    key: &[u8],
    r: Result<StreamId, StoreError>,
    m: StreamModel,
)
    requires
        call_ensures(Store::xread_dollar_last_id, (s, key), r),
    ensures
        holds(*old(s), key@, Val::Stream(m)) ==> r == Ok::<StreamId, StoreError>(m.last_id),
        lacks(*old(s), key@) ==> (r matches Ok(id) && id.ms == 0 && id.seq == 0),
{
}

/// Deleting entries takes just those that are named and there, and counts
/// them; the last id stays.
pub proof fn lemma_xdel(
    s: &mut Store,
    key: &[u8],
    ids: &[StreamId],
    r: Result<u64, StoreError>,
    m: StreamModel,
    id: StreamId,
)
    requires
        call_ensures(Store::xdel, (s, key, ids), r),
        holds(*old(s), key@, Val::Stream(m)),
    ensures
        final(s)@.slots[key@].value matches Val::Stream(n) && (n.entries.dom().contains(id)
            <==> m.entries.dom().contains(id) && !ids@.contains(id)) && (n.entries.dom().contains(id)
            ==> n.entries[id] == m.entries[id]) && n.last_id == m.last_id && n.added == m.added,
        r matches Ok(n) && n == m.entries.dom().filter(|i: StreamId| ids@.contains(i)).len(),
        others_kept(*old(s), *final(s), key@),
{
    assert(m.entries.dom().intersect(ids@.to_set()) =~= m.entries.dom().filter(
        |i: StreamId| ids@.contains(i),
    ));
}

/// A stream that is cut to a length keeps its newest entries.
pub proof fn lemma_xtrim_maxlen(
    s: &mut Store,
    key: &[u8],
    maxlen: u64,
    r: Result<u64, StoreError>,
    m: StreamModel,
    a: StreamId,
    b: StreamId,
)
    requires
        call_ensures(Store::xtrim_maxlen, (s, key, maxlen), r),
        holds(*old(s), key@, Val::Stream(m)),
        m.entries.dom().finite(),
        m.entries.dom().contains(a),
        m.entries.dom().contains(b),
        number(a) < number(b),
    ensures
        final(s)@.slots[key@].value matches Val::Stream(n) && n.entries.dom().len() == (
        if m.entries.dom().len() <= maxlen {
            m.entries.dom().len()
        } else {
            maxlen as nat
        }) && (n.entries.dom().contains(a) ==> n.entries.dom().contains(b)),
        r matches Ok(k) && k == (if m.entries.dom().len() <= maxlen {
            0int
        } else {
            m.entries.dom().len() - maxlen
        }),
        others_kept(*old(s), *final(s), key@),
{
    crate::laws::streams::lemma_trim_to_length(m, maxlen);
    let k = crate::store::streams::trimmed(m, maxlen);
    crate::laws::streams::lemma_trim(m, k, b, a);
}

/// Acknowledged entries are pending no more, and no others are touched.
pub proof fn lemma_xack(
    s: &mut Store,
    key: &[u8],
    group: &[u8],
    ids: &[StreamId],
    r: Result<u64, StoreError>,
    m: StreamModel,
    id: StreamId,
)
    requires
        call_ensures(Store::xack, (s, key, group, ids), r),
        holds(*old(s), key@, Val::Stream(m)),
        m.groups.dom().contains(group@),
    ensures
        final(s)@.slots[key@].value matches Val::Stream(n) && (n.groups[group@].pel.dom().contains(
            id,
        ) <==> m.groups[group@].pel.dom().contains(id) && !ids@.contains(id))
            && n.groups[group@].last_delivered == m.groups[group@].last_delivered && n.entries
            == m.entries,
        others_kept(*old(s), *final(s), key@),
{
}

/// A group has something new to read just if the last id that it was handed
/// is below the last id of the stream.
pub proof fn lemma_has_new(
    s: &mut Store,
    key: &[u8],
    group: &[u8],
    r: Result<bool, StoreError>,
    m: StreamModel,
)
    requires
        call_ensures(Store::xreadgroup_has_new, (s, key, group), r),
        holds(*old(s), key@, Val::Stream(m)),
    ensures
        r == Ok::<bool, StoreError>(
            m.groups.dom().contains(group@) && number(m.groups[group@].last_delivered) < number(
                m.last_id,
            ),
        ),
{
    crate::laws::streams::lemma_ids_are_numbers(m.groups[group@].last_delivered, m.last_id);
}

/// The last id of a stream may be set to any that is not below that of an
/// entry.
pub proof fn lemma_xsetid(
    s: &mut Store,
    key: &[u8],
    id: StreamId,
    r: Result<(), StoreError>,
    m: StreamModel,
    e: StreamId,
)
    requires
        call_ensures(Store::xsetid, (s, key, id, None::<u64>, None::<StreamId>), r),
        holds(*old(s), key@, Val::Stream(m)),
        m.entries.dom().finite(),
        m.entries.dom().contains(e),
    ensures
        number(id) < number(e) ==> r == Err::<(), StoreError>(StoreError::OutOfRange)
            && final(s)@.slots == old(s)@.slots,
        r is Ok ==> (final(s)@.slots[key@].value matches Val::Stream(n) && n.last_id == id
            && n.entries == m.entries && n.added == m.added && n.groups == m.groups),
        others_kept(*old(s), *final(s), key@),
{
    crate::laws::streams::lemma_setid(m, id, e);
}

/// A range gives the entries from its start to its end, both with them, each
/// with its fields, the earliest first.
pub proof fn lemma_xrange(
    s: &mut Store,
    key: &[u8],
    a: StreamId,
    b: StreamId,
    r: Result<EntryBatch, StoreError>,
    m: StreamModel,
    id: StreamId,
)
    requires
        call_ensures(Store::xrange, (s, key, a, b, None::<usize>), r),
        holds(*old(s), key@, Val::Stream(m)),
        m.entries.dom().finite(),
    ensures
        r is Ok,
        listed(r->Ok_0@, id) <==> m.entries.dom().contains(id) && number(a) <= number(id) <= number(
            b,
        ),
        with_fields(r->Ok_0@, m),
        forall|i: int, j: int|
            #![trigger r->Ok_0@[i], r->Ok_0@[j]]
            0 <= i < j < r->Ok_0@.len() ==> number(r->Ok_0@[i].0) < number(r->Ok_0@[j].0),
        final(s)@ == old(s)@,
{
    let q = crate::id_map::ids_between(m.entries.dom(), a, b);
    crate::laws::streams::lemma_between(m.entries.dom(), a, b);
    crate::laws::streams::lemma_limit(q, 0);
    lemma_batch(r->Ok_0@, q, id);
    lemma_rising(r->Ok_0@, q);
}

/// The same range turned round gives the same entries, the latest first.
pub proof fn lemma_xrevrange(
    s: &mut Store,
    key: &[u8],
    a: StreamId,
    b: StreamId,
    r: Result<EntryBatch, StoreError>,
    m: StreamModel,
    id: StreamId,
)
    requires
        call_ensures(Store::xrevrange, (s, key, a, b, None::<usize>), r),
        holds(*old(s), key@, Val::Stream(m)),
        m.entries.dom().finite(),
    ensures
        r is Ok,
        listed(r->Ok_0@, id) <==> m.entries.dom().contains(id) && number(a) <= number(id) <= number(
            b,
        ),
        with_fields(r->Ok_0@, m),
        forall|i: int, j: int|
            #![trigger r->Ok_0@[i], r->Ok_0@[j]]
            0 <= i < j < r->Ok_0@.len() ==> number(r->Ok_0@[i].0) > number(r->Ok_0@[j].0),
        final(s)@ == old(s)@,
{
    let q = crate::id_map::ids_between(m.entries.dom(), a, b);
    let t = q.reverse();
    crate::laws::streams::lemma_between(m.entries.dom(), a, b);
    crate::laws::streams::lemma_limit(t, 0);
    lemma_batch(r->Ok_0@, t, id);
    assert(t.contains(id) <==> q.contains(id)) by {
        if t.contains(id) {
            let i = choose|i: int| 0 <= i < t.len() && t[i] == id;
            assert(q[q.len() - 1 - i] == id);
        }
        if q.contains(id) {
            let i = choose|i: int| 0 <= i < q.len() && q[i] == id;
            assert(t[q.len() - 1 - i] == id);
        }
    }
    let v = r->Ok_0@;
    assert forall|i: int, j: int|
        #![trigger v[i], v[j]]
        0 <= i < j < v.len() implies number(v[i].0) > number(v[j].0) by {
        let x = q[q.len() - 1 - j];
        let y = q[q.len() - 1 - i];
        assert(v[i].0 == t[i] && v[j].0 == t[j]);
        assert(crate::stream_id::id_lt(x, y));
        crate::laws::streams::lemma_ids_are_numbers(x, y);
    }
}

/// A read gives the entries behind an id, the earliest first.
pub proof fn lemma_xread(
    s: &mut Store,
    key: &[u8],
    a: StreamId,
    r: Result<EntryBatch, StoreError>,
    m: StreamModel,
    id: StreamId,
)
    requires
        call_ensures(Store::xread, (s, key, a, None::<usize>), r),
        holds(*old(s), key@, Val::Stream(m)),
        m.entries.dom().finite(),
    ensures
        r is Ok,
        listed(r->Ok_0@, id) <==> m.entries.dom().contains(id) && number(a) < number(id),
        with_fields(r->Ok_0@, m),
        forall|i: int, j: int|
            #![trigger r->Ok_0@[i], r->Ok_0@[j]]
            0 <= i < j < r->Ok_0@.len() ==> number(r->Ok_0@[i].0) < number(r->Ok_0@[j].0),
        final(s)@ == old(s)@,
{
    let q = crate::id_map::ids_after(m.entries.dom(), a);
    crate::laws::streams::lemma_behind(m.entries.dom(), a);
    crate::laws::streams::lemma_limit(q, 0);
    lemma_batch(r->Ok_0@, q, id);
    lemma_rising(r->Ok_0@, q);
}

/// A group read of what is new gives just the entries behind where the group
/// stands; they are then pending for the reader, unless they need not be
/// acknowledged, and the group stands behind them.
pub proof fn lemma_xreadgroup(
    s: &mut Store,
    key: &[u8],
    group: &[u8],
    who: &[u8],
    noack: bool,
    now: u64,
    r: Result<EntryBatch, StoreError>,
    m: StreamModel,
    id: StreamId,
)
    requires
        call_ensures(
            Store::xreadgroup,
            (s, key, group, who, ReadGroupId::New, None::<usize>, noack, now),
            r,
        ),
        holds(*old(s), key@, Val::Stream(m)),
        m.groups.dom().contains(group@),
        m.entries.dom().finite(),
    ensures
        r is Ok,
        listed(r->Ok_0@, id) <==> m.entries.dom().contains(id) && number(
            m.groups[group@].last_delivered,
        ) < number(id),
        with_fields(r->Ok_0@, m),
        final(s)@.slots[key@].value matches Val::Stream(n) && n.entries == m.entries && (listed(
            r->Ok_0@,
            id,
        ) && !noack ==> n.groups[group@].pel.dom().contains(id) && n.groups[group@].pel[id].consumer
            == who@ && n.groups[group@].pel[id].time == now) && (noack || !listed(r->Ok_0@, id)
            ==> n.groups[group@].pel.dom().contains(id) == m.groups[group@].pel.dom().contains(id))
            && (r->Ok_0@.len() > 0 ==> n.groups[group@].last_delivered == r->Ok_0@.last().0) && (
        r->Ok_0@.len() == 0 ==> n.groups[group@].last_delivered == m.groups[group@].last_delivered)
            && n.groups[group@].consumers.dom().contains(who@),
        others_kept(*old(s), *final(s), key@),
{
    let at = m.groups[group@].last_delivered;
    let q = crate::id_map::ids_after(m.entries.dom(), at);
    crate::laws::streams::lemma_behind(m.entries.dom(), at);
    crate::laws::streams::lemma_limit(q, 0);
    lemma_batch(r->Ok_0@, q, id);
    if q.len() > 0 {
        assert(r->Ok_0@[q.len() - 1].0 == q[q.len() - 1]);
    }
}

/// Whether an entry is among those that are given.
pub open spec fn listed(v: Seq<(StreamId, FieldList)>, id: StreamId) -> bool {
    exists|i: int| 0 <= i < v.len() && (#[trigger] v[i]).0 == id
}

/// Whether entries are given with their fields.
pub open spec fn with_fields(v: Seq<(StreamId, FieldList)>, m: StreamModel) -> bool {
    forall|i: int|
        0 <= i < v.len() ==> crate::bytes::deep_pairs((#[trigger] v[i]).1@) == m.entries[v[i].0]
}

proof fn lemma_batch(v: Seq<(StreamId, FieldList)>, q: Seq<StreamId>, id: StreamId)
    requires
        v.len() == q.len(),
        forall|i: int| 0 <= i < v.len() ==> (#[trigger] v[i]).0 == q[i],
    ensures
        listed(v, id) <==> q.contains(id),
{
    if q.contains(id) {
        let i = choose|i: int| 0 <= i < q.len() && q[i] == id;
        assert(v[i].0 == id);
    }
}

proof fn lemma_rising(v: Seq<(StreamId, FieldList)>, q: Seq<StreamId>)
    requires
        v.len() == q.len(),
        forall|i: int| 0 <= i < v.len() ==> (#[trigger] v[i]).0 == q[i],
        crate::id_map::ascending(q),
    ensures
        forall|i: int, j: int|
            #![trigger v[i], v[j]]
            0 <= i < j < v.len() ==> number(v[i].0) < number(v[j].0),
{
    assert forall|i: int, j: int|
        #![trigger v[i], v[j]]
        0 <= i < j < v.len() implies number(v[i].0) < number(v[j].0) by {
        assert(crate::stream_id::id_lt(q[i], q[j]));
        crate::laws::streams::lemma_ids_are_numbers(q[i], q[j]);
    }
}

/// A stream that is cut off at an id keeps just the entries from it on.
pub proof fn lemma_xtrim_minid(
    s: &mut Store,
    key: &[u8],
    floor: StreamId,
    r: Result<u64, StoreError>,
    m: StreamModel,
    id: StreamId,
)
    requires
        call_ensures(Store::xtrim_minid, (s, key, floor), r),
        holds(*old(s), key@, Val::Stream(m)),
        m.entries.dom().finite(),
    ensures
        final(s)@.slots[key@].value matches Val::Stream(n) && (n.entries.dom().contains(id)
            <==> m.entries.dom().contains(id) && number(floor) <= number(id)) && n.last_id
            == m.last_id && (r matches Ok(k) && n.entries.dom().len() + k == m.entries.dom().len()),
        others_kept(*old(s), *final(s), key@),
{
    crate::laws::streams::lemma_trim_to_id(m, floor, id);
    crate::laws::streams::lemma_trim(m, crate::stream::older_than(m, floor) as int, id, id);
}

/// A consumer that leaves takes what was pending for it along, which is told.
pub proof fn lemma_xgroup_del_consumer(
    s: &mut Store,
    key: &[u8],
    group: &[u8],
    who: &[u8],
    r: Result<u64, StoreError>,
    m: StreamModel,
    id: StreamId,
)
    requires
        call_ensures(Store::xgroup_del_consumer, (s, key, group, who), r),
        holds(*old(s), key@, Val::Stream(m)),
        m.groups.dom().contains(group@),
        m.groups[group@].pel.dom().finite(),
    ensures
        final(s)@.slots[key@].value matches Val::Stream(n) && (n.groups[group@].pel.dom().contains(
            id,
        ) <==> m.groups[group@].pel.dom().contains(id) && m.groups[group@].pel[id].consumer
            != who@) && !n.groups[group@].consumers.dom().contains(who@) && n.entries == m.entries,
        r matches Ok(k) && k == m.groups[group@].pel.dom().filter(
            |i: StreamId| m.groups[group@].pel[i].consumer == who@,
        ).len(),
        others_kept(*old(s), *final(s), key@),
{
    crate::laws::streams::lemma_leave(m.groups[group@], who@, id, who@);
    assert(crate::stream_group::rows_of(m.groups[group@].pel, who@)
        =~= m.groups[group@].pel.dom().filter(
        |i: StreamId| m.groups[group@].pel[i].consumer == who@,
    ));
}

/// A consumer that joins is known from then on, once.
pub proof fn lemma_xgroup_create_consumer(
    s: &mut Store,
    key: &[u8],
    group: &[u8],
    who: &[u8],
    now: u64,
    r: Result<bool, StoreError>,
    m: StreamModel,
)
    requires
        call_ensures(Store::xgroup_create_consumer, (s, key, group, who, now), r),
        holds(*old(s), key@, Val::Stream(m)),
        m.groups.dom().contains(group@),
    ensures
        r == Ok::<bool, StoreError>(!m.groups[group@].consumers.dom().contains(who@)),
        final(s)@.slots[key@].value matches Val::Stream(n) && n.groups[group@].consumers.dom().contains(
            who@,
        ) && n.groups[group@].pel == m.groups[group@].pel && n.groups[group@].last_delivered
            == m.groups[group@].last_delivered,
        others_kept(*old(s), *final(s), key@),
{
}

/// A group that is destroyed is gone, and no other is.
pub proof fn lemma_xgroup_destroy(
    s: &mut Store,
    key: &[u8],
    group: &[u8],
    r: Result<bool, StoreError>,
    m: StreamModel,
    other: Seq<u8>,
)
    requires
        call_ensures(Store::xgroup_destroy, (s, key, group), r),
        holds(*old(s), key@, Val::Stream(m)),
    ensures
        r == Ok::<bool, StoreError>(m.groups.dom().contains(group@)),
        final(s)@.slots[key@].value matches Val::Stream(n) && (n.groups.dom().contains(other)
            <==> m.groups.dom().contains(other) && other != group@) && (other != group@
            ==> n.groups[other] == m.groups[other]) && n.entries == m.entries,
        others_kept(*old(s), *final(s), key@),
{
}

/// What is claimed is pending for the claimer from then on, given with its
/// fields, and just what may be claimed is: entries that exist and have been
/// idle for as long as was asked, or are not pending and are forced.
pub proof fn lemma_xclaim(
    s: &mut Store,
    key: &[u8],
    group: &[u8],
    who: &[u8],
    ids: &[StreamId],
    opts: &crate::stream_group::XClaimOpts,
    now: u64,
    r: Result<EntryBatch, StoreError>,
    m: StreamModel,
    id: StreamId,
)
    requires
        call_ensures(Store::xclaim, (s, key, group, who, ids, opts, now), r),
        holds(*old(s), key@, Val::Stream(m)),
        m.groups.dom().contains(group@),
        ids@.no_duplicates(),
    ensures
        ({
            let pel = m.groups[group@].pel;
            let long = if now >= pel[id].time {
                now - pel[id].time >= opts.min_idle_ms
            } else {
                opts.min_idle_ms == 0
            };
            &&& r is Ok
            &&& listed(r->Ok_0@, id) <==> ids@.contains(id) && m.entries.dom().contains(id) && (
            if pel.dom().contains(id) {
                long
            } else {
                opts.force
            })
            &&& final(s)@.slots[key@].value matches Val::Stream(n) && n.entries == m.entries && (
            listed(r->Ok_0@, id) ==> n.groups[group@].pel.dom().contains(id)
                && n.groups[group@].pel[id].consumer == who@)
        }),
        with_fields(r->Ok_0@, m),
        others_kept(*old(s), *final(s), key@),
{
    let pel = m.groups[group@].pel;
    let alive = m.entries.dom();
    let c = crate::stream_claim::claimed_ids(pel, alive, ids@, who@, *opts, now);
    let q = crate::id_map::select(c, crate::stream_ops::exists_in(m));
    crate::laws::streams::lemma_claim_each(pel, alive, ids@, who@, *opts, now, id);
    crate::id_map::lemma_select_contains(c, crate::stream_ops::exists_in(m));
    lemma_batch(r->Ok_0@, q, id);
    if c.contains(id) {
        crate::stream_claim::lemma_claimed(pel, alive, ids@, who@, *opts, now, id);
    }
}

/// A summary of what is pending tells how many entries are, and the lowest
/// and highest of their ids.
pub proof fn lemma_xpending(
    s: &mut Store,
    key: &[u8],
    group: &[u8],
    r: Result<Option<crate::stream_group::PendingSummary>, StoreError>,
    m: StreamModel,
    id: StreamId,
)
    requires
        call_ensures(Store::xpending_summary, (s, key, group), r),
        holds(*old(s), key@, Val::Stream(m)),
        m.groups.dom().contains(group@),
        m.groups[group@].pel.dom().finite(),
        m.groups[group@].pel.dom().contains(id),
    ensures
        r matches Ok(Some(p)) && p.total == m.groups[group@].pel.dom().len() && (
        p.id_range matches Some((a, b)) && number(a) <= number(id) <= number(b)
            && m.groups[group@].pel.dom().contains(a) && m.groups[group@].pel.dom().contains(b)),
        final(s)@ == old(s)@,
{
    if let Ok(Some(p)) = r {
        crate::laws::streams::lemma_pending_summary(p, m.groups[group@].pel, id);
    }
}

} // verus!
