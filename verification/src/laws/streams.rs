//! Streams and consumer groups: which entries a read gives, which are
//! pending with whom, and which go.
use vstd::prelude::*;
use crate::id_map::{ascending, first_of, ids_after, ids_between, select, sorted_ids};
use crate::stream::{
    appended, older_than, resolved, setid_allowed, without_ids, without_oldest, StreamModel,
};
use crate::stream_claim::{claim_pel, claim_pels, claimable, claimed_ids, idle_ids};
use crate::stream_group::{GroupCreateMode, GroupModel, PelModel, ReadGroupId, XClaimOpts};
use crate::stream_id::{
    explicit_spec, id_le, id_lt, max_id, min_id, next_id, xadd_spec, StreamId, XAddIdSpec,
};
use crate::stream_ops::{
    acked, auto_opts, autoclaimed, fresh_group, read_group, read_ids, start_id, sums_up,
    without_consumer,
};
use crate::stream_read::{is_mine_alive, is_wanted, wanted_ids};

verus! {

/// An id as one number: the milliseconds count for more than any sequence
/// number.
pub open spec fn number(a: StreamId) -> int {
    a.ms as int * 0x1_0000_0000_0000_0000 + a.seq as int
}

/// Ids are ordered as numbers, and the next id is the next number.
pub proof fn lemma_ids_are_numbers(a: StreamId, b: StreamId)
    ensures
        id_lt(a, b) <==> number(a) < number(b),
        id_le(a, b) <==> number(a) <= number(b),
        number(min_id()) == 0,
        number(a) <= number(max_id()),
        a != max_id() ==> number(next_id(a)) == number(a) + 1,
{
    let w = 0x1_0000_0000_0000_0000int;
    if a.ms < b.ms {
        assert(a.ms as int * w + w <= b.ms as int * w) by (nonlinear_arith)
            requires
                a.ms < b.ms,
                w > 0,
        ;
    }
    if b.ms < a.ms {
        assert(b.ms as int * w + w <= a.ms as int * w) by (nonlinear_arith)
            requires
                b.ms < a.ms,
                w > 0,
        ;
    }
    assert(a.ms as int * w <= u64::MAX as int * w) by (nonlinear_arith)
        requires
            a.ms <= u64::MAX,
            w > 0,
    ;
}

/// The entries behind an id are those of a stream that come after it, each
/// once, the earliest first.
pub proof fn lemma_behind(s: Set<StreamId>, a: StreamId)
    requires
        s.finite(),
    ensures
        ascending(ids_after(s, a)),
        forall|x: StreamId| #[trigger]
            ids_after(s, a).contains(x) <==> s.contains(x) && number(a) < number(x),
{
    let q = sorted_ids(s);
    crate::id_map::lemma_sortable(s);
    let n = next_id(a);
    crate::id_map::lemma_within_contains(q, n, max_id());
    lemma_within_ascending(q, n, max_id());
    assert forall|x: StreamId| #[trigger]
        ids_after(s, a).contains(x) <==> s.contains(x) && number(a) < number(x) by {
        lemma_ids_are_numbers(a, x);
        lemma_ids_are_numbers(x, max_id());
        lemma_ids_are_numbers(max_id(), x);
        crate::stream_id::lemma_next_id(a, x);
        crate::stream_id::lemma_id_order(x, max_id(), a);
        assert(q.contains(x) == q.to_set().contains(x));
    }
}

/// The entries of a range are those from its start to its end, both included,
/// each once, the earliest first.
pub proof fn lemma_between(s: Set<StreamId>, a: StreamId, b: StreamId)
    requires
        s.finite(),
    ensures
        ascending(ids_between(s, a, b)),
        forall|x: StreamId| #[trigger]
            ids_between(s, a, b).contains(x) <==> s.contains(x) && number(a) <= number(x)
                <= number(b),
{
    let q = sorted_ids(s);
    crate::id_map::lemma_sortable(s);
    crate::id_map::lemma_within_contains(q, a, b);
    lemma_within_ascending(q, a, b);
    assert forall|x: StreamId| #[trigger]
        ids_between(s, a, b).contains(x) <==> s.contains(x) && number(a) <= number(x) <= number(
            b,
        ) by {
        lemma_ids_are_numbers(a, x);
        lemma_ids_are_numbers(x, b);
        assert(q.contains(x) == q.to_set().contains(x));
    }
}

proof fn lemma_within_ascending(q: Seq<StreamId>, a: StreamId, b: StreamId)
    requires
        ascending(q),
    ensures
        ascending(crate::id_map::within(q, a, b)),
    decreases q.len(),
{
    if q.len() > 0 {
        let d = q.drop_last();
        lemma_within_ascending(d, a, b);
        crate::id_map::lemma_within_contains(d, a, b);
        let p = crate::id_map::within(d, a, b);
        let w = crate::id_map::within(q, a, b);
        assert forall|i: int, j: int|
            #![trigger w[i], w[j]]
            0 <= i < j < w.len() implies id_lt(w[i], w[j]) by {
            if j < p.len() {
                assert(w[i] == p[i] && w[j] == p[j]);
            } else {
                assert(w[i] == p[i]);
                assert(p.contains(p[i]));
                let k = choose|k: int| 0 <= k < d.len() && d[k] == p[i];
                assert(q[k] == p[i] && q[q.len() - 1] == w[j]);
            }
        }
    }
}

proof fn lemma_same_ids(a: Seq<StreamId>, b: Seq<StreamId>)
    requires
        ascending(a),
        ascending(b),
        forall|x: StreamId| #[trigger] a.contains(x) <==> b.contains(x),
    ensures
        a == b,
{
    assert(a.to_set() =~= b.to_set());
    crate::id_map::lemma_ascending_unique(a, b);
}

/// A limit keeps the first so many, and all if there are no more.
pub proof fn lemma_limit<T>(q: Seq<T>, n: usize)
    ensures
        first_of(q, None) == q,
        n >= q.len() ==> first_of(q, Some(n)) == q,
        n <= q.len() ==> first_of(q, Some(n)).len() == n && first_of(q, Some(n)) + q.skip(n as int)
            == q,
{
    if n <= q.len() {
        assert(first_of(q, Some(n)) + q.skip(n as int) =~= q);
    }
}

/// A group that is made, or set back, at the current end of a stream has
/// nothing new to read, whoever reads and however many entries are asked for.
/// It starts at the stream's last id.
pub proof fn lemma_group_at_end(
    s: StreamModel,
    g: GroupModel,
    who: Seq<u8>,
    count: Option<usize>,
)
    requires
        s.entries.dom().finite(),
        forall|x: StreamId| #[trigger] s.entries.dom().contains(x) ==> number(x) <= number(s.last_id),
    ensures
        start_id(s, GroupCreateMode::AtCurrent) == s.last_id,
        ids_after(s.entries.dom(), start_id(s, GroupCreateMode::AtCurrent)).len() == 0,
        read_ids(
            s,
            fresh_group(start_id(s, GroupCreateMode::AtCurrent)),
            who,
            ReadGroupId::New,
            count,
        ).len() == 0,
        read_ids(
            s,
            GroupModel { last_delivered: start_id(s, GroupCreateMode::AtCurrent), ..g },
            who,
            ReadGroupId::New,
            count,
        ).len() == 0,
{
    let a = start_id(s, GroupCreateMode::AtCurrent);
    let q = ids_after(s.entries.dom(), a);
    lemma_behind(s.entries.dom(), a);
    if q.len() > 0 {
        assert(q.contains(q[0]));
    }
}

/// What is added to a stream once a group was made at its end is what the
/// group has new to read: exactly the entries that were not there, in order.
pub proof fn lemma_group_reads_added(s: StreamModel, t: StreamModel, who: Seq<u8>)
    requires
        t.entries.dom().finite(),
        forall|x: StreamId| #[trigger] s.entries.dom().contains(x) ==> number(x) <= number(s.last_id),
        forall|x: StreamId| #[trigger]
            t.entries.dom().contains(x) ==> s.entries.dom().contains(x) || number(s.last_id)
                < number(x),
    ensures
        ({
            let g = fresh_group(start_id(s, GroupCreateMode::AtCurrent));
            let q = read_ids(t, g, who, ReadGroupId::New, None);
            &&& ascending(q)
            &&& forall|x: StreamId| #[trigger]
                q.contains(x) <==> t.entries.dom().contains(x) && !s.entries.dom().contains(x)
        }),
{
    let a = start_id(s, GroupCreateMode::AtCurrent);
    lemma_behind(t.entries.dom(), a);
}

/// An entry that is appended is the one new entry of a group that was made at
/// the end of the stream before.
pub proof fn lemma_group_reads_append(
    s: StreamModel,
    id: StreamId,
    f: Seq<(Seq<u8>, Seq<u8>)>,
    who: Seq<u8>,
)
    requires
        s.entries.dom().finite(),
        forall|x: StreamId| #[trigger] s.entries.dom().contains(x) ==> number(x) <= number(s.last_id),
        number(s.last_id) < number(id),
    ensures
        read_ids(
            appended(s, id, f),
            fresh_group(start_id(s, GroupCreateMode::AtCurrent)),
            who,
            ReadGroupId::New,
            None,
        ) == seq![id],
{
    let t = appended(s, id, f);
    let a = start_id(s, GroupCreateMode::AtCurrent);
    assert(t.entries.dom() =~= s.entries.dom().insert(id));
    lemma_behind(t.entries.dom(), a);
    let q = ids_after(t.entries.dom(), a);
    let one = seq![id];
    assert(one[0] == id);
    assert forall|x: StreamId| #[trigger] q.contains(x) <==> one.contains(x) by {
        if q.contains(x) {
            assert(x == id);
        }
    }
    lemma_same_ids(q, one);
}

/// A group that starts at an id reads the entries behind it, and a group that
/// starts at the very first reads them all, but for one at 0-0.
pub proof fn lemma_group_at_id(s: StreamModel, at: StreamId, who: Seq<u8>, x: StreamId)
    requires
        s.entries.dom().finite(),
    ensures
        read_ids(
            s,
            fresh_group(start_id(s, GroupCreateMode::AtId(at))),
            who,
            ReadGroupId::New,
            None,
        ).contains(x) <==> s.entries.dom().contains(x) && number(at) < number(x),
        fresh_group(start_id(s, GroupCreateMode::AtId(at))).pel.dom() == Set::<StreamId>::empty(),
{
    lemma_behind(s.entries.dom(), start_id(s, GroupCreateMode::AtId(at)));
}

/// A read of new entries in two parts gives what one read gives: first the
/// earliest so many, then the rest. Nothing is passed over or given twice.
pub proof fn lemma_read_in_parts(
    s: StreamModel,
    g: GroupModel,
    who: Seq<u8>,
    other: Seq<u8>,
    n: usize,
    noack: bool,
    now: u64,
)
    requires
        s.entries.dom().finite(),
    ensures
        ({
            let one = read_ids(s, g, who, ReadGroupId::New, Some(n));
            let h = read_group(s, g, who, ReadGroupId::New, Some(n), noack, now);
            let two = read_ids(s, h, other, ReadGroupId::New, None);
            &&& one + two == read_ids(s, g, who, ReadGroupId::New, None)
            &&& one.len() <= n
            &&& two.len() > 0 ==> one.len() == n
        }),
{
    let dom = s.entries.dom();
    let q = ids_after(dom, g.last_delivered);
    let one = read_ids(s, g, who, ReadGroupId::New, Some(n));
    let h = read_group(s, g, who, ReadGroupId::New, Some(n), noack, now);
    let two = ids_after(dom, h.last_delivered);
    lemma_behind(dom, g.last_delivered);
    lemma_behind(dom, h.last_delivered);
    lemma_limit(q, n);
    if one.len() > 0 {
        let k = one.len() as int;
        let rest = q.skip(k);
        assert(one =~= q.take(k));
        let last = one.last();
        assert(last == q[k - 1]);
        assert forall|x: StreamId| #[trigger] rest.contains(x) <==> two.contains(x) by {
            if rest.contains(x) {
                let i = choose|i: int| 0 <= i < rest.len() && rest[i] == x;
                assert(q[k + i] == x);
                assert(q.contains(x));
                assert(id_lt(q[k - 1], q[k + i]));
                lemma_ids_are_numbers(last, x);
            }
            if two.contains(x) {
                assert(q.contains(last));
                assert(q.contains(x));
                let i = choose|i: int| 0 <= i < q.len() && q[i] == x;
                lemma_ids_are_numbers(x, last);
                lemma_ids_are_numbers(last, x);
                if i < k - 1 {
                    assert(id_lt(q[i], q[k - 1]));
                }
                assert(i >= k);
                assert(rest[i - k] == x);
            }
        }
        assert forall|i: int, j: int|
            #![trigger rest[i], rest[j]]
            0 <= i < j < rest.len() implies id_lt(rest[i], rest[j]) by {
            assert(id_lt(q[k + i], q[k + j]));
        }
        lemma_same_ids(rest, two);
        assert(one + two =~= q);
    } else {
        assert(one + two =~= q);
    }
}

/// A read without acknowledgement leaves an entry pending with its reader
/// from now on, handed out once; one with acknowledgement leaves what is
/// pending as it is. Other pending entries, the other consumers and the order
/// of reading do not change by who reads.
pub proof fn lemma_read_leaves(
    s: StreamModel,
    g: GroupModel,
    who: Seq<u8>,
    count: Option<usize>,
    noack: bool,
    now: u64,
    id: StreamId,
)
    ensures
        ({
            let q = read_ids(s, g, who, ReadGroupId::New, count);
            let h = read_group(s, g, who, ReadGroupId::New, count, noack, now);
            &&& noack ==> h.pel == g.pel
            &&& !noack && q.contains(id) ==> h.pel.dom().contains(id) && h.pel[id].consumer == who
                && h.pel[id].time == now && (!g.pel.dom().contains(id) ==> h.pel[id].count == 1)
            &&& !q.contains(id) ==> h.pel.dom().contains(id) == g.pel.dom().contains(id) && (
            g.pel.dom().contains(id) ==> h.pel[id] == g.pel[id])
            &&& h.consumers.dom() == g.consumers.dom().insert(who)
            &&& h.consumers[who] == now
            &&& q.len() == 0 ==> h.last_delivered == g.last_delivered
            &&& q.len() > 0 ==> h.last_delivered == q[q.len() - 1]
        }),
{
    let q = read_ids(s, g, who, ReadGroupId::New, count);
    let h = read_group(s, g, who, ReadGroupId::New, count, noack, now);
    assert(h.consumers.dom() =~= g.consumers.dom().insert(who));
    if q.len() == 0 {
        assert(!q.contains(id));
    }
}

/// A replay gives a consumer again just those of its own pending entries
/// behind an id that still exist, in order, and takes nothing from anybody.
pub proof fn lemma_replay(
    s: StreamModel,
    g: GroupModel,
    who: Seq<u8>,
    after: StreamId,
    noack: bool,
    now: u64,
)
    requires
        g.pel.dom().finite(),
    ensures
        ({
            let q = read_ids(s, g, who, ReadGroupId::ReplayAfter(after), None);
            &&& ascending(q)
            &&& forall|x: StreamId| #[trigger]
                q.contains(x) <==> g.pel.dom().contains(x) && g.pel[x].consumer == who
                    && s.entries.dom().contains(x) && number(after) < number(x)
        }),
        read_group(s, g, who, ReadGroupId::ReplayAfter(after), None, noack, now).pel == g.pel,
        read_group(s, g, who, ReadGroupId::ReplayAfter(after), None, noack, now).last_delivered
            == g.last_delivered,
{
    lemma_behind(g.pel.dom(), after);
    crate::id_map::lemma_select_contains(
        ids_after(g.pel.dom(), after),
        is_mine_alive(g.pel, who, s.entries.dom()),
    );
}

/// What is acknowledged is no longer pending, and everything else is as it
/// was; where the group stands does not move.
pub proof fn lemma_ack(g: GroupModel, ids: Seq<StreamId>, id: StreamId)
    ensures
        acked(g, ids).pel.dom().contains(id) <==> g.pel.dom().contains(id) && !ids.contains(id),
        acked(g, ids).pel.dom().contains(id) ==> acked(g, ids).pel[id] == g.pel[id],
        acked(g, ids).last_delivered == g.last_delivered,
        acked(g, ids).consumers == g.consumers,
{
}

/// A consumer that leaves takes its pending entries along and no others.
pub proof fn lemma_leave(g: GroupModel, who: Seq<u8>, id: StreamId, other: Seq<u8>)
    ensures
        ({
            let h = without_consumer(g, who);
            &&& h.pel.dom().contains(id) <==> g.pel.dom().contains(id) && g.pel[id].consumer != who
            &&& h.pel.dom().contains(id) ==> h.pel[id] == g.pel[id]
            &&& !h.consumers.dom().contains(who)
            &&& other != who ==> h.consumers.dom().contains(other) == g.consumers.dom().contains(
                other,
            )
            &&& h.last_delivered == g.last_delivered
        }),
{
}

/// A claim takes a pending entry that exists just if it has been idle for as
/// long as was asked; one that is not pending only if it is forced. What it
/// takes belongs to the claimer, was handed out now or when it is told to
/// have been, and counts one more delivery, unless only ids are asked for or
/// the count is given. Everything else stays, but that a pending entry which
/// no longer exists is dropped.
pub proof fn lemma_claim(
    pel: Map<StreamId, PelModel>,
    alive: Set<StreamId>,
    id: StreamId,
    who: Seq<u8>,
    opts: XClaimOpts,
    now: u64,
    other: StreamId,
)
    ensures
        ({
            let after = claim_pel(pel, alive, id, who, opts, now);
            let waited = now as int - pel[id].time as int;
            let long = if waited < 0 {
                opts.min_idle_ms == 0
            } else {
                waited >= opts.min_idle_ms
            };
            let takes = alive.contains(id) && if pel.dom().contains(id) {
                long
            } else {
                opts.force
            };
            &&& other != id ==> after.dom().contains(other) == pel.dom().contains(other)
                && after[other] == pel[other]
            &&& !alive.contains(id) ==> !after.dom().contains(id)
            &&& alive.contains(id) && !takes ==> after == pel
            &&& takes ==> after.dom().contains(id) && after[id].consumer == who
            &&& takes && opts.time_override_ms is Some ==> after[id].time
                == opts.time_override_ms->Some_0
            &&& takes && opts.time_override_ms is None && opts.idle_override_ms is None
                ==> after[id].time == now
            &&& takes && opts.time_override_ms is None && opts.idle_override_ms is Some
                && opts.idle_override_ms->Some_0 <= now ==> after[id].time
                + opts.idle_override_ms->Some_0 == now
            &&& takes && opts.retrycount_override is Some ==> after[id].count
                == opts.retrycount_override->Some_0
            &&& takes && opts.retrycount_override is None && !pel.dom().contains(id)
                ==> after[id].count == 1
            &&& takes && opts.retrycount_override is None && pel.dom().contains(id) && pel[id].count
                < u32::MAX && !opts.justid ==> after[id].count == pel[id].count + 1
            &&& takes && opts.retrycount_override is None && pel.dom().contains(id) && pel[id].count
                >= 1 && opts.justid ==> after[id].count == pel[id].count
        }),
{
    let after = claim_pel(pel, alive, id, who, opts, now);
    if alive.contains(id) && !claimable(pel, id, opts, now) {
        assert(after == pel);
    }
}

proof fn lemma_claims_apart(
    pel: Map<StreamId, PelModel>,
    alive: Set<StreamId>,
    ids: Seq<StreamId>,
    who: Seq<u8>,
    opts: XClaimOpts,
    now: u64,
    id: StreamId,
)
    requires
        !ids.contains(id),
    ensures
        claim_pels(pel, alive, ids, who, opts, now).dom().contains(id) == pel.dom().contains(id),
        claim_pels(pel, alive, ids, who, opts, now)[id] == pel[id],
    decreases ids.len(),
{
    if ids.len() > 0 {
        let d = ids.drop_last();
        assert(ids.last() == ids[ids.len() - 1]);
        assert(ids.last() != id);
        assert(!d.contains(id)) by {
            if d.contains(id) {
                let i = choose|i: int| 0 <= i < d.len() && d[i] == id;
                assert(ids[i] == id);
            }
        }
        lemma_claims_apart(pel, alive, d, who, opts, now, id);
        lemma_claim(claim_pels(pel, alive, d, who, opts, now), alive, ids.last(), who, opts, now, id);
    }
}

/// Of ids that are claimed together, each once, those are taken that exist
/// and would be taken alone.
pub proof fn lemma_claim_each(
    pel: Map<StreamId, PelModel>,
    alive: Set<StreamId>,
    ids: Seq<StreamId>,
    who: Seq<u8>,
    opts: XClaimOpts,
    now: u64,
    id: StreamId,
)
    requires
        ids.no_duplicates(),
    ensures
        claimed_ids(pel, alive, ids, who, opts, now).contains(id) <==> ids.contains(id)
            && alive.contains(id) && claimable(pel, id, opts, now),
    decreases ids.len(),
{
    let c = claimed_ids(pel, alive, ids, who, opts, now);
    if ids.len() > 0 {
        let d = ids.drop_last();
        let x = ids.last();
        assert(ids =~= d.push(x));
        assert(!d.contains(x)) by {
            if d.contains(x) {
                let i = choose|i: int| 0 <= i < d.len() && d[i] == x;
                assert(ids[i] == ids[ids.len() - 1]);
            }
        }
        assert(d.no_duplicates());
        lemma_claim_each(pel, alive, d, who, opts, now, id);
        lemma_claims_apart(pel, alive, d, who, opts, now, x);
        crate::value_set::lemma_push_contains(d, x, id);
        crate::value_set::lemma_push_contains(
            claimed_ids(pel, alive, d, who, opts, now),
            x,
            id,
        );
    }
}

/// A claim of what has been idle for long goes through the pending entries in
/// order from where it starts. Each that was idle long enough and lies before
/// the place where the next claim is to start was dealt with: it is told as
/// taken if it exists and as gone if it does not. Where the next claim is to
/// start at the beginning, none was idle long enough.
pub proof fn lemma_autoclaim(
    s: StreamModel,
    g: GroupModel,
    who: Seq<u8>,
    min_idle: u64,
    start: StreamId,
    count: usize,
    justid: bool,
    now: u64,
    a: crate::stream::AutoclaimResult,
    id: StreamId,
)
    requires
        g.pel.dom().finite(),
        count > 0,
        autoclaimed(s, g, who, min_idle, start, count, justid, now, a),
    ensures
        ({
            let waited = now as int - g.pel[id].time as int;
            let long = g.pel.dom().contains(id) && number(start) <= number(id) && if waited < 0 {
                min_idle == 0
            } else {
                waited >= min_idle
            };
            &&& a.claimed_ids@.contains(id) ==> long && s.entries.dom().contains(id)
            &&& a.deleted_ids@.contains(id) ==> long && !s.entries.dom().contains(id)
            &&& a.claimed_ids@.len() <= count
            &&& a.deleted_ids@.len() <= count
            &&& long && number(id) < number(a.next_cursor) ==> if s.entries.dom().contains(id) {
                a.claimed_ids@.contains(id)
            } else {
                a.deleted_ids@.contains(id)
            }
            &&& a.next_cursor == min_id() ==> !long
            &&& a.next_cursor != min_id() ==> number(start) < number(a.next_cursor) || start
                == max_id()
        }),
{
    let all = ids_between(g.pel.dom(), start, max_id());
    let idle = crate::stream_claim::is_idle(g.pel, min_idle, now);
    let found = select(all, idle);
    let ids = idle_ids(g.pel, min_idle, start, count, now);
    lemma_between(g.pel.dom(), start, max_id());
    crate::id_map::lemma_select_contains(all, idle);
    lemma_limit(found, count);
    lemma_ids_are_numbers(id, max_id());
    assert(ids.len() <= count);
    assert(ids == found.take(ids.len() as int)) by {
        if count >= found.len() {
            assert(found.take(found.len() as int) =~= found);
        }
    }
    assert(ascending(ids));
    assert(ids.no_duplicates()) by {
        assert forall|i: int, j: int|
            0 <= i < ids.len() && 0 <= j < ids.len() && i != j implies ids[i] != ids[j] by {
            if i < j {
                assert(id_lt(ids[i], ids[j]));
            } else {
                assert(id_lt(ids[j], ids[i]));
            }
        }
    }
    let opts = auto_opts(min_idle, justid);
    lemma_claim_each(g.pel, s.entries.dom(), ids, who, opts, now, id);
    lemma_claimed_few(g.pel, s.entries.dom(), ids, who, opts, now);
    crate::id_map::lemma_select_contains(ids, crate::stream_ops::gone_from(s));
    if ids.contains(id) {
        let i = choose|i: int| 0 <= i < ids.len() && ids[i] == id;
        assert(found[i] == id);
        assert(found.contains(id));
    }
    if ids.len() > 0 {
        let last = ids.last();
        assert(found[ids.len() - 1] == last);
        assert(found.contains(last));
        lemma_ids_are_numbers(last, id);
        lemma_ids_are_numbers(id, last);
        lemma_ids_are_numbers(last, max_id());
        lemma_ids_are_numbers(start, last);
        crate::stream_id::lemma_id_order(last, max_id(), start);
        if found.contains(id) && number(id) < number(a.next_cursor) {
            let i = choose|i: int| 0 <= i < found.len() && found[i] == id;
            if i >= ids.len() {
                assert(id_lt(found[ids.len() - 1], found[i]));
            }
            assert(ids[i] == id);
            assert(ids.contains(id));
        }
        lemma_ids_are_numbers(a.next_cursor, min_id());
        assert(a.next_cursor != min_id()) by {
            if last == max_id() {
                assert(next_id(last) == last);
            }
        }
    } else {
        assert(found.len() == 0);
    }
}

proof fn lemma_claimed_few(
    pel: Map<StreamId, PelModel>,
    alive: Set<StreamId>,
    ids: Seq<StreamId>,
    who: Seq<u8>,
    opts: XClaimOpts,
    now: u64,
)
    ensures
        claimed_ids(pel, alive, ids, who, opts, now).len() <= ids.len(),
    decreases ids.len(),
{
    if ids.len() > 0 {
        lemma_claimed_few(pel, alive, ids.drop_last(), who, opts, now);
    }
}

/// A listing of pending entries tells those of a range that belong to the
/// named consumer, if one is named, and have waited as long as was asked, if
/// that is; the earliest so many of them.
pub proof fn lemma_pending_listing(
    pel: Map<StreamId, PelModel>,
    idle_min: Option<u64>,
    start: StreamId,
    end: StreamId,
    count: usize,
    who: Option<Seq<u8>>,
    now: u64,
    id: StreamId,
)
    requires
        pel.dom().finite(),
    ensures
        ({
            let q = wanted_ids(pel, idle_min, start, end, count, who, now);
            let waited = if now >= pel[id].time {
                now - pel[id].time
            } else {
                0
            };
            let asked = pel.dom().contains(id) && number(start) <= number(id) <= number(end) && (
            who matches Some(w) ==> pel[id].consumer == w) && (idle_min matches Some(m) ==> waited
                >= m);
            &&& q.len() <= count
            &&& ascending(q)
            &&& q.contains(id) ==> asked
            &&& asked && !q.contains(id) ==> q.len() == count && forall|i: int|
                0 <= i < q.len() ==> number(#[trigger] q[i]) < number(id)
        }),
{
    let all = ids_between(pel.dom(), start, end);
    let keep = is_wanted(pel, idle_min, who, now);
    let found = select(all, keep);
    let q = wanted_ids(pel, idle_min, start, end, count, who, now);
    lemma_between(pel.dom(), start, end);
    crate::id_map::lemma_select_contains(all, keep);
    lemma_limit(found, count);
    assert(q == found.take(q.len() as int)) by {
        if count >= found.len() {
            assert(found.take(found.len() as int) =~= found);
        }
    }
    if q.contains(id) {
        let i = choose|i: int| 0 <= i < q.len() && q[i] == id;
        assert(found[i] == id);
        assert(found.contains(id));
    } else if found.contains(id) {
        let i = choose|i: int| 0 <= i < found.len() && found[i] == id;
        if i < q.len() {
            assert(q[i] == id);
        }
        assert forall|j: int| 0 <= j < q.len() implies number(#[trigger] q[j]) < number(id) by {
            assert(id_lt(found[j], found[i]));
            lemma_ids_are_numbers(q[j], id);
        }
    }
}

/// A summary of pending entries names the first and the last of them.
pub proof fn lemma_pending_summary(
    p: crate::stream_group::PendingSummary,
    pel: Map<StreamId, PelModel>,
    id: StreamId,
)
    requires
        pel.dom().finite(),
        sums_up(p, pel),
        pel.dom().contains(id),
    ensures
        p.id_range matches Some((a, b)) && pel.dom().contains(a) && pel.dom().contains(b) && number(
            a,
        ) <= number(id) <= number(b),
        p.total > 0,
{
    let q = sorted_ids(pel.dom());
    crate::id_map::lemma_sortable(pel.dom());
    assert(q.to_set().contains(id));
    let i = choose|i: int| 0 <= i < q.len() && q[i] == id;
    assert(pel.dom().contains(q[0]) && pel.dom().contains(q[q.len() - 1]));
    lemma_ids_are_numbers(q[0], id);
    lemma_ids_are_numbers(id, q[q.len() - 1]);
    if i > 0 {
        assert(id_lt(q[0], q[i]));
    }
    if i < q.len() - 1 {
        assert(id_lt(q[i], q[q.len() - 1]));
    }
}

/// An append gets the earliest id that it may have: behind the last one, in
/// the millisecond that it names, or in the present one, and not before the
/// last one's. An id that is given is taken just if it is behind the last.
pub proof fn lemma_append_id(last: StreamId, ms: u64, now: u64, x: StreamId)
    ensures
        number(last) < number(x) && x.ms == ms ==> (resolved(last, XAddIdSpec::AutoSeq(ms), now)
            matches Some(r) && r.ms == ms && number(last) < number(r) <= number(x)),
        resolved(last, XAddIdSpec::AutoSeq(ms), now) is None ==> ms < last.ms || (ms == last.ms
            && last.seq == u64::MAX),
        ms < last.ms ==> resolved(last, XAddIdSpec::AutoSeq(ms), now) is None,
        resolved(last, XAddIdSpec::AutoAll, now) == resolved(
            last,
            XAddIdSpec::AutoSeq(
                if now >= last.ms {
                    now
                } else {
                    last.ms
                },
            ),
            now,
        ),
        resolved(last, XAddIdSpec::Explicit(x), now) == (if number(last) < number(x) {
            Some(x)
        } else {
            None
        }),
{
    lemma_ids_are_numbers(last, x);
    if let Some(r) = resolved(last, XAddIdSpec::AutoSeq(ms), now) {
        lemma_ids_are_numbers(last, r);
        lemma_ids_are_numbers(r, x);
    }
}

/// An append counts, becomes the last id, and leaves groups and deletions
/// alone.
pub proof fn lemma_append(s: StreamModel, id: StreamId, f: Seq<(Seq<u8>, Seq<u8>)>)
    ensures
        appended(s, id, f).last_id == id,
        s.added < u64::MAX ==> appended(s, id, f).added == s.added + 1,
        appended(s, id, f).groups == s.groups,
        appended(s, id, f).max_deleted == s.max_deleted,
        appended(s, id, f).entries.dom() == s.entries.dom().insert(id),
{
    assert(appended(s, id, f).entries.dom() =~= s.entries.dom().insert(id));
}

/// Dropping the oldest entries drops so many of them, and every entry that
/// stays is behind every one that went. Neither the last id nor the number of
/// entries ever added goes back.
pub proof fn lemma_trim(s: StreamModel, k: int, gone: StreamId, kept: StreamId)
    requires
        s.entries.dom().finite(),
        0 <= k <= s.entries.dom().len(),
    ensures
        ({
            let t = without_oldest(s, k);
            &&& t.entries.dom().len() == s.entries.dom().len() - k
            &&& s.entries.dom().contains(gone) && !t.entries.dom().contains(gone)
                && t.entries.dom().contains(kept) ==> number(gone) < number(kept) && number(gone)
                <= number(t.max_deleted)
            &&& t.entries.dom().contains(kept) ==> s.entries.dom().contains(kept)
                && t.entries[kept] == s.entries[kept]
            &&& t.last_id == s.last_id
            &&& t.added == s.added
            &&& t.groups == s.groups
            &&& number(t.max_deleted) >= number(s.max_deleted)
        }),
{
    let dom = s.entries.dom();
    let q = sorted_ids(dom);
    crate::id_map::lemma_sortable(dom);
    let g = q.take(k);
    let t = without_oldest(s, k);
    assert(g.no_duplicates()) by {
        assert forall|i: int, j: int| 0 <= i < g.len() && 0 <= j < g.len() && i != j implies g[i]
            != g[j] by {
            if i < j {
                assert(id_lt(q[i], q[j]));
            } else {
                assert(id_lt(q[j], q[i]));
            }
        }
    }
    g.unique_seq_to_set();
    assert(t.entries.dom() =~= dom.difference(g.to_set()));
    assert(g.to_set().subset_of(dom)) by {
        assert forall|x: StreamId| g.to_set().contains(x) implies dom.contains(x) by {
            let i = choose|i: int| 0 <= i < g.len() && g[i] == x;
            assert(dom.contains(q[i]));
        }
    }
    vstd::set_lib::lemma_len_subset(g.to_set(), dom);
    vstd::set_lib::lemma_set_disjoint_lens(dom.difference(g.to_set()), g.to_set());
    assert(dom.difference(g.to_set()) + g.to_set() =~= dom);
    if k > 0 {
        lemma_ids_are_numbers(s.max_deleted, g.last());
    }
    if dom.contains(gone) && !t.entries.dom().contains(gone) && t.entries.dom().contains(kept) {
        assert(g.to_set().contains(gone));
        let i = choose|i: int| 0 <= i < g.len() && g[i] == gone;
        assert(q[i] == gone);
        assert(q.to_set().contains(kept));
        let j = choose|j: int| 0 <= j < q.len() && q[j] == kept;
        if j < k {
            assert(g[j] == kept);
            assert(g.to_set().contains(kept));
        }
        assert(id_lt(q[i], q[j]));
        lemma_ids_are_numbers(gone, kept);
        lemma_ids_are_numbers(gone, g.last());
        if i < k - 1 {
            assert(id_lt(q[i], q[k - 1]));
        }
    }
}

/// A stream that is cut down to a length has at most that many entries
/// afterwards, and loses none if it had no more.
pub proof fn lemma_trim_to_length(s: StreamModel, maxlen: u64)
    requires
        s.entries.dom().finite(),
    ensures
        ({
            let k = crate::store::streams::trimmed(s, maxlen);
            let t = without_oldest(s, k);
            &&& 0 <= k <= s.entries.dom().len()
            &&& s.entries.dom().len() <= maxlen ==> t.entries.dom().len() == s.entries.dom().len()
            &&& s.entries.dom().len() >= maxlen ==> t.entries.dom().len() == maxlen
        }),
{
    lemma_trim(s, crate::store::streams::trimmed(s, maxlen), min_id(), min_id());
}

/// A stream that is cut off at an id loses the entries before it and no
/// others.
pub proof fn lemma_trim_to_id(s: StreamModel, floor: StreamId, id: StreamId)
    requires
        s.entries.dom().finite(),
    ensures
        older_than(s, floor) <= s.entries.dom().len(),
        without_oldest(s, older_than(s, floor) as int).entries.dom().contains(id)
            <==> s.entries.dom().contains(id) && number(floor) <= number(id),
{
    let dom = s.entries.dom();
    let q = sorted_ids(dom);
    crate::id_map::lemma_sortable(dom);
    let old = dom.filter(|x: StreamId| id_lt(x, floor));
    vstd::set_lib::lemma_len_subset(old, dom);
    let n = old.len() as int;
    lemma_older(q, dom, floor, q.len() as int);
    let g = q.take(n);
    lemma_ids_are_numbers(id, floor);
    lemma_ids_are_numbers(floor, id);
    assert(g.to_set().contains(id) <==> old.contains(id)) by {
        if g.to_set().contains(id) {
            let i = choose|i: int| 0 <= i < g.len() && g[i] == id;
            assert(q[i] == id);
        }
        if old.contains(id) {
            assert(q.to_set().contains(id));
            let i = choose|i: int| 0 <= i < q.len() && q[i] == id;
            assert(i < n);
            assert(g[i] == id);
        }
    }
}

proof fn lemma_older(q: Seq<StreamId>, dom: Set<StreamId>, floor: StreamId, m: int)
    requires
        ascending(q),
        q.to_set() == dom,
        dom.finite(),
        0 <= m <= q.len(),
        forall|i: int| m <= i < q.len() ==> !id_lt(#[trigger] q[i], floor),
    ensures
        ({
            let n = dom.filter(|x: StreamId| id_lt(x, floor)).len();
            &&& n <= m
            &&& forall|i: int| 0 <= i < q.len() ==> (id_lt(#[trigger] q[i], floor) <==> i < n)
        }),
    decreases m,
{
    let old = dom.filter(|x: StreamId| id_lt(x, floor));
    if m > 0 && !id_lt(q[m - 1], floor) {
        lemma_older(q, dom, floor, m - 1);
    } else {
        let p = q.take(m);
        assert forall|i: int| 0 <= i < m implies id_lt(#[trigger] q[i], floor) by {
            if i < m - 1 {
                assert(id_lt(q[i], q[m - 1]));
                crate::stream_id::lemma_id_order(q[i], q[m - 1], floor);
            }
        }
        assert(p.no_duplicates()) by {
            assert forall|i: int, j: int|
                0 <= i < p.len() && 0 <= j < p.len() && i != j implies p[i] != p[j] by {
                if i < j {
                    assert(id_lt(q[i], q[j]));
                } else {
                    assert(id_lt(q[j], q[i]));
                }
            }
        }
        p.unique_seq_to_set();
        assert(p.to_set() =~= old) by {
            assert forall|x: StreamId| p.to_set().contains(x) == old.contains(x) by {
                if p.to_set().contains(x) {
                    let i = choose|i: int| 0 <= i < p.len() && p[i] == x;
                    assert(q[i] == x);
                    assert(q.to_set().contains(x));
                }
                if old.contains(x) {
                    assert(q.to_set().contains(x));
                    let i = choose|i: int| 0 <= i < q.len() && q[i] == x;
                    assert(i < m);
                    assert(p[i] == x);
                }
            }
        }
    }
}

/// Deleting ids deletes those entries and no others. The last id stays, and
/// the highest id that was ever deleted is remembered.
pub proof fn lemma_delete(s: StreamModel, ids: Seq<StreamId>, id: StreamId)
    ensures
        ({
            let t = without_ids(s, ids);
            &&& t.entries.dom().contains(id) <==> s.entries.dom().contains(id) && !ids.contains(id)
            &&& t.entries.dom().contains(id) ==> t.entries[id] == s.entries[id]
            &&& t.last_id == s.last_id
            &&& t.added == s.added
            &&& t.groups == s.groups
            &&& number(t.max_deleted) >= number(s.max_deleted)
            &&& s.entries.dom().contains(id) && ids.contains(id) ==> number(id) <= number(
                t.max_deleted,
            )
            &&& t.max_deleted == s.max_deleted || (ids.contains(t.max_deleted)
                && s.entries.dom().contains(t.max_deleted))
        }),
{
    lemma_latest(ids, s.entries.dom(), s.max_deleted, id);
}

proof fn lemma_latest(ids: Seq<StreamId>, alive: Set<StreamId>, floor: StreamId, id: StreamId)
    ensures
        ({
            let m = crate::stream::latest_of(ids, alive, floor);
            &&& number(floor) <= number(m)
            &&& ids.contains(id) && alive.contains(id) ==> number(id) <= number(m)
            &&& m == floor || (ids.contains(m) && alive.contains(m))
        }),
    decreases ids.len(),
{
    if ids.len() > 0 {
        let d = ids.drop_last();
        let x = ids.last();
        lemma_latest(d, alive, floor, id);
        let p = crate::stream::latest_of(d, alive, floor);
        let m = crate::stream::latest_of(ids, alive, floor);
        lemma_ids_are_numbers(p, x);
        assert(ids =~= d.push(x));
        crate::value_set::lemma_push_contains(d, x, id);
        crate::value_set::lemma_push_contains(d, x, m);
    }
}

/// The last id of a stream may be set to any that no entry is behind.
pub proof fn lemma_setid(s: StreamModel, last: StreamId, id: StreamId)
    requires
        s.entries.dom().finite(),
    ensures
        setid_allowed(s, last) && s.entries.dom().contains(id) ==> number(id) <= number(last),
        !setid_allowed(s, last) ==> exists|x: StreamId| #[trigger]
            s.entries.dom().contains(x) && number(last) < number(x),
{
    let q = sorted_ids(s.entries.dom());
    crate::id_map::lemma_sortable(s.entries.dom());
    if q.len() > 0 {
        let top = q[q.len() - 1];
        assert(s.entries.dom().contains(top));
        lemma_ids_are_numbers(last, top);
        if s.entries.dom().contains(id) {
            assert(q.to_set().contains(id));
            let i = choose|i: int| 0 <= i < q.len() && q[i] == id;
            lemma_ids_are_numbers(id, top);
            if i < q.len() - 1 {
                assert(id_lt(q[i], q[q.len() - 1]));
            }
        }
    } else if s.entries.dom().contains(id) {
        assert(q.to_set().contains(id));
    }
}

/// An id without a sequence number means the one that the place asks for; an
/// append's is the first of its millisecond, and `<ms>-*` leaves the sequence
/// number open.
pub proof fn lemma_id_forms(ms: u64, bare: u64)
    ensures
        explicit_spec(crate::text::digits(ms as nat), bare) == Some(StreamId { ms, seq: bare }),
        xadd_spec(crate::text::digits(ms as nat)) == Some(
            XAddIdSpec::Explicit(StreamId { ms, seq: 0 }),
        ),
        xadd_spec(crate::text::digits(ms as nat) + seq![45u8, 42u8]) == Some(
            XAddIdSpec::AutoSeq(ms),
        ),
        xadd_spec(seq![42u8]) == Some(XAddIdSpec::AutoAll),
        explicit_spec(crate::text::digits(ms as nat) + seq![45u8], bare) is None,
{
    let d = crate::text::digits(ms as nat);
    crate::text::lemma_digits(ms as nat);
    assert(crate::text::is_digit(d[0]));
    assert(d[0] != 42 && d[0] != 43);
    assert(!crate::stream_id::has_dash(d)) by {
        if crate::stream_id::has_dash(d) {
            let i = choose|i: int| crate::stream_id::dash_at(d, i);
            assert(crate::text::is_digit(d[i]));
        }
    }
    assert(d != seq![42u8]) by {
        assert(seq![42u8][0] == 42);
    }
    let e = d + seq![45u8, 42u8];
    assert(e =~= d + (seq![45u8] + seq![42u8]));
    lemma_first_dash(d, seq![42u8], e);
    assert(e != seq![42u8]) by {
        assert(e[0] == d[0]);
        assert(seq![42u8][0] == 42);
    }
    assert(crate::stream_id::ms_part(e) =~= d);
    assert(crate::stream_id::seq_part(e) =~= seq![42u8]);
    let f = d + seq![45u8];
    assert(f =~= d + (seq![45u8] + Seq::<u8>::empty()));
    lemma_first_dash(d, Seq::empty(), f);
    assert(crate::stream_id::ms_part(f) =~= d);
    assert(crate::stream_id::seq_part(f) =~= Seq::empty());
}

proof fn lemma_first_dash(d: Seq<u8>, tail: Seq<u8>, e: Seq<u8>)
    requires
        crate::text::all_digits(d),
        e == d + (seq![45u8] + tail),
    ensures
        crate::stream_id::has_dash(e),
        crate::stream_id::dash_index(e) == d.len(),
{
    let n = d.len() as int;
    assert(e[n] == 45);
    assert forall|j: int| 0 <= j < n implies e[j] != 45 by {
        assert(crate::text::is_digit(d[j]));
    }
    assert(crate::stream_id::dash_at(e, n));
    let i = crate::stream_id::dash_index(e);
    assert(crate::stream_id::dash_at(e, i));
}

} // verus!
