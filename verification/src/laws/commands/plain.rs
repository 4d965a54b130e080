//! Functions on plain values that the commands rest on.
use vstd::prelude::*;
use crate::evict::{score_entry, touch_on_access};
use crate::laws::glob::{plain, plain_item};
use crate::laws::streams::number;
use crate::stream_id::{id_before, StreamId};
use crate::stream_read::idle_ms;
use crate::text::{class_accepts, format_i64, glob_match, norm_index, parse_i64, range_bounds};
use crate::types::EvictionPolicy;

verus! {

/// Where the shortest time to live goes first, of two keys the one whose
/// deadline is nearer, by a millisecond or more, scores lower, and one without
/// a deadline scores highest of all.
pub proof fn lemma_score_by_deadline(
    m1: u32,
    m2: u32,
    d1: u64,
    d2: u64,
    now: u64,
    clock: u32,
    r1: i64,
    r2: i64,
    r3: i64,
)
    requires
        call_ensures(score_entry, (m1, Some(d1), EvictionPolicy::VolatileTtl, now, clock), r1),
        call_ensures(score_entry, (m2, Some(d2), EvictionPolicy::VolatileTtl, now, clock), r2),
        call_ensures(score_entry, (m2, None::<u64>, EvictionPolicy::VolatileTtl, now, clock), r3),
    ensures
        now <= d1 && d1 + 1_000_000 <= d2 ==> r1 < r2,
        d1 <= d2 ==> r1 <= r2,
        r1 < r3,
        now <= d1 ==> r1 * 1_000_000 <= d1 - now < (r1 + 1) * 1_000_000,
{
    crate::laws::evicting::lemma_nearest_deadline_first(m1, m2, d1, d2, now, clock, clock);
}

/// Where the last use counts, of two keys the one that was used longer ago
/// scores lower, as long as the clock has not come round since.
pub proof fn lemma_score_by_use(
    used1: u32,
    used2: u32,
    e1: Option<u64>,
    e2: Option<u64>,
    policy: EvictionPolicy,
    now: u64,
    clock: u32,
    r1: i64,
    r2: i64,
)
    requires
        policy is AllKeysLru || policy is VolatileLru,
        used1 < used2 <= clock,
        call_ensures(score_entry, (used1, e1, policy, now, clock), r1),
        call_ensures(score_entry, (used2, e2, policy, now, clock), r2),
    ensures
        r1 < r2,
{
    crate::laws::evicting::lemma_earliest_use_first(
        used1,
        used2,
        e1,
        e2,
        policy,
        used1,
        used2,
        now,
        clock,
    );
}

/// A use is marked with the clock where the last use counts, and leaves the
/// mark where uses do not count.
pub proof fn lemma_touch(mark: u32, policy: EvictionPolicy, clock: u32, r: u32)
    requires
        call_ensures(touch_on_access, (mark, policy, clock), r),
    ensures
        policy is AllKeysLru || policy is VolatileLru ==> r == clock,
        policy is AllKeysLfu || policy is VolatileLfu ==> r / 256 == mark / 256 && (r % 256 == mark
            % 256 || r % 256 == mark % 256 + 1),
        policy is NoEviction || policy is AllKeysRandom || policy is VolatileRandom
            || policy is VolatileTtl ==> r == mark,
{
    crate::laws::uses::lemma_one_use(mark, policy, clock);
}

/// A class of plain bytes accepts just those that it lists, wherever among
/// them, and ends behind its bracket.
pub proof fn lemma_class_accepts(p: &[u8], from: usize, end: int, c: u8, r: (bool, usize))
    requires
        call_ensures(class_accepts, (p, from, c), r),
        from <= end < p@.len(),
        p@[end] == 93,
        forall|i: int| from <= i < end ==> plain_item(#[trigger] p@[i]),
    ensures
        r.0 <==> exists|i: int| from <= i < end && #[trigger] p@[i] == c,
        r.1 == end + 1,
{
    let b = p@.subrange(from as int, end);
    let rest = p@.skip(end + 1);
    let q = p@.skip(from as int);
    assert(q =~= b + seq![93u8] + rest);
    assert forall|i: int| 0 <= i < b.len() implies plain_item(#[trigger] b[i]) by {
        assert(b[i] == p@[from + i]);
    }
    crate::laws::glob::lemma_plain_class(b, rest, c);
    crate::laws::glob::lemma_class_shift(p@, from as int, c, false, from as int);
    if b.contains(c) {
        let i = choose|i: int| 0 <= i < b.len() && b[i] == c;
        assert(p@[from + i] == c);
    }
    if exists|i: int| from <= i < end && #[trigger] p@[i] == c {
        let i = choose|i: int| from <= i < end && #[trigger] p@[i] == c;
        assert(b[i - from] == c);
    }
}

/// A pattern without wildcards matches itself alone, one with a star at its
/// end what begins with it, and a class one byte of those it lists.
pub proof fn lemma_glob_match(p: &[u8], s: &[u8], r: bool, b: Seq<u8>)
    requires
        call_ensures(glob_match, (p, s), r),
    ensures
        (forall|i: int| 0 <= i < p@.len() ==> plain(#[trigger] p@[i])) ==> (r <==> p@ == s@),
        (forall|i: int| 0 <= i < b.len() ==> plain(#[trigger] b[i])) && p@ == b + seq![42u8] ==> (r
            <==> b.len() <= s@.len() && s@.take(b.len() as int) == b),
        (forall|i: int| 0 <= i < b.len() ==> plain_item(#[trigger] b[i])) && b.len() > 0 && b[0]
            != 94 && p@ == seq![91u8] + b + seq![93u8] ==> (r <==> s@.len() == 1 && b.contains(
            s@[0],
        )),
        (forall|i: int| 0 <= i < b.len() ==> plain_item(#[trigger] b[i])) && p@ == seq![91u8, 94u8]
            + b + seq![93u8] ==> (r <==> s@.len() == 1 && !b.contains(s@[0])),
        p@ == seq![63u8] ==> (r <==> s@.len() == 1),
        p@ == seq![42u8] ==> r,
{
    let none = Seq::<u8>::empty();
    if forall|i: int| 0 <= i < p@.len() ==> plain(#[trigger] p@[i]) {
        crate::laws::glob::lemma_plain_pattern(p@, s@);
    }
    if forall|i: int| 0 <= i < b.len() ==> plain(#[trigger] b[i]) {
        crate::laws::glob::lemma_plain_pattern(b, s@);
    }
    if forall|i: int| 0 <= i < b.len() ==> plain_item(#[trigger] b[i]) {
        crate::laws::glob::lemma_class(b, none, s@);
        assert(seq![91u8] + b + seq![93u8] + none =~= seq![91u8] + b + seq![93u8]);
        assert(seq![91u8, 94u8] + b + seq![93u8] + none =~= seq![91u8, 94u8] + b + seq![93u8]);
    }
    crate::laws::glob::lemma_end(s@.skip(1));
    crate::laws::glob::lemma_any_byte(none, s@);
    assert(seq![63u8] + none =~= seq![63u8]);
    crate::laws::glob::lemma_plain_pattern(none, s@);
    assert(none + seq![42u8] =~= seq![42u8]);
    assert(s@.take(0) =~= none);
}

/// What is written as a number is read as that number.
pub proof fn lemma_written_read(n: i64, w: Vec<u8>, t: &[u8], r: Option<i64>)
    requires
        call_ensures(format_i64, (n,), w),
        t@ == w@,
        call_ensures(parse_i64, (t,), r),
    ensures
        r == Some(n),
{
    crate::text::lemma_decimal_roundtrip(n);
}

/// A place counted from the end, where it is negative, is one in the whole.
pub proof fn lemma_norm_index(idx: i64, len: usize, r: Option<usize>)
    requires
        call_ensures(norm_index, (idx, len), r),
    ensures
        0 <= idx < len ==> (r matches Some(i) && i == idx),
        idx < 0 && -idx <= len ==> (r matches Some(i) && i == len + idx),
        idx >= len || -idx > len ==> r is None,
{
}

/// A range from one place to another is cut to what there is, and is none
/// where nothing is left of it.
pub proof fn lemma_range_bounds(a: i64, b: i64, len: usize, r: Option<(usize, usize)>)
    requires
        call_ensures(range_bounds, (a, b, len), r),
    ensures
        0 <= a <= b < len ==> (r matches Some((s, e)) && s == a && e == b),
        0 <= a < len && b >= len ==> (r matches Some((s, e)) && s == a && e == len - 1),
        0 <= a < len && b == -1 ==> (r matches Some((s, e)) && s == a && e == len - 1),
        a >= len || len == 0 || (0 <= b < a) ==> r is None,
        a < 0 && -a <= len && b == -1 ==> (r matches Some((s, e)) && s == len + a && e == len - 1),
{
}

/// Ids are ordered by their milliseconds, and within one millisecond by their
/// sequence numbers.
pub proof fn lemma_id_order(a: StreamId, b: StreamId, r: bool)
    requires
        call_ensures(id_before, (a, b), r),
    ensures
        a.ms < b.ms ==> r,
        a.ms > b.ms ==> !r,
        a.ms == b.ms ==> (r <==> a.seq < b.seq),
        r <==> number(a) < number(b),
{
    crate::laws::streams::lemma_ids_are_numbers(a, b);
}

/// How long something has been idle, and no time where its time is to come.
pub proof fn lemma_idle(now: u64, then: u64, r: u64)
    requires
        call_ensures(idle_ms, (now, then), r),
    ensures
        then <= now ==> then + r == now,
        now <= then ==> r == 0,
{
}

/// The names of types, as they are told.
pub proof fn lemma_kind_name(v: &crate::value::Value, r: &'static str)
    requires
        call_ensures(crate::value::Value::kind_name, (v,), r),
    ensures
        v@ is Str ==> r@ == "string"@,
        v@ is List ==> r@ == "list"@,
        v@ is Members ==> r@ == "set"@,
        v@ is Sorted ==> r@ == "zset"@,
        v@ is Hash ==> r@ == "hash"@,
        v@ is Stream ==> r@ == "stream"@,
{
}

/// An error of the store is one of memory just if memory ran out, and one of
/// data otherwise; no other error is of either kind but a broken protocol.
pub proof fn lemma_error_kind(e: &crate::error::KevyError, r: crate::error::ErrorKind)
    requires
        call_ensures(crate::error::KevyError::kind, (e,), r),
    ensures
        r is OutOfMemory <==> *e == crate::error::KevyError::Store(
            crate::types::StoreError::OutOfMemory,
        ),
        r is InvalidData <==> e is Protocol || (e is Store && !(r is OutOfMemory)),
        r is TimedOut <==> e is TimedOut,
        r is ConnectionAborted <==> e is Closed,
        r is PermissionDenied <==> e is ReadOnly,
        r is NotFound <==> e is NotFound,
        r is Unsupported <==> e is Unsupported,
        r is InvalidInput <==> e is InvalidInput,
{
}

} // verus!
