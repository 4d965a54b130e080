//! Strings: when a store takes place, what is read afterwards, and ranges.
use vstd::prelude::*;
use crate::bitmap::overwritten;
use crate::store::bits::{getrange_spec, rebound};
use crate::store::strings::{
    after_set, bulk_header, incr_result, live_string_at, restrung, string_at,
};
use crate::store::{key_live, read_now, seen, StoreModel};
use crate::types::StoreError;

verus! {

/// A string that is stored is read back until its time has run out, and from
/// then on there is none; without a time to live it is read for ever. The
/// deadline that the key had before does not count.
pub proof fn lemma_read_until(
    s: StoreModel,
    key: Seq<u8>,
    v: Seq<u8>,
    ttl: u64,
    t: u64,
)
    requires
        0 < s.now + ttl <= u64::MAX,
    ensures
        ({
            let timed = StoreModel {
                now: t,
                use_cached: false,
                ..after_set(s, key, v, Some(ttl), false, false)
            };
            let free = StoreModel {
                now: t,
                use_cached: false,
                ..after_set(s, key, v, None, false, false)
            };
            &&& live_string_at(timed, key) == Ok::<Option<Seq<u8>>, StoreError>(
                if t < s.now + ttl {
                    Some(v)
                } else {
                    None
                },
            )
            &&& string_at(seen(timed, key), key) == live_string_at(timed, key)
            &&& live_string_at(free, key) == Ok::<Option<Seq<u8>>, StoreError>(Some(v))
        }),
{
}

/// A store that is for new keys only changes nothing under a live key, one
/// that is for keys that are there makes none. Otherwise both store like any.
pub proof fn lemma_store_guards(s: StoreModel, key: Seq<u8>, v: Seq<u8>, ttl: Option<u64>)
    ensures
        key_live(s, key, read_now(s)) ==> after_set(s, key, v, ttl, true, false) == s && after_set(
            s,
            key,
            v,
            ttl,
            false,
            true,
        ) == after_set(s, key, v, ttl, false, false),
        !key_live(s, key, read_now(s)) ==> !after_set(
            s,
            key,
            v,
            ttl,
            false,
            true,
        ).slots.dom().contains(key) && after_set(s, key, v, ttl, true, false) == after_set(
            s,
            key,
            v,
            ttl,
            false,
            false,
        ),
        after_set(s, key, v, ttl, false, false).slots.dom().contains(key),
        after_set(s, key, v, ttl, false, false).slots[key].value == crate::value::Val::Str(v),
{
}

/// An increment adds to the number that a key holds, or starts from 0, and is
/// refused where there is no number or the sum does not fit.
pub proof fn lemma_increment(s: StoreModel, key: Seq<u8>, n: i64, delta: i64)
    ensures
        !s.slots.dom().contains(key) ==> incr_result(s, key, delta) == Ok::<i64, StoreError>(delta),
        string_at(s, key) == Ok::<Option<Seq<u8>>, StoreError>(
            Some(crate::text::decimal(n as int)),
        ) ==> incr_result(s, key, delta) == (if i64::MIN <= n + delta <= i64::MAX {
            Ok((n + delta) as i64)
        } else {
            Err::<i64, StoreError>(StoreError::Overflow)
        }),
{
    crate::text::lemma_decimal_roundtrip(n);
}

/// A text that is no number is refused as none, and another kind of value as
/// that.
pub proof fn lemma_increment_refused(s: StoreModel, key: Seq<u8>, b: Seq<u8>, delta: i64)
    ensures
        string_at(s, key) == Ok::<Option<Seq<u8>>, StoreError>(Some(b))
            && crate::text::parse_i64_spec(b) is None ==> incr_result(s, key, delta) == Err::<
            i64,
            StoreError,
        >(StoreError::NotInteger),
        string_at(s, key) is Err ==> incr_result(s, key, delta) is Err,
{
}

/// A change of a string in place keeps the key's deadline; a key that is made
/// has none.
pub proof fn lemma_deadline_kept(s: StoreModel, key: Seq<u8>, b: Seq<u8>)
    ensures
        ({
            let expire = if s.slots.dom().contains(key) {
                s.slots[key].expire
            } else {
                None
            };
            &&& restrung(s, key, b).slots[key].expire == expire
            &&& rebound(s, key, b).slots[key].expire == expire
            &&& string_at(restrung(s, key, b), key) == Ok::<Option<Seq<u8>>, StoreError>(Some(b))
            &&& string_at(rebound(s, key, b), key) == Ok::<Option<Seq<u8>>, StoreError>(Some(b))
        }),
{
}

/// A range of a string: the whole, one byte, and two ranges that meet; a
/// negative end counts from the back.
pub proof fn lemma_range_pieces(b: Seq<u8>, i: i64)
    requires
        b.len() <= i64::MAX,
    ensures
        getrange_spec(b, 0, (-1) as i64) == b,
        0 <= i < b.len() ==> getrange_spec(b, i, i) == seq![b[i as int]] && getrange_spec(b, 0, i)
            + getrange_spec(b, (i + 1) as i64, (-1) as i64) == b,
        -(b.len() as int) <= i < 0 ==> getrange_spec(b, i, i) == seq![b[b.len() + i]]
            && getrange_spec(b, i, (-1) as i64).len() == -i,
        i >= b.len() ==> getrange_spec(b, i, (-1) as i64).len() == 0 && getrange_spec(b, 0, i) == b,
        i < -(b.len() as int) ==> getrange_spec(b, i, (-1) as i64) == b,
{
    assert(getrange_spec(b, 0, (-1) as i64) =~= b);
    if 0 <= i < b.len() {
        assert(getrange_spec(b, i, i) =~= seq![b[i as int]]);
        assert(getrange_spec(b, 0, i) + getrange_spec(b, (i + 1) as i64, (-1) as i64) =~= b);
    }
    if -(b.len() as int) <= i < 0 {
        assert(getrange_spec(b, i, i) =~= seq![b[b.len() + i]]);
    }
    if i >= b.len() {
        assert(getrange_spec(b, 0, i) =~= b);
    }
    if i < -(b.len() as int) {
        assert(getrange_spec(b, i, (-1) as i64) =~= b);
    }
}

/// Bytes written at a place stand there; every other byte of the string stays,
/// what lies between is zero, and the string grows only as far as it has to.
pub proof fn lemma_overwrite(b: Seq<u8>, at: nat, v: Seq<u8>, i: int)
    requires
        0 <= i < overwritten(b, at, v).len(),
    ensures
        overwritten(b, at, v).len() == (if at + v.len() > b.len() {
            at + v.len()
        } else {
            b.len()
        }),
        at <= i < at + v.len() ==> overwritten(b, at, v)[i] == v[i - at],
        !(at <= i < at + v.len()) && i < b.len() ==> overwritten(b, at, v)[i] == b[i],
        b.len() <= i < at ==> overwritten(b, at, v)[i] == 0,
{
}

/// The head of a reply tells the number of bytes that follow: a dollar sign,
/// the number and the end of the line.
pub proof fn lemma_reply_head(len: nat)
    ensures
        ({
            let h = bulk_header(len);
            let n = h.len();
            &&& n >= 4
            &&& h[0] == 36 && h[n - 2] == 13 && h[n - 1] == 10
            &&& crate::text::all_digits(h.subrange(1, n - 2))
            &&& crate::text::digits_value(h.subrange(1, n - 2)) == len
        }),
{
    let d = crate::text::digits(len);
    let h = bulk_header(len);
    crate::text::lemma_digits(len);
    assert(h.subrange(1, h.len() - 2) =~= d);
}

} // verus!
