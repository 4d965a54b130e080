//! Commands on strings.
use vstd::prelude::*;
use crate::bitmap::bit;
use crate::store::Store;
use crate::types::StoreError;
use crate::value::Val;
use super::{deadline_kept, holds, lacks, others_kept};

verus! {

/// A string is read as it is; a key that is not there gives nothing.
pub proof fn lemma_get(
    s: &mut Store,
    key: &[u8],
    r: Result<Option<Vec<u8>>, StoreError>,
    b: Seq<u8>,
)
    requires
        call_ensures(Store::get, (s, key), r),
    ensures
        holds(*old(s), key@, Val::Str(b)) ==> (r matches Ok(Some(v)) && v@ == b) && final(s)@
            == old(s)@,
        lacks(*old(s), key@) ==> r == Ok::<Option<Vec<u8>>, StoreError>(None)
            && !final(s)@.slots.dom().contains(key@),
        others_kept(*old(s), *final(s), key@),
{
}

/// A string tells how many bytes it has, and a key that is not there tells 0.
pub proof fn lemma_strlen(s: &mut Store, key: &[u8], r: Result<usize, StoreError>, b: Seq<u8>)
    requires
        call_ensures(Store::strlen, (s, key), r),
    ensures
        holds(*old(s), key@, Val::Str(b)) ==> (r matches Ok(n) && n == b.len()),
        lacks(*old(s), key@) ==> r == Ok::<usize, StoreError>(0),
{
}

/// A string is stored in place of whatever was there, with the deadline that
/// is given or none. It is not, and nothing changes, where only a new key is
/// to be made and there is one, or only an old one changed and there is none.
pub proof fn lemma_set(
    s: &mut Store,
    key: &[u8],
    value: Vec<u8>,
    ttl: Option<u64>,
    nx: bool,
    xx: bool,
    r: bool,
    was: Val,
)
    requires
        call_ensures(Store::set, (s, key, value, ttl, nx, xx), r),
        ttl matches Some(n) ==> 0 < old(s)@.now + n <= u64::MAX,
    ensures
        r ==> final(s)@.slots.dom().contains(key@) && final(s)@.slots[key@].value == Val::Str(
            value@,
        ) && final(s)@.slots[key@].expire == (match ttl {
            Some(n) => Some((old(s)@.now + n) as u64),
            None => None,
        }),
        holds(*old(s), key@, was) ==> r == !nx && (!r ==> final(s)@ == old(s)@),
        lacks(*old(s), key@) ==> r == !xx && (!r ==> !final(s)@.slots.dom().contains(key@)),
        others_kept(*old(s), *final(s), key@),
{
}

/// A number in a string is increased, and its deadline stays; where there is
/// none, it starts from 0.
pub proof fn lemma_incr_by(
    s: &mut Store,
    key: &[u8],
    delta: i64,
    r: Result<i64, StoreError>,
    n: i64,
)
    requires
        call_ensures(Store::incr_by, (s, key, delta), r),
    ensures
        holds(*old(s), key@, Val::Str(crate::text::decimal(n as int))) && i64::MIN <= n + delta
            <= i64::MAX ==> r == Ok::<i64, StoreError>((n + delta) as i64)
            && final(s)@.slots[key@].value == Val::Str(crate::text::decimal(n + delta))
            && deadline_kept(*old(s), *final(s), key@),
        holds(*old(s), key@, Val::Str(crate::text::decimal(n as int))) && !(i64::MIN <= n + delta
            <= i64::MAX) ==> r == Err::<i64, StoreError>(StoreError::Overflow) && final(s)@
            == old(s)@,
        lacks(*old(s), key@) ==> r == Ok::<i64, StoreError>(delta) && final(s)@.slots[key@].value
            == Val::Str(crate::text::decimal(delta as int)) && final(s)@.slots[key@].expire is None,
        others_kept(*old(s), *final(s), key@),
{
    crate::text::lemma_decimal_roundtrip(n);
}

/// Bytes are put behind those that are there, and the deadline stays.
pub proof fn lemma_append(
    s: &mut Store,
    key: &[u8],
    data: &[u8],
    r: Result<usize, StoreError>,
    b: Seq<u8>,
)
    requires
        call_ensures(Store::append, (s, key, data), r),
    ensures
        holds(*old(s), key@, Val::Str(b)) ==> (r matches Ok(n) && n == b.len() + data@.len())
            && final(s)@.slots[key@].value == Val::Str(b + data@) && deadline_kept(
            *old(s),
            *final(s),
            key@,
        ),
        lacks(*old(s), key@) ==> final(s)@.slots[key@].value == Val::Str(data@)
            && final(s)@.slots[key@].expire is None,
        others_kept(*old(s), *final(s), key@),
{
}

/// A string is replaced and the old one given back; its deadline is gone.
pub proof fn lemma_getset(
    s: &mut Store,
    key: &[u8],
    val: Vec<u8>,
    r: Result<Option<Vec<u8>>, StoreError>,
    b: Seq<u8>,
)
    requires
        call_ensures(Store::getset, (s, key, val), r),
    ensures
        holds(*old(s), key@, Val::Str(b)) ==> (r matches Ok(Some(v)) && v@ == b),
        lacks(*old(s), key@) ==> r == Ok::<Option<Vec<u8>>, StoreError>(None),
        r is Ok ==> final(s)@.slots[key@].value == Val::Str(val@)
            && final(s)@.slots[key@].expire is None,
        r is Err && !lacks(*old(s), key@) ==> final(s)@ == old(s)@,
        others_kept(*old(s), *final(s), key@),
{
}

/// A string is given back and its key taken; anything else stays.
pub proof fn lemma_getdel(
    s: &mut Store,
    key: &[u8],
    r: Result<Option<Vec<u8>>, StoreError>,
    b: Seq<u8>,
)
    requires
        call_ensures(Store::getdel, (s, key), r),
    ensures
        holds(*old(s), key@, Val::Str(b)) ==> (r matches Ok(Some(v)) && v@ == b)
            && !final(s)@.slots.dom().contains(key@),
        lacks(*old(s), key@) ==> r == Ok::<Option<Vec<u8>>, StoreError>(None),
        r is Err ==> final(s)@.slots == old(s)@.slots,
        others_kept(*old(s), *final(s), key@),
{
}

/// A bit is set or cleared, what it was is told, and every other bit stays;
/// bytes that are missing before it come in as zeros.
pub proof fn lemma_setbit(
    s: &mut Store,
    key: &[u8],
    offset: u64,
    value: u8,
    r: Result<u8, StoreError>,
    b: Seq<u8>,
    i: nat,
)
    requires
        call_ensures(Store::setbit, (s, key, offset, value), r),
        holds(*old(s), key@, Val::Str(b)),
    ensures
        value <= 1 ==> r == Ok::<u8, StoreError>(bit(b, offset as nat)) && (
        final(s)@.slots[key@].value matches Val::Str(n) && bit(n, i) == (if i == offset {
            value
        } else {
            bit(b, i)
        })),
        value > 1 ==> r == Err::<u8, StoreError>(StoreError::OutOfRange) && final(s)@ == old(s)@,
        deadline_kept(*old(s), *final(s), key@),
        others_kept(*old(s), *final(s), key@),
{
    if value <= 1 {
        crate::bitmap::lemma_set_bit(b, offset as nat, value, i);
    }
}

/// A bit is told as it is, and as 0 where the string does not reach.
pub proof fn lemma_getbit(
    s: &mut Store,
    key: &[u8],
    offset: u64,
    r: Result<u8, StoreError>,
    b: Seq<u8>,
)
    requires
        call_ensures(Store::getbit, (s, key, offset), r),
    ensures
        holds(*old(s), key@, Val::Str(b)) ==> r == Ok::<u8, StoreError>(bit(b, offset as nat))
            && final(s)@ == old(s)@,
        lacks(*old(s), key@) ==> r == Ok::<u8, StoreError>(0),
{
}

/// A range gives the bytes from one place to another, both with them.
pub proof fn lemma_getrange(
    s: &mut Store,
    key: &[u8],
    a: i64,
    e: i64,
    r: Result<Vec<u8>, StoreError>,
    b: Seq<u8>,
)
    requires
        call_ensures(Store::getrange, (s, key, a, e), r),
        holds(*old(s), key@, Val::Str(b)),
    ensures
        0 <= a <= e < b.len() ==> (r matches Ok(v) && v@ == b.subrange(a as int, e + 1)),
        final(s)@ == old(s)@,
{
}

/// Bytes are written over those at a place; the others stay, and a gap is
/// filled with zeros.
pub proof fn lemma_setrange(
    s: &mut Store,
    key: &[u8],
    offset: u64,
    value: &[u8],
    r: Result<usize, StoreError>,
    b: Seq<u8>,
    i: int,
)
    requires
        call_ensures(Store::setrange, (s, key, offset, value), r),
        holds(*old(s), key@, Val::Str(b)),
        value@.len() > 0,
    ensures
        final(s)@.slots[key@].value matches Val::Str(n) && (r matches Ok(len) && len == n.len()) && n.len()
            == (if b.len() < offset + value@.len() {
            (offset + value@.len()) as nat
        } else {
            b.len()
        }) && (0 <= i < n.len() ==> n[i] == (if offset <= i < offset + value@.len() {
            value@[i - offset]
        } else if i < b.len() {
            b[i]
        } else {
            0
        })),
        deadline_kept(*old(s), *final(s), key@),
        others_kept(*old(s), *final(s), key@),
{
}

/// The set bits of a whole string are counted.
pub proof fn lemma_bitcount(s: &mut Store, key: &[u8], r: Result<u64, StoreError>, b: Seq<u8>)
    requires
        call_ensures(Store::bitcount, (s, key, None::<(i64, i64)>), r),
        0 < 8 * b.len() <= u64::MAX,
    ensures
        holds(*old(s), key@, Val::Str(b)) ==> (r matches Ok(n) && n == crate::bitmap::ones_between(
            b,
            0,
            8 * b.len(),
        )) && final(s)@ == old(s)@,
        lacks(*old(s), key@) ==> r == Ok::<u64, StoreError>(0),
{
    crate::laws::bits::lemma_bitcount(b, None);
}

/// The first place of a bit in a whole string.
pub proof fn lemma_bitpos(
    s: &mut Store,
    key: &[u8],
    v: u8,
    r: Result<Option<u64>, StoreError>,
    b: Seq<u8>,
    j: nat,
)
    requires
        call_ensures(Store::bitpos, (s, key, v, None::<(i64, i64)>), r),
        holds(*old(s), key@, Val::Str(b)),
        0 < 8 * b.len() <= u64::MAX,
    ensures
        v > 1 ==> r == Err::<Option<u64>, StoreError>(StoreError::OutOfRange),
        v <= 1 ==> match r {
            Ok(Some(p)) => p < 8 * b.len() && bit(b, p as nat) == v && (j < p ==> bit(b, j) != v),
            Ok(None) => j < 8 * b.len() ==> bit(b, j) != v,
            Err(_e) => false,
        },
        final(s)@ == old(s)@,
{
    crate::laws::bits::lemma_bitpos(b, v, None, j);
    let at = if j < 8 * b.len() {
        j / 8
    } else {
        0
    };
    crate::laws::bits::lemma_window(0, 0, b.len(), at as int);
}

} // verus!
