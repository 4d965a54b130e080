//! Strings as arrays of bits.
use vstd::prelude::*;
use crate::bitmap::{bit, bit_set, bitop_spec, ones_between, window, BitOp};
use crate::store::bits::{bitcount_spec, bitpos_spec};

verus! {

/// The first bit of a byte is its highest: the eight bits of a byte make it
/// up, each counting twice the one behind it.
pub proof fn lemma_highest_first(b: Seq<u8>, i: nat)
    requires
        i < b.len(),
    ensures
        b[i as int] == 128 * bit(b, 8 * i) + 64 * bit(b, 8 * i + 1) + 32 * bit(b, 8 * i + 2) + 16
            * bit(b, 8 * i + 3) + 8 * bit(b, 8 * i + 4) + 4 * bit(b, 8 * i + 5) + 2 * bit(
            b,
            8 * i + 6,
        ) + bit(b, 8 * i + 7),
{
    let x = b[i as int];
    assert((8 * i) / 8 == i && (8 * i + 1) / 8 == i && (8 * i + 2) / 8 == i && (8 * i + 3) / 8 == i
        && (8 * i + 4) / 8 == i && (8 * i + 5) / 8 == i && (8 * i + 6) / 8 == i && (8 * i + 7) / 8
        == i);
    assert((8 * i) % 8 == 0 && (8 * i + 1) % 8 == 1 && (8 * i + 2) % 8 == 2 && (8 * i + 3) % 8 == 3
        && (8 * i + 4) % 8 == 4 && (8 * i + 5) % 8 == 5 && (8 * i + 6) % 8 == 6 && (8 * i + 7) % 8
        == 7);
    let a7 = (x >> 7u8) & 1u8;
    let a6 = (x >> 6u8) & 1u8;
    let a5 = (x >> 5u8) & 1u8;
    let a4 = (x >> 4u8) & 1u8;
    let a3 = (x >> 3u8) & 1u8;
    let a2 = (x >> 2u8) & 1u8;
    let a1 = (x >> 1u8) & 1u8;
    let a0 = (x >> 0u8) & 1u8;
    assert(a7 <= 1 && a6 <= 1 && a5 <= 1 && a4 <= 1 && a3 <= 1 && a2 <= 1 && a1 <= 1 && a0 <= 1)
        by (bit_vector)
        requires
            a7 == (x >> 7u8) & 1u8,
            a6 == (x >> 6u8) & 1u8,
            a5 == (x >> 5u8) & 1u8,
            a4 == (x >> 4u8) & 1u8,
            a3 == (x >> 3u8) & 1u8,
            a2 == (x >> 2u8) & 1u8,
            a1 == (x >> 1u8) & 1u8,
            a0 == (x >> 0u8) & 1u8,
    ;
    assert(x as u32 == 128u32 * (a7 as u32) + 64u32 * (a6 as u32) + 32u32 * (a5 as u32) + 16u32 * (
    a4 as u32) + 8u32 * (a3 as u32) + 4u32 * (a2 as u32) + 2u32 * (a1 as u32) + (a0 as u32))
        by (bit_vector)
        requires
            a7 == (x >> 7u8) & 1u8,
            a6 == (x >> 6u8) & 1u8,
            a5 == (x >> 5u8) & 1u8,
            a4 == (x >> 4u8) & 1u8,
            a3 == (x >> 3u8) & 1u8,
            a2 == (x >> 2u8) & 1u8,
            a1 == (x >> 1u8) & 1u8,
            a0 == (x >> 0u8) & 1u8,
    ;
}

/// A bit is 0 or 1, and 0 past the end.
pub proof fn lemma_bit(b: Seq<u8>, i: nat)
    ensures
        bit(b, i) <= 1,
        i >= 8 * b.len() ==> bit(b, i) == 0,
{
    if i / 8 < b.len() {
        let x = b[(i / 8) as int];
        let p = crate::bitmap::bit_place(i);
        assert((x >> p) & 1u8 <= 1u8) by (bit_vector);
    }
}

/// Counting bits: ranges that meet add up, a single bit counts as it is, and
/// no range counts more bits than it has.
pub proof fn lemma_count_adds(b: Seq<u8>, lo: nat, mid: nat, hi: nat)
    requires
        lo <= mid <= hi,
    ensures
        ones_between(b, lo, hi) == ones_between(b, lo, mid) + ones_between(b, mid, hi),
        ones_between(b, lo, lo + 1) == bit(b, lo),
        ones_between(b, lo, hi) <= hi - lo,
        ones_between(b, lo, lo) == 0,
    decreases hi - mid,
{
    if mid < hi {
        lemma_count_adds(b, lo, mid, (hi - 1) as nat);
    }
    lemma_count_fits(b, lo, hi);
    reveal_with_fuel(ones_between, 2);
}

proof fn lemma_count_fits(b: Seq<u8>, lo: nat, hi: nat)
    requires
        lo <= hi,
    ensures
        ones_between(b, lo, hi) <= hi - lo,
    decreases hi,
{
    if lo < hi {
        lemma_count_fits(b, lo, (hi - 1) as nat);
        lemma_bit(b, (hi - 1) as nat);
    }
}

/// Setting a bit changes the count by what that bit changes.
pub proof fn lemma_count_set(b: Seq<u8>, i: nat, v: u8, lo: nat, hi: nat)
    requires
        v <= 1,
    ensures
        lo <= i < hi ==> ones_between(bit_set(b, i, v), lo, hi) + bit(b, i) == ones_between(
            b,
            lo,
            hi,
        ) + v,
        !(lo <= i < hi) ==> ones_between(bit_set(b, i, v), lo, hi) == ones_between(b, lo, hi),
    decreases hi,
{
    if hi > lo {
        lemma_count_set(b, i, v, lo, (hi - 1) as nat);
        crate::bitmap::lemma_set_bit(b, i, v, (hi - 1) as nat);
    }
}

/// A window covers just the bytes that neither end excludes; either end may
/// count from the back, but not to before the front, and without a window all
/// bytes are covered.
pub proof fn lemma_window(start: i64, end: i64, len: nat, i: int)
    requires
        0 <= i < len,
    ensures
        (window(Some((start, end)), len) matches Some((s, e)) && s <= i <= e) <==> (start <= i && (
        start < 0 ==> len + start <= i)) && (if end >= 0 {
            i <= end
        } else if len + end < 0 {
            i == 0
        } else {
            i <= len + end
        }),
        window(None, len) matches Some((s, e)) && s <= i <= e,
{
}

/// The bits of a window are those of its bytes: counted they are what the
/// bytes hold, and a window that covers nothing holds none.
pub proof fn lemma_bitcount(b: Seq<u8>, range: Option<(i64, i64)>)
    requires
        8 * b.len() <= u64::MAX,
    ensures
        window(range, b.len()) is None ==> bitcount_spec(b, range) == 0,
        window(range, b.len()) matches Some((s, e)) ==> s <= e < b.len() && bitcount_spec(b, range)
            == ones_between(b, 8 * s, 8 * e + 8),
        b.len() > 0 ==> bitcount_spec(b, None) == ones_between(b, 0, 8 * b.len()),
{
    if let Some((s, e)) = window(range, b.len()) {
        lemma_count_adds(b, 8 * s, 8 * s, 8 * (e + 1));
    }
    lemma_count_adds(b, 0, 0, 8 * b.len());
}

/// The place that a search for a bit tells lies in the window and holds it,
/// and no earlier place of the window does. Where none is told the window
/// holds none, but that an empty string counts as a 0.
pub proof fn lemma_bitpos(b: Seq<u8>, v: u8, range: Option<(i64, i64)>, j: nat)
    requires
        0 < b.len(),
        8 * b.len() <= u64::MAX,
    ensures
        match bitpos_spec(b, v, range) {
            Some(p) => window(range, b.len()) matches Some((s, e)) && 8 * s <= p < 8 * e + 8 && bit(
                b,
                p as nat,
            ) == v && (8 * s <= j < p ==> bit(b, j) != v),
            None => window(range, b.len()) matches Some((s, e)) ==> 8 * s <= j < 8 * e + 8 ==> bit(
                b,
                j,
            ) != v,
        },
        bitpos_spec(Seq::empty(), 0, range) == Some(0u64),
        bitpos_spec(Seq::empty(), 1, range) is None,
{
    if let Some((s, e)) = window(range, b.len()) {
        crate::bitmap::lemma_first_bit(b, v, 8 * s, 8 * (e + 1));
    }
}

/// What NOT makes of a string has every bit turned over.
pub proof fn lemma_not(b: Seq<u8>, i: nat)
    requires
        i < 8 * b.len(),
    ensures
        bit(bitop_spec(BitOp::Not, seq![b], b.len()), i) == 1 - bit(b, i),
        bitop_spec(BitOp::Not, seq![b], b.len()).len() == b.len(),
{
    let x = b[(i / 8) as int];
    let p = crate::bitmap::bit_place(i);
    assert(((!x) >> p) & 1u8 == 1u8 - ((x >> p) & 1u8)) by (bit_vector)
        requires
            p < 8,
    ;
    assert((x >> p) & 1u8 <= 1u8) by (bit_vector);
}

/// A string joined to others by AND has a bit just where it and the others
/// have it, by OR where either has it, and by XOR where one of them has it
/// and the other has not. Past its end a string has no bits.
pub proof fn lemma_join(srcs: Seq<Seq<u8>>, b: Seq<u8>, n: nat, i: nat)
    requires
        i < 8 * n,
    ensures
        bit(bitop_spec(BitOp::And, srcs.push(b), n), i) == 1 <==> bit(b, i) == 1 && bit(
            bitop_spec(BitOp::And, srcs, n),
            i,
        ) == 1,
        bit(bitop_spec(BitOp::Or, srcs.push(b), n), i) == 1 <==> bit(b, i) == 1 || bit(
            bitop_spec(BitOp::Or, srcs, n),
            i,
        ) == 1,
        bit(bitop_spec(BitOp::Xor, srcs.push(b), n), i) == 1 <==> bit(b, i) != bit(
            bitop_spec(BitOp::Xor, srcs, n),
            i,
        ),
        bit(bitop_spec(BitOp::And, Seq::empty(), n), i) == 1,
        bit(bitop_spec(BitOp::Or, Seq::empty(), n), i) == 0,
        bit(bitop_spec(BitOp::Xor, Seq::empty(), n), i) == 0,
{
    let k = (i / 8) as int;
    let p = crate::bitmap::bit_place(i);
    let all = srcs.push(b);
    assert(all.drop_last() =~= srcs);
    let y = crate::bitmap::byte_or_zero(b, k);
    let x1 = crate::bitmap::combined(BitOp::And, srcs, k);
    let x2 = crate::bitmap::combined(BitOp::Or, srcs, k);
    let x3 = crate::bitmap::combined(BitOp::Xor, srcs, k);
    if k >= b.len() {
        assert((0u8 >> p) & 1u8 == 0u8) by (bit_vector);
    }
    assert(((x1 & y) >> p) & 1u8 == ((x1 >> p) & 1u8) & ((y >> p) & 1u8)) by (bit_vector);
    assert(((x2 | y) >> p) & 1u8 == ((x2 >> p) & 1u8) | ((y >> p) & 1u8)) by (bit_vector);
    assert(((x3 ^ y) >> p) & 1u8 == ((x3 >> p) & 1u8) ^ ((y >> p) & 1u8)) by (bit_vector);
    let a = (x1 >> p) & 1u8;
    let c = (x2 >> p) & 1u8;
    let d = (x3 >> p) & 1u8;
    let e = (y >> p) & 1u8;
    assert(a <= 1 && c <= 1 && d <= 1 && e <= 1 && (a & e == 1 <==> a == 1 && e == 1) && (c | e == 1
        <==> c == 1 || e == 1) && (d ^ e == 1 <==> d != e)) by (bit_vector)
        requires
            a == (x1 >> p) & 1u8,
            c == (x2 >> p) & 1u8,
            d == (x3 >> p) & 1u8,
            e == (y >> p) & 1u8,
    ;
    assert((0xffu8 >> p) & 1u8 == 1u8 && (0u8 >> p) & 1u8 == 0u8) by (bit_vector)
        requires
            p < 8,
    ;
}

} // verus!
