//! Strings as arrays of bits, the first bit of a byte being its highest.
use vstd::prelude::*;

verus! {

/// The `p`th bit of a byte, counted from the lowest.
pub open spec fn byte_bit(x: u8, p: u8) -> u8 {
    (x >> p) & 1u8
}

/// A byte whose `p`th bit, counted from the lowest, is `value`.
pub open spec fn with_bit(x: u8, p: u8, value: u8) -> u8 {
    if value == 1 {
        x | (1u8 << p)
    } else {
        x & !(1u8 << p)
    }
}

/// Where in its byte a bit stands, counted from the lowest.
pub open spec fn bit_place(i: nat) -> u8 {
    (7 - i % 8) as u8
}

/// The bit at a place of a string, 0 past its end.
pub open spec fn bit(b: Seq<u8>, i: nat) -> u8 {
    if i / 8 < b.len() {
        byte_bit(b[(i / 8) as int], bit_place(i))
    } else {
        0
    }
}

/// A string with zeros behind it, up to `n` bytes.
pub open spec fn padded(b: Seq<u8>, n: nat) -> Seq<u8> {
    if n > b.len() {
        b + Seq::new((n - b.len()) as nat, |i: int| 0u8)
    } else {
        b
    }
}

/// A string in which one bit was set, with zeros up to it.
pub open spec fn bit_set(b: Seq<u8>, i: nat, value: u8) -> Seq<u8> {
    let p = padded(b, i / 8 + 1);
    p.update((i / 8) as int, with_bit(p[(i / 8) as int], bit_place(i), value))
}

/// How many of the bits from `lo` up to `hi` are set.
pub open spec fn ones_between(b: Seq<u8>, lo: nat, hi: nat) -> nat
    decreases hi,
{
    if hi <= lo {
        0
    } else {
        ones_between(b, lo, (hi - 1) as nat) + bit(b, (hi - 1) as nat) as nat
    }
}

/// The first of the bits from `lo` up to `hi` that equals `value`.
pub open spec fn first_bit(b: Seq<u8>, value: u8, lo: nat, hi: nat) -> Option<nat>
    decreases hi - lo,
{
    if hi <= lo {
        None
    } else if bit(b, lo) == value {
        Some(lo)
    } else {
        first_bit(b, value, lo + 1, hi)
    }
}

/// A byte offset, which may count from the end, but not to before the start.
pub open spec fn offset_in(x: i64, len: nat) -> int {
    if x >= 0 {
        x as int
    } else if len + x < 0 {
        0
    } else {
        len + x
    }
}

/// The first and the last byte that a window covers: all of them without
/// one, none if it lies past the end. An end past the end is the end.
pub open spec fn window(range: Option<(i64, i64)>, len: nat) -> Option<(nat, nat)> {
    match range {
        None => if len == 0 {
            None
        } else {
            Some((0, (len - 1) as nat))
        },
        Some((start, end)) => {
            let s = offset_in(start, len);
            let e = if offset_in(end, len) > len - 1 {
                len - 1
            } else {
                offset_in(end, len)
            };
            if s > e {
                None
            } else {
                Some((s as nat, e as nat))
            }
        },
    }
}

/// A string in which the bytes from `at` on were overwritten, with zeros up
/// to them.
pub open spec fn overwritten(b: Seq<u8>, at: nat, v: Seq<u8>) -> Seq<u8> {
    let p = padded(b, at + v.len());
    Seq::new(
        p.len(),
        |i: int|
            if at <= i < at + v.len() {
                v[i - at]
            } else {
                p[i]
            },
    )
}

/// A bit that was set is what is read there, and no other bit changed.
pub proof fn lemma_set_bit(b: Seq<u8>, i: nat, value: u8, j: nat)
    requires
        value <= 1,
    ensures
        bit(bit_set(b, i, value), j) == (if j == i {
            value
        } else {
            bit(b, j)
        }),
{
    let p = padded(b, i / 8 + 1);
    let k = bit_place(i);
    let m = bit_place(j);
    if j / 8 == i / 8 {
        let x = p[(i / 8) as int];
        assert(((x | (1u8 << k)) >> k) & 1u8 == 1u8) by (bit_vector)
            requires
                k < 8,
        ;
        assert(((x & !(1u8 << k)) >> k) & 1u8 == 0u8) by (bit_vector)
            requires
                k < 8,
        ;
        if j != i {
            assert(m != k);
            assert(((x | (1u8 << k)) >> m) & 1u8 == (x >> m) & 1u8)
                by (bit_vector)
                requires
                    k < 8,
                    m < 8,
                    m != k,
            ;
            assert(((x & !(1u8 << k)) >> m) & 1u8 == (x >> m) & 1u8)
                by (bit_vector)
                requires
                    k < 8,
                    m < 8,
                    m != k,
            ;
        }
        if i / 8 >= b.len() {
            assert((0u8 >> m) & 1u8 == 0u8) by (bit_vector);
        }
    } else if j / 8 >= b.len() && j / 8 < p.len() {
        assert((0u8 >> m) & 1u8 == 0u8) by (bit_vector);
    }
}

/// What the search for a bit finds is the first such bit.
pub proof fn lemma_first_bit(b: Seq<u8>, value: u8, lo: nat, hi: nat)
    ensures
        match first_bit(b, value, lo, hi) {
            Some(p) => lo <= p < hi && bit(b, p) == value && forall|j: nat|
                lo <= j < p ==> #[trigger] bit(b, j) != value,
            None => forall|j: nat| lo <= j < hi ==> #[trigger] bit(b, j) != value,
        },
    decreases hi - lo,
{
    if lo < hi && bit(b, lo) != value {
        lemma_first_bit(b, value, lo + 1, hi);
    }
}

/// Appends zeros up to `n` bytes.
fn pad(v: &mut Vec<u8>, n: usize)
    ensures
        final(v)@ == padded(old(v)@, n as nat),
{
    let ghost before = v@;
    while v.len() < n
        invariant
            before.len() <= v@.len(),
            v@.len() <= n || v@ == before,
            v@ == padded(before, v@.len()),
        decreases n - v@.len(),
    {
        v.push(0);
        assert(v@ =~= padded(before, v@.len()));
    }
}

/// The bit at a place of a string.
pub fn bit_at(b: &[u8], i: u64) -> (r: u8)
    ensures
        r == bit(b@, i as nat),
        r <= 1,
{
    let p: u8 = 7 - (i % 8) as u8;
    if i / 8 >= b.len() as u64 {
        return 0;
    }
    let x: u8 = b[(i / 8) as usize];
    let r: u8 = (x >> p) & 1;
    assert((x >> p) & 1u8 <= 1u8) by (bit_vector);
    r
}

/// Sets one bit, with zeros up to it, and gives what it was.
pub fn put_bit(b: &mut Vec<u8>, i: u64, value: u8) -> (r: u8)
    requires
        value <= 1,
        i / 8 < usize::MAX,
    ensures
        final(b)@ == bit_set(old(b)@, i as nat, value),
        r == bit(old(b)@, i as nat),
{
    let r: u8 = bit_at(b.as_slice(), i);
    let at: usize = (i / 8) as usize;
    let p: u8 = 7 - (i % 8) as u8;
    pad(b, at + 1);
    let x: u8 = b[at];
    let y: u8 = if value == 1 {
        x | (1u8 << p)
    } else {
        x & !(1u8 << p)
    };
    b.set(at, y);
    r
}

/// A byte offset, which may count from the end, but not to before the start.
fn find_offset(x: i64, len: usize) -> (r: i128)
    ensures
        r == offset_in(x, len as nat),
{
    if x >= 0 {
        x as i128
    } else if (len as i128) + (x as i128) < 0 {
        0
    } else {
        (len as i128) + (x as i128)
    }
}

/// The first and the last byte that a window covers.
pub fn find_window(range: Option<(i64, i64)>, len: usize) -> (r: Option<(usize, usize)>)
    ensures
        match r {
            Some((s, e)) => window(range, len as nat) == Some((s as nat, e as nat)) && s <= e < len,
            None => window(range, len as nat) is None,
        },
{
    match range {
        None => if len == 0 {
            None
        } else {
            Some((0, len - 1))
        },
        Some((start, end)) => {
            let s: i128 = find_offset(start, len);
            let e: i128 = find_offset(end, len);
            let last: i128 = len as i128 - 1;
            let e: i128 = if e > last {
                last
            } else {
                e
            };
            if s > e {
                None
            } else {
                Some((s as usize, e as usize))
            }
        },
    }
}

/// How many bits of the bytes `s ..= e` are set, at most `u64::MAX`.
pub fn count_ones(b: &[u8], s: usize, e: usize) -> (r: u64)
    requires
        s <= e < b@.len(),
    ensures
        r == crate::list_data::capped(ones_between(b@, 8 * s as nat, 8 * (e + 1) as nat)),
{
    let mut sum: u64 = 0;
    let mut at: usize = s;
    while at <= e
        invariant
            s <= at <= e + 1,
            e < b@.len(),
            sum == crate::list_data::capped(ones_between(b@, 8 * s as nat, 8 * at as nat)),
        decreases e + 1 - at,
    {
        let x: u8 = b[at];
        let mut k: u8 = 0;
        while k < 8
            invariant
                k <= 8,
                s <= at <= e,
                e < b@.len(),
                x == b@[at as int],
                sum == crate::list_data::capped(
                    ones_between(b@, 8 * s as nat, (8 * at + k) as nat),
                ),
            decreases 8 - k,
        {
            let one: u8 = (x >> (7 - k)) & 1;
            proof {
                let i = (8 * at + k) as nat;
                assert(i / 8 == at && i % 8 == k);
                assert(bit_place(i) == 7 - k);
                assert(one == bit(b@, i));
            }
            sum = sum.saturating_add(one as u64);
            k = k + 1;
        }
        at = at + 1;
    }
    sum
}

/// The first bit of the bytes `s ..= e` that equals `value`, its place held
/// to `u64::MAX`.
pub fn find_bit(b: &[u8], value: u8, s: usize, e: usize) -> (r: Option<u64>)
    requires
        s <= e < b@.len(),
    ensures
        match first_bit(b@, value, 8 * s as nat, 8 * (e + 1) as nat) {
            Some(p) => r == Some(crate::list_data::capped(p)),
            None => r is None,
        },
{
    let mut at: usize = s;
    while at <= e
        invariant
            s <= at <= e + 1,
            e < b@.len(),
            first_bit(b@, value, 8 * s as nat, 8 * (e + 1) as nat) == first_bit(
                b@,
                value,
                8 * at as nat,
                8 * (e + 1) as nat,
            ),
        decreases e + 1 - at,
    {
        let x: u8 = b[at];
        let mut k: u8 = 0;
        while k < 8
            invariant
                k <= 8,
                s <= at <= e,
                e < b@.len(),
                x == b@[at as int],
                first_bit(b@, value, 8 * s as nat, 8 * (e + 1) as nat) == first_bit(
                    b@,
                    value,
                    (8 * at + k) as nat,
                    8 * (e + 1) as nat,
                ),
            decreases 8 - k,
        {
            let one: u8 = (x >> (7 - k)) & 1;
            proof {
                let i = (8 * at + k) as nat;
                assert(i / 8 == at && i % 8 == k);
                assert(bit_place(i) == 7 - k);
                assert(one == bit(b@, i));
            }
            if one == value {
                let place: u128 = (at as u128) * 8 + k as u128;
                return Some(if place > u64::MAX as u128 {
                    u64::MAX
                } else {
                    place as u64
                });
            }
            k = k + 1;
        }
        at = at + 1;
    }
    None
}

/// Overwrites the bytes from `at` on, with zeros up to them.
pub fn overwrite(b: &mut Vec<u8>, at: usize, v: &[u8])
    requires
        at + v@.len() <= usize::MAX,
    ensures
        final(b)@ == overwritten(old(b)@, at as nat, v@),
{
    let ghost before = b@;
    pad(b, at + v.len());
    let ghost p = b@;
    let mut i: usize = 0;
    while i < v.len()
        invariant
            i <= v@.len(),
            at + v@.len() <= usize::MAX,
            at + v@.len() <= p.len(),
            b@.len() == p.len(),
            forall|k: int|
                0 <= k < p.len() ==> #[trigger] b@[k] == (if at <= k < at + i {
                    v@[k - at]
                } else {
                    p[k]
                }),
        decreases v@.len() - i,
    {
        b.set(at + i, v[i]);
        i = i + 1;
    }
    assert(b@ =~= overwritten(before, at as nat, v@));
}

/// A bitwise operator on strings.
#[derive(Clone, Copy, Debug, PartialEq, Eq, Structural)]
pub enum BitOp {
    /// Bitwise AND across the sources.
    And,
    /// Bitwise OR across the sources.
    Or,
    /// Bitwise XOR across the sources.
    Xor,
    /// Bitwise NOT, of exactly one source.
    Not,
}

/// The byte at a place of a string, 0 past its end.
pub open spec fn byte_or_zero(b: Seq<u8>, i: int) -> u8 {
    if i < b.len() {
        b[i]
    } else {
        0
    }
}

/// What an operator other than NOT makes of the bytes that the sources have
/// at a place.
pub open spec fn combined(op: BitOp, srcs: Seq<Seq<u8>>, i: int) -> u8
    decreases srcs.len(),
{
    if srcs.len() == 0 {
        if op is And {
            0xff
        } else {
            0
        }
    } else {
        let before = combined(op, srcs.drop_last(), i);
        let own = byte_or_zero(srcs.last(), i);
        match op {
            BitOp::And => before & own,
            BitOp::Or => before | own,
            _ => before ^ own,
        }
    }
}

/// What an operator makes of the sources: each reads as zeros past its end,
/// also under NOT.
pub open spec fn bitop_spec(op: BitOp, srcs: Seq<Seq<u8>>, max_len: nat) -> Seq<u8> {
    Seq::new(
        max_len,
        |i: int|
            if op is Not {
                !byte_or_zero(srcs[0], i)
            } else {
                combined(op, srcs, i)
            },
    )
}

/// Combines the sources into a string of `max_len` bytes. A source reads as
/// zeros past its end, also under NOT.
pub fn bitop_combine(op: BitOp, srcs_bytes: &[Vec<u8>], max_len: usize) -> (r: Vec<u8>)
    requires
        op is Not ==> srcs_bytes@.len() > 0 && srcs_bytes@[0]@.len() <= max_len,
    ensures
        r@ == bitop_spec(op, crate::bytes::deep(srcs_bytes@), max_len as nat),
{
    let ghost srcs = crate::bytes::deep(srcs_bytes@);
    let mut out: Vec<u8> = Vec::new();
    let mut i: usize = 0;
    while i < max_len
        invariant
            i <= max_len,
            out@.len() == i,
            srcs == crate::bytes::deep(srcs_bytes@),
            op is Not ==> srcs.len() > 0,
            forall|k: int|
                0 <= k < i ==> #[trigger] out@[k] == bitop_spec(op, srcs, max_len as nat)[k],
        decreases max_len - i,
    {
        match op {
            BitOp::Not => {
                let s = &srcs_bytes[0];
                let own: u8 = if i < s.len() {
                    s[i]
                } else {
                    0
                };
                out.push(!own);
            },
            _ => {
                let x: u8 = fold_at(op, srcs_bytes, i);
                out.push(x);
            },
        }
        i = i + 1;
    }
    assert(out@ =~= bitop_spec(op, srcs, max_len as nat));
    out
}

/// What an operator other than NOT makes of the bytes at a place.
fn fold_at(op: BitOp, srcs_bytes: &[Vec<u8>], i: usize) -> (r: u8)
    requires
        !(op is Not),
    ensures
        r == combined(op, crate::bytes::deep(srcs_bytes@), i as int),
{
    let ghost srcs = crate::bytes::deep(srcs_bytes@);
    let mut x: u8 = match op {
        BitOp::And => 0xff,
        _ => 0,
    };
    let mut j: usize = 0;
    assert(srcs.take(0) =~= Seq::empty());
    while j < srcs_bytes.len()
        invariant
            !(op is Not),
            j <= srcs_bytes@.len(),
            srcs == crate::bytes::deep(srcs_bytes@),
            x == combined(op, srcs.take(j as int), i as int),
        decreases srcs_bytes@.len() - j,
    {
        let s = &srcs_bytes[j];
        let own: u8 = if i < s.len() {
            s[i]
        } else {
            0
        };
        proof {
            assert(srcs.take(j + 1).drop_last() =~= srcs.take(j as int));
            assert(srcs.take(j + 1).last() == s@);
        }
        x = match op {
            BitOp::And => x & own,
            BitOp::Or => x | own,
            _ => x ^ own,
        };
        j = j + 1;
    }
    assert(srcs.take(srcs.len() as int) =~= srcs);
    x
}

/// NOT undoes itself.
pub proof fn lemma_not_twice(b: Seq<u8>)
    ensures
        bitop_spec(BitOp::Not, seq![bitop_spec(BitOp::Not, seq![b], b.len())], b.len()) == b,
{
    let once = bitop_spec(BitOp::Not, seq![b], b.len());
    let twice = bitop_spec(BitOp::Not, seq![once], b.len());
    assert forall|i: int| 0 <= i < b.len() implies #[trigger] twice[i] == b[i] by {
        let x = b[i];
        assert(!(!x) == x) by (bit_vector);
        assert(once[i] == !x);
    }
    assert(twice =~= b);
}

} // verus!
