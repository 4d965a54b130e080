//! Numbers as text, little-endian words, random draws and times.
use vstd::prelude::*;
use crate::entry::{deadline_spec, due, packed, remaining_spec};
use crate::rng::{below_spec, seeded, stepped, stepped_by};
use crate::text::{
    all_digits, canonical_i64_spec, decimal, digits, digits_value, parse_i64_spec, parse_u64_spec,
};

verus! {

/// Decimal text: each digit behind others counts ten times less than the one
/// before it, and a number has no leading zero.
pub proof fn lemma_places(n: nat, s: Seq<u8>, d: u8)
    requires
        d < 10,
    ensures
        n > 0 ==> digits(10 * n + d as nat) == digits(n).push((48 + d) as u8),
        digits(d as nat) == seq![(48 + d) as u8],
        digits_value(s.push((48 + d) as u8)) == 10 * digits_value(s) + d,
        n > 0 ==> digits(n)[0] != 48,
{
    let m = 10 * n + d as nat;
    if n > 0 {
        assert(m / 10 == n && m % 10 == d);
    }
    let t = s.push((48 + d) as u8);
    assert(t.drop_last() =~= s);
    crate::text::lemma_digits(n);
}

/// A sign in front of digits: a minus turns the number round, a plus leaves
/// it, and a leading zero changes nothing.
pub proof fn lemma_signs(s: Seq<u8>)
    requires
        all_digits(s),
    ensures
        digits_value(s) <= i64::MAX ==> parse_i64_spec(s) == Some(digits_value(s) as i64),
        digits_value(s) <= i64::MAX ==> parse_i64_spec(seq![43u8] + s) == Some(
            digits_value(s) as i64,
        ),
        digits_value(s) <= i64::MAX + 1 ==> parse_i64_spec(seq![45u8] + s) == Some(
            (-(digits_value(s) as int)) as i64,
        ),
        digits_value(s) > i64::MAX ==> parse_i64_spec(s) is None,
        digits_value(s) > i64::MAX + 1 ==> parse_i64_spec(seq![45u8] + s) is None,
        digits_value(s) <= u64::MAX ==> parse_u64_spec(s) == Some(digits_value(s) as u64),
        digits_value(s) > u64::MAX ==> parse_u64_spec(s) is None,
        parse_u64_spec(seq![45u8] + s) is None,
        digits_value(seq![48u8] + s) == digits_value(s),
    decreases s.len(),
{
    assert(crate::text::is_digit(s[0]));
    let p = seq![43u8] + s;
    let m = seq![45u8] + s;
    assert(p[0] == 43 && m[0] == 45);
    assert(p.subrange(1, p.len() as int) =~= s);
    assert(m.subrange(1, m.len() as int) =~= s);
    assert(!all_digits(m)) by {
        assert(!crate::text::is_digit(m[0]));
    }
    lemma_leading_zero(s);
}

proof fn lemma_leading_zero(s: Seq<u8>)
    ensures
        digits_value(seq![48u8] + s) == digits_value(s),
    decreases s.len(),
{
    let z = seq![48u8] + s;
    if s.len() == 0 {
        assert(z.drop_last() =~= Seq::empty());
        assert(z.last() == 48);
        assert(digits_value(z.drop_last()) == 0);
    } else {
        lemma_leading_zero(s.drop_last());
        assert(z.drop_last() =~= seq![48u8] + s.drop_last());
        assert(z.last() == s.last());
    }
}

/// A text with a byte that is neither a digit nor a sign in front, and a text
/// without digits, is no number.
pub proof fn lemma_no_number(s: Seq<u8>, i: int)
    requires
        0 < i < s.len(),
        !(48 <= s[i] <= 57),
    ensures
        parse_i64_spec(s) is None,
        parse_u64_spec(s) is None,
        parse_i64_spec(Seq::empty()) is None,
        parse_u64_spec(Seq::empty()) is None,
{
    let b = s.subrange(1, s.len() as int);
    assert(b[i - 1] == s[i]);
    assert(!crate::text::is_digit(b[i - 1]));
    assert(!crate::text::is_digit(s[i]));
    let e = Seq::<u8>::empty();
    assert(!all_digits(e));
}

/// A text is kept as a number just if it is the one way to print it.
pub proof fn lemma_canonical(s: Seq<u8>, n: i64)
    ensures
        canonical_i64_spec(s) == Some(n) <==> s == decimal(n as int),
{
    crate::text::lemma_decimal_roundtrip(n);
}

/// A word in little-endian bytes has its lowest byte first.
pub proof fn lemma_lowest_byte_first(n: nat, len: nat)
    requires
        len > 0,
    ensures
        crate::le::le_bytes(n, len).len() == len,
        crate::le::le_bytes(n, len)[0] == n % 256,
        crate::le::le_bytes(n, len).skip(1) == crate::le::le_bytes(n / 256, (len - 1) as nat),
{
    crate::le::lemma_le_len(n, len);
    assert(crate::le::le_bytes(n, len).skip(1) =~= crate::le::le_bytes(n / 256, (len - 1) as nat));
}

/// A draw is scaled without a gap: a greater draw never gives less, every
/// number below the bound is drawn, and the least draw gives 0.
pub proof fn lemma_scaled(a: u64, b: u64, n: u64, k: u64)
    requires
        a <= b,
        k < n,
    ensures
        below_spec(a, n) <= below_spec(b, n) < n,
        below_spec(0, n) == 0,
        below_spec(u64::MAX, n) == n - 1,
        exists|draw: u64| #[trigger] below_spec(draw, n) == k,
{
    let w = 0x1_0000_0000_0000_0000int;
    let m = n as int;
    assert(a as int * m <= b as int * m) by (nonlinear_arith)
        requires
            a <= b,
            m >= 0,
    ;
    vstd::arithmetic::div_mod::lemma_div_is_ordered(a as int * m, b as int * m, w);
    crate::rng::lemma_below_range(b, n);
    crate::rng::lemma_below_range(a, n);
    if n == 1 {
        assert(below_spec(0, n) == k);
    } else {
        assert(0 * m == 0);
        assert((w - 1) * m == w * (m - 1) + (w - m)) by (nonlinear_arith);
        vstd::arithmetic::div_mod::lemma_fundamental_div_mod_converse(
            (w - 1) * m,
            w,
            m - 1,
            w - m,
        );
        let top = k as int * w;
        let d = (top + m - 1) / m;
        vstd::arithmetic::div_mod::lemma_fundamental_div_mod(top + m - 1, m);
        assert(top <= d * m <= top + m - 1) by (nonlinear_arith)
            requires
                top + m - 1 == m * d + (top + m - 1) % m,
                0 <= (top + m - 1) % m < m,
        ;
        assert(d >= 0) by (nonlinear_arith)
            requires
                top <= d * m,
                top >= 0,
                m > 0,
        ;
        assert(d < w) by (nonlinear_arith)
            requires
                d * m <= top + m - 1,
                top == k as int * w,
                k as int + 1 <= m,
                0 < m <= w,
        ;
        let draw = d as u64;
        assert(draw as int * m == top + (d * m - top));
        vstd::arithmetic::div_mod::lemma_fundamental_div_mod_converse(
            d * m,
            w,
            k as int,
            d * m - top,
        );
        assert(below_spec(draw, n) == k);
    }
}

/// Different seeds start different streams, and a stream that is drawn from
/// in two parts is where one that is drawn from at once would be.
pub proof fn lemma_random_stream(a: u64, b: u64, state: u64, m: nat, n: nat)
    ensures
        a != b ==> seeded(a) != seeded(b),
        stepped_by(stepped_by(state, m), n) == stepped_by(state, m + n),
        stepped_by(state, 1) == stepped(state),
        stepped_by(state, 0) == state,
    decreases n,
{
    let g = crate::rng::GOLDEN_GAMMA;
    assert(a ^ g == b ^ g ==> a == b) by (bit_vector);
    if n > 0 {
        lemma_random_stream(a, b, state, m, (n - 1) as nat);
    }
    reveal_with_fuel(stepped_by, 2);
}

/// A deadline so many nanoseconds ahead has come just when those have passed,
/// unless it lies past the end of the clock, which never comes before it.
pub proof fn lemma_deadline_comes(now: u64, ttl: nat, t: u64)
    ensures
        now + ttl <= u64::MAX ==> (due(Some(deadline_spec(now, ttl)), t) <==> t >= now + ttl),
        now + ttl > u64::MAX ==> (due(Some(deadline_spec(now, ttl)), t) <==> t == u64::MAX),
        !due(None, t),
        packed(Some(deadline_spec(now, ttl))) == (if now + ttl == 0 {
            None
        } else {
            Some(deadline_spec(now, ttl))
        }),
{
}

/// The time until a deadline is told in whole milliseconds, rounded down: a
/// deadline that is set so many milliseconds ahead has that many left, and
/// later so much less.
pub proof fn lemma_time_left(now: u64, ms: u64, later: u64)
    requires
        now + ms * 1_000_000 <= u64::MAX,
        now <= later <= now + ms * 1_000_000,
    ensures
        remaining_spec(deadline_spec(now, ms as nat * 1_000_000), now) == ms,
        ({
            let left = remaining_spec(deadline_spec(now, ms as nat * 1_000_000), later);
            left * 1_000_000 <= now + ms * 1_000_000 - later < (left + 1) * 1_000_000
        }),
{
    let d = deadline_spec(now, ms as nat * 1_000_000);
    assert((d - now) == ms * 1_000_000);
    assert((ms * 1_000_000) / 1_000_000 == ms);
}

} // verus!
