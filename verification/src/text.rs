//! Decimal numbers as text, index ranges, and glob patterns.
use vstd::prelude::*;

verus! {

/// Whether a byte is a decimal digit.
pub open spec fn is_digit(b: u8) -> bool {
    48 <= b <= 57
}

/// Whether a text is made of decimal digits, at least one.
pub open spec fn all_digits(s: Seq<u8>) -> bool {
    s.len() > 0 && forall|i: int| 0 <= i < s.len() ==> is_digit(#[trigger] s[i])
}

/// The number that a text of digits stands for.
pub open spec fn digits_value(s: Seq<u8>) -> nat
    decreases s.len(),
{
    if s.len() == 0 {
        0
    } else {
        10 * digits_value(s.drop_last()) + (s.last() - 48) as nat
    }
}

/// The digits of a number, without leading zeros.
pub open spec fn digits(n: nat) -> Seq<u8>
    decreases n,
{
    if n < 10 {
        seq![(48 + n) as u8]
    } else {
        digits(n / 10).push((48 + n % 10) as u8)
    }
}

/// A number as decimal text.
pub open spec fn decimal(n: int) -> Seq<u8> {
    if n < 0 {
        seq![45u8] + digits((-n) as nat)
    } else {
        digits(n as nat)
    }
}

/// Reading the digits of a number gives the number.
pub proof fn lemma_digits(n: nat)
    ensures
        all_digits(digits(n)),
        digits_value(digits(n)) == n,
        digits(n)[0] == 48 ==> n == 0,
        digits(n).len() > 1 ==> n >= 10,
    decreases n,
{
    if n < 10 {
        let s = digits(n);
        assert(s.drop_last() =~= Seq::empty());
        assert(digits_value(s.drop_last()) == 0);
        assert(s.last() == (48 + n) as u8);
    } else {
        lemma_digits(n / 10);
        let p = digits(n / 10);
        let s = digits(n);
        assert(s.drop_last() =~= p);
        assert(s.last() == (48 + n % 10) as u8);
        assert(s[0] == p[0]);
        assert forall|i: int| 0 <= i < s.len() implies is_digit(#[trigger] s[i]) by {
            if i < p.len() {
                assert(s[i] == p[i]);
            }
        }
    }
}

/// A text of digits is worth at least what its beginning is worth.
proof fn lemma_value_grows(s: Seq<u8>, i: int)
    requires
        all_digits(s),
        0 <= i <= s.len(),
    ensures
        digits_value(s.subrange(0, i)) <= digits_value(s),
    decreases s.len() - i,
{
    if i < s.len() {
        let a = s.subrange(0, i);
        let b = s.subrange(0, i + 1);
        assert(b.drop_last() =~= a);
        assert(is_digit(s[i]));
        lemma_value_grows(s, i + 1);
    } else {
        assert(s.subrange(0, i) =~= s);
    }
}

/// The number that a text stands for: digits behind an optional plus sign.
pub open spec fn unsigned_value(s: Seq<u8>) -> Option<nat> {
    let body = if s.len() > 0 && s[0] == 43 {
        s.subrange(1, s.len() as int)
    } else {
        s
    };
    if all_digits(body) {
        Some(digits_value(body))
    } else {
        None
    }
}

/// The number that a text stands for: digits behind an optional sign.
pub open spec fn signed_value(s: Seq<u8>) -> Option<int> {
    if s.len() > 0 && s[0] == 45 {
        let body = s.subrange(1, s.len() as int);
        if all_digits(body) {
            Some(-(digits_value(body) as int))
        } else {
            None
        }
    } else {
        match unsigned_value(s) {
            Some(n) => Some(n as int),
            None => None,
        }
    }
}

/// What parsing a text as an `i64` gives.
pub open spec fn parse_i64_spec(s: Seq<u8>) -> Option<i64> {
    match signed_value(s) {
        Some(n) => if i64::MIN <= n <= i64::MAX {
            Some(n as i64)
        } else {
            None
        },
        None => None,
    }
}

/// What parsing a text as a `u64` gives.
pub open spec fn parse_u64_spec(s: Seq<u8>) -> Option<u64> {
    match unsigned_value(s) {
        Some(n) => if n <= u64::MAX {
            Some(n as u64)
        } else {
            None
        },
        None => None,
    }
}

/// What a text is worth if it is the one way in which a number is printed.
pub open spec fn canonical_i64_spec(s: Seq<u8>) -> Option<i64> {
    match parse_i64_spec(s) {
        Some(n) => if decimal(n as int) == s {
            Some(n)
        } else {
            None
        },
        None => None,
    }
}

/// The digits of `s[from..]` as a number, if they are digits and the number
/// is at most `max`.
fn parse_digits(s: &[u8], from: usize, max: u64) -> (r: Option<u64>)
    requires
        from <= s@.len(),
    ensures
        ({
            let body = s@.subrange(from as int, s@.len() as int);
            r == (if all_digits(body) && digits_value(body) <= max {
                Some(digits_value(body) as u64)
            } else {
                None
            })
        }),
{
    let ghost body = s@.subrange(from as int, s@.len() as int);
    if from == s.len() {
        return None;
    }
    let mut acc: u64 = 0;
    let mut i: usize = from;
    while i < s.len()
        invariant
            from <= i <= s@.len(),
            from < s@.len(),
            body == s@.subrange(from as int, s@.len() as int),
            acc == digits_value(body.subrange(0, i - from)),
            acc <= max,
            forall|j: int| 0 <= j < i - from ==> is_digit(#[trigger] body[j]),
        decreases s@.len() - i,
    {
        let b: u8 = s[i];
        let ghost at = i - from;
        assert(body[at] == b);
        if b < 48 || b > 57 {
            return None;
        }
        let d: u64 = (b - 48) as u64;
        proof {
            let more = body.subrange(0, at + 1);
            assert(more.drop_last() =~= body.subrange(0, at));
            assert(more.last() == b);
            if all_digits(body) {
                lemma_value_grows(body, at + 1);
            }
        }
        if acc > u64::MAX / 10 {
            return None;
        }
        let ten: u64 = acc * 10;
        if ten > u64::MAX - d {
            return None;
        }
        acc = ten + d;
        if acc > max {
            return None;
        }
        i = i + 1;
    }
    assert(body.subrange(0, i - from) =~= body);
    Some(acc)
}

/// A text as a `u64`: digits behind an optional plus sign.
pub fn parse_u64(s: &[u8]) -> (r: Option<u64>)
    ensures
        r == parse_u64_spec(s@),
{
    let from: usize = if s.len() > 0 && s[0] == 43 {
        1
    } else {
        0
    };
    assert(s@.subrange(0, s@.len() as int) =~= s@);
    parse_digits(s, from, u64::MAX)
}

/// A text as an `i64`: digits behind an optional sign.
pub fn parse_i64(s: &[u8]) -> (r: Option<i64>)
    ensures
        r == parse_i64_spec(s@),
{
    assert(s@.subrange(0, s@.len() as int) =~= s@);
    if s.len() > 0 && s[0] == 45 {
        match parse_digits(s, 1, 0x8000_0000_0000_0000u64) {
            None => None,
            Some(m) => if m == 0x8000_0000_0000_0000u64 {
                Some(i64::MIN)
            } else {
                Some(-(m as i64))
            },
        }
    } else {
        let from: usize = if s.len() > 0 && s[0] == 43 {
            1
        } else {
            0
        };
        match parse_digits(s, from, 0x7fff_ffff_ffff_ffffu64) {
            None => None,
            Some(m) => Some(m as i64),
        }
    }
}

/// Appends the digits of `n`.
pub fn push_digits(out: &mut Vec<u8>, n: u64)
    ensures
        final(out)@ == old(out)@ + digits(n as nat),
    decreases n,
{
    if n >= 10 {
        push_digits(out, n / 10);
    }
    let ghost before = out@;
    out.push(48 + (n % 10) as u8);
    assert(out@ =~= old(out)@ + digits(n as nat));
}

/// `n` as decimal text.
pub fn format_i64(n: i64) -> (r: Vec<u8>)
    ensures
        r@ == decimal(n as int),
{
    let mut out: Vec<u8> = Vec::new();
    if n < 0 {
        out.push(45);
        let m: u64 = if n == i64::MIN {
            0x8000_0000_0000_0000u64
        } else {
            (-n) as u64
        };
        push_digits(&mut out, m);
        assert(out@ =~= decimal(n as int));
    } else {
        push_digits(&mut out, n as u64);
        assert(out@ =~= decimal(n as int));
    }
    out
}

/// The number that `s` prints, if `s` is the one way in which it is printed.
pub fn parse_canonical_i64(s: &[u8]) -> (r: Option<i64>)
    ensures
        r == canonical_i64_spec(s@),
{
    match parse_i64(s) {
        None => None,
        Some(n) => {
            let t = format_i64(n);
            if crate::bytes::bytes_eq(t.as_slice(), s) {
                Some(n)
            } else {
                None
            }
        },
    }
}

/// A printed number reads back as itself, and its text is canonical.
pub proof fn lemma_decimal_roundtrip(n: i64)
    ensures
        parse_i64_spec(decimal(n as int)) == Some(n),
        canonical_i64_spec(decimal(n as int)) == Some(n),
{
    let s = decimal(n as int);
    if n < 0 {
        let m = (-(n as int)) as nat;
        lemma_digits(m);
        assert(s.subrange(1, s.len() as int) =~= digits(m));
    } else {
        lemma_digits(n as nat);
        assert(is_digit(s[0]));
        assert(s.subrange(0, s.len() as int) =~= s);
    }
}

/// An index from either end as a place in a list of `len` elements.
pub open spec fn norm_index_spec(idx: i64, len: nat) -> Option<nat> {
    let i = if idx < 0 {
        idx + len
    } else {
        idx as int
    };
    if 0 <= i < len {
        Some(i as nat)
    } else {
        None
    }
}

/// An index from either end as a place in a list of `len` elements.
pub fn norm_index(idx: i64, len: usize) -> (r: Option<usize>)
    ensures
        match r {
            Some(i) => norm_index_spec(idx, len as nat) == Some(i as nat),
            None => norm_index_spec(idx, len as nat) is None,
        },
{
    if idx < 0 {
        let back: u64 = if idx == i64::MIN {
            0x8000_0000_0000_0000u64
        } else {
            (-idx) as u64
        };
        if back > len as u64 {
            None
        } else {
            Some((len as u64 - back) as usize)
        }
    } else if (idx as u64) < len as u64 {
        Some(idx as usize)
    } else {
        None
    }
}

/// The places that the inclusive range `start ..= stop` covers in a list of
/// `len` elements. Either end may count from the back. A start before the
/// front is the front, a stop past the back is the back; a start past the
/// back makes the range empty.
pub open spec fn range_bounds_spec(start: i64, stop: i64, len: nat) -> Option<(nat, nat)> {
    let s0 = if start < 0 {
        start + len
    } else {
        start as int
    };
    let s = if s0 < 0 {
        0
    } else {
        s0
    };
    let e0 = if stop < 0 {
        stop + len
    } else {
        stop as int
    };
    let e = if e0 > len - 1 {
        len - 1
    } else {
        e0
    };
    if len == 0 || s > e {
        None
    } else {
        Some((s as nat, e as nat))
    }
}

/// The range is within the list.
pub proof fn lemma_range_bounds(start: i64, stop: i64, len: nat)
    ensures
        range_bounds_spec(start, stop, len) matches Some((s, e)) ==> s <= e < len,
{
}

/// The places that the inclusive range `start ..= stop` covers.
pub fn range_bounds(start: i64, stop: i64, len: usize) -> (r: Option<(usize, usize)>)
    ensures
        match r {
            Some((s, e)) => range_bounds_spec(start, stop, len as nat) == Some(
                (s as nat, e as nat),
            ) && s <= e < len,
            None => range_bounds_spec(start, stop, len as nat) is None,
        },
{
    if len == 0 {
        return None;
    }
    let n: i128 = len as i128;
    let s0: i128 = if start < 0 {
        start as i128 + n
    } else {
        start as i128
    };
    let s: i128 = if s0 < 0 {
        0
    } else {
        s0
    };
    let e0: i128 = if stop < 0 {
        stop as i128 + n
    } else {
        stop as i128
    };
    let e: i128 = if e0 > n - 1 {
        n - 1
    } else {
        e0
    };
    if s > e {
        None
    } else {
        Some((s as usize, e as usize))
    }
}

/// The outcome of reading a character class: whether it accepts `c`, and
/// where the pattern goes on.
pub open spec fn class_match(p: Seq<u8>, at: int, c: u8, hit: bool) -> (bool, int)
    decreases p.len() - at,
    when 0 <= at
{
    if at >= p.len() {
        (hit, p.len() as int)
    } else if p[at] == 93 {
        (hit, at + 1)
    } else if p[at] == 92 && at + 1 < p.len() {
        class_match(p, at + 2, c, hit || p[at + 1] == c)
    } else if at + 2 < p.len() && p[at + 1] == 45 {
        let lo = if p[at] <= p[at + 2] {
            p[at]
        } else {
            p[at + 2]
        };
        let hi = if p[at] <= p[at + 2] {
            p[at + 2]
        } else {
            p[at]
        };
        class_match(p, at + 3, c, hit || lo <= c <= hi)
    } else {
        class_match(p, at + 1, c, hit || p[at] == c)
    }
}

/// The pattern goes on behind where the class began, and not past its end.
pub proof fn lemma_class_end(p: Seq<u8>, at: int, c: u8, hit: bool)
    requires
        0 <= at <= p.len(),
    ensures
        at <= class_match(p, at, c, hit).1 <= p.len(),
    decreases p.len() - at,
{
    if at >= p.len() || p[at] == 93 {
    } else if p[at] == 92 && at + 1 < p.len() {
        lemma_class_end(p, at + 2, c, hit || p[at + 1] == c);
    } else if at + 2 < p.len() && p[at + 1] == 45 {
        let lo = if p[at] <= p[at + 2] {
            p[at]
        } else {
            p[at + 2]
        };
        let hi = if p[at] <= p[at + 2] {
            p[at + 2]
        } else {
            p[at]
        };
        lemma_class_end(p, at + 3, c, hit || lo <= c <= hi);
    } else {
        lemma_class_end(p, at + 1, c, hit || p[at] == c);
    }
}

/// Whether the pattern from place `i` on matches the text from place `j` on.
///
/// `*` matches any run of bytes, `?` any one byte, `[...]` one byte of a
/// class (`[^...]` one byte outside it; `a-z` is a range; a backslash makes
/// the next byte literal; a class that is not closed ends with the pattern),
/// a backslash makes the next byte literal, and every other byte matches
/// itself.
pub open spec fn glob_spec(p: Seq<u8>, s: Seq<u8>, i: int, j: int) -> bool
    decreases p.len() - i, s.len() - j,
    when 0 <= i && 0 <= j
{
    if i >= p.len() {
        j >= s.len()
    } else if p[i] == 42 {
        ||| glob_spec(p, s, i + 1, j)
        ||| (j < s.len() && glob_spec(p, s, i, j + 1))
    } else if j >= s.len() {
        false
    } else if p[i] == 63 {
        glob_spec(p, s, i + 1, j + 1)
    } else if p[i] == 91 {
        let negated = i + 1 < p.len() && p[i + 1] == 94;
        let from = if negated {
            i + 2
        } else {
            i + 1
        };
        let (hit, next) = class_match(p, from, s[j], false);
        proof {
            lemma_class_end(p, from, s[j], false);
        }
        hit != negated && glob_spec(p, s, next, j + 1)
    } else if p[i] == 92 && i + 1 < p.len() {
        p[i + 1] == s[j] && glob_spec(p, s, i + 2, j + 1)
    } else {
        p[i] == s[j] && glob_spec(p, s, i + 1, j + 1)
    }
}

/// Whether a whole text matches a whole pattern.
pub open spec fn glob_matches(p: Seq<u8>, s: Seq<u8>) -> bool {
    glob_spec(p, s, 0, 0)
}

/// A lone star matches every text.
pub proof fn lemma_star_matches(s: Seq<u8>, j: int)
    requires
        0 <= j <= s.len(),
    ensures
        glob_spec(seq![42u8], s, 0, j),
    decreases s.len() - j,
{
    if j < s.len() {
        lemma_star_matches(s, j + 1);
    } else {
        assert(glob_spec(seq![42u8], s, 1, j));
    }
}

/// Whether the class whose items start at a place of a pattern accepts a byte,
/// and the place behind the class.
pub fn class_accepts(p: &[u8], from: usize, c: u8) -> (r: (bool, usize))
    requires
        from <= p@.len(),
    ensures
        (r.0, r.1 as int) == class_match(p@, from as int, c, false),
        from <= r.1 <= p@.len(),
{
    let n: usize = p.len();
    let mut at: usize = from;
    let mut hit: bool = false;
    proof {
        lemma_class_end(p@, from as int, c, false);
    }
    while at < n
        invariant
            n == p@.len(),
            at <= n,
            class_match(p@, from as int, c, false) == class_match(p@, at as int, c, hit),
        ensures
            at <= n,
            class_match(p@, from as int, c, false) == class_match(p@, at as int, c, hit),
            at < n ==> p@[at as int] == 93,
        decreases n - at,
    {
        if p[at] == 93 {
            break;
        }
        if p[at] == 92 && at + 1 < n {
            hit = hit || p[at + 1] == c;
            at = at + 2;
        } else if n - at > 2 && p[at + 1] == 45 {
            let a: u8 = p[at];
            let b: u8 = p[at + 2];
            let lo: u8 = if a <= b {
                a
            } else {
                b
            };
            let hi: u8 = if a <= b {
                b
            } else {
                a
            };
            hit = hit || (lo <= c && c <= hi);
            at = at + 3;
        } else {
            hit = hit || p[at] == c;
            at = at + 1;
        }
    }
    if at < n {
        (hit, at + 1)
    } else {
        (hit, n)
    }
}

fn glob_from(p: &[u8], s: &[u8], i0: usize, j0: usize) -> (r: bool)
    requires
        i0 <= p@.len(),
        j0 <= s@.len(),
    ensures
        r == glob_spec(p@, s@, i0 as int, j0 as int),
    decreases p@.len() - i0,
{
    let mut i: usize = i0;
    let mut j: usize = j0;
    while i < p.len()
        invariant
            i0 <= i <= p@.len(),
            j <= s@.len(),
            glob_spec(p@, s@, i0 as int, j0 as int) == glob_spec(p@, s@, i as int, j as int),
        decreases p@.len() - i,
    {
        let c: u8 = p[i];
        if c == 42 {
            let mut k: usize = j;
            let behind: usize = i + 1;
            loop
                invariant
                    i0 <= i < p@.len(),
                    behind == i + 1,
                    p@[i as int] == 42,
                    k <= s@.len(),
                    glob_spec(p@, s@, i0 as int, j0 as int) == glob_spec(
                        p@,
                        s@,
                        i as int,
                        k as int,
                    ),
                decreases s@.len() - k,
            {
                if glob_from(p, s, behind, k) {
                    return true;
                }
                if k >= s.len() {
                    return false;
                }
                k = k + 1;
            }
        }
        if j >= s.len() {
            return false;
        }
        if c == 63 {
            i = i + 1;
        } else if c == 91 {
            let negated: bool = i + 1 < p.len() && p[i + 1] == 94;
            let from: usize = if negated {
                i + 2
            } else {
                i + 1
            };
            let (hit, next) = class_accepts(p, from, s[j]);
            if hit == negated {
                return false;
            }
            i = next;
        } else if c == 92 && i + 1 < p.len() {
            if p[i + 1] != s[j] {
                return false;
            }
            i = i + 2;
        } else {
            if c != s[j] {
                return false;
            }
            i = i + 1;
        }
        j = j + 1;
    }
    j >= s.len()
}

/// Whether `text` matches the glob `pattern`.
pub fn glob_match(pattern: &[u8], text: &[u8]) -> (r: bool)
    ensures
        r == glob_matches(pattern@, text@),
{
    glob_from(pattern, text, 0, 0)
}

} // verus!
