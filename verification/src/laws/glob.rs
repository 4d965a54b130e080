//! Glob patterns: what each piece of a pattern matches.
use vstd::prelude::*;
use crate::text::{class_match, glob_matches, glob_spec};

verus! {

/// Whether a byte means itself in a pattern: it is none of `*`, `?`, `[` and
/// the backslash.
pub open spec fn plain(c: u8) -> bool {
    c != 42 && c != 63 && c != 91 && c != 92
}

/// Whether a byte means itself wherever it stands in a class: it is none of
/// `]`, `-` and the backslash.
pub open spec fn plain_item(c: u8) -> bool {
    c != 93 && c != 45 && c != 92
}

/// A class that has accepted a byte goes on accepting it, whatever else it
/// lists, and where it ends depends on the pattern alone.
pub proof fn lemma_hit_stays(p: Seq<u8>, at: int, c: u8, d: u8, hit: bool)
    requires
        0 <= at,
    ensures
        class_match(p, at, c, true).0,
        class_match(p, at, c, hit).0 == (hit || class_match(p, at, c, false).0),
        class_match(p, at, c, hit).1 == class_match(p, at, d, false).1,
    decreases p.len() - at,
{
    if at >= p.len() || p[at] == 93 {
    } else if p[at] == 92 && at + 1 < p.len() {
        lemma_hit_stays(p, at + 2, c, d, hit || p[at + 1] == c);
        lemma_hit_stays(p, at + 2, c, d, p[at + 1] == c);
        lemma_hit_stays(p, at + 2, d, d, p[at + 1] == d);
    } else if at + 2 < p.len() && p[at + 1] == 45 {
        let a = p[at];
        let b = p[at + 2];
        let in_c = (a <= c <= b) || (b <= c <= a);
        let in_d = (a <= d <= b) || (b <= d <= a);
        lemma_hit_stays(p, at + 3, c, d, hit || in_c);
        lemma_hit_stays(p, at + 3, c, d, in_c);
        lemma_hit_stays(p, at + 3, d, d, in_d);
    } else {
        lemma_hit_stays(p, at + 1, c, d, hit || p[at] == c);
        lemma_hit_stays(p, at + 1, c, d, p[at] == c);
        lemma_hit_stays(p, at + 1, d, d, p[at] == d);
    }
}

/// A class accepts a byte just if one of its items does: the first item, or
/// the class of the items behind it. An item is a byte that means itself, a
/// byte behind a backslash, or a range, whose ends may stand in either order.
pub proof fn lemma_class_items(x: u8, y: u8, rest: Seq<u8>, c: u8)
    ensures
        plain_item(x) && (rest.len() == 0 || rest[0] != 45) ==> class_match(
            seq![x] + rest,
            0,
            c,
            false,
        ).0 == (c == x || class_match(rest, 0, c, false).0),
        class_match(seq![92u8, x] + rest, 0, c, false).0 == (c == x || class_match(
            rest,
            0,
            c,
            false,
        ).0),
        x != 93 && x != 92 ==> class_match(seq![x, 45u8, y] + rest, 0, c, false).0 == (x <= c <= y
            || y <= c <= x || class_match(rest, 0, c, false).0),
{
    let p = seq![x] + rest;
    if plain_item(x) && (rest.len() == 0 || rest[0] != 45) {
        if rest.len() > 0 {
            assert(p[1] == rest[0]);
        }
        lemma_hit_stays(p, 1, c, c, p[0] == c);
        lemma_class_shift(p, 1, c, false, 1);
        assert(p.skip(1) =~= rest);
    }
    let q = seq![92u8, x] + rest;
    assert(q[0] == 92 && q[1] == x);
    lemma_hit_stays(q, 2, c, c, x == c);
    lemma_class_shift(q, 2, c, false, 2);
    assert(q.skip(2) =~= rest);
    if x != 93 && x != 92 {
        let r = seq![x, 45u8, y] + rest;
        assert(r[0] == x && r[1] == 45 && r[2] == y);
        lemma_hit_stays(r, 3, c, c, (x <= c <= y) || (y <= c <= x));
        lemma_class_shift(r, 3, c, false, 3);
        assert(r.skip(3) =~= rest);
    }
}

/// A class of bytes that mean themselves accepts just those, and ends behind
/// the bracket that closes it.
pub proof fn lemma_plain_class(b: Seq<u8>, rest: Seq<u8>, c: u8)
    requires
        forall|i: int| 0 <= i < b.len() ==> plain_item(#[trigger] b[i]),
    ensures
        class_match(b + seq![93u8] + rest, 0, c, false) == (b.contains(c), b.len() as int + 1),
    decreases b.len(),
{
    let p = b + seq![93u8] + rest;
    if b.len() == 0 {
        assert(p[0] == 93);
    } else {
        let d = b.skip(1);
        let q = d + seq![93u8] + rest;
        assert(plain_item(b[0]));
        assert(p =~= seq![b[0]] + q);
        assert(q[0] == (if d.len() > 0 {
            b[1]
        } else {
            93u8
        }));
        if d.len() > 0 {
            assert(plain_item(b[1]));
        }
        assert forall|i: int| 0 <= i < d.len() implies plain_item(#[trigger] d[i]) by {
            assert(d[i] == b[i + 1]);
        }
        lemma_plain_class(d, rest, c);
        lemma_class_items(b[0], 0, q, c);
        lemma_class_shift(p, 1, c, false, 1);
        assert(p.skip(1) =~= q);
        lemma_hit_stays(p, 1, c, c, p[0] == c);
        assert(b.contains(c) == (b[0] == c || d.contains(c))) by {
            if b.contains(c) {
                let i = choose|i: int| 0 <= i < b.len() && b[i] == c;
                if i > 0 {
                    assert(d[i - 1] == c);
                }
            }
            if d.contains(c) {
                let i = choose|i: int| 0 <= i < d.len() && d[i] == c;
                assert(b[i + 1] == c);
            }
        }
    }
}

/// What a class accepts does not depend on what stands before it.
pub proof fn lemma_class_shift(p: Seq<u8>, at: int, c: u8, hit: bool, a: int)
    requires
        0 <= a <= at,
        a <= p.len(),
    ensures
        class_match(p, at, c, hit).0 == class_match(p.skip(a), at - a, c, hit).0,
        at <= p.len() ==> class_match(p, at, c, hit).1 == class_match(p.skip(a), at - a, c, hit).1
            + a,
    decreases p.len() - at,
{
    let q = p.skip(a);
    if at >= p.len() {
    } else if p[at] == 93 {
        assert(q[at - a] == 93);
    } else if p[at] == 92 && at + 1 < p.len() {
        assert(q[at - a] == 92 && q[at - a + 1] == p[at + 1]);
        lemma_class_shift(p, at + 2, c, hit || p[at + 1] == c, a);
    } else if at + 2 < p.len() && p[at + 1] == 45 {
        assert(q[at - a] == p[at] && q[at - a + 1] == 45 && q[at - a + 2] == p[at + 2]);
        let x = p[at];
        let y = p[at + 2];
        let lo = if x <= y {
            x
        } else {
            y
        };
        let hi = if x <= y {
            y
        } else {
            x
        };
        lemma_class_shift(p, at + 3, c, hit || lo <= c <= hi, a);
    } else {
        assert(q[at - a] == p[at]);
        if at + 1 < p.len() {
            assert(q[at - a + 1] == p[at + 1]);
        }
        lemma_class_shift(p, at + 1, c, hit || p[at] == c, a);
    }
}

proof fn lemma_glob_shift(p: Seq<u8>, s: Seq<u8>, i: int, j: int, a: int, b: int)
    requires
        0 <= a <= i,
        0 <= b <= j,
        i <= p.len(),
        j <= s.len(),
    ensures
        glob_spec(p, s, i, j) == glob_spec(p.skip(a), s.skip(b), i - a, j - b),
    decreases p.len() - i, s.len() - j,
{
    let q = p.skip(a);
    let t = s.skip(b);
    if i < p.len() {
        assert(q[i - a] == p[i]);
        if j < s.len() {
            assert(t[j - b] == s[j]);
        }
        if p[i] == 42 {
            lemma_glob_shift(p, s, i + 1, j, a, b);
            if j < s.len() {
                lemma_glob_shift(p, s, i, j + 1, a, b);
            }
        } else if j >= s.len() {
        } else if p[i] == 63 {
            lemma_glob_shift(p, s, i + 1, j + 1, a, b);
        } else if p[i] == 91 {
            let negated = i + 1 < p.len() && p[i + 1] == 94;
            if i + 1 < p.len() {
                assert(q[i + 1 - a] == p[i + 1]);
            }
            let from = if negated {
                i + 2
            } else {
                i + 1
            };
            crate::text::lemma_class_end(p, from, s[j], false);
            lemma_class_shift(p, from, s[j], false, a);
            lemma_glob_shift(p, s, class_match(p, from, s[j], false).1, j + 1, a, b);
        } else if p[i] == 92 && i + 1 < p.len() {
            assert(q[i + 1 - a] == p[i + 1]);
            lemma_glob_shift(p, s, i + 2, j + 1, a, b);
        } else {
            lemma_glob_shift(p, s, i + 1, j + 1, a, b);
        }
    }
}

/// The end of a pattern matches the end of a text and nothing else.
pub proof fn lemma_end(s: Seq<u8>)
    ensures
        glob_matches(Seq::empty(), s) <==> s.len() == 0,
{
}

/// A byte that means itself, or any byte behind a backslash, matches just
/// that byte, and the rest of the pattern the rest of the text.
pub proof fn lemma_literal(c: u8, p: Seq<u8>, s: Seq<u8>)
    ensures
        plain(c) ==> (glob_matches(seq![c] + p, s) <==> s.len() > 0 && s[0] == c && glob_matches(
            p,
            s.skip(1),
        )),
        glob_matches(seq![92u8, c] + p, s) <==> s.len() > 0 && s[0] == c && glob_matches(
            p,
            s.skip(1),
        ),
{
    let q = seq![c] + p;
    let r = seq![92u8, c] + p;
    assert(q[0] == c && r[0] == 92 && r[1] == c);
    assert(q.skip(1) =~= p);
    assert(r.skip(2) =~= p);
    if s.len() > 0 {
        lemma_glob_shift(q, s, 1, 1, 1, 1);
        lemma_glob_shift(r, s, 2, 1, 2, 1);
    }
}

/// A question mark matches any one byte, and not the end.
pub proof fn lemma_any_byte(p: Seq<u8>, s: Seq<u8>)
    ensures
        glob_matches(seq![63u8] + p, s) <==> s.len() > 0 && glob_matches(p, s.skip(1)),
{
    let q = seq![63u8] + p;
    assert(q[0] == 63);
    assert(q.skip(1) =~= p);
    if s.len() > 0 {
        lemma_glob_shift(q, s, 1, 1, 1, 1);
    }
}

/// A star matches any run of bytes, also none: the rest of the pattern has to
/// match some end of the text.
pub proof fn lemma_any_run(p: Seq<u8>, s: Seq<u8>)
    ensures
        glob_matches(seq![42u8] + p, s) <==> exists|k: int|
            0 <= k <= s.len() && glob_matches(p, #[trigger] s.skip(k)),
{
    lemma_run_from(p, s, 0);
}

proof fn lemma_run_from(p: Seq<u8>, s: Seq<u8>, j: int)
    requires
        0 <= j <= s.len(),
    ensures
        glob_spec(seq![42u8] + p, s, 0, j) <==> exists|k: int|
            j <= k <= s.len() && glob_matches(p, #[trigger] s.skip(k)),
    decreases s.len() - j,
{
    let q = seq![42u8] + p;
    assert(q[0] == 42);
    assert(q.skip(1) =~= p);
    lemma_glob_shift(q, s, 1, j, 1, j);
    assert(glob_spec(q, s, 1, j) == glob_matches(p, s.skip(j)));
    if j < s.len() {
        lemma_run_from(p, s, j + 1);
        if glob_matches(p, s.skip(j)) {
            assert(glob_spec(q, s, 0, j));
        }
        if exists|k: int| j <= k <= s.len() && glob_matches(p, #[trigger] s.skip(k)) {
            let k = choose|k: int| j <= k <= s.len() && glob_matches(p, #[trigger] s.skip(k));
            if k > j {
                assert(glob_spec(q, s, 0, j + 1));
            }
        }
    } else if exists|k: int| j <= k <= s.len() && glob_matches(p, #[trigger] s.skip(k)) {
        let k = choose|k: int| j <= k <= s.len() && glob_matches(p, #[trigger] s.skip(k));
        assert(k == j);
    }
}

/// A class matches one byte that it lists, a class behind `^` one that it
/// does not, and the rest of the pattern the rest of the text.
pub proof fn lemma_class(b: Seq<u8>, p: Seq<u8>, s: Seq<u8>)
    requires
        forall|i: int| 0 <= i < b.len() ==> plain_item(#[trigger] b[i]),
    ensures
        b.len() == 0 || b[0] != 94 ==> (glob_matches(seq![91u8] + b + seq![93u8] + p, s)
            <==> s.len() > 0 && b.contains(s[0]) && glob_matches(p, s.skip(1))),
        glob_matches(seq![91u8, 94u8] + b + seq![93u8] + p, s) <==> s.len() > 0 && !b.contains(s[0])
            && glob_matches(p, s.skip(1)),
{
    if s.len() > 0 {
        let c = s[0];
        let body = b + seq![93u8] + p;
        lemma_plain_class(b, p, c);
        if b.len() == 0 || b[0] != 94 {
            let q = seq![91u8] + b + seq![93u8] + p;
            assert(q[0] == 91);
            assert(q[1] != 94) by {
                if b.len() > 0 {
                    assert(q[1] == b[0]);
                } else {
                    assert(q[1] == 93);
                }
            }
            assert(q.skip(1) =~= body);
            lemma_class_shift(q, 1, c, false, 1);
            let next = b.len() + 2;
            assert(q.skip(next as int) =~= p);
            lemma_glob_shift(q, s, next as int, 1, next as int, 1);
        }
        let r = seq![91u8, 94u8] + b + seq![93u8] + p;
        assert(r[0] == 91 && r[1] == 94);
        assert(r.skip(2) =~= body);
        lemma_class_shift(r, 2, c, false, 2);
        let next = b.len() + 3;
        assert(r.skip(next as int) =~= p);
        lemma_glob_shift(r, s, next as int, 1, next as int, 1);
    } else {
        let q = seq![91u8] + b + seq![93u8] + p;
        let r = seq![91u8, 94u8] + b + seq![93u8] + p;
        assert(q[0] == 91 && r[0] == 91);
    }
}

/// A range matches one byte between its ends, whichever of them stands first.
pub proof fn lemma_range(x: u8, y: u8, p: Seq<u8>, s: Seq<u8>)
    requires
        x != 93,
        x != 92,
        x != 94,
    ensures
        glob_matches(seq![91u8, x, 45u8, y, 93u8] + p, s) <==> s.len() > 0 && (x <= s[0] <= y || y
            <= s[0] <= x) && glob_matches(p, s.skip(1)),
{
    let q = seq![91u8, x, 45u8, y, 93u8] + p;
    assert(q[0] == 91 && q[1] == x);
    if s.len() > 0 {
        let c = s[0];
        let rest = seq![93u8] + p;
        let body = seq![x, 45u8, y] + rest;
        assert(q.skip(1) =~= body);
        assert(rest[0] == 93);
        assert(body[0] == x && body[1] == 45 && body[2] == y);
        lemma_class_items(x, y, rest, c);
        lemma_class_shift(q, 1, c, false, 1);
        lemma_class_shift(body, 3, c, (x <= c <= y) || (y <= c <= x), 3);
        assert(body.skip(3) =~= rest);
        assert(class_match(body, 0, c, false).1 == 4);
        assert(q.skip(5) =~= p);
        lemma_glob_shift(q, s, 5, 1, 5, 1);
    }
}

/// A pattern whose bytes all mean themselves matches its own text alone;
/// with a star behind it, every text that begins with it.
pub proof fn lemma_plain_pattern(p: Seq<u8>, s: Seq<u8>)
    requires
        forall|i: int| 0 <= i < p.len() ==> plain(#[trigger] p[i]),
    ensures
        glob_matches(p, s) <==> p == s,
        glob_matches(p + seq![42u8], s) <==> p.len() <= s.len() && s.take(p.len() as int) == p,
    decreases p.len(),
{
    if p.len() == 0 {
        assert(p =~= Seq::empty());
        if s.len() == 0 {
            assert(p =~= s);
        }
        assert(p + seq![42u8] =~= seq![42u8]);
        crate::text::lemma_star_matches(s, 0);
        assert(s.take(0) =~= p);
    } else {
        let q = p.skip(1);
        assert(plain(p[0]));
        assert(p =~= seq![p[0]] + q);
        assert(p + seq![42u8] =~= seq![p[0]] + (q + seq![42u8]));
        lemma_literal(p[0], q, s);
        lemma_literal(p[0], q + seq![42u8], s);
        assert forall|i: int| 0 <= i < q.len() implies plain(#[trigger] q[i]) by {
            assert(q[i] == p[i + 1]);
        }
        if s.len() > 0 {
            let t = s.skip(1);
            lemma_plain_pattern(q, t);
            if q == t && s[0] == p[0] {
                assert(s =~= seq![s[0]] + t);
                assert(p == s);
            }
            if p == s {
                assert(q =~= t);
            }
            if p.len() <= s.len() {
                if s[0] == p[0] && t.take(q.len() as int) == q {
                    assert(s.take(p.len() as int) =~= p) by {
                        assert forall|i: int| 0 <= i < p.len() implies s.take(p.len() as int)[i]
                            == p[i] by {
                            if i > 0 {
                                assert(t.take(q.len() as int)[i - 1] == q[i - 1]);
                            }
                        }
                    }
                }
                if s.take(p.len() as int) == p {
                    assert(s.take(p.len() as int)[0] == p[0]);
                    assert(t.take(q.len() as int) =~= q) by {
                        assert forall|i: int| 0 <= i < q.len() implies t.take(q.len() as int)[i]
                            == q[i] by {
                            assert(s.take(p.len() as int)[i + 1] == p[i + 1]);
                        }
                    }
                }
            }
        }
    }
}

} // verus!
