//! Records laid end to end in a 22-byte buffer.
//!
//! The inline encodings of small sets, lists, hashes and sorted sets all
//! store their records this way; they differ only in what a record looks
//! like.
use vstd::prelude::*;

verus! {

/// Bytes that an inline encoding has for its records.
pub const BUF_CAP: usize = 22;

/// Records laid end to end.
pub open spec fn cat<T>(rs: Seq<Seq<T>>) -> Seq<T>
    decreases rs.len(),
{
    if rs.len() == 0 {
        Seq::empty()
    } else {
        cat(rs.drop_last()) + rs.last()
    }
}

pub proof fn lemma_cat_add<T>(a: Seq<Seq<T>>, b: Seq<Seq<T>>)
    ensures
        cat(a + b) == cat(a) + cat(b),
    decreases b.len(),
{
    if b.len() == 0 {
        assert(a + b =~= a);
        assert(cat(a) + cat(b) =~= cat(a));
    } else {
        lemma_cat_add(a, b.drop_last());
        assert((a + b).drop_last() =~= a + b.drop_last());
        assert(cat(a + b) =~= cat(a) + cat(b));
    }
}

pub proof fn lemma_cat_one<T>(r: Seq<T>)
    ensures
        cat(seq![r]) == r,
{
    assert(seq![r].drop_last() =~= Seq::empty());
    assert(cat(seq![r].drop_last()) =~= Seq::empty());
    assert(cat(seq![r]) =~= r);
}

/// Where record `i` sits among the bytes of all records.
pub proof fn lemma_cat_split<T>(rs: Seq<Seq<T>>, i: int)
    requires
        0 <= i < rs.len(),
    ensures
        cat(rs) == cat(rs.subrange(0, i)) + rs[i] + cat(rs.subrange(i + 1, rs.len() as int)),
        cat(rs.subrange(0, i + 1)) == cat(rs.subrange(0, i)) + rs[i],
        cat(rs.subrange(0, i)).len() + rs[i].len() <= cat(rs).len(),
{
    let a = rs.subrange(0, i);
    let m = seq![rs[i]];
    let b = rs.subrange(i + 1, rs.len() as int);
    lemma_cat_one(rs[i]);
    lemma_cat_add(a, m);
    lemma_cat_add(a + m, b);
    assert(a + m + b =~= rs);
    assert(a + m =~= rs.subrange(0, i + 1));
}

/// The bytes in use.
pub open spec fn content(buf: [u8; 22], used: int) -> Seq<u8> {
    buf@.subrange(0, used)
}

/// Every byte past the bytes in use is zero.
pub open spec fn tail_zero(buf: [u8; 22], used: int) -> bool {
    forall|i: int| used <= i < 22 ==> buf@[i] == 0
}

/// Replaces the `gone` bytes at `at` by `put`, moving what follows and
/// zeroing what becomes free.
pub fn splice(buf: &mut [u8; 22], used: usize, at: usize, gone: usize, put: &[u8]) -> (r: usize)
    requires
        at + gone <= used <= 22,
        used - gone + put@.len() <= 22,
    ensures
        r == used - gone + put@.len(),
        content(*final(buf), r as int) == content(*old(buf), used as int).subrange(0, at as int)
            + put@ + content(*old(buf), used as int).subrange(at + gone, used as int),
        tail_zero(*final(buf), r as int),
{
    let ghost src = buf@;
    let mut out: [u8; 22] = [0u8; 22];
    let n: usize = put.len();
    let mut i: usize = 0;
    while i < at
        invariant
            src == buf@,
            at + gone <= used <= 22,
            used - gone + put@.len() <= 22,
            n == put@.len(),
            i <= at,
            forall|j: int| 0 <= j < i ==> out@[j] == src[j],
            forall|j: int| i <= j < 22 ==> out@[j] == 0,
        decreases at - i,
    {
        out[i] = buf[i];
        i = i + 1;
    }
    let mut k: usize = 0;
    while k < n
        invariant
            src == buf@,
            at + gone <= used <= 22,
            used - gone + put@.len() <= 22,
            n == put@.len(),
            k <= n,
            forall|j: int| 0 <= j < at ==> out@[j] == src[j],
            forall|j: int| at <= j < at + k ==> out@[j] == put@[j - at],
            forall|j: int| at + k <= j < 22 ==> out@[j] == 0,
        decreases n - k,
    {
        out[at + k] = put[k];
        k = k + 1;
    }
    let rest: usize = used - at - gone;
    let mut t: usize = 0;
    while t < rest
        invariant
            src == buf@,
            at + gone <= used <= 22,
            used - gone + put@.len() <= 22,
            n == put@.len(),
            rest == used - at - gone,
            t <= rest,
            forall|j: int| 0 <= j < at ==> out@[j] == src[j],
            forall|j: int| at <= j < at + n ==> out@[j] == put@[j - at],
            forall|j: int| at + n <= j < at + n + t ==> out@[j] == src[j - n + gone],
            forall|j: int| at + n + t <= j < 22 ==> out@[j] == 0,
        decreases rest - t,
    {
        out[at + n + t] = buf[at + gone + t];
        t = t + 1;
    }
    let ghost before = *buf;
    *buf = out;
    let r: usize = used - gone + n;
    assert(content(*buf, r as int) =~= content(before, used as int).subrange(0, at as int) + put@
        + content(before, used as int).subrange(at + gone, used as int));
    r
}

/// A byte string behind its one-byte length.
pub open spec fn chunk_spec(m: Seq<u8>) -> Seq<u8> {
    seq![m.len() as u8] + m
}

/// The records of a list of byte strings.
pub open spec fn chunks(ms: Seq<Seq<u8>>) -> Seq<Seq<u8>> {
    Seq::new(ms.len(), |i: int| chunk_spec(ms[i]))
}

/// A byte string behind its one-byte length.
pub fn chunk(m: &[u8]) -> (r: Vec<u8>)
    requires
        m@.len() <= 255,
    ensures
        r@ == chunk_spec(m@),
{
    let mut v: Vec<u8> = Vec::with_capacity(m.len() + 1);
    v.push(m.len() as u8);
    v.extend_from_slice(m);
    assert(v@ =~= chunk_spec(m@));
    v
}

/// The bytes of a chunked list determine the list.
pub proof fn lemma_chunks_injective(a: Seq<Seq<u8>>, b: Seq<Seq<u8>>)
    requires
        forall|i: int| 0 <= i < a.len() ==> (#[trigger] a[i]).len() <= 255,
        forall|i: int| 0 <= i < b.len() ==> (#[trigger] b[i]).len() <= 255,
        cat(chunks(a)) == cat(chunks(b)),
    ensures
        a == b,
    decreases a.len(),
{
    if a.len() == 0 {
        if b.len() > 0 {
            lemma_cat_split(chunks(b), 0);
            assert(chunks(b)[0].len() > 0);
            assert(cat(chunks(a)).len() == 0);
        }
        assert(a =~= b);
    } else if b.len() == 0 {
        lemma_cat_split(chunks(a), 0);
        assert(chunks(a)[0].len() > 0);
        assert(cat(chunks(b)).len() == 0);
    } else {
        let ra = chunks(a);
        let rb = chunks(b);
        lemma_cat_split(ra, 0);
        lemma_cat_split(rb, 0);
        assert(cat(ra.subrange(0, 0)) =~= Seq::empty());
        assert(cat(rb.subrange(0, 0)) =~= Seq::empty());
        let ta = a.subrange(1, a.len() as int);
        let tb = b.subrange(1, b.len() as int);
        assert(ra.subrange(1, ra.len() as int) =~= chunks(ta));
        assert(rb.subrange(1, rb.len() as int) =~= chunks(tb));
        let all = cat(ra);
        assert(all =~= ra[0] + cat(chunks(ta)));
        assert(all =~= rb[0] + cat(chunks(tb)));
        assert(all[0] == ra[0][0]);
        assert(all[0] == rb[0][0]);
        assert(a[0].len() == b[0].len());
        assert(ra[0] =~= all.subrange(0, ra[0].len() as int));
        assert(rb[0] =~= all.subrange(0, rb[0].len() as int));
        assert(a[0] =~= ra[0].subrange(1, ra[0].len() as int));
        assert(b[0] =~= rb[0].subrange(1, rb[0].len() as int));
        assert(cat(chunks(ta)) =~= all.subrange(ra[0].len() as int, all.len() as int));
        assert(cat(chunks(tb)) =~= all.subrange(rb[0].len() as int, all.len() as int));
        lemma_chunks_injective(ta, tb);
        assert(a =~= seq![a[0]] + ta);
        assert(b =~= seq![b[0]] + tb);
    }
}

/// What lists laid end to end hold, when each list is free of repeats and
/// no two share an element.
pub proof fn lemma_cat_distinct<T>(rs: Seq<Seq<T>>)
    requires
        forall|i: int| 0 <= i < rs.len() ==> (#[trigger] rs[i]).no_duplicates(),
        forall|i: int, j: int, x: T|
            #![trigger rs[i].contains(x), rs[j].contains(x)]
            0 <= i < rs.len() && 0 <= j < rs.len() && rs[i].contains(x) && rs[j].contains(x) ==> i
                == j,
    ensures
        cat(rs).no_duplicates(),
        forall|x: T| #[trigger]
            cat(rs).contains(x) <==> exists|i: int| 0 <= i < rs.len() && (#[trigger] rs[i]).contains(x),
    decreases rs.len(),
{
    if rs.len() > 0 {
        let p = rs.drop_last();
        let n = rs.len() - 1;
        assert forall|i: int| 0 <= i < p.len() implies (#[trigger] p[i]).no_duplicates() by {
            assert(p[i] == rs[i]);
        }
        assert forall|i: int, j: int, x: T|
            #![trigger p[i].contains(x), p[j].contains(x)]
            0 <= i < p.len() && 0 <= j < p.len() && p[i].contains(x) && p[j].contains(x) implies i
            == j by {
            assert(rs[i].contains(x) && rs[j].contains(x));
        }
        lemma_cat_distinct(p);
        let front = cat(p);
        let back = rs.last();
        let all = cat(rs);
        assert forall|x: T| #[trigger] all.contains(x) <==> exists|i: int|
            0 <= i < rs.len() && (#[trigger] rs[i]).contains(x) by {
            if all.contains(x) {
                let y = choose|y: int| 0 <= y < all.len() && all[y] == x;
                if y < front.len() {
                    assert(front[y] == x);
                    assert(front.contains(x));
                    let i = choose|i: int| 0 <= i < p.len() && (#[trigger] p[i]).contains(x);
                    assert(rs[i].contains(x));
                } else {
                    assert(back[y - front.len()] == x);
                    assert(rs[n].contains(x));
                }
            }
            if exists|i: int| 0 <= i < rs.len() && (#[trigger] rs[i]).contains(x) {
                let i = choose|i: int| 0 <= i < rs.len() && (#[trigger] rs[i]).contains(x);
                if i < n {
                    assert(p[i].contains(x));
                    assert(front.contains(x));
                    let y = choose|y: int| 0 <= y < front.len() && front[y] == x;
                    assert(all[y] == x);
                } else {
                    let y = choose|y: int| 0 <= y < back.len() && back[y] == x;
                    assert(all[front.len() + y] == x);
                }
            }
        }
        assert forall|a: int, b: int| 0 <= a < all.len() && 0 <= b < all.len() && a != b implies all[a]
            != all[b] by {
            if a < front.len() && b < front.len() {
                assert(front[a] != front[b]);
            } else if a >= front.len() && b >= front.len() {
                assert(back[a - front.len()] != back[b - front.len()]);
            } else if all[a] == all[b] {
                let (u, v) = if a < front.len() {
                    (a, b)
                } else {
                    (b, a)
                };
                assert(front[u] == all[u]);
                assert(front.contains(all[u]));
                let i = choose|i: int| 0 <= i < p.len() && (#[trigger] p[i]).contains(all[u]);
                assert(rs[i].contains(all[u]));
                assert(back[v - front.len()] == all[u]);
                assert(rs[n].contains(all[u]));
            }
        }
    }
}

} // verus!
