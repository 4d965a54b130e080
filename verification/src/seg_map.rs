//! Bucket-sharded maps for giant hashes and sets: an extendible-hash
//! directory over shared buckets, so that a write under a pinned view
//! copies one bucket instead of the map.
//!
//! The directory routes by the top bits of a key's hash. A bucket of local
//! depth `d` holds the keys that share their top `d` hash bits. Buckets
//! split one at a time; the directory doubles only when the bucket that
//! splits is at full depth.
use vstd::prelude::*;
use std::sync::Arc;
use crate::byte_map::ByteMap;
use crate::bytes::hash_bytes;
use crate::count::Count;
use crate::payload::Payload;
use crate::shared::{share, unshare};

verus! {

/// Entries past which a bucket splits.
pub const BUCKET_SPLIT: usize = 512;

/// Length past which a flat hash or set becomes sharded.
pub const HS_PROMOTE: usize = 16384;

/// Depth at which a bucket stops splitting and grows instead.
pub const MAX_BITS: u8 = 40;

/// 2 to the power `n`.
#[verifier::opaque]
pub open spec fn p2(n: nat) -> nat
    decreases n,
{
    if n == 0 {
        1
    } else {
        2 * p2((n - 1) as nat)
    }
}

/// The top `n` bits of a 64-bit hash.
#[verifier::opaque]
pub open spec fn top_bits(h: u64, n: nat) -> nat {
    (h as nat) / p2((64 - n) as nat)
}

/// The top `l` bits of a directory slot of `g` bits.
#[verifier::opaque]
pub open spec fn prefix_of(s: nat, g: nat, l: nat) -> nat {
    s / p2((g - l) as nat)
}

proof fn lemma_p2_step(n: nat)
    ensures
        p2(0) == 1,
        p2(n + 1) == 2 * p2(n),
        p2(n) > 0,
    decreases n,
{
    reveal_with_fuel(p2, 2);
    if n > 0 {
        lemma_p2_step((n - 1) as nat);
    }
}

proof fn lemma_p2_add(a: nat, b: nat)
    ensures
        p2(a + b) == p2(a) * p2(b),
    decreases a,
{
    if a == 0 {
        lemma_p2_step(0);
        assert(1 * p2(b) == p2(b));
    } else {
        let c = (a - 1) as nat;
        lemma_p2_add(c, b);
        lemma_p2_step(c);
        lemma_p2_step(c + b);
        let x = p2(c);
        let y = p2(b);
        assert(2 * (x * y) == (2 * x) * y) by (nonlinear_arith);
        assert(c + b + 1 == a + b);
        assert(c + 1 == a);
    }
}

proof fn lemma_p2_mono(a: nat, b: nat)
    requires
        a <= b,
    ensures
        p2(a) <= p2(b),
    decreases b,
{
    if a < b {
        let c = (b - 1) as nat;
        lemma_p2_mono(a, c);
        lemma_p2_step(c);
    }
}

proof fn lemma_p2_values()
    ensures
        p2(0) == 1,
        p2(1) == 2,
        p2(63) == 0x8000_0000_0000_0000,
        p2(64) == 0x1_0000_0000_0000_0000,
{
    reveal_with_fuel(p2, 65);
}

proof fn lemma_div_div(x: nat, a: nat, b: nat)
    requires
        a > 0,
        b > 0,
    ensures
        (x / a) / b == x / (a * b),
{
    vstd::arithmetic::div_mod::lemma_div_denominator(x as int, a as int, b as int);
}

/// Dropping low bits of the top `g` bits gives the top `l` bits.
proof fn lemma_top_bits(h: u64, g: nat, l: nat)
    requires
        l <= g <= 64,
    ensures
        prefix_of(top_bits(h, g), g, l) == top_bits(h, l),
        top_bits(h, g) < p2(g),
{
    reveal(top_bits);
    reveal(prefix_of);
    let a = (64 - g) as nat;
    let b = (g - l) as nat;
    lemma_p2_step(a);
    lemma_p2_step(b);
    lemma_p2_step(g);
    lemma_p2_add(a, b);
    lemma_div_div(h as nat, p2(a), p2(b));
    assert(a + b == (64 - l) as nat);
    lemma_p2_add(a, g);
    assert(a + g == 64);
    lemma_p2_values();
    let d = p2(a);
    let q = p2(g);
    assert((h as nat) / d < q) by (nonlinear_arith)
        requires
            (h as nat) < d * q,
            d > 0,
    ;
}

/// One more directory bit on the right leaves the top bits alone.
proof fn lemma_prefix_double(s: nat, g: nat, l: nat)
    requires
        l <= g,
    ensures
        prefix_of(s, g + 1, l) == prefix_of(s / 2, g, l),
{
    reveal(prefix_of);
    let b = (g - l) as nat;
    lemma_p2_step(b);
    lemma_div_div(s, 2, p2(b));
    assert((g + 1 - l) as nat == b + 1);
}

/// The top `l` bits are the top `l + 1` bits without the last.
proof fn lemma_prefix_half(s: nat, g: nat, l: nat)
    requires
        l < g,
    ensures
        prefix_of(s, g, l) == prefix_of(s, g, l + 1) / 2,
{
    reveal(prefix_of);
    let b = (g - l - 1) as nat;
    lemma_p2_step(b);
    lemma_div_div(s, p2(b), 2);
    assert(p2(b) * 2 == 2 * p2(b));
    assert((g - l) as nat == b + 1);
    assert((g - (l + 1)) as nat == b);
}

/// What the routing needs to know of a bucket: its depth, the hash bits its
/// keys share, and what it binds.
pub struct Info {
    /// Local depth.
    pub bits: nat,
    /// The shared top bits.
    pub prefix: nat,
    /// The bindings.
    pub map: Map<Seq<u8>, Seq<u8>>,
}

/// The directory slot of a key.
pub open spec fn slot_of(k: Seq<u8>, g: nat) -> nat {
    top_bits(crate::bytes::hash_of(k), g)
}

/// The bucket that a directory slot names belongs to that slot.
#[verifier::opaque]
spec fn slots_ok(g: nat, dirs: Seq<u32>, bs: Seq<Info>) -> bool {
    forall|s: int|
        0 <= s < dirs.len() ==> (#[trigger] dirs[s]) < bs.len() && bs[dirs[s] as int].bits <= g
            && prefix_of(s as nat, g, bs[dirs[s] as int].bits) == bs[dirs[s] as int].prefix
}

/// A slot that belongs to a bucket names that bucket.
#[verifier::opaque]
spec fn slots_back(g: nat, dirs: Seq<u32>, bs: Seq<Info>) -> bool {
    forall|s: int, b: int|
        #![trigger dirs[s], bs[b]]
        0 <= s < dirs.len() && 0 <= b < bs.len() && prefix_of(s as nat, g, bs[b].bits)
            == bs[b].prefix ==> dirs[s] == b
}

/// A bucket's keys share the bucket's bits.
#[verifier::opaque]
spec fn keys_ok(g: nat, bs: Seq<Info>) -> bool {
    forall|b: int, k: Seq<u8>|
        #![trigger bs[b].map.dom().contains(k)]
        0 <= b < bs.len() && bs[b].map.dom().contains(k) ==> slot_of(k, bs[b].bits) == bs[b].prefix
}

/// No bucket is deeper than the directory.
#[verifier::opaque]
spec fn bits_ok(g: nat, bs: Seq<Info>) -> bool {
    forall|b: int| 0 <= b < bs.len() ==> (#[trigger] bs[b]).bits <= g
}

spec fn routed(g: nat, dirs: Seq<u32>, bs: Seq<Info>) -> bool {
    &&& g <= 64
    &&& dirs.len() == p2(g)
    &&& slots_ok(g, dirs, bs)
    &&& slots_back(g, dirs, bs)
    &&& keys_ok(g, bs)
    &&& bits_ok(g, bs)
}

spec fn home(g: nat, dirs: Seq<u32>, k: Seq<u8>) -> int {
    dirs[slot_of(k, g) as int] as int
}

/// The bindings of all buckets, each key looked up where it is routed.
spec fn routed_map(g: nat, dirs: Seq<u32>, bs: Seq<Info>) -> Map<Seq<u8>, Seq<u8>> {
    Map::new(
        |k: Seq<u8>| bs[home(g, dirs, k)].map.dom().contains(k),
        |k: Seq<u8>| bs[home(g, dirs, k)].map[k],
    )
}

proof fn use_slot(g: nat, dirs: Seq<u32>, bs: Seq<Info>, s: int)
    requires
        slots_ok(g, dirs, bs),
        0 <= s < dirs.len(),
    ensures
        dirs[s] < bs.len(),
        bs[dirs[s] as int].bits <= g,
        prefix_of(s as nat, g, bs[dirs[s] as int].bits) == bs[dirs[s] as int].prefix,
{
    reveal(slots_ok);
}

proof fn use_back(g: nat, dirs: Seq<u32>, bs: Seq<Info>, s: int, b: int)
    requires
        slots_back(g, dirs, bs),
        0 <= s < dirs.len(),
        0 <= b < bs.len(),
    ensures
        prefix_of(s as nat, g, bs[b].bits) == bs[b].prefix ==> dirs[s] == b,
{
    reveal(slots_back);
    let _d = dirs[s];
    let _b = bs[b];
}

proof fn use_key(g: nat, bs: Seq<Info>, b: int, k: Seq<u8>)
    requires
        keys_ok(g, bs),
        0 <= b < bs.len(),
    ensures
        bs[b].map.dom().contains(k) ==> slot_of(k, bs[b].bits) == bs[b].prefix,
{
    reveal(keys_ok);
}

proof fn use_bits(g: nat, bs: Seq<Info>, b: int)
    requires
        bits_ok(g, bs),
        0 <= b < bs.len(),
    ensures
        bs[b].bits <= g,
{
    reveal(bits_ok);
}

/// Where a key is routed.
proof fn lemma_home(g: nat, dirs: Seq<u32>, bs: Seq<Info>, k: Seq<u8>)
    requires
        routed(g, dirs, bs),
    ensures
        0 <= slot_of(k, g) < dirs.len(),
        0 <= home(g, dirs, k) < bs.len(),
        slot_of(k, bs[home(g, dirs, k)].bits) == bs[home(g, dirs, k)].prefix,
{
    let h = crate::bytes::hash_of(k);
    lemma_top_bits(h, g, g);
    let s = slot_of(k, g) as int;
    use_slot(g, dirs, bs, s);
    lemma_top_bits(h, g, bs[dirs[s] as int].bits);
}

/// A key that some bucket holds is routed to that bucket.
proof fn lemma_held(g: nat, dirs: Seq<u32>, bs: Seq<Info>, k: Seq<u8>, b: int)
    requires
        routed(g, dirs, bs),
        0 <= b < bs.len(),
        bs[b].map.dom().contains(k),
    ensures
        b == home(g, dirs, k),
{
    let h = crate::bytes::hash_of(k);
    lemma_home(g, dirs, bs, k);
    use_bits(g, bs, b);
    use_key(g, bs, b, k);
    lemma_top_bits(h, g, bs[b].bits);
    use_back(g, dirs, bs, slot_of(k, g) as int, b);
}

/// Changing what a bucket binds, at a key that is routed there, keeps the
/// routing.
proof fn lemma_update_routed(
    g: nat,
    dirs: Seq<u32>,
    bs: Seq<Info>,
    k: Seq<u8>,
    m: Map<Seq<u8>, Seq<u8>>,
)
    requires
        routed(g, dirs, bs),
        forall|x: Seq<u8>|
            x != k && #[trigger] m.dom().contains(x) ==> bs[home(g, dirs, k)].map.dom().contains(x),
    ensures
        ({
            let b = home(g, dirs, k);
            0 <= b < bs.len() && routed(g, dirs, bs.update(b, Info { map: m, ..bs[b] }))
        }),
{
    lemma_home(g, dirs, bs, k);
    let b = home(g, dirs, k);
    let bs2 = bs.update(b, Info { map: m, ..bs[b] });
    assert forall|c: int| 0 <= c < bs.len() implies (#[trigger] bs2[c]).bits == bs[c].bits
        && bs2[c].prefix == bs[c].prefix by {}
    assert(slots_ok(g, dirs, bs2)) by {
        reveal(slots_ok);
        assert forall|s: int| 0 <= s < dirs.len() implies (#[trigger] dirs[s]) < bs2.len()
            && bs2[dirs[s] as int].bits <= g && prefix_of(s as nat, g, bs2[dirs[s] as int].bits)
            == bs2[dirs[s] as int].prefix by {
            use_slot(g, dirs, bs, s);
        }
    }
    assert(slots_back(g, dirs, bs2)) by {
        reveal(slots_back);
        assert forall|s: int, c: int|
            #![trigger dirs[s], bs2[c]]
            0 <= s < dirs.len() && 0 <= c < bs2.len() && prefix_of(s as nat, g, bs2[c].bits)
                == bs2[c].prefix implies dirs[s] == c by {
            use_back(g, dirs, bs, s, c);
        }
    }
    assert(bits_ok(g, bs2)) by {
        reveal(bits_ok);
        assert forall|c: int| 0 <= c < bs2.len() implies (#[trigger] bs2[c]).bits <= g by {
            use_bits(g, bs, c);
        }
    }
    assert(keys_ok(g, bs2)) by {
        reveal(keys_ok);
        assert forall|c: int, x: Seq<u8>|
            #![trigger bs2[c].map.dom().contains(x)]
            0 <= c < bs2.len() && bs2[c].map.dom().contains(x) implies slot_of(x, bs2[c].bits)
            == bs2[c].prefix by {
            if c != b || x != k {
                assert(bs[c].map.dom().contains(x));
                use_key(g, bs, c, x);
            }
        }
    }
}

/// Two maps that bind the same keys to the same values are the same.
proof fn lemma_same_map(a: Map<Seq<u8>, Seq<u8>>, b: Map<Seq<u8>, Seq<u8>>)
    requires
        forall|k: Seq<u8>| #[trigger] a.dom().contains(k) == b.dom().contains(k),
        forall|k: Seq<u8>| #[trigger] a.dom().contains(k) ==> a[k] == b[k],
    ensures
        a == b,
{
    assert(a =~= b);
}

/// What the routed map says of one key.
proof fn lemma_routed_at(g: nat, dirs: Seq<u32>, bs: Seq<Info>, k: Seq<u8>)
    ensures
        routed_map(g, dirs, bs).dom().contains(k) == bs[home(g, dirs, k)].map.dom().contains(k),
        routed_map(g, dirs, bs).dom().contains(k) ==> routed_map(g, dirs, bs)[k] == bs[home(
            g,
            dirs,
            k,
        )].map[k],
{
}

/// Changing what a bucket binds, at a key that is routed there, changes
/// that one binding.
proof fn lemma_update_bucket(
    g: nat,
    dirs: Seq<u32>,
    bs: Seq<Info>,
    k: Seq<u8>,
    m: Map<Seq<u8>, Seq<u8>>,
)
    requires
        routed(g, dirs, bs),
        m == bs[home(g, dirs, k)].map.remove(k) || m == bs[home(g, dirs, k)].map.insert(k, m[k]),
    ensures
        ({
            let b = home(g, dirs, k);
            let bs2 = bs.update(b, Info { map: m, ..bs[b] });
            &&& 0 <= b < bs.len()
            &&& routed(g, dirs, bs2)
            &&& m.dom().contains(k) ==> routed_map(g, dirs, bs2) == routed_map(
                g,
                dirs,
                bs,
            ).insert(k, m[k])
            &&& !m.dom().contains(k) ==> routed_map(g, dirs, bs2) == routed_map(
                g,
                dirs,
                bs,
            ).remove(k)
            &&& routed_map(g, dirs, bs).dom().contains(k) == bs[b].map.dom().contains(k)
            &&& bs[b].map.dom().contains(k) ==> routed_map(g, dirs, bs)[k] == bs[b].map[k]
        }),
{
    let b = home(g, dirs, k);
    lemma_update_routed(g, dirs, bs, k, m);
    let bs2 = bs.update(b, Info { map: m, ..bs[b] });
    let r1 = routed_map(g, dirs, bs);
    let r2 = routed_map(g, dirs, bs2);
    let want = if m.dom().contains(k) {
        r1.insert(k, m[k])
    } else {
        r1.remove(k)
    };
    lemma_routed_at(g, dirs, bs, k);
    assert forall|x: Seq<u8>| #[trigger] r2.dom().contains(x) == want.dom().contains(x) && (
    r2.dom().contains(x) ==> r2[x] == want[x]) by {
        lemma_home(g, dirs, bs, x);
        lemma_routed_at(g, dirs, bs, x);
        lemma_routed_at(g, dirs, bs2, x);
    }
    lemma_same_map(r2, want);
}

/// Doubling the directory keeps the routing.
proof fn lemma_double(g: nat, dirs: Seq<u32>, bs: Seq<Info>, next: Seq<u32>)
    requires
        routed(g, dirs, bs),
        g < 64,
        next.len() == 2 * dirs.len(),
        forall|s: int| 0 <= s < next.len() ==> #[trigger] next[s] == dirs[s / 2],
    ensures
        routed(g + 1, next, bs),
        routed_map(g + 1, next, bs) == routed_map(g, dirs, bs),
{
    lemma_p2_step(g);
    assert(slots_ok(g + 1, next, bs)) by {
        reveal(slots_ok);
        assert forall|s: int| 0 <= s < next.len() implies (#[trigger] next[s]) < bs.len()
            && bs[next[s] as int].bits <= g + 1 && prefix_of(
            s as nat,
            g + 1,
            bs[next[s] as int].bits,
        ) == bs[next[s] as int].prefix by {
            use_slot(g, dirs, bs, s / 2);
            lemma_prefix_double(s as nat, g, bs[dirs[s / 2] as int].bits);
        }
    }
    assert(slots_back(g + 1, next, bs)) by {
        reveal(slots_back);
        assert forall|s: int, b: int|
            #![trigger next[s], bs[b]]
            0 <= s < next.len() && 0 <= b < bs.len() && prefix_of(s as nat, g + 1, bs[b].bits)
                == bs[b].prefix implies next[s] == b by {
            use_bits(g, bs, b);
            lemma_prefix_double(s as nat, g, bs[b].bits);
            use_back(g, dirs, bs, s / 2, b);
        }
    }
    assert(bits_ok(g + 1, bs)) by {
        reveal(bits_ok);
    }
    assert(keys_ok(g + 1, bs)) by {
        reveal(keys_ok);
    }
    assert forall|k: Seq<u8>| home(g + 1, next, k) == home(g, dirs, k) by {
        let h = crate::bytes::hash_of(k);
        lemma_top_bits(h, g + 1, g);
        lemma_top_bits(h, g + 1, g + 1);
        lemma_p2_values();
        let s = slot_of(k, g + 1);
        assert(prefix_of(s, g + 1, g) == s / 2) by {
            reveal(prefix_of);
            assert((g + 1 - g) as nat == 1);
        }
        assert(next[s as int] == dirs[s as int / 2]);
    }
    assert(routed_map(g + 1, next, bs) =~= routed_map(g, dirs, bs));
}

/// What splitting bucket `bi` does to the directory and the buckets.
spec fn is_split(
    g: nat,
    dirs: Seq<u32>,
    bs: Seq<Info>,
    bi: int,
    lo: Info,
    hi: Info,
    dirs2: Seq<u32>,
) -> bool {
    &&& 0 <= bi < bs.len() < u32::MAX
    &&& bs[bi].bits < g
    &&& lo.bits == bs[bi].bits + 1
    &&& hi.bits == bs[bi].bits + 1
    &&& lo.prefix == 2 * bs[bi].prefix
    &&& hi.prefix == 2 * bs[bi].prefix + 1
    &&& forall|k: Seq<u8>| #[trigger]
        lo.map.dom().contains(k) <==> bs[bi].map.dom().contains(k) && slot_of(k, lo.bits)
            == lo.prefix
    &&& forall|k: Seq<u8>| #[trigger]
        hi.map.dom().contains(k) <==> bs[bi].map.dom().contains(k) && slot_of(k, hi.bits)
            == hi.prefix
    &&& forall|k: Seq<u8>| #[trigger] lo.map.dom().contains(k) ==> lo.map[k] == bs[bi].map[k]
    &&& forall|k: Seq<u8>| #[trigger] hi.map.dom().contains(k) ==> hi.map[k] == bs[bi].map[k]
    &&& dirs2.len() == dirs.len()
    &&& forall|s: int|
        0 <= s < dirs.len() ==> #[trigger] dirs2[s] == (if prefix_of(s as nat, g, hi.bits)
            == hi.prefix {
            bs.len() as u32
        } else {
            dirs[s]
        })
}

/// The lower or upper half of a bucket: the bindings of the keys whose next
/// hash bit is 0 or 1, one bit deeper.
spec fn half(b: Info, upper: bool) -> Info {
    let p: nat = if upper {
        2 * b.prefix + 1
    } else {
        2 * b.prefix
    };
    Info {
        bits: b.bits + 1,
        prefix: p,
        map: Map::new(
            |k: Seq<u8>| b.map.dom().contains(k) && slot_of(k, b.bits + 1) == p,
            |k: Seq<u8>| b.map[k],
        ),
    }
}

/// The buckets after bucket `b` has been split: the lower half in its place,
/// the upper half behind the last.
spec fn parted(bs: Seq<Info>, b: int) -> Seq<Info> {
    bs.update(b, half(bs[b], false)).push(half(bs[b], true))
}

/// Bucket `b` holds more than a bucket should, and there is room to split
/// it.
spec fn overfull(bs: Seq<Info>, b: int) -> bool {
    &&& bs[b].map.dom().len() > BUCKET_SPLIT
    &&& bs[b].bits < MAX_BITS
    &&& bs.len() < u32::MAX
}

/// Where a hash that was routed to bucket `b` is routed once `b` has been
/// split.
spec fn side(bs: Seq<Info>, b: int, h: u64) -> int {
    if top_bits(h, bs[b].bits + 1) == 2 * bs[b].prefix + 1 {
        bs.len() as int
    } else {
        b
    }
}

/// The buckets once bucket `b`, to which `h` is routed, has been split, and
/// then the half on the side of `h`, for as long as it is too full.
spec fn settled(bs: Seq<Info>, b: int, h: u64) -> Seq<Info>
    decreases MAX_BITS - bs[b].bits,
{
    if 0 <= b < bs.len() && overfull(bs, b) {
        settled(parted(bs, b), side(bs, b, h), h)
    } else {
        bs
    }
}

/// A half binds no more keys than the whole.
proof fn lemma_half_size(b: Info, upper: bool)
    requires
        b.map.dom().finite(),
    ensures
        half(b, upper).map.dom().finite(),
        half(b, upper).map.dom().len() <= b.map.dom().len(),
{
    assert(half(b, upper).map.dom().subset_of(b.map.dom()));
    vstd::set_lib::lemma_len_subset(half(b, upper).map.dom(), b.map.dom());
}

/// A slot belongs to the bucket exactly if it belongs to one of its halves.
proof fn lemma_half(g: nat, dirs: Seq<u32>, bs: Seq<Info>, bi: int, s: int)
    requires
        slots_ok(g, dirs, bs),
        slots_back(g, dirs, bs),
        0 <= bi < bs.len(),
        bs[bi].bits < g,
        0 <= s < dirs.len(),
    ensures
        (dirs[s] == bi) == (prefix_of(s as nat, g, bs[bi].bits + 1) == 2 * bs[bi].prefix
            || prefix_of(s as nat, g, bs[bi].bits + 1) == 2 * bs[bi].prefix + 1),
{
    lemma_prefix_half(s as nat, g, bs[bi].bits);
    use_slot(g, dirs, bs, s);
    use_back(g, dirs, bs, s, bi);
}

/// Splitting a bucket that is shallower than the directory keeps the routing.
proof fn lemma_split(
    g: nat,
    dirs: Seq<u32>,
    bs: Seq<Info>,
    bi: int,
    lo: Info,
    hi: Info,
    dirs2: Seq<u32>,
)
    requires
        routed(g, dirs, bs),
        is_split(g, dirs, bs, bi, lo, hi, dirs2),
    ensures
        routed(g, dirs2, bs.update(bi, lo).push(hi)),
        routed_map(g, dirs2, bs.update(bi, lo).push(hi)) == routed_map(g, dirs, bs),
{
    let l = bs[bi].bits;
    let p = bs[bi].prefix;
    let n = bs.len() as int;
    let bs2 = bs.update(bi, lo).push(hi);
    assert(bs2[n] == hi);
    assert(bs2[bi] == lo);
    assert forall|c: int| 0 <= c < n && c != bi implies #[trigger] bs2[c] == bs[c] by {}
    assert(slots_ok(g, dirs2, bs2)) by {
        reveal(slots_ok);
        assert forall|s: int| 0 <= s < dirs2.len() implies (#[trigger] dirs2[s]) < bs2.len()
            && bs2[dirs2[s] as int].bits <= g && prefix_of(s as nat, g, bs2[dirs2[s] as int].bits)
            == bs2[dirs2[s] as int].prefix by {
            lemma_half(g, dirs, bs, bi, s);
            use_slot(g, dirs, bs, s);
        }
    }
    assert(slots_back(g, dirs2, bs2)) by {
        reveal(slots_back);
        assert forall|s: int, b: int|
            #![trigger dirs2[s], bs2[b]]
            0 <= s < dirs2.len() && 0 <= b < bs2.len() && prefix_of(s as nat, g, bs2[b].bits)
                == bs2[b].prefix implies dirs2[s] == b by {
            lemma_half(g, dirs, bs, bi, s);
            if b != n && b != bi {
                use_back(g, dirs, bs, s, b);
            }
        }
    }
    assert(bits_ok(g, bs2)) by {
        reveal(bits_ok);
        assert forall|b: int| 0 <= b < bs2.len() implies (#[trigger] bs2[b]).bits <= g by {
            if b != n && b != bi {
                use_bits(g, bs, b);
            }
        }
    }
    assert(keys_ok(g, bs2)) by {
        reveal(keys_ok);
        assert forall|b: int, k: Seq<u8>|
            #![trigger bs2[b].map.dom().contains(k)]
            0 <= b < bs2.len() && bs2[b].map.dom().contains(k) implies slot_of(k, bs2[b].bits)
            == bs2[b].prefix by {
            if b == n {
                assert(hi.map.dom().contains(k));
            } else if b == bi {
                assert(lo.map.dom().contains(k));
            } else {
                use_key(g, bs, b, k);
            }
        }
    }
    let r1 = routed_map(g, dirs, bs);
    let r2 = routed_map(g, dirs2, bs2);
    assert forall|k: Seq<u8>| #[trigger] r2.dom().contains(k) == r1.dom().contains(k) && (
    r2.dom().contains(k) ==> r2[k] == r1[k]) by {
        lemma_routed_at(g, dirs, bs, k);
        lemma_routed_at(g, dirs2, bs2, k);
        let h = crate::bytes::hash_of(k);
        lemma_home(g, dirs, bs, k);
        lemma_home(g, dirs2, bs2, k);
        let s = slot_of(k, g) as int;
        lemma_top_bits(h, g, l + 1);
        lemma_half(g, dirs, bs, bi, s);
        assert(dirs2[s] == (if prefix_of(s as nat, g, l + 1) == 2 * p + 1 {
            n as u32
        } else {
            dirs[s]
        }));
        if dirs[s] == bi {
            assert(hi.map.dom().contains(k) <==> bs[bi].map.dom().contains(k) && slot_of(k, l + 1)
                == 2 * p + 1);
            assert(lo.map.dom().contains(k) <==> bs[bi].map.dom().contains(k) && slot_of(k, l + 1)
                == 2 * p);
        }
    }
    lemma_same_map(r2, r1);
}

/// One bucket of a [`SegMap`].
pub struct Bucket<V> {
    local_bits: u8,
    prefix: Ghost<nat>,
    map: ByteMap<V>,
}

impl<V: Payload> Bucket<V> {
    spec fn info(&self) -> Info {
        Info {
            bits: self.local_bits as nat,
            prefix: self.prefix@,
            map: crate::payload::model_map(self.map@),
        }
    }
}

/// A clone of a bucket binds the same keys to the same values.
impl<V: Payload> Clone for Bucket<V> {
    fn clone(&self) -> (r: Self)
        ensures
            bucket_same(*self, r),
    {
        let map = self.map.clone();
        proof {
            if self.map.wf() {
                crate::payload::lemma_cloned_table(self.map, map);
            }
        }
        Bucket { local_bits: self.local_bits, prefix: Ghost(self.prefix@), map }
    }
}

/// `b` is well-formed and says the same as `a`, if `a` is well-formed.
pub closed spec fn bucket_same<V: Payload>(a: Bucket<V>, b: Bucket<V>) -> bool {
    a.map.wf() ==> b.map.wf() && a.info() == b.info()
}

spec fn behind<V>(a: Arc<Bucket<V>>) -> Bucket<V> {
    *a
}

proof fn lemma_own<V: Payload>(a: Arc<Bucket<V>>, b: Bucket<V>)
    requires
        behind(a) == b || cloned(behind(a), b),
        behind(a).map.wf(),
    ensures
        b.map.wf(),
        b.info() == behind(a).info(),
{
}

/// Starts to change a bucket.
fn own<V: Payload>(a: &mut Arc<Bucket<V>>) -> (r: &mut Bucket<V>)
    requires
        behind(*old(a)).map.wf(),
    ensures
        r.map.wf(),
        r.info() == behind(*old(a)).info(),
        behind(*final(a)) == *final(r),
{
    let r = unshare(a);
    proof {
        lemma_own(*old(a), *r);
    }
    r
}

/// A giant hash or set.
pub struct SegMap<V> {
    global_bits: u8,
    dirs: Vec<u32>,
    buckets: Vec<Arc<Bucket<V>>>,
    len: Count,
}

spec fn infos<V: Payload>(bs: Seq<Arc<Bucket<V>>>) -> Seq<Info> {
    Seq::new(bs.len(), |b: int| behind(bs[b]).info())
}

spec fn maps_wf<V: Payload>(bs: Seq<Arc<Bucket<V>>>) -> bool {
    forall|b: int| 0 <= b < bs.len() ==> (#[trigger] behind(bs[b])).map.wf()
}

impl<V: Payload> View for SegMap<V> {
    type V = Map<Seq<u8>, Seq<u8>>;

    /// The bindings.
    closed spec fn view(&self) -> Map<Seq<u8>, Seq<u8>> {
        routed_map(self.global_bits as nat, self.dirs@, infos(self.buckets@))
    }
}

/// 2 to the power `n`.
fn pow2_of(n: u8) -> (r: u64)
    requires
        n < 64,
    ensures
        r == p2(n as nat),
{
    proof {
        lemma_p2_values();
    }
    let mut r: u64 = 1;
    let mut i: u8 = 0;
    while i < n
        invariant
            i <= n < 64,
            r == p2(i as nat),
        decreases n - i,
    {
        proof {
            lemma_p2_step(i as nat);
            lemma_p2_mono((i + 1) as nat, 63);
            lemma_p2_values();
        }
        r = r * 2;
        i = i + 1;
    }
    r
}

/// The top `n` bits of a hash.
fn top_bits_of(h: u64, n: u8) -> (r: u64)
    requires
        n <= 64,
    ensures
        r == top_bits(h, n as nat),
{
    proof {
        reveal(top_bits);
        lemma_p2_values();
        lemma_p2_step((64 - n) as nat);
    }
    if n == 0 {
        assert((h as nat) / 0x1_0000_0000_0000_0000nat == 0);
        return 0;
    }
    h / pow2_of(64 - n)
}

impl<V: Payload> SegMap<V> {
    spec fn struct_ok(&self) -> bool {
        &&& self.global_bits <= MAX_BITS
        &&& routed(self.global_bits as nat, self.dirs@, infos(self.buckets@))
        &&& maps_wf(self.buckets@)
        &&& self@.dom().finite()
    }

    /// The directory routes every key to the bucket that holds it, and the
    /// recorded length is the number of keys.
    pub closed spec fn wf(&self) -> bool {
        &&& self.struct_ok()
        &&& self.len@ == self@.dom().len()
    }

    /// An empty map: one bucket, one directory slot.
    pub fn new() -> (r: Self)
        ensures
            r.wf(),
            r@ == Map::<Seq<u8>, Seq<u8>>::empty(),
    {
        let bucket = Bucket { local_bits: 0, prefix: Ghost(0), map: ByteMap::<V>::new() };
        let mut buckets: Vec<Arc<Bucket<V>>> = Vec::new();
        buckets.push(Arc::new(bucket));
        let mut dirs: Vec<u32> = Vec::new();
        dirs.push(0);
        let r = SegMap { global_bits: 0, dirs, buckets, len: Count::zero() };
        proof {
            let bs = infos(r.buckets@);
            assert(bs.len() == 1);
            assert(bs[0].map =~= Map::empty());
            lemma_p2_values();
            assert(prefix_of(0, 0, 0) == 0) by {
                reveal(prefix_of);
            }
            reveal(slots_ok);
            reveal(slots_back);
            reveal(keys_ok);
            reveal(bits_ok);
            assert forall|k: Seq<u8>| !r@.dom().contains(k) by {
                lemma_home(0, r.dirs@, bs, k);
            }
            assert(r@ =~= Map::empty());
            assert(r@.dom() =~= Set::empty());
        }
        r
    }

    /// Number of keys, exact as long as it fits in a `usize`.
    pub fn len(&self) -> (r: usize)
        requires
            self.wf(),
        ensures
            self@.dom().finite(),
            self@.dom().len() <= usize::MAX ==> r == self@.dom().len(),
            r != 0 ==> self@.dom().len() != 0,
    {
        self.len.get()
    }

    /// The bucket that `key` is routed to.
    fn bucket_of(&self, key: &[u8]) -> (r: usize)
        requires
            self.struct_ok(),
        ensures
            r == home(self.global_bits as nat, self.dirs@, key@),
            r < self.buckets@.len(),
    {
        proof {
            lemma_home(self.global_bits as nat, self.dirs@, infos(self.buckets@), key@);
        }
        let slot: usize = self.slot_of_hash(hash_bytes(key));
        self.dirs[slot] as usize
    }

    /// The value under `key`.
    pub fn get(&self, key: &[u8]) -> (r: Option<&V>)
        requires
            self.wf(),
        ensures
            match r {
                Some(v) => self@.dom().contains(key@) && v.model() == self@[key@],
                None => !self@.dom().contains(key@),
            },
    {
        let b: usize = self.bucket_of(key);
        assert(behind(self.buckets@[b as int]).map.wf());
        self.buckets[b].map.get(key)
    }

    /// Whether `key` is bound.
    pub fn contains_key(&self, key: &[u8]) -> (r: bool)
        requires
            self.wf(),
        ensures
            r == self@.dom().contains(key@),
    {
        self.get(key).is_some()
    }

    /// Whether no key is bound.
    pub fn is_empty(&self) -> (r: bool)
        requires
            self.wf(),
        ensures
            r == (self@ == Map::<Seq<u8>, Seq<u8>>::empty()),
    {
        if self.len.get() != 0 {
            assert(Map::<Seq<u8>, Seq<u8>>::empty().dom() =~= Set::empty());
            return false;
        }
        let mut b: usize = 0;
        while b < self.buckets.len()
            invariant
                self.wf(),
                b <= self.buckets@.len(),
                forall|c: int|
                    0 <= c < b ==> (#[trigger] behind(self.buckets@[c])).map@ == Map::<
                        Seq<u8>,
                        V,
                    >::empty(),
            decreases self.buckets@.len() - b,
        {
            let m = &self.buckets[b].map;
            assert(behind(self.buckets@[b as int]).map.wf());
            if !m.is_empty() {
                proof {
                    let e = Map::<Seq<u8>, V>::empty();
                    assert(exists|k: Seq<u8>| m@.dom().contains(k)) by {
                        if forall|k: Seq<u8>| !m@.dom().contains(k) {
                            assert(m@ =~= e);
                        }
                    }
                    let k = choose|k: Seq<u8>| m@.dom().contains(k);
                    let bs = infos(self.buckets@);
                    assert(bs[b as int].map.dom().contains(k));
                    lemma_held(self.global_bits as nat, self.dirs@, bs, k, b as int);
                    assert(self@.dom().contains(k));
                }
                return false;
            }
            b = b + 1;
        }
        proof {
            let bs = infos(self.buckets@);
            assert forall|k: Seq<u8>| !self@.dom().contains(k) by {
                lemma_home(self.global_bits as nat, self.dirs@, bs, k);
                let h = home(self.global_bits as nat, self.dirs@, k);
                assert(behind(self.buckets@[h]).map@ == Map::<Seq<u8>, V>::empty());
                assert(!bs[h].map.dom().contains(k));
            }
            assert(self@ =~= Map::empty());
        }
        true
    }

    /// Binds `key` to `value` and hands back what it was bound to. Changes
    /// the one bucket that `key` is routed to, and splits it when it has
    /// grown too large.
    pub fn insert(&mut self, key: Vec<u8>, value: V) -> (r: Option<V>)
        requires
            old(self).wf(),
        ensures
            final(self).wf(),
            final(self)@ == old(self)@.insert(key@, value.model()),
            match r {
                Some(o) => old(self)@.dom().contains(key@) && old(self)@[key@] == o.model(),
                None => !old(self)@.dom().contains(key@),
            },
    {
        let ghost g = self.global_bits as nat;
        let ghost bs = infos(self.buckets@);
        let ghost k = key@;
        let ghost v = value.model();
        let ghost m = self@;
        let b: usize = self.bucket_of(key.as_slice());
        let slot_bits: u64 = hash_bytes(key.as_slice());
        assert(behind(self.buckets@[b as int]).map.wf());
        let bucket = own(&mut self.buckets[b]);
        let ghost before = bucket.map@;
        proof {
            crate::payload::lemma_model_map(before, k, value);
        }
        let r = bucket.map.insert(key, value);
        let size: usize = bucket.map.len();
        proof {
            let m2 = bs[b as int].map.insert(k, v);
            lemma_update_bucket(g, self.dirs@, bs, k, m2);
            assert(infos(self.buckets@) =~= bs.update(
                b as int,
                Info { map: m2, ..bs[b as int] },
            ));
            assert(maps_wf(self.buckets@)) by {
                assert forall|c: int| 0 <= c < self.buckets@.len() implies (#[trigger] behind(
                    self.buckets@[c],
                )).map.wf() by {
                    if c != b {
                        assert(behind(old(self).buckets@[c]).map.wf());
                    }
                }
            }
            assert(self@ == m.insert(k, v));
            assert(self@.dom() =~= m.dom().insert(k));
        }
        if r.is_none() {
            self.len.up();
            if size > BUCKET_SPLIT {
                self.split(slot_bits);
            }
        } else {
            assert(self@.dom() =~= m.dom());
        }
        r
    }

    /// Unbinds `key` and hands back what it was bound to.
    pub fn remove(&mut self, key: &[u8]) -> (r: Option<V>)
        requires
            old(self).wf(),
        ensures
            final(self).wf(),
            final(self)@ == old(self)@.remove(key@),
            match r {
                Some(o) => old(self)@.dom().contains(key@) && old(self)@[key@] == o.model(),
                None => !old(self)@.dom().contains(key@),
            },
    {
        let ghost g = self.global_bits as nat;
        let ghost bs = infos(self.buckets@);
        let ghost k = key@;
        let ghost m = self@;
        let b: usize = self.bucket_of(key);
        assert(behind(self.buckets@[b as int]).map.wf());
        let bucket = own(&mut self.buckets[b]);
        let ghost before = bucket.map@;
        let r = bucket.map.remove(key);
        proof {
            let m2 = bs[b as int].map.remove(k);
            assert(crate::payload::model_map(before.remove(k)) =~= m2);
            lemma_update_bucket(g, self.dirs@, bs, k, m2);
            assert(infos(self.buckets@) =~= bs.update(
                b as int,
                Info { map: m2, ..bs[b as int] },
            ));
            assert(maps_wf(self.buckets@)) by {
                assert forall|c: int| 0 <= c < self.buckets@.len() implies (#[trigger] behind(
                    self.buckets@[c],
                )).map.wf() by {
                    if c != b {
                        assert(behind(old(self).buckets@[c]).map.wf());
                    }
                }
            }
            assert(self@ == m.remove(k));
            assert(self@.dom() =~= m.dom().remove(k));
        }
        if r.is_some() {
            self.len.down();
        } else {
            assert(m.dom().remove(k) =~= m.dom());
        }
        r
    }

    /// Splits the bucket that a key of hash `h` is routed to, until the
    /// bucket on that key's side is small enough or as deep as it may get.
    fn split(&mut self, h: u64)
        requires
            old(self).wf(),
        ensures
            final(self).wf(),
            final(self)@ == old(self)@,
            infos(old(self).buckets@)[old(self).route(h)].map.dom().len() <= usize::MAX ==> infos(
                final(self).buckets@,
            ) == settled(infos(old(self).buckets@), old(self).route(h), h),
            forall|c: int|
                0 <= c < old(self).buckets@.len() && c != old(self).route(h)
                    ==> #[trigger] final(self).buckets@[c] == old(self).buckets@[c],
    {
        let ghost bs0 = infos(self.buckets@);
        let ghost b0 = self.route(h);
        let mut rounds: u8 = MAX_BITS;
        while rounds > 0
            invariant
                self.wf(),
                self@ == old(self)@,
                bs0 == infos(old(self).buckets@),
                b0 == old(self).route(h),
                bs0.len() <= self.buckets@.len(),
                self.route(h) == b0 || bs0.len() <= self.route(h),
                rounds <= MAX_BITS,
                rounds + infos(self.buckets@)[self.route(h)].bits >= MAX_BITS,
                bs0[b0].map.dom().len() <= usize::MAX ==> infos(self.buckets@)[self.route(
                    h,
                )].map.dom().len() <= usize::MAX,
                bs0[b0].map.dom().len() <= usize::MAX ==> settled(
                    infos(self.buckets@),
                    self.route(h),
                    h,
                ) == settled(bs0, b0, h),
                forall|c: int|
                    0 <= c < bs0.len() && c != b0 ==> #[trigger] self.buckets@[c] == old(
                        self,
                    ).buckets@[c],
            decreases rounds,
        {
            let ghost bs = infos(self.buckets@);
            let ghost b = self.route(h);
            proof {
                self.lemma_route(h);
                let m = behind(self.buckets@[b]).map;
                m.lemma_key_order();
                vstd::seq_lib::seq_to_set_is_finite(m.key_order());
                assert(bs[b].map.dom() =~= m@.dom());
                lemma_half_size(bs[b], false);
                lemma_half_size(bs[b], true);
            }
            if !self.split_once(h) {
                return;
            }
            assert(infos(self.buckets@).len() == bs.len() + 1);
            rounds = rounds - 1;
        }
    }

    /// The bucket that a key of hash `h` is routed to.
    spec fn route(&self, h: u64) -> int {
        self.dirs@[top_bits(h, self.global_bits as nat) as int] as int
    }

    /// The bucket that a hash is routed to exists, and shares its bits with
    /// the hash.
    proof fn lemma_route(&self, h: u64)
        requires
            self.struct_ok(),
        ensures
            0 <= top_bits(h, self.global_bits as nat) < self.dirs@.len(),
            0 <= self.route(h) < self.buckets@.len(),
            behind(self.buckets@[self.route(h)]).map.wf(),
            infos(self.buckets@)[self.route(h)] == behind(self.buckets@[self.route(h)]).info(),
            infos(self.buckets@)[self.route(h)].bits <= self.global_bits,
            top_bits(h, infos(self.buckets@)[self.route(h)].bits) == infos(
                self.buckets@,
            )[self.route(h)].prefix,
    {
        let g = self.global_bits as nat;
        let bs = infos(self.buckets@);
        lemma_top_bits(h, g, g);
        use_slot(g, self.dirs@, bs, top_bits(h, g) as int);
        lemma_top_bits(h, g, bs[self.route(h)].bits);
    }

    /// One split of the bucket that a key of hash `h` is routed to, if it is
    /// too large and may get deeper. Says whether it did.
    fn split_once(&mut self, h: u64) -> (r: bool)
        requires
            old(self).wf(),
        ensures
            final(self).wf(),
            final(self)@ == old(self)@,
            infos(old(self).buckets@)[old(self).route(h)].map.dom().len() <= usize::MAX ==> r
                == overfull(infos(old(self).buckets@), old(self).route(h)),
            !r ==> *final(self) == *old(self),
            r ==> infos(final(self).buckets@) == parted(
                infos(old(self).buckets@),
                old(self).route(h),
            ),
            r ==> final(self).route(h) == side(infos(old(self).buckets@), old(self).route(h), h),
            r ==> final(self).global_bits == (if infos(old(self).buckets@)[old(self).route(h)].bits
                == old(self).global_bits {
                old(self).global_bits + 1
            } else {
                old(self).global_bits as int
            }),
            forall|c: int|
                0 <= c < old(self).buckets@.len() && c != old(self).route(h)
                    ==> #[trigger] final(self).buckets@[c] == old(self).buckets@[c],
    {
        let slot: usize = self.slot_of_hash(h);
        let ghost bs = infos(self.buckets@);
        proof {
            self.lemma_route(h);
        }
        let bi: usize = self.dirs[slot] as usize;
        proof {
            assert(behind(self.buckets@[bi as int]).map.wf());
            assert(behind(self.buckets@[bi as int]).info() == bs[bi as int]);
            assert(bs[bi as int].map.dom() =~= behind(self.buckets@[bi as int]).map@.dom());
        }
        let lb: u8 = self.buckets[bi].local_bits;
        if self.buckets[bi].map.len() <= BUCKET_SPLIT || lb >= MAX_BITS {
            return false;
        }
        if self.buckets.len() >= u32::MAX as usize {
            return false;
        }
        if lb == self.global_bits {
            let ghost g = self.global_bits as nat;
            self.double_directory();
            proof {
                lemma_top_bits(h, g + 1, g);
                lemma_top_bits(h, g + 1, g + 1);
                lemma_p2_values();
                assert(prefix_of(top_bits(h, g + 1), g + 1, g) == top_bits(h, g + 1) / 2) by {
                    reveal(prefix_of);
                    assert((g + 1 - g) as nat == 1);
                }
                assert(self.route(h) == bi);
            }
        }
        proof {
            self.lemma_route(h);
            lemma_top_bits(h, self.global_bits as nat, (lb + 1) as nat);
        }
        self.split_bucket(bi);
        true
    }

    /// The keys of each bucket, in the order of a walk.
    pub closed spec fn rows(&self) -> Seq<Seq<Seq<u8>>> {
        Seq::new(self.buckets@.len(), |b: int| behind(self.buckets@[b]).map.key_order())
    }

    /// The keys in the order in which a walk over the buckets meets them.
    pub open spec fn key_order(&self) -> Seq<Seq<u8>> {
        crate::packed::cat(self.rows())
    }

    /// A walk meets every key exactly once.
    pub proof fn lemma_key_order(&self)
        requires
            self.wf(),
        ensures
            self.key_order().no_duplicates(),
            self.key_order().to_set() == self@.dom(),
            self.key_order().len() == self@.dom().len(),
    {
        let g = self.global_bits as nat;
        let bs = infos(self.buckets@);
        let rs = self.rows();
        assert forall|b: int, x: Seq<u8>| 0 <= b < rs.len() implies #[trigger] rs[b].contains(x)
            == bs[b].map.dom().contains(x) by {
            let m = behind(self.buckets@[b]).map;
            m.lemma_key_order();
            assert(rs[b].contains(x) == m.key_order().to_set().contains(x));
        }
        assert forall|b: int| 0 <= b < rs.len() implies (#[trigger] rs[b]).no_duplicates() by {
            behind(self.buckets@[b]).map.lemma_key_order();
        }
        assert forall|i: int, j: int, x: Seq<u8>|
            #![trigger rs[i].contains(x), rs[j].contains(x)]
            0 <= i < rs.len() && 0 <= j < rs.len() && rs[i].contains(x) && rs[j].contains(
                x,
            ) implies i == j by {
            lemma_held(g, self.dirs@, bs, x, i);
            lemma_held(g, self.dirs@, bs, x, j);
        }
        crate::packed::lemma_cat_distinct(rs);
        let o = self.key_order();
        assert forall|x: Seq<u8>| o.to_set().contains(x) == self@.dom().contains(x) by {
            lemma_routed_at(g, self.dirs@, bs, x);
            lemma_home(g, self.dirs@, bs, x);
            if o.contains(x) {
                let b = choose|b: int| 0 <= b < rs.len() && (#[trigger] rs[b]).contains(x);
                lemma_held(g, self.dirs@, bs, x, b);
            }
            if self@.dom().contains(x) {
                assert(rs[home(g, self.dirs@, x)].contains(x));
            }
        }
        assert(o.to_set() =~= self@.dom());
        o.unique_seq_to_set();
    }

    /// Every key, bucket by bucket.
    pub fn keys(&self) -> (r: Vec<Vec<u8>>)
        requires
            self.wf(),
        ensures
            crate::bytes::deep(r@) == self.key_order(),
    {
        let ghost rs = self.rows();
        let mut out: Vec<Vec<u8>> = Vec::new();
        let mut b: usize = 0;
        assert(crate::bytes::deep(out@) =~= crate::packed::cat(rs.subrange(0, 0)));
        while b < self.buckets.len()
            invariant
                self.wf(),
                rs == self.rows(),
                b <= self.buckets@.len(),
                crate::bytes::deep(out@) == crate::packed::cat(rs.subrange(0, b as int)),
            decreases self.buckets@.len() - b,
        {
            assert(behind(self.buckets@[b as int]).map.wf());
            let ghost before = out@;
            let mut part = self.buckets[b].map.keys();
            let ghost p = part@;
            out.append(&mut part);
            proof {
                crate::packed::lemma_cat_split(rs, b as int);
                assert(crate::bytes::deep(out@) =~= crate::bytes::deep(before)
                    + crate::bytes::deep(p));
            }
            b = b + 1;
        }
        assert(rs.subrange(0, b as int) =~= rs);
        out
    }

    /// What the keys are bound to, in the order of [`SegMap::keys`].
    pub fn values(&self) -> (r: Vec<&V>)
        requires
            self.wf(),
        ensures
            r@.len() == self.key_order().len(),
            forall|i: int|
                0 <= i < r@.len() ==> (#[trigger] r@[i]).model() == self@[self.key_order()[i]],
    {
        let names = self.keys();
        let ghost q = self.key_order();
        let mut out: Vec<&V> = Vec::new();
        let mut i: usize = 0;
        proof {
            self.lemma_key_order();
        }
        while i < names.len()
            invariant
                self.wf(),
                crate::bytes::deep(names@) == q,
                q.to_set() == self@.dom(),
                i <= names@.len(),
                out@.len() == i,
                forall|j: int| 0 <= j < i ==> (#[trigger] out@[j]).model() == self@[q[j]],
            decreases names@.len() - i,
        {
            assert(q[i as int] == names@[i as int]@);
            assert(q.to_set().contains(q[i as int]));
            match self.get(names[i].as_slice()) {
                Some(v) => {
                    out.push(v);
                },
                None => {
                    assert(false);
                },
            }
            i = i + 1;
        }
        assert(q.len() == names@.len());
        out
    }

    /// A member picked by `draw`: the one at place `below(draw, len)` of a
    /// walk. `None` when the map is empty.
    pub fn rand_entry(&self, draw: u64) -> (r: Option<(&Vec<u8>, &V)>)
        requires
            self.wf(),
            self@.dom().len() <= usize::MAX,
        ensures
            match r {
                Some((k, v)) => {
                    &&& self@.dom().len() > 0
                    &&& k@ == self.key_order()[crate::rng::below_spec(
                        draw,
                        self@.dom().len() as u64,
                    ) as int]
                    &&& self@.dom().contains(k@)
                    &&& v.model() == self@[k@]
                },
                None => self@.dom().len() == 0,
            },
    {
        let n: usize = self.len();
        if n == 0 {
            return None;
        }
        proof {
            self.lemma_key_order();
        }
        let mut target: usize = crate::rng::below(draw, n as u64) as usize;
        let ghost at = target as int;
        let ghost rs = self.rows();
        let ghost o = self.key_order();
        let mut b: usize = 0;
        assert(crate::packed::cat(rs.subrange(0, 0)) =~= Seq::empty());
        while b < self.buckets.len()
            invariant
                self.wf(),
                rs == self.rows(),
                o == self.key_order(),
                0 <= at < o.len(),
                o.to_set() == self@.dom(),
                b <= self.buckets@.len(),
                at == crate::packed::cat(rs.subrange(0, b as int)).len() + target,
                at == crate::rng::below_spec(draw, self@.dom().len() as u64),
                self@.dom().len() > 0,
            decreases self.buckets@.len() - b,
        {
            let m = &self.buckets[b].map;
            let ghost bs = infos(self.buckets@);
            proof {
                assert(behind(self.buckets@[b as int]).map.wf());
                crate::packed::lemma_cat_split(rs, b as int);
                assert(rs[b as int] == m.key_order());
                m.lemma_key_order();
            }
            match m.nth(target) {
                Some((k, v)) => {
                    proof {
                        assert(o[at] == rs[b as int][target as int]);
                        assert(o.contains(o[at]));
                        assert(o.to_set().contains(k@));
                        assert(bs[b as int].map.dom().contains(k@));
                        lemma_held(self.global_bits as nat, self.dirs@, bs, k@, b as int);
                        lemma_routed_at(self.global_bits as nat, self.dirs@, bs, k@);
                    }
                    return Some((k, v));
                },
                None => {
                    target = target - m.order_len();
                },
            }
            b = b + 1;
        }
        proof {
            assert(rs.subrange(0, b as int) =~= rs);
        }
        None
    }

    /// The bindings of a flat table, moved in one by one.
    pub fn from_flat(flat: ByteMap<V>) -> (r: Self)
        requires
            flat.wf(),
        ensures
            r.wf(),
            r@ == crate::payload::model_map(flat@),
    {
        let ghost m = crate::payload::model_map(flat@);
        let mut src = flat;
        let mut keys = src.keys();
        let mut out = SegMap::<V>::new();
        proof {
            src.lemma_key_order();
            let o = src.key_order();
            assert forall|k: Seq<u8>| src@.dom().contains(k) implies exists|i: int|
                0 <= i < keys@.len() && (#[trigger] keys@[i])@ == k by {
                assert(o.to_set().contains(k));
                let i = choose|i: int| 0 <= i < o.len() && o[i] == k;
                assert(crate::bytes::deep(keys@)[i] == k);
            }
        }
        while keys.len() > 0
            invariant
                src.wf(),
                out.wf(),
                forall|k: Seq<u8>| #[trigger]
                    m.dom().contains(k) <==> src@.dom().contains(k) || out@.dom().contains(k),
                forall|k: Seq<u8>| #[trigger] src@.dom().contains(k) ==> src@[k].model() == m[k],
                forall|k: Seq<u8>| #[trigger] out@.dom().contains(k) ==> out@[k] == m[k],
                forall|k: Seq<u8>| #[trigger]
                    src@.dom().contains(k) ==> exists|i: int|
                        0 <= i < keys@.len() && (#[trigger] keys@[i])@ == k,
            decreases keys@.len(),
        {
            let ghost ks = keys@;
            let ghost src0 = src@;
            match keys.pop() {
                None => {},
                Some(k) => {
                    let ghost kk = k@;
                    assert(ks[ks.len() - 1]@ == kk);
                    match src.remove(k.as_slice()) {
                        None => {},
                        Some(v) => {
                            let _o = out.insert(k, v);
                        },
                    }
                    proof {
                        assert forall|x: Seq<u8>| #[trigger] src@.dom().contains(x) implies exists|
                            i: int,
                        |
                            0 <= i < keys@.len() && (#[trigger] keys@[i])@ == x by {
                            assert(src0.dom().contains(x));
                            assert(x != kk);
                            let i = choose|i: int| 0 <= i < ks.len() && (#[trigger] ks[i])@ == x;
                            assert(keys@[i]@ == x);
                        }
                    }
                },
            }
        }
        proof {
            assert forall|k: Seq<u8>| !src@.dom().contains(k) by {}
            assert(out@ =~= m);
        }
        out
    }

    /// How many handles share each bucket, and how many keys it holds: what
    /// tells which buckets a write has copied.
    pub fn bucket_arcs(&self) -> (r: &Vec<Arc<Bucket<V>>>)
        ensures
            r@.len() == self.rows().len(),
    {
        &self.buckets
    }

    fn slot_of_hash(&self, h: u64) -> (r: usize)
        requires
            self.struct_ok(),
        ensures
            r == top_bits(h, self.global_bits as nat),
            r < self.dirs@.len(),
    {
        proof {
            lemma_top_bits(h, self.global_bits as nat, self.global_bits as nat);
        }
        let t: u64 = top_bits_of(h, self.global_bits);
        let _n: usize = self.dirs.len();
        t as usize
    }

    /// Doubles the directory; the buckets stay as they are.
    fn double_directory(&mut self)
        requires
            old(self).wf(),
            old(self).global_bits < MAX_BITS,
        ensures
            final(self).wf(),
            final(self)@ == old(self)@,
            final(self).buckets@ == old(self).buckets@,
            final(self).global_bits == old(self).global_bits + 1,
            final(self).dirs@.len() == 2 * old(self).dirs@.len(),
            forall|s: int|
                0 <= s < final(self).dirs@.len() ==> #[trigger] final(self).dirs@[s] == old(
                    self,
                ).dirs@[s / 2],
    {
        let mut next: Vec<u32> = Vec::new();
        let mut i: usize = 0;
        while i < self.dirs.len()
            invariant
                i <= self.dirs@.len(),
                next@.len() == 2 * i,
                forall|s: int| 0 <= s < next@.len() ==> #[trigger] next@[s] == self.dirs@[s / 2],
            decreases self.dirs@.len() - i,
        {
            let d: u32 = self.dirs[i];
            next.push(d);
            next.push(d);
            i = i + 1;
        }
        proof {
            lemma_double(
                self.global_bits as nat,
                self.dirs@,
                infos(self.buckets@),
                next@,
            );
        }
        self.dirs = next;
        self.global_bits = self.global_bits + 1;
    }

    /// Splits bucket `bi` by the next bit of its keys' hashes.
    fn split_bucket(&mut self, bi: usize)
        requires
            old(self).wf(),
            bi < old(self).buckets@.len() < u32::MAX,
            infos(old(self).buckets@)[bi as int].bits < old(self).global_bits,
        ensures
            final(self).wf(),
            final(self)@ == old(self)@,
            infos(final(self).buckets@) == parted(infos(old(self).buckets@), bi as int),
            forall|c: int|
                0 <= c < old(self).buckets@.len() && c != bi ==> #[trigger] final(self).buckets@[c]
                    == old(self).buckets@[c],
            final(self).global_bits == old(self).global_bits,
            final(self).dirs@.len() == old(self).dirs@.len(),
            forall|s: int|
                0 <= s < old(self).dirs@.len() ==> #[trigger] final(self).dirs@[s] == (if prefix_of(
                    s as nat,
                    old(self).global_bits as nat,
                    infos(old(self).buckets@)[bi as int].bits + 1,
                ) == 2 * infos(old(self).buckets@)[bi as int].prefix + 1 {
                    old(self).buckets@.len() as u32
                } else {
                    old(self).dirs@[s]
                }),
    {
        let ghost g = self.global_bits as nat;
        let ghost bs = infos(self.buckets@);
        let ghost dirs0 = self.dirs@;
        let ghost m = self@;
        let ghost l = bs[bi as int].bits;
        let ghost p = bs[bi as int].prefix;
        let hi_ix: u32 = self.buckets.len() as u32;
        assert(behind(self.buckets@[bi as int]).map.wf());
        assert(behind(self.buckets@[bi as int]).info() == bs[bi as int]);
        let bucket = own(&mut self.buckets[bi]);
        let lb: u8 = bucket.local_bits;
        let (lo_map, hi_map) = partition(&mut bucket.map, lb);
        let ghost lo = Info {
            bits: l + 1,
            prefix: 2 * p,
            map: crate::payload::model_map(lo_map@),
        };
        let ghost hi = Info {
            bits: l + 1,
            prefix: 2 * p + 1,
            map: crate::payload::model_map(hi_map@),
        };
        bucket.local_bits = lb + 1;
        bucket.prefix = Ghost(2 * p);
        bucket.map = lo_map;
        let high = Bucket { local_bits: lb + 1, prefix: Ghost(2 * p + 1), map: hi_map };
        self.buckets.push(Arc::new(high));
        let ghost bs2 = infos(self.buckets@);
        proof {
            assert(bs2 =~= bs.update(bi as int, lo).push(hi));
            assert(maps_wf(self.buckets@)) by {
                assert forall|c: int| 0 <= c < self.buckets@.len() implies (#[trigger] behind(
                    self.buckets@[c],
                )).map.wf() by {
                    if c != bi && c < bs.len() {
                        assert(behind(old(self).buckets@[c]).map.wf());
                    }
                }
            }
        }
        let next = redirect(&self.dirs, self.global_bits, bi, lb, hi_ix, Ghost(bs));
        self.dirs = next;
        proof {
            assert forall|k: Seq<u8>| #[trigger] lo.map.dom().contains(k) <==> bs[bi as int].map.dom().contains(k)
                && slot_of(k, lo.bits) == lo.prefix by {
                lemma_side(k, l, p);
                use_key(g, bs, bi as int, k);
            }
            assert forall|k: Seq<u8>| #[trigger] hi.map.dom().contains(k) <==> bs[bi as int].map.dom().contains(k)
                && slot_of(k, hi.bits) == hi.prefix by {
                lemma_side(k, l, p);
                use_key(g, bs, bi as int, k);
            }
            lemma_split(g, dirs0, bs, bi as int, lo, hi, self.dirs@);
            assert(lo.map =~= half(bs[bi as int], false).map);
            assert(hi.map =~= half(bs[bi as int], true).map);
        }
    }
}

/// A key's next hash bit tells the half that it goes to.
proof fn lemma_side(k: Seq<u8>, l: nat, p: nat)
    requires
        l < 64,
    ensures
        slot_of(k, l) == p ==> (slot_of(k, l + 1) % 2 == 0 <==> slot_of(k, l + 1) == 2 * p),
        slot_of(k, l) == p ==> (slot_of(k, l + 1) % 2 == 1 <==> slot_of(k, l + 1) == 2 * p + 1),
{
    let h = crate::bytes::hash_of(k);
    lemma_top_bits(h, l + 1, l);
    lemma_p2_values();
    let s = slot_of(k, l + 1);
    assert(prefix_of(s, l + 1, l) == s / 2) by {
        reveal(prefix_of);
        assert((l + 1 - l) as nat == 1);
    }
}

/// The directory after bucket `bi` has been split: the slots of its upper
/// half name the new bucket `hi_ix`.
fn redirect(dirs: &Vec<u32>, g: u8, bi: usize, lb: u8, hi_ix: u32, Ghost(bs): Ghost<Seq<Info>>) -> (r: Vec<
    u32,
>)
    requires
        g <= MAX_BITS,
        slots_ok(g as nat, dirs@, bs),
        slots_back(g as nat, dirs@, bs),
        bi < bs.len(),
        bs[bi as int].bits == lb,
        lb < g,
    ensures
        r@.len() == dirs@.len(),
        forall|s: int|
            0 <= s < dirs@.len() ==> #[trigger] r@[s] == (if prefix_of(
                s as nat,
                g as nat,
                (lb + 1) as nat,
            ) == 2 * bs[bi as int].prefix + 1 {
                hi_ix
            } else {
                dirs@[s]
            }),
{
    let width: u64 = pow2_of(g - lb - 1);
    proof {
        lemma_p2_step((g - lb - 1) as nat);
    }
    let mut next: Vec<u32> = Vec::new();
    let mut s: usize = 0;
    while s < dirs.len()
        invariant
            g <= MAX_BITS,
            lb < g,
            slots_ok(g as nat, dirs@, bs),
            slots_back(g as nat, dirs@, bs),
            bi < bs.len(),
            bs[bi as int].bits == lb,
            width == p2((g - lb - 1) as nat),
            width > 0,
            s <= dirs@.len(),
            next@.len() == s,
            forall|t: int|
                0 <= t < s ==> #[trigger] next@[t] == (if prefix_of(
                    t as nat,
                    g as nat,
                    (lb + 1) as nat,
                ) == 2 * bs[bi as int].prefix + 1 {
                    hi_ix
                } else {
                    dirs@[t]
                }),
        decreases dirs@.len() - s,
    {
        let here: u64 = (s as u64) / width;
        let d: u32 = dirs[s];
        proof {
            lemma_half(g as nat, dirs@, bs, bi as int, s as int);
            assert(here == prefix_of(s as nat, g as nat, (lb + 1) as nat)) by {
                reveal(prefix_of);
                assert((g as nat - (lb + 1) as nat) as nat == (g - lb - 1) as nat);
            }
        }
        if d as usize == bi && here % 2 == 1 {
            next.push(hi_ix);
        } else {
            next.push(d);
        }
        s = s + 1;
    }
    next
}

/// A clone shares every bucket.
impl<V: Payload> Clone for SegMap<V> {
    fn clone(&self) -> (r: Self)
        ensures
            r@ == self@,
            r.wf() == self.wf(),
            r.key_order() == self.key_order(),
    {
        let mut dirs: Vec<u32> = Vec::with_capacity(self.dirs.len());
        let mut i: usize = 0;
        while i < self.dirs.len()
            invariant
                i <= self.dirs@.len(),
                dirs@ == self.dirs@.subrange(0, i as int),
            decreases self.dirs@.len() - i,
        {
            dirs.push(self.dirs[i]);
            i = i + 1;
        }
        assert(dirs@ =~= self.dirs@);
        let mut buckets: Vec<Arc<Bucket<V>>> = Vec::with_capacity(self.buckets.len());
        let mut b: usize = 0;
        while b < self.buckets.len()
            invariant
                b <= self.buckets@.len(),
                buckets@ == self.buckets@.subrange(0, b as int),
            decreases self.buckets@.len() - b,
        {
            buckets.push(share(&self.buckets[b]));
            b = b + 1;
        }
        assert(buckets@ =~= self.buckets@);
        SegMap { global_bits: self.global_bits, dirs, buckets, len: self.len.clone() }
    }
}

/// Moves the bindings of a table into two, by bit `lb` of their hashes,
/// counted from the top.
fn partition<V: Payload>(src: &mut ByteMap<V>, lb: u8) -> (r: (ByteMap<V>, ByteMap<V>))
    requires
        old(src).wf(),
        lb < 63,
    ensures
        r.0.wf(),
        r.1.wf(),
        forall|k: Seq<u8>| #[trigger]
            r.0@.dom().contains(k) <==> old(src)@.dom().contains(k) && slot_of(k, (lb + 1) as nat)
                % 2 == 0,
        forall|k: Seq<u8>| #[trigger]
            r.1@.dom().contains(k) <==> old(src)@.dom().contains(k) && slot_of(k, (lb + 1) as nat)
                % 2 == 1,
        forall|k: Seq<u8>| #[trigger] r.0@.dom().contains(k) ==> r.0@[k] == old(src)@[k],
        forall|k: Seq<u8>| #[trigger] r.1@.dom().contains(k) ==> r.1@[k] == old(src)@[k],
{
    let ghost m = src@;
    let mut keys = src.keys();
    let mut lo: ByteMap<V> = ByteMap::new();
    let mut hi: ByteMap<V> = ByteMap::new();
    proof {
        src.lemma_key_order();
        let o = src.key_order();
        assert forall|k: Seq<u8>| m.dom().contains(k) implies exists|i: int|
            0 <= i < keys@.len() && (#[trigger] keys@[i])@ == k by {
            assert(o.to_set().contains(k));
            let i = choose|i: int| 0 <= i < o.len() && o[i] == k;
            assert(crate::bytes::deep(keys@)[i] == k);
            assert(keys@[i]@ == k);
        }
        assert forall|i: int| 0 <= i < keys@.len() implies m.dom().contains(
            (#[trigger] keys@[i])@,
        ) by {
            assert(o[i] == keys@[i]@);
            assert(o.to_set().contains(o[i]));
        }
    }
    while keys.len() > 0
        invariant
            src.wf(),
            lo.wf(),
            hi.wf(),
            lb < 63,
            forall|i: int|
                0 <= i < keys@.len() ==> m.dom().contains((#[trigger] keys@[i])@),
            forall|k: Seq<u8>| #[trigger]
                src@.dom().contains(k) <==> m.dom().contains(k) && !lo@.dom().contains(k)
                    && !hi@.dom().contains(k),
            forall|k: Seq<u8>| #[trigger] src@.dom().contains(k) ==> src@[k] == m[k],
            forall|k: Seq<u8>| #[trigger]
                lo@.dom().contains(k) ==> m.dom().contains(k) && lo@[k] == m[k] && slot_of(
                    k,
                    (lb + 1) as nat,
                ) % 2 == 0,
            forall|k: Seq<u8>| #[trigger]
                hi@.dom().contains(k) ==> m.dom().contains(k) && hi@[k] == m[k] && slot_of(
                    k,
                    (lb + 1) as nat,
                ) % 2 == 1,
            forall|k: Seq<u8>| #[trigger]
                src@.dom().contains(k) ==> exists|i: int|
                    0 <= i < keys@.len() && (#[trigger] keys@[i])@ == k,
        decreases keys@.len(),
    {
        let ghost ks = keys@;
        let ghost src0 = src@;
        match keys.pop() {
            None => {},
            Some(k) => {
                let ghost kk = k@;
                assert(ks[ks.len() - 1]@ == kk);
                match src.remove(k.as_slice()) {
                    None => {},
                    Some(v) => {
                        let bits: u64 = top_bits_of(hash_bytes(k.as_slice()), lb + 1);
                        if bits % 2 == 0 {
                            let _o = lo.insert(k, v);
                        } else {
                            let _o = hi.insert(k, v);
                        }
                    },
                }
                proof {
                    assert forall|x: Seq<u8>| #[trigger] src@.dom().contains(x) implies exists|
                        i: int,
                    |
                        0 <= i < keys@.len() && (#[trigger] keys@[i])@ == x by {
                        assert(src0.dom().contains(x));
                        assert(x != kk);
                        let i = choose|i: int| 0 <= i < ks.len() && (#[trigger] ks[i])@ == x;
                        assert(keys@[i]@ == x);
                    }
                }
            },
        }
    }
    proof {
        assert forall|k: Seq<u8>| m.dom().contains(k) implies lo@.dom().contains(k)
            || hi@.dom().contains(k) by {
            assert(!src@.dom().contains(k));
        }
    }
    (lo, hi)
}

} // verus!
