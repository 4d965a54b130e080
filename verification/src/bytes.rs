//! Byte strings: equality, copies, ordering and the hash that places a key
//! in a table.
use vstd::prelude::*;

verus! {

/// Longest byte string that is stored inline, without a heap allocation.
pub const INLINE_MAX: usize = 22;

/// Heap bytes that a byte string of `len` bytes costs.
pub open spec fn heap_bytes_spec(len: nat) -> nat {
    if len <= INLINE_MAX {
        0
    } else {
        len
    }
}

/// Heap bytes that a byte string of `len` bytes costs.
pub fn heap_bytes(len: usize) -> (r: u64)
    ensures
        r == heap_bytes_spec(len as nat),
{
    if len <= INLINE_MAX {
        0
    } else {
        len as u64
    }
}

/// Whether two byte strings hold the same bytes.
pub fn bytes_eq(a: &[u8], b: &[u8]) -> (r: bool)
    ensures
        r == (a@ == b@),
{
    if a.len() != b.len() {
        return false;
    }
    let mut i: usize = 0;
    while i < a.len()
        invariant
            a@.len() == b@.len(),
            i <= a@.len(),
            forall|j: int| 0 <= j < i ==> a@[j] == b@[j],
        decreases a@.len() - i,
    {
        if a[i] != b[i] {
            return false;
        }
        i = i + 1;
    }
    assert(a@ =~= b@);
    true
}

/// A fresh copy of a byte string.
pub fn copy_bytes(a: &[u8]) -> (r: Vec<u8>)
    ensures
        r@ == a@,
{
    vstd::slice::slice_to_vec(a)
}

/// A copy of the bytes from `from` up to `to`.
pub fn copy_part(a: &[u8], from: usize, to: usize) -> (r: Vec<u8>)
    requires
        from <= to <= a@.len(),
    ensures
        r@ == a@.subrange(from as int, to as int),
{
    let mut r: Vec<u8> = Vec::new();
    let mut i: usize = from;
    while i < to
        invariant
            from <= i <= to <= a@.len(),
            r@ == a@.subrange(from as int, i as int),
        decreases to - i,
    {
        r.push(a[i]);
        assert(r@ =~= a@.subrange(from as int, i + 1));
        i = i + 1;
    }
    r
}

/// The byte strings that a sequence of owned byte strings holds.
pub open spec fn deep(v: Seq<Vec<u8>>) -> Seq<Seq<u8>> {
    Seq::new(v.len(), |i: int| v[i]@)
}

/// The pairs of byte strings that a sequence of owned pairs holds.
pub open spec fn deep_pairs(v: Seq<(Vec<u8>, Vec<u8>)>) -> Seq<(Seq<u8>, Seq<u8>)> {
    Seq::new(v.len(), |i: int| (v[i].0@, v[i].1@))
}

/// The first halves of pairs.
pub open spec fn firsts(ps: Seq<(Seq<u8>, Seq<u8>)>) -> Seq<Seq<u8>> {
    Seq::new(ps.len(), |i: int| ps[i].0)
}

/// The second halves of pairs.
pub open spec fn seconds(ps: Seq<(Seq<u8>, Seq<u8>)>) -> Seq<Seq<u8>> {
    Seq::new(ps.len(), |i: int| ps[i].1)
}

/// A clone of a byte string holds the same bytes.
pub proof fn lemma_cloned_bytes(a: Vec<u8>, b: Vec<u8>)
    requires
        cloned(a, b),
    ensures
        a@ == b@,
{
    assert forall|i: int| 0 <= i < a@.len() implies a@[i] == b@[i] by {
        assert(cloned(a[i], b[i]));
    }
    assert(a@ =~= b@);
}

/// One step of the key hash.
pub open spec fn hash_step(h: u64, b: u8) -> u64 {
    (h ^ (b as u64)).wrapping_mul(0x0000_0100_0000_01b3u64)
}

/// The key hash before its final mix, over the first bytes of `s`.
pub open spec fn hash_fold(s: Seq<u8>) -> u64
    decreases s.len(),
{
    if s.len() == 0 {
        0xcbf2_9ce4_8422_2325u64
    } else {
        hash_step(hash_fold(s.drop_last()), s.last())
    }
}

/// Spreads every bit of `h` over the whole word.
pub open spec fn avalanche_spec(h: u64) -> u64 {
    let a = (h ^ (h >> 33)).wrapping_mul(0xff51_afd7_ed55_8ccdu64);
    let b = (a ^ (a >> 33)).wrapping_mul(0xc4ce_b9fe_1a85_ec53u64);
    b ^ (b >> 33)
}

/// The hash of a byte string.
pub open spec fn hash_of(s: Seq<u8>) -> u64 {
    avalanche_spec(hash_fold(s))
}

/// The hash of a byte string.
pub fn hash_bytes(s: &[u8]) -> (r: u64)
    ensures
        r == hash_of(s@),
{
    let mut h: u64 = 0xcbf2_9ce4_8422_2325u64;
    let mut i: usize = 0;
    while i < s.len()
        invariant
            i <= s@.len(),
            h == hash_fold(s@.subrange(0, i as int)),
        decreases s@.len() - i,
    {
        proof {
            assert(s@.subrange(0, i + 1).drop_last() =~= s@.subrange(0, i as int));
        }
        h = (h ^ (s[i] as u64)).wrapping_mul(0x0000_0100_0000_01b3u64);
        i = i + 1;
    }
    assert(s@.subrange(0, s@.len() as int) =~= s@);
    let a: u64 = (h ^ (h >> 33)).wrapping_mul(0xff51_afd7_ed55_8ccdu64);
    let b: u64 = (a ^ (a >> 33)).wrapping_mul(0xc4ce_b9fe_1a85_ec53u64);
    b ^ (b >> 33)
}

/// Where a byte string comes in the order in which tables are walked: its
/// hash with the halves swapped.
pub open spec fn rank_of(s: Seq<u8>) -> u64 {
    ((hash_of(s) % 0x1_0000_0000u64) * 0x1_0000_0000 + hash_of(s) / 0x1_0000_0000u64) as u64
}

/// Where a byte string comes in the order in which tables are walked.
pub fn rank_bytes(s: &[u8]) -> (r: u64)
    ensures
        r == rank_of(s@),
{
    let h: u64 = hash_bytes(s);
    (h % 0x1_0000_0000u64) * 0x1_0000_0000u64 + h / 0x1_0000_0000u64
}

} // verus!
