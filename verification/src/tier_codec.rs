//! How a value is written down when it moves out of memory.
//!
//! A string is its bytes. A hash is the number of its fields, then for each
//! field the field and its value, each behind its length; numbers are four
//! bytes, least significant first.
use vstd::prelude::*;
use std::sync::Arc;
use crate::bytes::{copy_bytes, copy_part};
use crate::cold::ColdKind;
use crate::le::{push_le, read_le};
use crate::value::{Val, Value};
use crate::value_hash::flat_of;

verus! {

/// Why a record does not tell a hash.
#[derive(Clone, Copy, Debug, PartialEq, Eq, Structural)]
pub enum CodecError {
    /// The record ends within a length.
    TruncatedLength,
    /// The record ends within a field or a value.
    TruncatedChunk,
    /// The record goes on behind the last value.
    TrailingBytes,
}

impl CodecError {
    /// The error in words.
    pub fn message(self) -> (r: &'static str)
        ensures
            r@ == codec_message(self),
    {
        match self {
            CodecError::TruncatedLength => "tier: truncated length",
            CodecError::TruncatedChunk => "tier: truncated chunk",
            CodecError::TrailingBytes => "tier: hash payload has trailing bytes",
        }
    }
}

/// The error in words.
pub open spec fn codec_message(e: CodecError) -> Seq<char> {
    match e {
        CodecError::TruncatedLength => "tier: truncated length"@,
        CodecError::TruncatedChunk => "tier: truncated chunk"@,
        CodecError::TrailingBytes => "tier: hash payload has trailing bytes"@,
    }
}

/// A byte string behind its length.
pub open spec fn chunk(b: Seq<u8>) -> Seq<u8> {
    crate::le::le_bytes(b.len(), 4) + b
}

/// Pairs, each half behind its length.
pub open spec fn written(ps: Seq<(Seq<u8>, Seq<u8>)>) -> Seq<u8>
    decreases ps.len(),
{
    if ps.len() == 0 {
        Seq::empty()
    } else {
        written(ps.drop_last()) + chunk(ps.last().0) + chunk(ps.last().1)
    }
}

/// The record of a hash with these pairs.
pub open spec fn hash_record(ps: Seq<(Seq<u8>, Seq<u8>)>) -> Seq<u8> {
    crate::le::le_bytes(ps.len(), 4) + written(ps)
}

/// Whether a length fits in four bytes.
pub open spec fn short(n: nat) -> bool {
    n < 0x1_0000_0000
}

/// Whether the lengths of some pairs, and their number, fit in four bytes.
pub open spec fn tellable(ps: Seq<(Seq<u8>, Seq<u8>)>) -> bool {
    short(ps.len()) && forall|i: int|
        0 <= i < ps.len() ==> short((#[trigger] ps[i]).0.len()) && short(ps[i].1.len())
}

/// Whether values in this encoding ever move out of memory.
pub open spec fn spillable(v: Value) -> bool {
    v is ArcBulk || v is Hash || v is SmallHashInline
}

/// The record of a value, with what the value is.
pub open spec fn encoded(v: Value) -> Option<(Seq<u8>, ColdKind)> {
    match v {
        Value::ArcBulk(a) => Some((a@, ColdKind::Str)),
        Value::Hash(_) | Value::SmallHashInline(_) => if tellable(v.listing()) {
            Some((hash_record(v.listing()), ColdKind::Hash))
        } else {
            None
        },
        _ => None,
    }
}

/// The four-byte number at a place of a record.
pub open spec fn word_at(p: Seq<u8>, at: int) -> Option<nat> {
    if 0 <= at && at + 4 <= p.len() {
        Some(crate::le::le_value(p.subrange(at, at + 4)))
    } else {
        None
    }
}

/// The byte string at a place of a record, and where it ends.
pub open spec fn chunk_at(p: Seq<u8>, at: int) -> Result<(Seq<u8>, int), CodecError> {
    match word_at(p, at) {
        None => Err(CodecError::TruncatedLength),
        Some(n) => if at + 4 + n <= p.len() {
            Ok((p.subrange(at + 4, at + 4 + n), at + 4 + n))
        } else {
            Err(CodecError::TruncatedChunk)
        },
    }
}

/// The first `n` pairs from a place of a record on, and where they end.
pub open spec fn pairs_at(p: Seq<u8>, at: int, n: nat) -> Result<
    (Seq<(Seq<u8>, Seq<u8>)>, int),
    CodecError,
>
    decreases n,
{
    if n == 0 {
        Ok((Seq::empty(), at))
    } else {
        match pairs_at(p, at, (n - 1) as nat) {
            Err(e) => Err(e),
            Ok((ps, c)) => match chunk_at(p, c) {
                Err(e) => Err(e),
                Ok((f, d)) => match chunk_at(p, d) {
                    Err(e) => Err(e),
                    Ok((v, end)) => Ok((ps.push((f, v)), end)),
                },
            },
        }
    }
}

/// The pairs that a record tells.
pub open spec fn parsed(p: Seq<u8>) -> Result<Seq<(Seq<u8>, Seq<u8>)>, CodecError> {
    match word_at(p, 0) {
        None => Err(CodecError::TruncatedLength),
        Some(n) => match pairs_at(p, 4, n) {
            Err(e) => Err(e),
            Ok((ps, end)) => if end == p.len() {
                Ok(ps)
            } else {
                Err(CodecError::TrailingBytes)
            },
        },
    }
}

/// The value that a record tells.
pub open spec fn decoded(kind: ColdKind, p: Seq<u8>) -> Result<Val, CodecError> {
    match kind {
        ColdKind::Str => Ok(Val::Str(p)),
        ColdKind::Hash => match parsed(p) {
            Ok(ps) => Ok(Val::Hash(crate::value_hash::folded(ps))),
            Err(e) => Err(e),
        },
    }
}

fn put_chunk(out: &mut Vec<u8>, b: &[u8])
    requires
        short(b@.len()),
    ensures
        final(out)@ == old(out)@ + chunk(b@),
{
    let ghost start = out@;
    push_le(out, b.len() as u64, 4);
    out.extend_from_slice(b);
    assert(out@ =~= start + chunk(b@));
}

/// The record of some pairs, if their lengths fit.
fn encode_pairs(pairs: &Vec<(Vec<u8>, Vec<u8>)>) -> (r: Option<Vec<u8>>)
    ensures
        match r {
            Some(out) => tellable(crate::bytes::deep_pairs(pairs@)) && out@ == hash_record(
                crate::bytes::deep_pairs(pairs@),
            ),
            None => !tellable(crate::bytes::deep_pairs(pairs@)),
        },
{
    let ghost ps = crate::bytes::deep_pairs(pairs@);
    let n: usize = pairs.len();
    if n as u64 >= 0x1_0000_0000u64 {
        return None;
    }
    let mut out: Vec<u8> = Vec::new();
    push_le(&mut out, n as u64, 4);
    let ghost head = out@;
    let mut i: usize = 0;
    proof {
        assert(ps.take(0) =~= Seq::empty());
        assert(head =~= crate::le::le_bytes(ps.len(), 4));
        assert(head + written(ps.take(0)) =~= head);
    }
    while i < n
        invariant
            n == pairs@.len() == ps.len(),
            ps == crate::bytes::deep_pairs(pairs@),
            i <= n,
            out@ == head + written(ps.take(i as int)),
            forall|j: int| 0 <= j < i ==> short((#[trigger] ps[j]).0.len()) && short(ps[j].1.len()),
        decreases n - i,
    {
        let f = pairs[i].0.as_slice();
        let v = pairs[i].1.as_slice();
        assert(ps[i as int] == (f@, v@));
        if f.len() as u64 >= 0x1_0000_0000u64 || v.len() as u64 >= 0x1_0000_0000u64 {
            return None;
        }
        let ghost before = out@;
        put_chunk(&mut out, f);
        put_chunk(&mut out, v);
        proof {
            assert(ps.take(i + 1).drop_last() =~= ps.take(i as int));
            assert(ps.take(i + 1).last() == ps[i as int]);
            assert(out@ =~= head + written(ps.take(i + 1)));
        }
        i = i + 1;
    }
    assert(ps.take(ps.len() as int) =~= ps);
    Some(out)
}

/// The record of a value, with what the value is; `None` for values that
/// never move out of memory and for hashes with a field, a value or a number
/// of fields past what four bytes tell.
pub fn encode(v: &Value) -> (r: Option<(Vec<u8>, ColdKind)>)
    requires
        v.wf(),
    ensures
        match r {
            Some((p, kind)) => encoded(*v) == Some((p@, kind)),
            None => encoded(*v) is None,
        },
{
    match v {
        Value::ArcBulk(a) => Some((copy_bytes(a.as_slice()), ColdKind::Str)),
        Value::Hash(_) | Value::SmallHashInline(_) => {
            let pairs = v.hash_pairs();
            match encode_pairs(&pairs) {
                Some(out) => Some((out, ColdKind::Hash)),
                None => None,
            }
        },
        _ => None,
    }
}

fn read_chunk(p: &[u8], at: usize) -> (r: Result<(Vec<u8>, usize), CodecError>)
    requires
        at <= p@.len(),
    ensures
        match r {
            Ok((b, end)) => chunk_at(p@, at as int) == Ok::<(Seq<u8>, int), CodecError>(
                (b@, end as int),
            ) && end <= p@.len(),
            Err(e) => chunk_at(p@, at as int) == Err::<(Seq<u8>, int), CodecError>(e),
        },
{
    if p.len() - at < 4 {
        return Err(CodecError::TruncatedLength);
    }
    let n: u64 = read_le(p, at, 4);
    let from: usize = at + 4;
    if n > (p.len() - from) as u64 {
        return Err(CodecError::TruncatedChunk);
    }
    let end: usize = from + n as usize;
    let b = copy_part(p, from, end);
    Ok((b, end))
}

/// Once a record is found broken, reading on does not mend it.
proof fn lemma_broken(p: Seq<u8>, at: int, m: nat, n: nat)
    requires
        m <= n,
        pairs_at(p, at, m) is Err,
    ensures
        pairs_at(p, at, n) == pairs_at(p, at, m),
    decreases n,
{
    if m < n {
        lemma_broken(p, at, m, (n - 1) as nat);
    }
}

/// The hash that a record tells.
fn decode_hash(p: &[u8]) -> (r: Result<Value, CodecError>)
    ensures
        match r {
            Ok(v) => v.wf() && v is Hash && parsed(p@) is Ok && v@ == Val::Hash(
                crate::value_hash::folded(parsed(p@)->Ok_0),
            ),
            Err(e) => parsed(p@) == Err::<Seq<(Seq<u8>, Seq<u8>)>, CodecError>(e),
        },
{
    if p.len() < 4 {
        return Err(CodecError::TruncatedLength);
    }
    let n: u64 = read_le(p, 0, 4);
    let mut pairs: Vec<(Vec<u8>, Vec<u8>)> = Vec::new();
    let mut at: usize = 4;
    let mut i: u64 = 0;
    assert(crate::bytes::deep_pairs(pairs@) =~= Seq::empty());
    while i < n
        invariant
            p@.len() >= 4,
            word_at(p@, 0) == Some(n as nat),
            i <= n,
            at <= p@.len(),
            pairs_at(p@, 4, i as nat) == Ok::<(Seq<(Seq<u8>, Seq<u8>)>, int), CodecError>(
                (crate::bytes::deep_pairs(pairs@), at as int),
            ),
        decreases n - i,
    {
        let ghost ps = crate::bytes::deep_pairs(pairs@);
        match read_chunk(p, at) {
            Err(e) => {
                proof {
                    assert(pairs_at(p@, 4, (i + 1) as nat) is Err);
                    lemma_broken(p@, 4, (i + 1) as nat, n as nat);
                }
                return Err(e);
            },
            Ok((f, mid)) => match read_chunk(p, mid) {
                Err(e) => {
                    proof {
                        assert(pairs_at(p@, 4, (i + 1) as nat) is Err);
                        lemma_broken(p@, 4, (i + 1) as nat, n as nat);
                    }
                    return Err(e);
                },
                Ok((v, end)) => {
                    let ghost pair = (f@, v@);
                    pairs.push((f, v));
                    at = end;
                    assert(crate::bytes::deep_pairs(pairs@) =~= ps.push(pair));
                },
            },
        }
        i = i + 1;
    }
    if at != p.len() {
        return Err(CodecError::TrailingBytes);
    }
    Ok(Value::Hash(Arc::new(flat_of(&pairs))))
}

/// The value that a record tells. A string gets the encoding that suits its
/// bytes.
pub fn decode(kind: ColdKind, payload: Vec<u8>) -> (r: Result<Value, CodecError>)
    ensures
        match r {
            Ok(v) => v.wf() && decoded(kind, payload@) == Ok::<Val, CodecError>(v@) && (kind is Str
                ==> crate::value::suits(payload@, v)) && (kind is Hash ==> v is Hash),
            Err(e) => decoded(kind, payload@) == Err::<Val, CodecError>(e),
        },
{
    match kind {
        ColdKind::Str => Ok(Value::pick(payload)),
        ColdKind::Hash => decode_hash(payload.as_slice()),
    }
}

proof fn lemma_chunk_at(p: Seq<u8>, at: int, b: Seq<u8>)
    requires
        short(b.len()),
        0 <= at,
        at + chunk(b).len() <= p.len(),
        p.subrange(at, at + chunk(b).len()) == chunk(b),
    ensures
        chunk(b).len() == 4 + b.len(),
        chunk_at(p, at) == Ok::<(Seq<u8>, int), CodecError>((b, at + 4 + b.len())),
{
    crate::le::lemma_pow256();
    crate::le::lemma_le_roundtrip(b.len(), 4);
    let c = chunk(b);
    assert(p.subrange(at, at + 4) =~= c.subrange(0, 4));
    assert(c.subrange(0, 4) =~= crate::le::le_bytes(b.len(), 4));
    assert(p.subrange(at + 4, at + 4 + b.len()) =~= c.subrange(4, c.len() as int));
    assert(c.subrange(4, c.len() as int) =~= b);
}

proof fn lemma_written_prefix(ps: Seq<(Seq<u8>, Seq<u8>)>, i: int)
    requires
        0 <= i <= ps.len(),
    ensures
        written(ps.take(i)).len() <= written(ps).len(),
        written(ps).subrange(0, written(ps.take(i)).len() as int) == written(ps.take(i)),
    decreases ps.len(),
{
    if i == ps.len() {
        assert(ps.take(i) =~= ps);
        assert(written(ps).subrange(0, written(ps).len() as int) =~= written(ps));
    } else {
        let d = ps.drop_last();
        lemma_written_prefix(d, i);
        assert(d.take(i) =~= ps.take(i));
        let n = written(ps.take(i)).len() as int;
        assert(written(ps).subrange(0, n) =~= written(d).subrange(0, n));
    }
}

proof fn lemma_two_parts(p: Seq<u8>, before: Seq<u8>, a: Seq<u8>, b: Seq<u8>)
    requires
        4 + before.len() + a.len() + b.len() <= p.len(),
        p.subrange(4, (4 + before.len() + a.len() + b.len()) as int) == before + a + b,
    ensures
        ({
            let at = 4 + before.len() as int;
            let mid = at + a.len();
            &&& p.subrange(at, mid) == a
            &&& p.subrange(mid, mid + b.len()) == b
        }),
{
    let at = 4 + before.len() as int;
    let mid = at + a.len();
    let end = mid + b.len();
    let all = p.subrange(4, end);
    assert forall|k: int| at <= k < mid implies p[k] == a[k - at] by {
        assert(all[k - 4] == (before + a + b)[k - 4]);
    }
    assert forall|k: int| mid <= k < end implies p[k] == b[k - mid] by {
        assert(all[k - 4] == (before + a + b)[k - 4]);
    }
    assert(p.subrange(at, mid) =~= a);
    assert(p.subrange(mid, end) =~= b);
}

#[verifier::rlimit(30)]
proof fn lemma_pairs_at(ps: Seq<(Seq<u8>, Seq<u8>)>, i: int)
    requires
        tellable(ps),
        0 <= i <= ps.len(),
    ensures
        pairs_at(hash_record(ps), 4, i as nat) == Ok::<
            (Seq<(Seq<u8>, Seq<u8>)>, int),
            CodecError,
        >((ps.take(i), 4 + written(ps.take(i)).len() as int)),
    decreases i,
{
    let p = hash_record(ps);
    crate::le::lemma_le_len(ps.len(), 4);
    if i == 0 {
        assert(ps.take(0) =~= Seq::empty());
    } else {
        lemma_pairs_at(ps, i - 1);
        let before = written(ps.take(i - 1));
        let upto = written(ps.take(i));
        let f = ps[i - 1].0;
        let v = ps[i - 1].1;
        assert(ps.take(i).drop_last() =~= ps.take(i - 1));
        assert(ps.take(i).last() == ps[i - 1]);
        assert(upto == before + chunk(f) + chunk(v));
        lemma_written_prefix(ps, i);
        let at = 4 + before.len() as int;
        let mid = at + chunk(f).len();
        let end = mid + chunk(v).len();
        assert(end == 4 + upto.len());
        assert(p.subrange(4, end) =~= upto) by {
            assert(p.subrange(4, end) =~= written(ps).subrange(0, upto.len() as int));
        }
        lemma_two_parts(p, before, chunk(f), chunk(v));
        lemma_chunk_at(p, at, f);
        lemma_chunk_at(p, mid, v);
        assert(ps.take(i - 1).push((f, v)) =~= ps.take(i));
    }
}

/// A value that moves out of memory comes back as it was.
pub proof fn lemma_round_trip(v: Value)
    requires
        v.wf(),
        encoded(v) is Some,
    ensures
        decoded(encoded(v)->Some_0.1, encoded(v)->Some_0.0) == Ok::<Val, CodecError>(v@),
{
    if !(v is ArcBulk) {
        let ps = v.listing();
        v.lemma_listed();
        lemma_pairs_at(ps, ps.len() as int);
        assert(ps.take(ps.len() as int) =~= ps);
        crate::le::lemma_pow256();
        crate::le::lemma_le_roundtrip(ps.len(), 4);
        let p = hash_record(ps);
        assert(p.subrange(0, 4) =~= crate::le::le_bytes(ps.len(), 4));
        crate::value_hash::lemma_folded(ps);
    }
}

} // verus!
