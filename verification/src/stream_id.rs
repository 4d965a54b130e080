//! Stream entry ids: `<ms>-<seq>`, ordered by `ms` and then by `seq`.
use vstd::prelude::*;
use crate::text::{parse_u64, push_digits};

verus! {

/// The id of a stream entry.
#[derive(Clone, Copy, Debug, PartialEq, Eq, PartialOrd, Ord, Hash, Default, Structural)]
pub struct StreamId {
    /// Unix milliseconds.
    pub ms: u64,
    /// Sequence number within the millisecond, from 0.
    pub seq: u64,
}

/// What the id argument of an append asks for.
#[derive(Clone, Copy, Debug, PartialEq, Eq, Structural)]
pub enum XAddIdSpec {
    /// `*`: both parts are picked.
    AutoAll,
    /// `<ms>-*`: the sequence number is picked.
    AutoSeq(u64),
    /// `<ms>-<seq>`: the caller gives the id.
    Explicit(StreamId),
}

/// Why an id does not parse.
#[derive(Clone, Copy, Debug, PartialEq, Eq, Structural)]
pub enum StreamIdError {
    /// The text is no id.
    Invalid,
}

/// Whether `a` comes before `b`.
pub open spec fn id_lt(a: StreamId, b: StreamId) -> bool {
    a.ms < b.ms || (a.ms == b.ms && a.seq < b.seq)
}

/// Whether `a` is `b` or comes before it.
pub open spec fn id_le(a: StreamId, b: StreamId) -> bool {
    a == b || id_lt(a, b)
}

/// The later of two ids.
pub open spec fn id_max(a: StreamId, b: StreamId) -> StreamId {
    if id_lt(a, b) {
        b
    } else {
        a
    }
}

/// The first id.
pub open spec fn min_id() -> StreamId {
    StreamId { ms: 0, seq: 0 }
}

/// The last id.
pub open spec fn max_id() -> StreamId {
    StreamId { ms: u64::MAX, seq: u64::MAX }
}

/// The id right behind `a`; the last id stays where it is.
pub open spec fn next_id(a: StreamId) -> StreamId {
    if a.seq < u64::MAX {
        StreamId { ms: a.ms, seq: (a.seq + 1) as u64 }
    } else if a.ms < u64::MAX {
        StreamId { ms: (a.ms + 1) as u64, seq: 0 }
    } else {
        a
    }
}

/// The text of an id.
pub open spec fn id_text(a: StreamId) -> Seq<u8> {
    crate::text::digits(a.ms as nat) + seq![45u8] + crate::text::digits(a.seq as nat)
}

/// Ids are totally ordered.
pub proof fn lemma_id_order(a: StreamId, b: StreamId, c: StreamId)
    ensures
        id_lt(a, b) || a == b || id_lt(b, a),
        !(id_lt(a, b) && id_lt(b, a)),
        !id_lt(a, a),
        id_lt(a, b) && id_lt(b, c) ==> id_lt(a, c),
        id_le(min_id(), a),
        id_le(a, max_id()),
{
}

/// There is no id between one and the next.
pub proof fn lemma_next_id(a: StreamId, b: StreamId)
    ensures
        a != max_id() ==> id_lt(a, next_id(a)),
        a != max_id() ==> (id_lt(a, b) <==> id_le(next_id(a), b)),
        a == max_id() ==> next_id(a) == a && !id_lt(a, b),
{
}

/// Whether `a` comes before `b`.
pub fn id_before(a: StreamId, b: StreamId) -> (r: bool)
    ensures
        r == id_lt(a, b),
{
    a.ms < b.ms || (a.ms == b.ms && a.seq < b.seq)
}

/// Whether two ids are the same.
pub fn id_same(a: StreamId, b: StreamId) -> (r: bool)
    ensures
        r == (a == b),
{
    a.ms == b.ms && a.seq == b.seq
}

impl StreamId {
    /// The first id.
    pub fn min() -> (r: StreamId)
        ensures
            r == min_id(),
    {
        StreamId { ms: 0, seq: 0 }
    }

    /// The last id.
    pub fn max() -> (r: StreamId)
        ensures
            r == max_id(),
    {
        StreamId { ms: u64::MAX, seq: u64::MAX }
    }

    /// The id as `<ms>-<seq>`.
    pub fn encode(self) -> (r: Vec<u8>)
        ensures
            r@ == id_text(self),
    {
        let mut out: Vec<u8> = Vec::new();
        push_digits(&mut out, self.ms);
        out.push(45);
        push_digits(&mut out, self.seq);
        assert(out@ =~= id_text(self));
        out
    }

    /// The id right behind this one; the last id stays where it is.
    pub fn next(self) -> (r: StreamId)
        ensures
            r == next_id(self),
    {
        if self.seq < u64::MAX {
            StreamId { ms: self.ms, seq: self.seq + 1 }
        } else if self.ms < u64::MAX {
            StreamId { ms: self.ms + 1, seq: 0 }
        } else {
            self
        }
    }
}

/// The place of the first dash.
pub open spec fn dash_at(s: Seq<u8>, i: int) -> bool {
    0 <= i < s.len() && s[i] == 45 && forall|j: int| 0 <= j < i ==> s[j] != 45
}

/// Whether there is a dash.
pub open spec fn has_dash(s: Seq<u8>) -> bool {
    exists|i: int| dash_at(s, i)
}

/// The place of the first dash.
pub open spec fn dash_index(s: Seq<u8>) -> int {
    choose|i: int| dash_at(s, i)
}

/// The text before the first dash, or all of it.
pub open spec fn ms_part(s: Seq<u8>) -> Seq<u8> {
    if has_dash(s) {
        s.subrange(0, dash_index(s))
    } else {
        s
    }
}

/// The text behind the first dash.
pub open spec fn seq_part(s: Seq<u8>) -> Seq<u8> {
    s.subrange(dash_index(s) + 1, s.len() as int)
}

/// What an id text stands for; `bare` is the sequence number when it gives
/// none.
pub open spec fn explicit_spec(s: Seq<u8>, bare: u64) -> Option<StreamId> {
    match crate::text::parse_u64_spec(ms_part(s)) {
        None => None,
        Some(ms) => if !has_dash(s) {
            Some(StreamId { ms, seq: bare })
        } else {
            match crate::text::parse_u64_spec(seq_part(s)) {
                None => None,
                Some(seq) => Some(StreamId { ms, seq }),
            }
        },
    }
}

/// What an append's id argument stands for.
pub open spec fn xadd_spec(s: Seq<u8>) -> Option<XAddIdSpec> {
    if s == seq![42u8] {
        Some(XAddIdSpec::AutoAll)
    } else {
        match crate::text::parse_u64_spec(ms_part(s)) {
            None => None,
            Some(ms) => if !has_dash(s) {
                Some(XAddIdSpec::Explicit(StreamId { ms, seq: 0 }))
            } else if seq_part(s) == seq![42u8] {
                Some(XAddIdSpec::AutoSeq(ms))
            } else {
                match crate::text::parse_u64_spec(seq_part(s)) {
                    None => None,
                    Some(seq) => Some(XAddIdSpec::Explicit(StreamId { ms, seq })),
                }
            },
        }
    }
}

proof fn lemma_dash(s: Seq<u8>, i: int)
    requires
        dash_at(s, i),
    ensures
        has_dash(s),
        dash_index(s) == i,
{
    let j = dash_index(s);
    assert(dash_at(s, j));
    if i < j {
        assert(s[i] != 45);
    } else if j < i {
        assert(s[j] != 45);
    }
}

fn find_dash(s: &[u8]) -> (r: Option<usize>)
    ensures
        match r {
            Some(i) => has_dash(s@) && i == dash_index(s@) && i < s@.len(),
            None => !has_dash(s@),
        },
{
    let mut i: usize = 0;
    while i < s.len()
        invariant
            i <= s@.len(),
            forall|j: int| 0 <= j < i ==> s@[j] != 45,
        decreases s@.len() - i,
    {
        if s[i] == 45 {
            proof {
                lemma_dash(s@, i as int);
            }
            return Some(i);
        }
        i = i + 1;
    }
    None
}

fn is_byte(s: &[u8], b: u8) -> (r: bool)
    ensures
        r == (s@ == seq![b]),
{
    let r: bool = s.len() == 1 && s[0] == b;
    proof {
        if r {
            assert(s@ =~= seq![b]);
        }
    }
    r
}

/// Parses an append's id argument: `*`, `ms`, `ms-*` or `ms-seq`.
pub fn parse_xadd_id(s: &[u8]) -> (r: Result<XAddIdSpec, StreamIdError>)
    ensures
        r == (match xadd_spec(s@) {
            Some(x) => Ok(x),
            None => Err(StreamIdError::Invalid),
        }),
{
    if is_byte(s, 42) {
        return Ok(XAddIdSpec::AutoAll);
    }
    match find_dash(s) {
        None => match parse_u64(s) {
            None => Err(StreamIdError::Invalid),
            Some(ms) => Ok(XAddIdSpec::Explicit(StreamId { ms, seq: 0 })),
        },
        Some(i) => {
            let n: usize = s.len();
            let head = vstd::slice::slice_subrange(s, 0, i);
            let tail = vstd::slice::slice_subrange(s, i + 1, n);
            match parse_u64(head) {
                None => Err(StreamIdError::Invalid),
                Some(ms) => if is_byte(tail, 42) {
                    Ok(XAddIdSpec::AutoSeq(ms))
                } else {
                    match parse_u64(tail) {
                        None => Err(StreamIdError::Invalid),
                        Some(seq) => Ok(XAddIdSpec::Explicit(StreamId { ms, seq })),
                    }
                },
            }
        },
    }
}

/// Parses an id: `ms` or `ms-seq`. Without a sequence number it is the
/// first of its millisecond, or the last with `end`.
pub fn parse_explicit_id(s: &[u8], end: bool) -> (r: Result<StreamId, StreamIdError>)
    ensures
        r == (match explicit_spec(
            s@,
            if end {
                u64::MAX
            } else {
                0
            },
        ) {
            Some(x) => Ok(x),
            None => Err(StreamIdError::Invalid),
        }),
{
    match find_dash(s) {
        None => match parse_u64(s) {
            None => Err(StreamIdError::Invalid),
            Some(ms) => Ok(
                StreamId {
                    ms,
                    seq: if end {
                        u64::MAX
                    } else {
                        0
                    },
                },
            ),
        },
        Some(i) => {
            let n: usize = s.len();
            let head = vstd::slice::slice_subrange(s, 0, i);
            let tail = vstd::slice::slice_subrange(s, i + 1, n);
            match parse_u64(head) {
                None => Err(StreamIdError::Invalid),
                Some(ms) => match parse_u64(tail) {
                    None => Err(StreamIdError::Invalid),
                    Some(seq) => Ok(StreamId { ms, seq }),
                },
            }
        },
    }
}

/// Parses the start of a range: `-` is the first id.
pub fn parse_range_start(s: &[u8]) -> (r: Result<StreamId, StreamIdError>)
    ensures
        s@ == seq![45u8] ==> r == Ok::<StreamId, StreamIdError>(min_id()),
        s@ != seq![45u8] ==> r == (match explicit_spec(s@, 0) {
            Some(x) => Ok(x),
            None => Err(StreamIdError::Invalid),
        }),
{
    if is_byte(s, 45) {
        return Ok(StreamId::min());
    }
    parse_explicit_id(s, false)
}

/// Parses the end of a range: `+` is the last id.
pub fn parse_range_end(s: &[u8]) -> (r: Result<StreamId, StreamIdError>)
    ensures
        s@ == seq![43u8] ==> r == Ok::<StreamId, StreamIdError>(max_id()),
        s@ != seq![43u8] ==> r == (match explicit_spec(s@, u64::MAX) {
            Some(x) => Ok(x),
            None => Err(StreamIdError::Invalid),
        }),
{
    if is_byte(s, 43) {
        return Ok(StreamId::max());
    }
    parse_explicit_id(s, true)
}

/// An encoded id parses back as itself, wherever an id is parsed.
pub proof fn lemma_id_roundtrip(a: StreamId, bare: u64)
    ensures
        explicit_spec(id_text(a), bare) == Some(a),
        xadd_spec(id_text(a)) == Some(XAddIdSpec::Explicit(a)),
{
    let s = id_text(a);
    let d = crate::text::digits(a.ms as nat);
    let e = crate::text::digits(a.seq as nat);
    crate::text::lemma_digits(a.ms as nat);
    crate::text::lemma_digits(a.seq as nat);
    let i = d.len() as int;
    assert forall|j: int| 0 <= j < i implies s[j] != 45 by {
        assert(s[j] == d[j]);
        assert(crate::text::is_digit(d[j]));
    }
    assert(dash_at(s, i));
    lemma_dash(s, i);
    assert(ms_part(s) =~= d);
    assert(seq_part(s) =~= e);
    assert(crate::text::is_digit(d[0]));
    assert(crate::text::is_digit(e[0]));
    assert(s[0] == d[0]);
}

} // verus!
