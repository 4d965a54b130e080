//! Inline storage for tiny hashes: the field/value pairs sit end to end in
//! 22 bytes, field and value each behind a one-byte length.
use vstd::prelude::*;
use crate::bytes::bytes_eq;
use crate::packed::{chunk, splice};

verus! {

/// Bytes for the packed pairs.
pub const SMALL_HASH_BUF_CAP: usize = 22;

/// Longest field that fits inline.
pub const SMALL_HASH_FIELD_MAX: usize = 19;

/// Longest value that fits inline.
pub const SMALL_HASH_VALUE_MAX: usize = 19;

/// Most pairs that are kept inline.
pub const SMALL_HASH_COUNT_MAX: usize = 8;

/// Inline hash storage, 24 bytes.
pub struct SmallHashData {
    count: u8,
    used: u8,
    buf: [u8; 22],
    pairs: Ghost<Seq<(Seq<u8>, Seq<u8>)>>,
}

/// Outcome of [`SmallHashData::try_set`].
#[derive(Debug, PartialEq, Eq, Structural)]
pub enum AddResult {
    /// The field was new.
    Added,
    /// The field was there; it has the new value.
    Updated,
    /// The pair does not fit; nothing changed.
    NoRoom,
}

impl View for SmallHashData {
    type V = Seq<(Seq<u8>, Seq<u8>)>;

    /// The pairs in insertion order.
    closed spec fn view(&self) -> Seq<(Seq<u8>, Seq<u8>)> {
        self.pairs@
    }
}

/// The bytes of one pair.
pub open spec fn pair_record(p: (Seq<u8>, Seq<u8>)) -> Seq<u8> {
    crate::packed::chunk_spec(p.0) + crate::packed::chunk_spec(p.1)
}

/// The records of a list of pairs.
pub open spec fn pair_records(ps: Seq<(Seq<u8>, Seq<u8>)>) -> Seq<Seq<u8>> {
    Seq::new(ps.len(), |i: int| pair_record(ps[i]))
}

/// Bytes that a list of pairs takes inline.
pub open spec fn packed_size(ps: Seq<(Seq<u8>, Seq<u8>)>) -> nat {
    crate::packed::cat(pair_records(ps)).len()
}

/// Whether position `i` holds `field`.
pub open spec fn field_at(ps: Seq<(Seq<u8>, Seq<u8>)>, field: Seq<u8>, i: int) -> bool {
    0 <= i < ps.len() && ps[i].0 == field
}

/// Whether `field` occurs.
pub open spec fn has_field(ps: Seq<(Seq<u8>, Seq<u8>)>, field: Seq<u8>) -> bool {
    exists|i: int| field_at(ps, field, i)
}

/// The position of `field`.
pub open spec fn field_index(ps: Seq<(Seq<u8>, Seq<u8>)>, field: Seq<u8>) -> int {
    choose|i: int| field_at(ps, field, i)
}

/// No field occurs twice.
pub open spec fn fields_unique(ps: Seq<(Seq<u8>, Seq<u8>)>) -> bool {
    forall|i: int, j: int|
        0 <= i < ps.len() && 0 <= j < ps.len() && i != j ==> #[trigger] ps[i].0 != #[trigger] ps[j].0
}

/// Every field and value is short enough to be inline.
pub open spec fn pairs_short(ps: Seq<(Seq<u8>, Seq<u8>)>) -> bool {
    forall|i: int|
        0 <= i < ps.len() ==> (#[trigger] ps[i]).0.len() <= SMALL_HASH_FIELD_MAX && ps[i].1.len()
            <= SMALL_HASH_VALUE_MAX
}

/// The map that a list of pairs stands for.
pub open spec fn pairs_map(ps: Seq<(Seq<u8>, Seq<u8>)>) -> Map<Seq<u8>, Seq<u8>> {
    Map::new(|f: Seq<u8>| has_field(ps, f), |f: Seq<u8>| ps[field_index(ps, f)].1)
}

/// In a list without repeated fields, a field has one position.
pub proof fn lemma_field_index(ps: Seq<(Seq<u8>, Seq<u8>)>, field: Seq<u8>, i: int)
    requires
        fields_unique(ps),
        field_at(ps, field, i),
    ensures
        has_field(ps, field),
        field_index(ps, field) == i,
{
    let j = field_index(ps, field);
    assert(field_at(ps, field, j));
    if i != j {
        assert(ps[i].0 != ps[j].0);
    }
}

/// Appending, replacing and dropping pairs changes one binding of the map.
pub proof fn lemma_pairs_map(ps: Seq<(Seq<u8>, Seq<u8>)>, field: Seq<u8>, value: Seq<u8>)
    requires
        fields_unique(ps),
    ensures
        !has_field(ps, field) ==> pairs_map(ps.push((field, value))) == pairs_map(ps).insert(
            field,
            value,
        ) && fields_unique(ps.push((field, value))),
        has_field(ps, field) ==> pairs_map(ps.update(field_index(ps, field), (field, value)))
            == pairs_map(ps).insert(field, value) && fields_unique(
            ps.update(field_index(ps, field), (field, value)),
        ),
        has_field(ps, field) ==> pairs_map(ps.remove(field_index(ps, field))) == pairs_map(
            ps,
        ).remove(field) && fields_unique(ps.remove(field_index(ps, field))),
{
    if !has_field(ps, field) {
        let q = ps.push((field, value));
        assert forall|i: int, j: int|
            0 <= i < q.len() && 0 <= j < q.len() && i != j implies #[trigger] q[i].0
            != #[trigger] q[j].0 by {
            if i < ps.len() && j < ps.len() {
                assert(ps[i].0 != ps[j].0);
            } else if i < ps.len() {
                assert(!field_at(ps, field, i));
            } else {
                assert(!field_at(ps, field, j));
            }
        }
        assert(field_at(q, field, ps.len() as int));
        lemma_field_index(q, field, ps.len() as int);
        assert forall|f: Seq<u8>| f != field implies has_field(q, f) == has_field(ps, f) && (
        has_field(ps, f) ==> q[field_index(q, f)] == ps[field_index(ps, f)]) by {
            if has_field(ps, f) {
                let i = field_index(ps, f);
                assert(field_at(q, f, i));
                lemma_field_index(q, f, i);
            }
            if has_field(q, f) {
                assert(field_at(ps, f, field_index(q, f)));
            }
        }
        assert(pairs_map(q) =~= pairs_map(ps).insert(field, value));
    } else {
        let x = field_index(ps, field);
        assert(field_at(ps, field, x));
        let q = ps.update(x, (field, value));
        assert forall|i: int, j: int|
            0 <= i < q.len() && 0 <= j < q.len() && i != j implies #[trigger] q[i].0
            != #[trigger] q[j].0 by {
            assert(ps[i].0 != ps[j].0);
        }
        assert(field_at(q, field, x));
        lemma_field_index(q, field, x);
        assert forall|f: Seq<u8>| f != field implies has_field(q, f) == has_field(ps, f) && (
        has_field(ps, f) ==> q[field_index(q, f)] == ps[field_index(ps, f)]) by {
            if has_field(ps, f) {
                let i = field_index(ps, f);
                assert(field_at(ps, f, i));
                assert(field_at(q, f, i));
                lemma_field_index(q, f, i);
            }
            if has_field(q, f) {
                assert(field_at(ps, f, field_index(q, f)));
            }
        }
        assert(pairs_map(q) =~= pairs_map(ps).insert(field, value));
        let d = ps.remove(x);
        assert forall|i: int| 0 <= i < d.len() implies #[trigger] d[i] == ps[if i < x {
            i
        } else {
            i + 1
        }] by {}
        assert forall|i: int, j: int|
            0 <= i < d.len() && 0 <= j < d.len() && i != j implies #[trigger] d[i].0
            != #[trigger] d[j].0 by {
            let i1 = if i < x { i } else { i + 1 };
            let j1 = if j < x { j } else { j + 1 };
            assert(ps[i1].0 != ps[j1].0);
        }
        assert forall|f: Seq<u8>| has_field(d, f) == (f != field && has_field(ps, f)) && (
        has_field(d, f) ==> d[field_index(d, f)] == ps[field_index(ps, f)]) by {
            if has_field(d, f) {
                let j = field_index(d, f);
                assert(field_at(d, f, j));
                let j1 = if j < x { j } else { j + 1 };
                assert(field_at(ps, f, j1));
                lemma_field_index(ps, f, j1);
                if f == field {
                    assert(ps[j1].0 != ps[x].0);
                }
            }
            if has_field(ps, f) && f != field {
                let j = field_index(ps, f);
                assert(field_at(ps, f, j));
                assert(field_at(d, f, if j < x { j } else { j - 1 }));
            }
        }
        assert(pairs_map(d) =~= pairs_map(ps).remove(field));
    }
}

/// Where the parts of pair `i` sit among the bytes of all pairs.
proof fn lemma_pair_at(ps: Seq<(Seq<u8>, Seq<u8>)>, i: int)
    requires
        0 <= i < ps.len(),
        pairs_short(ps),
    ensures
        ({
            let c = crate::packed::cat(pair_records(ps));
            let p = crate::packed::cat(pair_records(ps).subrange(0, i)).len() as int;
            let f = ps[i].0.len() as int;
            let v = ps[i].1.len() as int;
            &&& p + 2 + f + v <= c.len()
            &&& c[p] == f
            &&& c.subrange(p + 1, p + 1 + f) == ps[i].0
            &&& c[p + 1 + f] == v
            &&& c.subrange(p + 2 + f, p + 2 + f + v) == ps[i].1
            &&& crate::packed::cat(pair_records(ps).subrange(0, i + 1)).len() == p + 2 + f + v
        }),
{
    let ch = pair_records(ps);
    let c = crate::packed::cat(ch);
    let p = crate::packed::cat(ch.subrange(0, i)).len() as int;
    let f = ps[i].0.len() as int;
    let v = ps[i].1.len() as int;
    crate::packed::lemma_cat_split(ch, i);
    let r = ch[i];
    assert(r == pair_record(ps[i]));
    assert(r.len() == 2 + f + v);
    assert(c.subrange(p, p + r.len()) =~= r);
    assert(c[p] == r[0]);
    assert(r[0] == f as u8);
    assert(c.subrange(p + 1, p + 1 + f) =~= r.subrange(1, 1 + f));
    assert(r.subrange(1, 1 + f) =~= ps[i].0);
    assert(c[p + 1 + f] == r[1 + f]);
    assert(r[1 + f] == v as u8);
    assert(c.subrange(p + 2 + f, p + 2 + f + v) =~= r.subrange(2 + f, 2 + f + v));
    assert(r.subrange(2 + f, 2 + f + v) =~= ps[i].1);
}

fn pair_bytes(field: &[u8], value: &[u8]) -> (r: Vec<u8>)
    requires
        field@.len() <= 255,
        value@.len() <= 255,
    ensures
        r@ == pair_record((field@, value@)),
{
    let mut out = chunk(field);
    let mut tail = chunk(value);
    out.append(&mut tail);
    out
}

impl SmallHashData {
    /// The buffer holds the pairs, each field once, within the inline limits.
    pub closed spec fn wf(&self) -> bool {
        &&& self.count == self.pairs@.len()
        &&& self.used <= 22
        &&& crate::packed::content(self.buf, self.used as int) == crate::packed::cat(
            pair_records(self.pairs@),
        )
        &&& crate::packed::tail_zero(self.buf, self.used as int)
        &&& self.pairs@.len() <= SMALL_HASH_COUNT_MAX
        &&& fields_unique(self.pairs@)
        &&& pairs_short(self.pairs@)
    }

    /// What well-formedness says of the pairs.
    pub proof fn lemma_wf(&self)
        requires
            self.wf(),
        ensures
            fields_unique(self@),
            pairs_short(self@),
            self@.len() <= SMALL_HASH_COUNT_MAX,
            packed_size(self@) <= SMALL_HASH_BUF_CAP,
    {
    }

    /// An empty inline hash.
    pub fn new() -> (r: Self)
        ensures
            r.wf(),
            r@ == Seq::<(Seq<u8>, Seq<u8>)>::empty(),
    {
        let r = SmallHashData { count: 0, used: 0, buf: [0u8; 22], pairs: Ghost(Seq::empty()) };
        assert(crate::packed::content(r.buf, 0) =~= crate::packed::cat(pair_records(r.pairs@)));
        r
    }

    /// An inline hash of one pair, if it fits.
    pub fn with_one(field: &[u8], value: &[u8]) -> (r: Option<Self>)
        ensures
            match r {
                Some(s) => {
                    &&& field@.len() <= SMALL_HASH_FIELD_MAX
                    &&& value@.len() <= SMALL_HASH_VALUE_MAX
                    &&& 2 + field@.len() + value@.len() <= SMALL_HASH_BUF_CAP
                    &&& s.wf()
                    &&& s@ == seq![(field@, value@)]
                },
                None => field@.len() > SMALL_HASH_FIELD_MAX || value@.len() > SMALL_HASH_VALUE_MAX
                    || 2 + field@.len() + value@.len() > SMALL_HASH_BUF_CAP,
            },
    {
        if field.len() > SMALL_HASH_FIELD_MAX || value.len() > SMALL_HASH_VALUE_MAX {
            return None;
        }
        if 2 + field.len() + value.len() > SMALL_HASH_BUF_CAP {
            return None;
        }
        let mut s = Self::new();
        s.append(field, value);
        assert(s@ =~= seq![(field@, value@)]);
        Some(s)
    }

    /// Number of pairs.
    pub fn len(&self) -> (r: usize)
        requires
            self.wf(),
        ensures
            r == self@.len(),
    {
        self.count as usize
    }

    /// The bytes that the pairs take in the buffer.
    pub fn packed_len(&self) -> (r: usize)
        requires
            self.wf(),
        ensures
            r == packed_size(self@),
    {
        self.used as usize
    }

    /// Whether there is no pair.
    pub fn is_empty(&self) -> (r: bool)
        requires
            self.wf(),
        ensures
            r == (self@.len() == 0),
    {
        self.count == 0
    }

    /// A walk over the pairs in insertion order.
    pub fn iter(&self) -> (r: SmallHashIter<'_>)
        requires
            self.wf(),
        ensures
            r.wf(),
            r.source() == *self,
            r.position() == 0,
            r.rest() == self@,
    {
        let r = SmallHashIter { hash: self, cursor: 0, seen: Ghost(0) };
        proof {
            assert(self.pairs@.subrange(0, self.pairs@.len() as int) =~= self.pairs@);
            assert(pair_records(self.pairs@).subrange(0, 0) =~= Seq::empty());
        }
        r
    }

    /// The value of `field`.
    pub fn get(&self, field: &[u8]) -> (r: Option<&[u8]>)
        requires
            self.wf(),
        ensures
            match r {
                Some(v) => pairs_map(self@).dom().contains(field@) && v@ == pairs_map(
                    self@,
                )[field@],
                None => !pairs_map(self@).dom().contains(field@),
            },
    {
        let mut it = self.iter();
        loop
            invariant
                it.wf(),
                it.source() == *self,
                self.wf(),
                it.position() <= self@.len(),
                forall|j: int| 0 <= j < it.position() ==> !field_at(self@, field@, j),
            decreases self@.len() - it.position(),
        {
            let ghost at: int = it.position() as int;
            match it.next() {
                None => {
                    return None;
                },
                Some((f, v)) => {
                    if bytes_eq(f, field) {
                        proof {
                            assert(field_at(self@, field@, at));
                            lemma_field_index(self@, field@, at);
                        }
                        return Some(v);
                    }
                },
            }
        }
    }

    /// Whether `field` is present.
    pub fn contains_key(&self, field: &[u8]) -> (r: bool)
        requires
            self.wf(),
        ensures
            r == pairs_map(self@).dom().contains(field@),
    {
        self.get(field).is_some()
    }

    /// The offset, value length and position of `field`'s record.
    fn locate(&self, field: &[u8]) -> (r: Option<(usize, usize, Ghost<int>)>)
        requires
            self.wf(),
        ensures
            match r {
                Some((off, vlen, i)) => {
                    &&& field_at(self@, field@, i@)
                    &&& vlen == self@[i@].1.len()
                    &&& off == crate::packed::cat(pair_records(self@).subrange(0, i@)).len()
                },
                None => !has_field(self@, field@),
            },
    {
        let mut it = self.iter();
        loop
            invariant
                it.wf(),
                it.source() == *self,
                self.wf(),
                it.position() <= self@.len(),
                forall|j: int| 0 <= j < it.position() ==> !field_at(self@, field@, j),
            decreases self@.len() - it.position(),
        {
            let ghost at: int = it.position() as int;
            let off: usize = it.cursor;
            match it.next() {
                None => {
                    return None;
                },
                Some((f, v)) => {
                    if bytes_eq(f, field) {
                        assert(field_at(self@, field@, at));
                        return Some((off, v.len(), Ghost(at)));
                    }
                },
            }
        }
    }

    /// Appends a new pair that fits.
    fn append(&mut self, field: &[u8], value: &[u8])
        requires
            old(self).wf(),
            !has_field(old(self)@, field@),
            field@.len() <= SMALL_HASH_FIELD_MAX,
            value@.len() <= SMALL_HASH_VALUE_MAX,
            old(self)@.len() < SMALL_HASH_COUNT_MAX,
            packed_size(old(self)@) + 2 + field@.len() + value@.len() <= SMALL_HASH_BUF_CAP,
        ensures
            final(self).wf(),
            final(self)@ == old(self)@.push((field@, value@)),
    {
        let ghost before = self.pairs@;
        let rec = pair_bytes(field, value);
        let used: usize = self.used as usize;
        let n: usize = splice(&mut self.buf, used, used, 0, rec.as_slice());
        self.used = n as u8;
        self.count = self.count + 1;
        self.pairs = Ghost(before.push((field@, value@)));
        proof {
            let ch = pair_records(before);
            crate::packed::lemma_cat_add(ch, seq![rec@]);
            crate::packed::lemma_cat_one(rec@);
            assert(pair_records(self.pairs@) =~= ch + seq![rec@]);
            let c0 = crate::packed::cat(ch);
            assert(c0.subrange(0, used as int) =~= c0);
            assert(c0.subrange(used as int, used as int) =~= Seq::empty());
            assert(crate::packed::content(self.buf, n as int) =~= c0 + rec@);
            lemma_pairs_map(before, field@, value@);
        }
    }

    /// Sets `field` to `value`, if the result fits.
    pub fn try_set(&mut self, field: &[u8], value: &[u8]) -> (r: AddResult)
        requires
            old(self).wf(),
        ensures
            final(self).wf(),
            r == (if field@.len() > SMALL_HASH_FIELD_MAX || value@.len() > SMALL_HASH_VALUE_MAX {
                AddResult::NoRoom
            } else if has_field(old(self)@, field@) {
                if packed_size(old(self)@) + value@.len() - old(self)@[field_index(
                    old(self)@,
                    field@,
                )].1.len() > SMALL_HASH_BUF_CAP {
                    AddResult::NoRoom
                } else {
                    AddResult::Updated
                }
            } else if old(self)@.len() >= SMALL_HASH_COUNT_MAX || packed_size(old(self)@) + 2
                + field@.len() + value@.len() > SMALL_HASH_BUF_CAP {
                AddResult::NoRoom
            } else {
                AddResult::Added
            }),
            r is Added ==> final(self)@ == old(self)@.push((field@, value@)),
            r is Updated ==> final(self)@ == old(self)@.update(
                field_index(old(self)@, field@),
                (field@, value@),
            ),
            r is NoRoom ==> *final(self) == *old(self),
    {
        if field.len() > SMALL_HASH_FIELD_MAX || value.len() > SMALL_HASH_VALUE_MAX {
            return AddResult::NoRoom;
        }
        match self.locate(field) {
            Some((off, vlen, at)) => {
                let ghost i = at@;
                let ghost ps = self.pairs@;
                let ghost ch = pair_records(ps);
                proof {
                    lemma_field_index(ps, field@, i);
                    crate::packed::lemma_cat_split(ch, i);
                    assert(ch[i].len() == 2 + field@.len() + vlen);
                }
                let used: usize = self.used as usize;
                if used - vlen + value.len() > SMALL_HASH_BUF_CAP {
                    return AddResult::NoRoom;
                }
                let rec = pair_bytes(field, value);
                let n: usize = splice(
                    &mut self.buf,
                    used,
                    off,
                    2 + field.len() + vlen,
                    rec.as_slice(),
                );
                self.used = n as u8;
                self.pairs = Ghost(ps.update(i, (field@, value@)));
                proof {
                    let a = ch.subrange(0, i);
                    let b = ch.subrange(i + 1, ch.len() as int);
                    assert(pair_records(self.pairs@) =~= a + seq![rec@] + b);
                    crate::packed::lemma_cat_one(rec@);
                    crate::packed::lemma_cat_add(a, seq![rec@]);
                    crate::packed::lemma_cat_add(a + seq![rec@], b);
                    let whole = crate::packed::cat(ch);
                    assert(whole.subrange(0, off as int) =~= crate::packed::cat(a));
                    assert(whole.subrange(off + ch[i].len(), used as int) =~= crate::packed::cat(
                        b,
                    ));
                    assert(crate::packed::content(self.buf, n as int) =~= crate::packed::cat(
                        pair_records(self.pairs@),
                    ));
                    lemma_pairs_map(ps, field@, value@);
                }
                AddResult::Updated
            },
            None => {
                if self.count as usize >= SMALL_HASH_COUNT_MAX {
                    return AddResult::NoRoom;
                }
                if self.used as usize + 2 + field.len() + value.len() > SMALL_HASH_BUF_CAP {
                    return AddResult::NoRoom;
                }
                self.append(field, value);
                AddResult::Added
            },
        }
    }

    /// Removes `field`; the pairs behind it close the gap.
    pub fn try_remove(&mut self, field: &[u8]) -> (r: bool)
        requires
            old(self).wf(),
        ensures
            final(self).wf(),
            r == has_field(old(self)@, field@),
            r ==> final(self)@ == old(self)@.remove(field_index(old(self)@, field@)),
            !r ==> *final(self) == *old(self),
    {
        match self.locate(field) {
            None => false,
            Some((off, vlen, at)) => {
                let ghost i = at@;
                let ghost ps = self.pairs@;
                let ghost ch = pair_records(ps);
                proof {
                    lemma_field_index(ps, field@, i);
                    crate::packed::lemma_cat_split(ch, i);
                    assert(ch[i].len() == 2 + field@.len() + vlen);
                }
                let used: usize = self.used as usize;
                let empty: Vec<u8> = Vec::new();
                let n: usize = splice(
                    &mut self.buf,
                    used,
                    off,
                    2 + field.len() + vlen,
                    empty.as_slice(),
                );
                self.used = n as u8;
                self.count = self.count - 1;
                self.pairs = Ghost(ps.remove(i));
                proof {
                    let a = ch.subrange(0, i);
                    let b = ch.subrange(i + 1, ch.len() as int);
                    assert(pair_records(self.pairs@) =~= a + b);
                    crate::packed::lemma_cat_add(a, b);
                    let whole = crate::packed::cat(ch);
                    assert(whole.subrange(0, off as int) =~= crate::packed::cat(a));
                    assert(whole.subrange(off + ch[i].len(), used as int) =~= crate::packed::cat(
                        b,
                    ));
                    assert(crate::packed::content(self.buf, n as int) =~= crate::packed::cat(a)
                        + crate::packed::cat(b));
                    lemma_pairs_map(ps, field@, Seq::empty());
                }
                true
            },
        }
    }
}

/// A copy holds the same pairs.
impl Clone for SmallHashData {
    fn clone(&self) -> (r: Self)
        ensures
            r == *self,
    {
        SmallHashData {
            count: self.count,
            used: self.used,
            buf: self.buf,
            pairs: Ghost(self.pairs@),
        }
    }
}

/// A walk over the pairs of a [`SmallHashData`].
pub struct SmallHashIter<'a> {
    hash: &'a SmallHashData,
    cursor: usize,
    seen: Ghost<nat>,
}

impl<'a> SmallHashIter<'a> {
    /// The cursor stands at a record boundary.
    pub closed spec fn wf(&self) -> bool {
        &&& self.hash.wf()
        &&& self.seen@ <= self.hash@.len()
        &&& self.cursor == crate::packed::cat(
            pair_records(self.hash@).subrange(0, self.seen@ as int),
        ).len()
    }

    /// The hash that is walked.
    pub closed spec fn source(&self) -> SmallHashData {
        *self.hash
    }

    /// Number of pairs met so far.
    pub closed spec fn position(&self) -> nat {
        self.seen@
    }

    /// The pairs still to come.
    pub open spec fn rest(&self) -> Seq<(Seq<u8>, Seq<u8>)> {
        self.source()@.subrange(self.position() as int, self.source()@.len() as int)
    }

    /// The next pair, if one is left.
    pub fn next(&mut self) -> (r: Option<(&'a [u8], &'a [u8])>)
        requires
            old(self).wf(),
        ensures
            final(self).wf(),
            final(self).source() == old(self).source(),
            match r {
                Some((f, v)) => {
                    &&& old(self).rest().len() > 0
                    &&& (f@, v@) == old(self).rest()[0]
                    &&& final(self).rest() == old(self).rest().subrange(
                        1,
                        old(self).rest().len() as int,
                    )
                    &&& final(self).position() == old(self).position() + 1
                },
                None => old(self).rest().len() == 0 && *final(self) == *old(self),
            },
    {
        let ghost ps = self.hash@;
        let ghost ch = pair_records(ps);
        let ghost i = self.seen@ as int;
        let hash = self.hash;
        if self.cursor >= hash.used as usize {
            proof {
                if i < ps.len() {
                    crate::packed::lemma_cat_split(ch, i);
                    assert(ch[i].len() > 0);
                }
            }
            return None;
        }
        let ghost c = crate::packed::content(hash.buf, hash.used as int);
        let ghost p = crate::packed::cat(ch.subrange(0, i)).len() as int;
        proof {
            if i == ps.len() {
                assert(ch.subrange(0, i) =~= ch);
            }
            lemma_pair_at(ps, i);
            assert(c[p] == hash.buf@[p]);
        }
        let flen: usize = hash.buf[self.cursor] as usize;
        let fstart: usize = self.cursor + 1;
        let fend: usize = fstart + flen;
        assert(c[fend as int] == hash.buf@[fend as int]);
        let vlen: usize = hash.buf[fend] as usize;
        let vstart: usize = fend + 1;
        let vend: usize = vstart + vlen;
        let f = vstd::slice::slice_subrange(hash.buf.as_slice(), fstart, fend);
        let v = vstd::slice::slice_subrange(hash.buf.as_slice(), vstart, vend);
        proof {
            assert(f@ =~= c.subrange(fstart as int, fend as int));
            assert(v@ =~= c.subrange(vstart as int, vend as int));
        }
        self.cursor = vend;
        self.seen = Ghost((i + 1) as nat);
        assert(self.rest() =~= old(self).rest().subrange(1, old(self).rest().len() as int));
        Some((f, v))
    }
}

} // verus!
