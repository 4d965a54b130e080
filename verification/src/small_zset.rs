//! Inline storage for tiny sorted sets: `[score, 8 bytes][length][member]`
//! records end to end in 22 bytes. The records keep insertion order.
//!
//! A score is its 64-bit pattern; [`crate::score::Score`] orders patterns.
use vstd::prelude::*;
use crate::bytes::bytes_eq;
use crate::le::{push_le, read_le};
use crate::packed::splice;
use crate::score::Score;
use crate::sorted::ZSetData;

verus! {

/// Bytes for the packed records.
pub const SMALL_ZSET_BUF_CAP: usize = 22;

/// Longest member that fits inline.
pub const SMALL_ZSET_MEMBER_MAX: usize = 13;

/// Most members that are kept inline.
pub const SMALL_ZSET_COUNT_MAX: usize = 2;

/// Inline sorted-set storage, 24 bytes.
pub struct SmallZSetData {
    count: u8,
    used: u8,
    buf: [u8; 22],
    items: Ghost<Seq<(Seq<u8>, u64)>>,
}

/// Outcome of [`SmallZSetData::try_set`].
#[derive(Debug, PartialEq, Eq, Structural)]
pub enum AddResult {
    /// The member was new.
    Added,
    /// The member was there; it has the new score.
    Updated,
    /// The member does not fit; nothing changed.
    NoRoom,
}

impl View for SmallZSetData {
    type V = Seq<(Seq<u8>, u64)>;

    /// The members with the bit patterns of their scores, in insertion order.
    closed spec fn view(&self) -> Seq<(Seq<u8>, u64)> {
        self.items@
    }
}

/// The bytes of one member.
pub open spec fn item_record(p: (Seq<u8>, u64)) -> Seq<u8> {
    crate::le::le_bytes(p.1 as nat, 8) + crate::packed::chunk_spec(p.0)
}

/// The records of a list of members.
pub open spec fn item_records(ps: Seq<(Seq<u8>, u64)>) -> Seq<Seq<u8>> {
    Seq::new(ps.len(), |i: int| item_record(ps[i]))
}

/// Bytes that a list of members takes inline.
pub open spec fn packed_size(ps: Seq<(Seq<u8>, u64)>) -> nat {
    crate::packed::cat(item_records(ps)).len()
}

/// Whether position `i` holds `member`.
pub open spec fn member_at(ps: Seq<(Seq<u8>, u64)>, member: Seq<u8>, i: int) -> bool {
    0 <= i < ps.len() && ps[i].0 == member
}

/// Whether `member` occurs.
pub open spec fn has_member(ps: Seq<(Seq<u8>, u64)>, member: Seq<u8>) -> bool {
    exists|i: int| member_at(ps, member, i)
}

/// The position of `member`.
pub open spec fn member_index(ps: Seq<(Seq<u8>, u64)>, member: Seq<u8>) -> int {
    choose|i: int| member_at(ps, member, i)
}

/// No member occurs twice.
pub open spec fn members_unique(ps: Seq<(Seq<u8>, u64)>) -> bool {
    forall|i: int, j: int|
        0 <= i < ps.len() && 0 <= j < ps.len() && i != j ==> #[trigger] ps[i].0 != #[trigger] ps[j].0
}

/// Every member is short enough to be inline.
pub open spec fn members_short(ps: Seq<(Seq<u8>, u64)>) -> bool {
    forall|i: int| 0 <= i < ps.len() ==> (#[trigger] ps[i]).0.len() <= SMALL_ZSET_MEMBER_MAX
}

/// In a list without repeated members, a member has one position.
pub proof fn lemma_member_index(ps: Seq<(Seq<u8>, u64)>, member: Seq<u8>, i: int)
    requires
        members_unique(ps),
        member_at(ps, member, i),
    ensures
        has_member(ps, member),
        member_index(ps, member) == i,
{
    let j = member_index(ps, member);
    assert(member_at(ps, member, j));
    if i != j {
        assert(ps[i].0 != ps[j].0);
    }
}

fn item_bytes(member: &[u8], score_bits: u64) -> (r: Vec<u8>)
    requires
        member@.len() <= 255,
    ensures
        r@ == item_record((member@, score_bits)),
{
    let mut out: Vec<u8> = Vec::new();
    push_le(&mut out, score_bits, 8);
    let mut tail = crate::packed::chunk(member);
    out.append(&mut tail);
    assert(out@ =~= item_record((member@, score_bits)));
    out
}

proof fn lemma_record_len(p: (Seq<u8>, u64))
    ensures
        item_record(p).len() == 9 + p.0.len(),
{
    crate::le::lemma_le_len(p.1 as nat, 8);
}

impl SmallZSetData {
    /// The buffer holds the members, each once, within the inline limits.
    pub closed spec fn wf(&self) -> bool {
        &&& self.count == self.items@.len()
        &&& self.used <= 22
        &&& crate::packed::content(self.buf, self.used as int) == crate::packed::cat(
            item_records(self.items@),
        )
        &&& crate::packed::tail_zero(self.buf, self.used as int)
        &&& self.items@.len() <= SMALL_ZSET_COUNT_MAX
        &&& members_unique(self.items@)
        &&& members_short(self.items@)
    }

    /// What well-formedness says of the members.
    pub proof fn lemma_wf(&self)
        requires
            self.wf(),
        ensures
            members_unique(self@),
            members_short(self@),
            self@.len() <= SMALL_ZSET_COUNT_MAX,
            packed_size(self@) <= SMALL_ZSET_BUF_CAP,
    {
    }

    /// An empty inline sorted set.
    pub fn new() -> (r: Self)
        ensures
            r.wf(),
            r@ == Seq::<(Seq<u8>, u64)>::empty(),
    {
        let r = SmallZSetData { count: 0, used: 0, buf: [0u8; 22], items: Ghost(Seq::empty()) };
        assert(crate::packed::content(r.buf, 0) =~= crate::packed::cat(item_records(r.items@)));
        r
    }

    /// An inline sorted set of one member, if it fits.
    pub fn with_one(member: &[u8], score_bits: u64) -> (r: Option<Self>)
        ensures
            match r {
                Some(s) => {
                    &&& member@.len() <= SMALL_ZSET_MEMBER_MAX
                    &&& s.wf()
                    &&& s@ == seq![(member@, score_bits)]
                },
                None => member@.len() > SMALL_ZSET_MEMBER_MAX,
            },
    {
        if member.len() > SMALL_ZSET_MEMBER_MAX {
            return None;
        }
        let mut s = Self::new();
        let _added = s.try_set(member, score_bits);
        assert(s@ =~= seq![(member@, score_bits)]);
        Some(s)
    }

    /// Number of members.
    pub fn len(&self) -> (r: usize)
        requires
            self.wf(),
        ensures
            r == self@.len(),
    {
        self.count as usize
    }

    /// Whether there is no member.
    pub fn is_empty(&self) -> (r: bool)
        requires
            self.wf(),
        ensures
            r == (self@.len() == 0),
    {
        self.count == 0
    }

    /// A walk over the members in insertion order.
    pub fn iter(&self) -> (r: SmallZSetIter<'_>)
        requires
            self.wf(),
        ensures
            r.wf(),
            r.source() == *self,
            r.position() == 0,
            r.rest() == self@,
    {
        let r = SmallZSetIter { zset: self, cursor: 0, seen: Ghost(0) };
        proof {
            assert(self.items@.subrange(0, self.items@.len() as int) =~= self.items@);
            assert(item_records(self.items@).subrange(0, 0) =~= Seq::empty());
        }
        r
    }

    /// The offset, score and position of `member`'s record.
    fn locate(&self, member: &[u8]) -> (r: Option<(usize, u64, Ghost<int>)>)
        requires
            self.wf(),
        ensures
            match r {
                Some((off, score_bits, i)) => {
                    &&& member_at(self@, member@, i@)
                    &&& score_bits == self@[i@].1
                    &&& off == crate::packed::cat(item_records(self@).subrange(0, i@)).len()
                },
                None => !has_member(self@, member@),
            },
    {
        let mut it = self.iter();
        loop
            invariant
                it.wf(),
                it.source() == *self,
                self.wf(),
                it.position() <= self@.len(),
                forall|j: int| 0 <= j < it.position() ==> !member_at(self@, member@, j),
            decreases self@.len() - it.position(),
        {
            let ghost at: int = it.position() as int;
            let off: usize = it.cursor;
            match it.next() {
                None => {
                    return None;
                },
                Some((m, s)) => {
                    if bytes_eq(m, member) {
                        assert(member_at(self@, member@, at));
                        return Some((off, s, Ghost(at)));
                    }
                },
            }
        }
    }

    /// The bit pattern of `member`'s score.
    pub fn score(&self, member: &[u8]) -> (r: Option<u64>)
        requires
            self.wf(),
        ensures
            r == (if has_member(self@, member@) {
                Some(self@[member_index(self@, member@)].1)
            } else {
                None
            }),
    {
        match self.locate(member) {
            Some((_off, s, at)) => {
                proof {
                    lemma_member_index(self@, member@, at@);
                }
                Some(s)
            },
            None => None,
        }
    }

    /// Whether `member` is present.
    pub fn contains(&self, member: &[u8]) -> (r: bool)
        requires
            self.wf(),
        ensures
            r == has_member(self@, member@),
    {
        self.score(member).is_some()
    }

    /// Gives `member` the score, if the result fits.
    pub fn try_set(&mut self, member: &[u8], score_bits: u64) -> (r: AddResult)
        requires
            old(self).wf(),
        ensures
            final(self).wf(),
            r == (if member@.len() > SMALL_ZSET_MEMBER_MAX {
                AddResult::NoRoom
            } else if has_member(old(self)@, member@) {
                AddResult::Updated
            } else if old(self)@.len() >= SMALL_ZSET_COUNT_MAX || packed_size(old(self)@) + 9
                + member@.len() > SMALL_ZSET_BUF_CAP {
                AddResult::NoRoom
            } else {
                AddResult::Added
            }),
            r is Added ==> final(self)@ == old(self)@.push((member@, score_bits)),
            r is Updated ==> final(self)@ == old(self)@.update(
                member_index(old(self)@, member@),
                (member@, score_bits),
            ),
            r is NoRoom ==> *final(self) == *old(self),
    {
        if member.len() > SMALL_ZSET_MEMBER_MAX {
            return AddResult::NoRoom;
        }
        let ghost ps = self.items@;
        let ghost ch = item_records(ps);
        let used: usize = self.used as usize;
        match self.locate(member) {
            Some((off, _s, at)) => {
                let ghost i = at@;
                proof {
                    lemma_member_index(ps, member@, i);
                    crate::packed::lemma_cat_split(ch, i);
                    lemma_record_len(ps[i]);
                    lemma_record_len((member@, score_bits));
                }
                let rec = item_bytes(member, score_bits);
                let n: usize = splice(&mut self.buf, used, off, 9 + member.len(), rec.as_slice());
                self.used = n as u8;
                self.items = Ghost(ps.update(i, (member@, score_bits)));
                proof {
                    let a = ch.subrange(0, i);
                    let b = ch.subrange(i + 1, ch.len() as int);
                    assert(item_records(self.items@) =~= a + seq![rec@] + b);
                    crate::packed::lemma_cat_one(rec@);
                    crate::packed::lemma_cat_add(a, seq![rec@]);
                    crate::packed::lemma_cat_add(a + seq![rec@], b);
                    let whole = crate::packed::cat(ch);
                    assert(whole.subrange(0, off as int) =~= crate::packed::cat(a));
                    assert(whole.subrange(off + ch[i].len(), used as int) =~= crate::packed::cat(
                        b,
                    ));
                    assert(crate::packed::content(self.buf, n as int) =~= crate::packed::cat(
                        item_records(self.items@),
                    ));
                    assert forall|x: int, y: int|
                        0 <= x < self.items@.len() && 0 <= y < self.items@.len() && x
                            != y implies #[trigger] self.items@[x].0 != #[trigger] self.items@[y].0 by {
                        assert(ps[x].0 != ps[y].0);
                    }
                }
                AddResult::Updated
            },
            None => {
                if self.count as usize >= SMALL_ZSET_COUNT_MAX {
                    return AddResult::NoRoom;
                }
                if used + 9 + member.len() > SMALL_ZSET_BUF_CAP {
                    return AddResult::NoRoom;
                }
                let rec = item_bytes(member, score_bits);
                proof {
                    lemma_record_len((member@, score_bits));
                }
                let n: usize = splice(&mut self.buf, used, used, 0, rec.as_slice());
                self.used = n as u8;
                self.count = self.count + 1;
                self.items = Ghost(ps.push((member@, score_bits)));
                proof {
                    crate::packed::lemma_cat_add(ch, seq![rec@]);
                    crate::packed::lemma_cat_one(rec@);
                    assert(item_records(self.items@) =~= ch + seq![rec@]);
                    let c0 = crate::packed::cat(ch);
                    assert(c0.subrange(0, used as int) =~= c0);
                    assert(c0.subrange(used as int, used as int) =~= Seq::empty());
                    assert(crate::packed::content(self.buf, n as int) =~= c0 + rec@);
                    assert forall|x: int, y: int|
                        0 <= x < self.items@.len() && 0 <= y < self.items@.len() && x
                            != y implies #[trigger] self.items@[x].0 != #[trigger] self.items@[y].0 by {
                        if x < ps.len() && y < ps.len() {
                            assert(ps[x].0 != ps[y].0);
                        } else if x < ps.len() {
                            assert(!member_at(ps, member@, x));
                        } else {
                            assert(!member_at(ps, member@, y));
                        }
                    }
                }
                AddResult::Added
            },
        }
    }

    /// Removes `member`; the members behind it close the gap.
    pub fn try_remove(&mut self, member: &[u8]) -> (r: bool)
        requires
            old(self).wf(),
        ensures
            final(self).wf(),
            r == has_member(old(self)@, member@),
            r ==> final(self)@ == old(self)@.remove(member_index(old(self)@, member@)),
            !r ==> *final(self) == *old(self),
    {
        match self.locate(member) {
            None => false,
            Some((off, _s, at)) => {
                let ghost i = at@;
                let ghost ps = self.items@;
                let ghost ch = item_records(ps);
                proof {
                    lemma_member_index(ps, member@, i);
                    crate::packed::lemma_cat_split(ch, i);
                    lemma_record_len(ps[i]);
                }
                let used: usize = self.used as usize;
                let empty: Vec<u8> = Vec::new();
                let n: usize = splice(&mut self.buf, used, off, 9 + member.len(), empty.as_slice());
                self.used = n as u8;
                self.count = self.count - 1;
                self.items = Ghost(ps.remove(i));
                proof {
                    let a = ch.subrange(0, i);
                    let b = ch.subrange(i + 1, ch.len() as int);
                    assert(item_records(self.items@) =~= a + b);
                    crate::packed::lemma_cat_add(a, b);
                    let whole = crate::packed::cat(ch);
                    assert(whole.subrange(0, off as int) =~= crate::packed::cat(a));
                    assert(whole.subrange(off + ch[i].len(), used as int) =~= crate::packed::cat(
                        b,
                    ));
                    assert(crate::packed::content(self.buf, n as int) =~= crate::packed::cat(a)
                        + crate::packed::cat(b));
                    assert forall|x: int, y: int|
                        0 <= x < self.items@.len() && 0 <= y < self.items@.len() && x
                            != y implies #[trigger] self.items@[x].0 != #[trigger] self.items@[y].0 by {
                        let x1 = if x < i { x } else { x + 1 };
                        let y1 = if y < i { y } else { y + 1 };
                        assert(ps[x1].0 != ps[y1].0);
                    }
                }
                true
            },
        }
    }
}

/// A copy holds the same members.
impl Clone for SmallZSetData {
    fn clone(&self) -> (r: Self)
        ensures
            r == *self,
    {
        SmallZSetData {
            count: self.count,
            used: self.used,
            buf: self.buf,
            items: Ghost(self.items@),
        }
    }
}

/// A walk over the members of a [`SmallZSetData`].
pub struct SmallZSetIter<'a> {
    zset: &'a SmallZSetData,
    cursor: usize,
    seen: Ghost<nat>,
}

impl<'a> SmallZSetIter<'a> {
    /// The cursor stands at a record boundary.
    pub closed spec fn wf(&self) -> bool {
        &&& self.zset.wf()
        &&& self.seen@ <= self.zset@.len()
        &&& self.cursor == crate::packed::cat(
            item_records(self.zset@).subrange(0, self.seen@ as int),
        ).len()
    }

    /// The sorted set that is walked.
    pub closed spec fn source(&self) -> SmallZSetData {
        *self.zset
    }

    /// Number of members met so far.
    pub closed spec fn position(&self) -> nat {
        self.seen@
    }

    /// The members still to come.
    pub open spec fn rest(&self) -> Seq<(Seq<u8>, u64)> {
        self.source()@.subrange(self.position() as int, self.source()@.len() as int)
    }

    /// The next member with its score's bit pattern, if one is left.
    pub fn next(&mut self) -> (r: Option<(&'a [u8], u64)>)
        requires
            old(self).wf(),
        ensures
            final(self).wf(),
            final(self).source() == old(self).source(),
            match r {
                Some((m, s)) => {
                    &&& old(self).rest().len() > 0
                    &&& (m@, s) == old(self).rest()[0]
                    &&& final(self).rest() == old(self).rest().subrange(
                        1,
                        old(self).rest().len() as int,
                    )
                    &&& final(self).position() == old(self).position() + 1
                },
                None => old(self).rest().len() == 0 && *final(self) == *old(self),
            },
    {
        let ghost ps = self.zset@;
        let ghost ch = item_records(ps);
        let ghost i = self.seen@ as int;
        let zset = self.zset;
        if self.cursor >= zset.used as usize {
            proof {
                if i < ps.len() {
                    crate::packed::lemma_cat_split(ch, i);
                    assert(ch[i].len() > 0);
                }
            }
            return None;
        }
        let ghost c = crate::packed::content(zset.buf, zset.used as int);
        let ghost p = crate::packed::cat(ch.subrange(0, i)).len() as int;
        proof {
            if i == ps.len() {
                assert(ch.subrange(0, i) =~= ch);
            }
            crate::packed::lemma_cat_split(ch, i);
            lemma_record_len(ps[i]);
            crate::le::lemma_pow256();
            crate::le::lemma_le_roundtrip(ps[i].1 as nat, 8);
            assert(c.subrange(p, p + ch[i].len()) =~= ch[i]);
            assert(ch[i] == item_record(ps[i]));
            assert(c[p + 8] == ch[i][8]);
            assert(ch[i][8] == ps[i].0.len() as u8);
            assert(ch[i].subrange(0, 8) =~= crate::le::le_bytes(ps[i].1 as nat, 8));
            assert(zset.buf@.subrange(p, p + 8) =~= ch[i].subrange(0, 8));
        }
        let score_bits: u64 = read_le(zset.buf.as_slice(), self.cursor, 8);
        let len: usize = zset.buf[self.cursor + 8] as usize;
        let start: usize = self.cursor + 9;
        let end: usize = start + len;
        let m = vstd::slice::slice_subrange(zset.buf.as_slice(), start, end);
        proof {
            assert(m@ =~= ch[i].subrange(9, 9 + len));
            assert(m@ =~= ps[i].0);
        }
        self.cursor = end;
        self.seen = Ghost((i + 1) as nat);
        assert(self.rest() =~= old(self).rest().subrange(1, old(self).rest().len() as int));
        Some((m, score_bits))
    }
}

/// The map from members to scores that a list of members stands for.
pub open spec fn members_map(ps: Seq<(Seq<u8>, u64)>) -> Map<Seq<u8>, Score> {
    Map::new(
        |m: Seq<u8>| has_member(ps, m),
        |m: Seq<u8>| Score::of_bits(ps[member_index(ps, m)].1),
    )
}

/// A heap sorted set with an inline one's members.
pub fn promote(inline: &SmallZSetData) -> (r: ZSetData)
    requires
        inline.wf(),
    ensures
        r.wf(),
        r@ == members_map(inline@),
{
    let ghost ps = inline@;
    proof {
        inline.lemma_wf();
    }
    let mut z = ZSetData::new();
    let mut it = inline.iter();
    let n: usize = inline.len();
    let mut i: usize = 0;
    assert(ps.subrange(0, ps.len() as int) =~= ps);
    while i < n
        invariant
            z.wf(),
            it.wf(),
            n == ps.len(),
            i <= n,
            members_unique(ps),
            it.rest() == ps.subrange(i as int, n as int),
            forall|m: Seq<u8>| #[trigger]
                z@.dom().contains(m) ==> exists|j: int| j < i && member_at(ps, m, j),
            forall|j: int|
                0 <= j < i ==> z@.dom().contains((#[trigger] ps[j]).0) && z@[ps[j].0]
                    == Score::of_bits(ps[j].1),
        decreases n - i,
    {
        match it.next() {
            Some((m, s)) => {
                let ghost before = z@;
                z.insert(m, Score::from_bits(s));
                proof {
                    assert(m@ == ps[i as int].0);
                    assert forall|k: Seq<u8>| #[trigger] z@.dom().contains(k) implies exists|j: int|
                        j < i + 1 && member_at(ps, k, j) by {
                        if k == m@ {
                            assert(member_at(ps, k, i as int));
                        } else {
                            assert(before.dom().contains(k));
                            let j = choose|j: int| j < i && member_at(ps, k, j);
                            assert(member_at(ps, k, j));
                        }
                    }
                }
            },
            None => {},
        }
        i = i + 1;
    }
    proof {
        assert forall|m: Seq<u8>| #[trigger] z@.dom().contains(m) == has_member(ps, m) by {
            if has_member(ps, m) {
                let j = member_index(ps, m);
                assert(member_at(ps, m, j));
                assert(z@.dom().contains(ps[j].0));
            }
        }
        assert forall|m: Seq<u8>| #[trigger] z@.dom().contains(m) implies z@[m] == Score::of_bits(
            ps[member_index(ps, m)].1,
        ) by {
            let j = member_index(ps, m);
            assert(member_at(ps, m, j));
            assert(z@.dom().contains(ps[j].0));
        }
        assert(z@ =~= members_map(ps));
    }
    z
}

} // verus!
