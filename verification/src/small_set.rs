//! Inline storage for tiny sets: the members sit end to end in 22 bytes,
//! each behind a one-byte length.
use vstd::prelude::*;
use crate::bytes::bytes_eq;
use crate::packed::{chunk, splice};

verus! {

/// Bytes for the packed members.
pub const SMALL_SET_BUF_CAP: usize = 22;

/// Longest member that fits inline.
pub const SMALL_SET_MEMBER_MAX: usize = 21;

/// Most members that are kept inline.
pub const SMALL_SET_COUNT_MAX: usize = 8;

/// Inline set storage, 24 bytes.
pub struct SmallSetData {
    count: u8,
    used: u8,
    buf: [u8; 22],
    members: Ghost<Seq<Seq<u8>>>,
}

/// Outcome of [`SmallSetData::try_add`].
#[derive(Debug, PartialEq, Eq, Structural)]
pub enum AddResult {
    /// The member was new.
    Added,
    /// The member was there already; nothing changed.
    AlreadyPresent,
    /// The member does not fit; nothing changed.
    NoRoom,
}

impl View for SmallSetData {
    type V = Seq<Seq<u8>>;

    /// The members in insertion order.
    closed spec fn view(&self) -> Seq<Seq<u8>> {
        self.members@
    }
}

/// Bytes that a list of members takes inline.
pub open spec fn packed_size(ms: Seq<Seq<u8>>) -> nat {
    crate::packed::cat(crate::packed::chunks(ms)).len()
}

impl SmallSetData {
    /// The buffer holds the members, each once, within the inline limits.
    pub closed spec fn wf(&self) -> bool {
        &&& self.count == self.members@.len()
        &&& self.used <= 22
        &&& crate::packed::content(self.buf, self.used as int) == crate::packed::cat(
            crate::packed::chunks(self.members@),
        )
        &&& crate::packed::tail_zero(self.buf, self.used as int)
        &&& self.members@.len() <= SMALL_SET_COUNT_MAX
        &&& self.members@.no_duplicates()
        &&& forall|i: int|
            0 <= i < self.members@.len() ==> (#[trigger] self.members@[i]).len()
                <= SMALL_SET_MEMBER_MAX
    }

    /// What well-formedness says of the members.
    pub proof fn lemma_wf(&self)
        requires
            self.wf(),
        ensures
            self@.no_duplicates(),
            self@.len() <= SMALL_SET_COUNT_MAX,
            packed_size(self@) <= SMALL_SET_BUF_CAP,
            forall|i: int| 0 <= i < self@.len() ==> (#[trigger] self@[i]).len() <= SMALL_SET_MEMBER_MAX,
    {
    }

    /// An empty inline set.
    pub fn new() -> (r: Self)
        ensures
            r.wf(),
            r@ == Seq::<Seq<u8>>::empty(),
    {
        let r = SmallSetData { count: 0, used: 0, buf: [0u8; 22], members: Ghost(Seq::empty()) };
        assert(crate::packed::content(r.buf, 0) =~= crate::packed::cat(
            crate::packed::chunks(r.members@),
        ));
        r
    }

    /// An inline set of one member, if it fits.
    pub fn with_one(member: &[u8]) -> (r: Option<Self>)
        ensures
            match r {
                Some(s) => member@.len() <= SMALL_SET_MEMBER_MAX && s.wf() && s@ == seq![member@],
                None => member@.len() > SMALL_SET_MEMBER_MAX,
            },
    {
        if member.len() > SMALL_SET_MEMBER_MAX {
            return None;
        }
        let mut s = Self::new();
        s.append(member);
        assert(s@ =~= seq![member@]);
        Some(s)
    }

    /// Number of members.
    pub fn len(&self) -> (r: usize)
        requires
            self.wf(),
        ensures
            r == self@.len(),
    {
        self.count as usize
    }

    /// Whether there is no member.
    pub fn is_empty(&self) -> (r: bool)
        requires
            self.wf(),
        ensures
            r == (self@.len() == 0),
    {
        self.count == 0
    }

    /// A walk over the members in insertion order.
    pub fn iter_slices(&self) -> (r: SmallSetIter<'_>)
        requires
            self.wf(),
        ensures
            r.wf(),
            r.source() == *self,
            r.position() == 0,
            r.rest() == self@,
    {
        let r = SmallSetIter { set: self, cursor: 0, seen: Ghost(0) };
        proof {
            assert(self.members@.subrange(0, self.members@.len() as int) =~= self.members@);
            assert(crate::packed::chunks(self.members@).subrange(0, 0) =~= Seq::empty());
        }
        r
    }

    /// A walk over the members in insertion order.
    pub fn iter(&self) -> (r: SmallSetIter<'_>)
        requires
            self.wf(),
        ensures
            r.wf(),
            r.source() == *self,
            r.position() == 0,
            r.rest() == self@,
    {
        self.iter_slices()
    }

    /// The offset of `member`'s record and its position, if it is present.
    fn locate(&self, member: &[u8]) -> (r: Option<(usize, Ghost<int>)>)
        requires
            self.wf(),
        ensures
            match r {
                Some((off, i)) => {
                    &&& 0 <= i@ < self@.len()
                    &&& self@[i@] == member@
                    &&& off == crate::packed::cat(
                        crate::packed::chunks(self@).subrange(0, i@),
                    ).len()
                },
                None => !self@.contains(member@),
            },
    {
        let mut it = self.iter();
        loop
            invariant
                it.wf(),
                it.source() == *self,
                self.wf(),
                it.rest() == self@.subrange(it.seen@ as int, self@.len() as int),
                0 <= it.seen@ <= self@.len(),
                forall|j: int| 0 <= j < it.seen@ ==> self@[j] != member@,
            decreases it.rest().len(),
        {
            let ghost at: int = it.seen@ as int;
            let off: usize = it.cursor;
            match it.next() {
                None => {
                    return None;
                },
                Some(m) => {
                    if bytes_eq(m, member) {
                        return Some((off, Ghost(at)));
                    }
                },
            }
        }
    }

    /// Whether `member` is present.
    pub fn contains(&self, member: &[u8]) -> (r: bool)
        requires
            self.wf(),
        ensures
            r == self@.contains(member@),
    {
        match self.locate(member) {
            Some(p) => {
                assert(self@[p.1@] == member@);
                true
            },
            None => false,
        }
    }

    /// Appends a new member that fits.
    fn append(&mut self, member: &[u8])
        requires
            old(self).wf(),
            !old(self)@.contains(member@),
            member@.len() <= SMALL_SET_MEMBER_MAX,
            old(self)@.len() < SMALL_SET_COUNT_MAX,
            packed_size(old(self)@) + 1 + member@.len() <= SMALL_SET_BUF_CAP,
        ensures
            final(self).wf(),
            final(self)@ == old(self)@.push(member@),
    {
        let ghost before = self.members@;
        let rec = chunk(member);
        let used: usize = self.used as usize;
        let n: usize = splice(&mut self.buf, used, used, 0, rec.as_slice());
        self.used = n as u8;
        self.count = self.count + 1;
        self.members = Ghost(before.push(member@));
        proof {
            let ch = crate::packed::chunks(before);
            crate::packed::lemma_cat_add(ch, seq![rec@]);
            crate::packed::lemma_cat_one(rec@);
            assert(crate::packed::chunks(self.members@) =~= ch + seq![rec@]);
            let c0 = crate::packed::cat(ch);
            assert(c0.subrange(0, used as int) =~= c0);
            assert(c0.subrange(used as int, used as int) =~= Seq::empty());
            assert(crate::packed::content(self.buf, n as int) =~= c0 + rec@);
            assert forall|i: int, j: int|
                0 <= i < self.members@.len() && 0 <= j < self.members@.len() && i
                    != j implies self.members@[i] != self.members@[j] by {
                if i < before.len() && j < before.len() {
                } else if i < before.len() {
                    assert(before.contains(before[i]));
                } else {
                    assert(before.contains(before[j]));
                }
            }
        }
    }

    /// Adds `member` if it is new and fits.
    pub fn try_add(&mut self, member: &[u8]) -> (r: AddResult)
        requires
            old(self).wf(),
        ensures
            final(self).wf(),
            r == (if old(self)@.contains(member@) {
                AddResult::AlreadyPresent
            } else if member@.len() > SMALL_SET_MEMBER_MAX || old(self)@.len()
                >= SMALL_SET_COUNT_MAX || packed_size(old(self)@) + 1 + member@.len()
                > SMALL_SET_BUF_CAP {
                AddResult::NoRoom
            } else {
                AddResult::Added
            }),
            r is Added ==> final(self)@ == old(self)@.push(member@),
            !(r is Added) ==> *final(self) == *old(self),
    {
        if self.contains(member) {
            return AddResult::AlreadyPresent;
        }
        if member.len() > SMALL_SET_MEMBER_MAX {
            return AddResult::NoRoom;
        }
        if self.count as usize >= SMALL_SET_COUNT_MAX {
            return AddResult::NoRoom;
        }
        if self.used as usize + 1 + member.len() > SMALL_SET_BUF_CAP {
            return AddResult::NoRoom;
        }
        self.append(member);
        AddResult::Added
    }

    /// Removes `member`; the members behind it close the gap.
    pub fn try_remove(&mut self, member: &[u8]) -> (r: bool)
        requires
            old(self).wf(),
        ensures
            final(self).wf(),
            r == old(self)@.contains(member@),
            r ==> final(self)@ == old(self)@.remove(old(self)@.index_of(member@)),
            !r ==> *final(self) == *old(self),
    {
        match self.locate(member) {
            None => false,
            Some((off, at)) => {
                let ghost i = at@;
                let ghost ms = self.members@;
                let ghost ch = crate::packed::chunks(ms);
                let ghost rest = ms.remove(i);
                proof {
                    crate::packed::lemma_cat_split(ch, i);
                    assert(ms.contains(member@));
                    assert(ms.index_of(member@) == i);
                }
                let used: usize = self.used as usize;
                let empty: Vec<u8> = Vec::new();
                let n: usize = splice(&mut self.buf, used, off, 1 + member.len(), empty.as_slice());
                self.used = n as u8;
                self.count = self.count - 1;
                self.members = Ghost(rest);
                proof {
                    let a = ch.subrange(0, i);
                    let b = ch.subrange(i + 1, ch.len() as int);
                    assert(crate::packed::chunks(rest) =~= a + b);
                    crate::packed::lemma_cat_add(a, b);
                    let whole = crate::packed::cat(ch);
                    assert(whole.subrange(0, off as int) =~= crate::packed::cat(a));
                    assert(whole.subrange(off + 1 + member@.len(), used as int)
                        =~= crate::packed::cat(b));
                    assert(crate::packed::content(self.buf, n as int) =~= crate::packed::cat(a)
                        + crate::packed::cat(b));
                    assert forall|x: int, y: int|
                        0 <= x < rest.len() && 0 <= y < rest.len() && x != y implies rest[x]
                        != rest[y] by {
                        let x1 = if x < i { x } else { x + 1 };
                        let y1 = if y < i { y } else { y + 1 };
                        assert(rest[x] == ms[x1]);
                        assert(rest[y] == ms[y1]);
                    }
                }
                true
            },
        }
    }
}

/// A copy holds the same members.
impl Clone for SmallSetData {
    fn clone(&self) -> (r: Self)
        ensures
            r == *self,
    {
        SmallSetData {
            count: self.count,
            used: self.used,
            buf: self.buf,
            members: Ghost(self.members@),
        }
    }
}

/// A walk over the members of a [`SmallSetData`].
pub struct SmallSetIter<'a> {
    set: &'a SmallSetData,
    cursor: usize,
    seen: Ghost<nat>,
}

impl<'a> SmallSetIter<'a> {
    /// The cursor stands at a record boundary.
    pub closed spec fn wf(&self) -> bool {
        &&& self.set.wf()
        &&& self.seen@ <= self.set@.len()
        &&& self.cursor == crate::packed::cat(
            crate::packed::chunks(self.set@).subrange(0, self.seen@ as int),
        ).len()
    }

    /// The set that is walked.
    pub closed spec fn source(&self) -> SmallSetData {
        *self.set
    }

    /// Number of members met so far.
    pub closed spec fn position(&self) -> nat {
        self.seen@
    }

    /// The members still to come.
    pub open spec fn rest(&self) -> Seq<Seq<u8>> {
        self.source()@.subrange(self.position() as int, self.source()@.len() as int)
    }

    /// The next member, if one is left.
    pub fn next(&mut self) -> (r: Option<&'a [u8]>)
        requires
            old(self).wf(),
        ensures
            final(self).wf(),
            final(self).source() == old(self).source(),
            match r {
                Some(m) => {
                    &&& old(self).rest().len() > 0
                    &&& m@ == old(self).rest()[0]
                    &&& final(self).rest() == old(self).rest().subrange(
                        1,
                        old(self).rest().len() as int,
                    )
                    &&& final(self).position() == old(self).position() + 1
                },
                None => old(self).rest().len() == 0 && *final(self) == *old(self),
            },
    {
        let ghost ms = self.set@;
        let ghost ch = crate::packed::chunks(ms);
        let ghost i = self.seen@ as int;
        let set = self.set;
        if self.cursor >= set.used as usize {
            proof {
                if i < ms.len() {
                    crate::packed::lemma_cat_split(ch, i);
                    assert(ch[i].len() > 0);
                }
            }
            return None;
        }
        proof {
            if i == ms.len() {
                assert(ch.subrange(0, i) =~= ch);
            }
            crate::packed::lemma_cat_split(ch, i);
            let c = crate::packed::content(set.buf, set.used as int);
            let p = crate::packed::cat(ch.subrange(0, i)).len() as int;
            assert(c[p] == ch[i][0]);
            assert(c.subrange(p, p + ch[i].len()) =~= ch[i]);
            assert(ch[i] == crate::packed::chunk_spec(ms[i]));
        }
        let len: usize = set.buf[self.cursor] as usize;
        let start: usize = self.cursor + 1;
        let end: usize = start + len;
        let out = vstd::slice::slice_subrange(set.buf.as_slice(), start, end);
        proof {
            let c = crate::packed::content(set.buf, set.used as int);
            let p = crate::packed::cat(ch.subrange(0, i)).len() as int;
            assert(out@ =~= c.subrange(p, p + ch[i].len()).subrange(1, ch[i].len() as int));
            assert(out@ =~= ms[i]);
        }
        self.cursor = end;
        self.seen = Ghost((i + 1) as nat);
        assert(self.rest() =~= old(self).rest().subrange(1, old(self).rest().len() as int));
        Some(out)
    }
}

} // verus!
