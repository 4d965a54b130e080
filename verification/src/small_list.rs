//! Inline storage for tiny lists: the elements sit end to end in 22 bytes,
//! each behind a one-byte length. Unlike a set, a list keeps duplicates.
use vstd::prelude::*;
use crate::packed::{chunk, splice};

verus! {

/// Bytes for the packed elements.
pub const SMALL_LIST_BUF_CAP: usize = 22;

/// Longest element that fits inline.
pub const SMALL_LIST_ELEM_MAX: usize = 21;

/// Most elements that are kept inline.
pub const SMALL_LIST_COUNT_MAX: usize = 8;

/// Inline list storage, 24 bytes.
pub struct SmallListData {
    count: u8,
    used: u8,
    buf: [u8; 22],
    elems: Ghost<Seq<Seq<u8>>>,
}

/// Outcome of a push.
#[derive(Debug, PartialEq, Eq, Structural)]
pub enum PushResult {
    /// The element is in.
    Pushed,
    /// The element does not fit; nothing changed.
    NoRoom,
}

impl View for SmallListData {
    type V = Seq<Seq<u8>>;

    /// The elements, front to back.
    closed spec fn view(&self) -> Seq<Seq<u8>> {
        self.elems@
    }
}

/// Bytes that a list of elements takes inline.
pub open spec fn packed_size(es: Seq<Seq<u8>>) -> nat {
    crate::packed::cat(crate::packed::chunks(es)).len()
}

/// Whether `elem` can join the elements `es` inline.
pub open spec fn has_room(es: Seq<Seq<u8>>, elem: Seq<u8>) -> bool {
    &&& elem.len() <= SMALL_LIST_ELEM_MAX
    &&& es.len() < SMALL_LIST_COUNT_MAX
    &&& packed_size(es) + 1 + elem.len() <= SMALL_LIST_BUF_CAP
}

impl SmallListData {
    /// The buffer holds the elements, within the inline limits.
    pub closed spec fn wf(&self) -> bool {
        &&& self.count == self.elems@.len()
        &&& self.used <= 22
        &&& crate::packed::content(self.buf, self.used as int) == crate::packed::cat(
            crate::packed::chunks(self.elems@),
        )
        &&& crate::packed::tail_zero(self.buf, self.used as int)
        &&& self.elems@.len() <= SMALL_LIST_COUNT_MAX
        &&& forall|i: int|
            0 <= i < self.elems@.len() ==> (#[trigger] self.elems@[i]).len() <= SMALL_LIST_ELEM_MAX
    }

    /// What well-formedness says of the elements.
    pub proof fn lemma_wf(&self)
        requires
            self.wf(),
        ensures
            self@.len() <= SMALL_LIST_COUNT_MAX,
            packed_size(self@) <= SMALL_LIST_BUF_CAP,
            forall|i: int| 0 <= i < self@.len() ==> (#[trigger] self@[i]).len() <= SMALL_LIST_ELEM_MAX,
    {
    }

    /// An empty inline list.
    pub fn new() -> (r: Self)
        ensures
            r.wf(),
            r@ == Seq::<Seq<u8>>::empty(),
    {
        let r = SmallListData { count: 0, used: 0, buf: [0u8; 22], elems: Ghost(Seq::empty()) };
        assert(crate::packed::content(r.buf, 0) =~= crate::packed::cat(
            crate::packed::chunks(r.elems@),
        ));
        r
    }

    /// An inline list of one element, if it fits.
    pub fn with_one(elem: &[u8]) -> (r: Option<Self>)
        ensures
            match r {
                Some(s) => elem@.len() <= SMALL_LIST_ELEM_MAX && s.wf() && s@ == seq![elem@],
                None => elem@.len() > SMALL_LIST_ELEM_MAX,
            },
    {
        if elem.len() > SMALL_LIST_ELEM_MAX {
            return None;
        }
        let mut s = Self::new();
        let _pushed = s.try_push_back(elem);
        assert(s@ =~= seq![elem@]);
        Some(s)
    }

    /// Number of elements.
    pub fn len(&self) -> (r: usize)
        requires
            self.wf(),
        ensures
            r == self@.len(),
    {
        self.count as usize
    }

    /// Whether there is no element.
    pub fn is_empty(&self) -> (r: bool)
        requires
            self.wf(),
        ensures
            r == (self@.len() == 0),
    {
        self.count == 0
    }

    /// A walk over the elements, front to back.
    pub fn iter(&self) -> (r: SmallListIter<'_>)
        requires
            self.wf(),
        ensures
            r.wf(),
            r.source() == *self,
            r.position() == 0,
            r.rest() == self@,
    {
        let r = SmallListIter { list: self, cursor: 0, seen: Ghost(0) };
        proof {
            assert(self.elems@.subrange(0, self.elems@.len() as int) =~= self.elems@);
            assert(crate::packed::chunks(self.elems@).subrange(0, 0) =~= Seq::empty());
        }
        r
    }

    fn room_for(&self, elem: &[u8]) -> (r: bool)
        requires
            self.wf(),
        ensures
            r == has_room(self@, elem@),
    {
        elem.len() <= SMALL_LIST_ELEM_MAX && (self.count as usize) < SMALL_LIST_COUNT_MAX
            && self.used as usize + 1 + elem.len() <= SMALL_LIST_BUF_CAP
    }

    /// Appends at the back, if there is room.
    pub fn try_push_back(&mut self, elem: &[u8]) -> (r: PushResult)
        requires
            old(self).wf(),
        ensures
            final(self).wf(),
            r == (if has_room(old(self)@, elem@) {
                PushResult::Pushed
            } else {
                PushResult::NoRoom
            }),
            r is Pushed ==> final(self)@ == old(self)@.push(elem@),
            r is NoRoom ==> *final(self) == *old(self),
    {
        if !self.room_for(elem) {
            return PushResult::NoRoom;
        }
        let ghost before = self.elems@;
        let rec = chunk(elem);
        let used: usize = self.used as usize;
        let n: usize = splice(&mut self.buf, used, used, 0, rec.as_slice());
        self.used = n as u8;
        self.count = self.count + 1;
        self.elems = Ghost(before.push(elem@));
        proof {
            let ch = crate::packed::chunks(before);
            crate::packed::lemma_cat_add(ch, seq![rec@]);
            crate::packed::lemma_cat_one(rec@);
            assert(crate::packed::chunks(self.elems@) =~= ch + seq![rec@]);
            let c0 = crate::packed::cat(ch);
            assert(c0.subrange(0, used as int) =~= c0);
            assert(c0.subrange(used as int, used as int) =~= Seq::empty());
            assert(crate::packed::content(self.buf, n as int) =~= c0 + rec@);
        }
        PushResult::Pushed
    }

    /// Prepends at the front, if there is room.
    pub fn try_push_front(&mut self, elem: &[u8]) -> (r: PushResult)
        requires
            old(self).wf(),
        ensures
            final(self).wf(),
            r == (if has_room(old(self)@, elem@) {
                PushResult::Pushed
            } else {
                PushResult::NoRoom
            }),
            r is Pushed ==> final(self)@ == seq![elem@] + old(self)@,
            r is NoRoom ==> *final(self) == *old(self),
    {
        if !self.room_for(elem) {
            return PushResult::NoRoom;
        }
        let ghost before = self.elems@;
        let rec = chunk(elem);
        let used: usize = self.used as usize;
        let n: usize = splice(&mut self.buf, used, 0, 0, rec.as_slice());
        self.used = n as u8;
        self.count = self.count + 1;
        self.elems = Ghost(seq![elem@] + before);
        proof {
            let ch = crate::packed::chunks(before);
            crate::packed::lemma_cat_add(seq![rec@], ch);
            crate::packed::lemma_cat_one(rec@);
            assert(crate::packed::chunks(self.elems@) =~= seq![rec@] + ch);
            let c0 = crate::packed::cat(ch);
            assert(c0.subrange(0, used as int) =~= c0);
            assert(crate::packed::content(self.buf, n as int) =~= rec@ + c0);
        }
        PushResult::Pushed
    }
}

/// A copy holds the same elements.
impl Clone for SmallListData {
    fn clone(&self) -> (r: Self)
        ensures
            r == *self,
    {
        SmallListData {
            count: self.count,
            used: self.used,
            buf: self.buf,
            elems: Ghost(self.elems@),
        }
    }
}

/// A walk over the elements of a [`SmallListData`].
pub struct SmallListIter<'a> {
    list: &'a SmallListData,
    cursor: usize,
    seen: Ghost<nat>,
}

impl<'a> SmallListIter<'a> {
    /// The cursor stands at a record boundary.
    pub closed spec fn wf(&self) -> bool {
        &&& self.list.wf()
        &&& self.seen@ <= self.list@.len()
        &&& self.cursor == crate::packed::cat(
            crate::packed::chunks(self.list@).subrange(0, self.seen@ as int),
        ).len()
    }

    /// The list that is walked.
    pub closed spec fn source(&self) -> SmallListData {
        *self.list
    }

    /// Number of elements met so far.
    pub closed spec fn position(&self) -> nat {
        self.seen@
    }

    /// The elements still to come.
    pub open spec fn rest(&self) -> Seq<Seq<u8>> {
        self.source()@.subrange(self.position() as int, self.source()@.len() as int)
    }

    /// The next element, if one is left.
    pub fn next(&mut self) -> (r: Option<&'a [u8]>)
        requires
            old(self).wf(),
        ensures
            final(self).wf(),
            final(self).source() == old(self).source(),
            match r {
                Some(m) => {
                    &&& old(self).rest().len() > 0
                    &&& m@ == old(self).rest()[0]
                    &&& final(self).rest() == old(self).rest().subrange(
                        1,
                        old(self).rest().len() as int,
                    )
                    &&& final(self).position() == old(self).position() + 1
                },
                None => old(self).rest().len() == 0 && *final(self) == *old(self),
            },
    {
        let ghost ms = self.list@;
        let ghost ch = crate::packed::chunks(ms);
        let ghost i = self.seen@ as int;
        let list = self.list;
        if self.cursor >= list.used as usize {
            proof {
                if i < ms.len() {
                    crate::packed::lemma_cat_split(ch, i);
                    assert(ch[i].len() > 0);
                }
            }
            return None;
        }
        proof {
            if i == ms.len() {
                assert(ch.subrange(0, i) =~= ch);
            }
            crate::packed::lemma_cat_split(ch, i);
            let c = crate::packed::content(list.buf, list.used as int);
            let p = crate::packed::cat(ch.subrange(0, i)).len() as int;
            assert(c[p] == ch[i][0]);
            assert(c.subrange(p, p + ch[i].len()) =~= ch[i]);
            assert(ch[i] == crate::packed::chunk_spec(ms[i]));
        }
        let len: usize = list.buf[self.cursor] as usize;
        let start: usize = self.cursor + 1;
        let end: usize = start + len;
        let out = vstd::slice::slice_subrange(list.buf.as_slice(), start, end);
        proof {
            let c = crate::packed::content(list.buf, list.used as int);
            let p = crate::packed::cat(ch.subrange(0, i)).len() as int;
            assert(out@ =~= c.subrange(p, p + ch[i].len()).subrange(1, ch[i].len() as int));
            assert(out@ =~= ms[i]);
        }
        self.cursor = end;
        self.seen = Ghost((i + 1) as nat);
        assert(self.rest() =~= old(self).rest().subrange(1, old(self).rest().len() as int));
        Some(out)
    }
}

} // verus!
