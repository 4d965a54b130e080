//! Segmented lists: a giant list as a deque of shared segments, so that a
//! write under a pinned view copies one segment instead of the list.
use vstd::prelude::*;
use std::collections::VecDeque;
use std::sync::Arc;
use crate::bytes::bytes_eq;
use crate::list_data::{flat_lrem, freed_as_delta, list_contains, list_weight, rem_limit_of, ListData};
use crate::shared::{share, unshare};

verus! {

/// Most elements in one segment.
pub const SEG_CAP: usize = 16384;

/// Length past which a flat list becomes segmented.
pub const SEG_PROMOTE: usize = SEG_CAP;

/// A giant list: a deque of shared segments and the total length.
pub struct SegListData {
    segs: VecDeque<Arc<ListData>>,
    len: usize,
}

/// The elements of each segment.
pub open spec fn seg_lists(segs: Seq<Arc<ListData>>) -> Seq<Seq<Seq<u8>>> {
    Seq::new(segs.len(), |i: int| crate::list_data::list_view(*segs[i]))
}

/// Every segment holds something, and no more than a segment may.
pub open spec fn seg_sizes(ls: Seq<Seq<Seq<u8>>>) -> bool {
    forall|i: int| 0 <= i < ls.len() ==> 0 < (#[trigger] ls[i]).len() <= SEG_CAP
}

impl View for SegListData {
    type V = Seq<Seq<u8>>;

    /// The elements, front to back.
    closed spec fn view(&self) -> Seq<Seq<u8>> {
        crate::packed::cat(seg_lists(self.segs@))
    }
}

proof fn lemma_cat_replace(ls: Seq<Seq<Seq<u8>>>, i: int, x: Seq<Seq<u8>>)
    requires
        0 <= i < ls.len(),
    ensures
        crate::packed::cat(ls.update(i, x)) == crate::packed::cat(ls.subrange(0, i)) + x
            + crate::packed::cat(ls.subrange(i + 1, ls.len() as int)),
        crate::packed::cat(ls) == crate::packed::cat(ls.subrange(0, i)) + ls[i]
            + crate::packed::cat(ls.subrange(i + 1, ls.len() as int)),
{
    let u = ls.update(i, x);
    crate::packed::lemma_cat_split(ls, i);
    crate::packed::lemma_cat_split(u, i);
    assert(u.subrange(0, i) =~= ls.subrange(0, i));
    assert(u.subrange(i + 1, u.len() as int) =~= ls.subrange(i + 1, ls.len() as int));
}

proof fn lemma_cat_drop(ls: Seq<Seq<Seq<u8>>>, i: int)
    requires
        0 <= i < ls.len(),
    ensures
        crate::packed::cat(ls.remove(i)) == crate::packed::cat(ls.subrange(0, i))
            + crate::packed::cat(ls.subrange(i + 1, ls.len() as int)),
{
    let a = ls.subrange(0, i);
    let b = ls.subrange(i + 1, ls.len() as int);
    crate::packed::lemma_cat_add(a, b);
    assert(ls.remove(i) =~= a + b);
}

proof fn lemma_cat_front(x: Seq<Seq<u8>>, ls: Seq<Seq<Seq<u8>>>)
    ensures
        crate::packed::cat(seq![x] + ls) == x + crate::packed::cat(ls),
{
    crate::packed::lemma_cat_one(x);
    crate::packed::lemma_cat_add(seq![x], ls);
}

proof fn lemma_cat_back(ls: Seq<Seq<Seq<u8>>>, x: Seq<Seq<u8>>)
    ensures
        crate::packed::cat(ls.push(x)) == crate::packed::cat(ls) + x,
{
    assert(ls.push(x).drop_last() =~= ls);
}

/// Splitting segment `i` in two.
proof fn lemma_cat_two(ls: Seq<Seq<Seq<u8>>>, i: int, a: Seq<Seq<u8>>, b: Seq<Seq<u8>>)
    requires
        0 <= i < ls.len(),
    ensures
        crate::packed::cat(ls.update(i, a).insert(i + 1, b)) == crate::packed::cat(
            ls.update(i, a + b),
        ),
        seg_sizes(ls) && 0 < a.len() <= SEG_CAP && 0 < b.len() <= SEG_CAP ==> seg_sizes(
            ls.update(i, a).insert(i + 1, b),
        ),
{
    let n = ls.len() as int;
    let pre = ls.subrange(0, i);
    let post = ls.subrange(i + 1, n);
    let u = ls.update(i, a).insert(i + 1, b);
    assert(u =~= pre + seq![a] + seq![b] + post);
    crate::packed::lemma_cat_one(a);
    crate::packed::lemma_cat_one(b);
    crate::packed::lemma_cat_add(pre, seq![a]);
    crate::packed::lemma_cat_add(pre + seq![a], seq![b]);
    crate::packed::lemma_cat_add(pre + seq![a] + seq![b], post);
    lemma_cat_replace(ls, i, a + b);
    assert(crate::packed::cat(u) =~= crate::packed::cat(pre) + (a + b) + crate::packed::cat(post));
    if seg_sizes(ls) && 0 < a.len() <= SEG_CAP && 0 < b.len() <= SEG_CAP {
        assert forall|j: int| 0 <= j < u.len() implies 0 < (#[trigger] u[j]).len() <= SEG_CAP by {
            if j < i {
                assert(u[j] == ls[j]);
            } else if j > i + 1 {
                assert(u[j] == ls[j - 1]);
            }
        }
    }
}

/// Makes a fresh segment of one element.
fn one_seg(v: Vec<u8>) -> (r: Arc<ListData>)
    ensures
        crate::list_data::list_view(*r) == seq![v@],
{
    let mut d: ListData = VecDeque::new();
    d.push_back(v);
    assert(crate::list_data::list_view(d) =~= seq![v@]);
    Arc::new(d)
}

spec fn behind(a: Arc<ListData>) -> ListData {
    *a
}

proof fn lemma_own(a: Arc<ListData>, d: ListData)
    requires
        behind(a) == d || cloned(behind(a), d),
    ensures
        crate::list_data::list_view(d) == crate::list_data::list_view(behind(a)),
{
    if behind(a) != d {
        crate::list_data::lemma_cloned_list(behind(a), d);
    }
}

/// Starts to change a segment.
fn own(a: &mut Arc<ListData>) -> (r: &mut ListData)
    ensures
        crate::list_data::list_view(*r) == crate::list_data::list_view(**old(a)),
        **final(a) == *final(r),
{
    let r = unshare(a);
    proof {
        lemma_own(*old(a), *r);
    }
    r
}

impl SegListData {
    /// The recorded length is the number of elements; no segment is empty
    /// or too long.
    pub closed spec fn wf(&self) -> bool {
        &&& self.len == self@.len()
        &&& seg_sizes(seg_lists(self.segs@))
    }

    /// The elements of each segment.
    pub closed spec fn segments(&self) -> Seq<Seq<Seq<u8>>> {
        seg_lists(self.segs@)
    }

    /// The bound on what one write copies: the elements are the segments'
    /// elements, and no segment is empty or longer than [`SEG_CAP`].
    pub proof fn lemma_wf(&self)
        requires
            self.wf(),
        ensures
            self@ == crate::packed::cat(self.segments()),
            seg_sizes(self.segments()),
    {
    }

    /// An empty list.
    pub fn new() -> (r: Self)
        ensures
            r.wf(),
            r@ == Seq::<Seq<u8>>::empty(),
    {
        let r = SegListData { segs: VecDeque::new(), len: 0 };
        assert(seg_lists(r.segs@) =~= Seq::empty());
        r
    }

    /// Number of elements.
    pub fn len(&self) -> (r: usize)
        requires
            self.wf(),
        ensures
            r == self@.len(),
    {
        self.len
    }

    /// Whether the list holds nothing.
    pub fn is_empty(&self) -> (r: bool)
        requires
            self.wf(),
        ensures
            r == (self@.len() == 0),
    {
        self.len == 0
    }

    /// Number of segments.
    pub fn seg_count(&self) -> (r: usize)
        ensures
            r == self.segments().len(),
    {
        self.segs.len()
    }

    /// The segments themselves.
    pub fn seg_arcs(&self) -> (r: &VecDeque<Arc<ListData>>)
        ensures
            seg_lists(r@) == self.segments(),
    {
        &self.segs
    }

    /// The elements of a flat list, moved into segments.
    pub fn from_flat(flat: ListData) -> (r: Self)
        ensures
            r.wf(),
            r@ == crate::list_data::list_view(flat),
    {
        let _total: usize = flat.len();
        let ghost whole = crate::list_data::list_view(flat);
        let mut rest = flat;
        let mut out = SegListData::new();
        assert(out@ + whole =~= whole);
        while rest.len() > 0
            invariant
                out.wf(),
                out@ + crate::list_data::list_view(rest) == whole,
                whole.len() <= usize::MAX,
            decreases rest@.len(),
        {
            let ghost before = crate::list_data::list_view(rest);
            let take: usize = if rest.len() > SEG_CAP {
                SEG_CAP
            } else {
                rest.len()
            };
            let mut tail = rest.split_off(take);
            let n: usize = rest.len();
            let ghost head = crate::list_data::list_view(rest);
            proof {
                assert(head =~= before.subrange(0, take as int));
                assert(crate::list_data::list_view(tail) =~= before.subrange(
                    take as int,
                    before.len() as int,
                ));
                assert(head + crate::list_data::list_view(tail) =~= before);
                lemma_cat_back(seg_lists(out.segs@), head);
            }
            let ghost segs0 = out.segs@;
            out.segs.push_back(Arc::new(rest));
            out.len = out.len + n;
            proof {
                assert(seg_lists(out.segs@) =~= seg_lists(segs0).push(head));
                assert(out@ + crate::list_data::list_view(tail) =~= whole);
            }
            rest = tail;
        }
        assert(out@ =~= whole);
        out
    }

    /// Prepends an element. A full first segment is not split; a new one
    /// goes ahead of it.
    pub fn push_front(&mut self, v: Vec<u8>)
        requires
            old(self).wf(),
            old(self)@.len() < usize::MAX,
        ensures
            final(self).wf(),
            final(self)@ == seq![v@] + old(self)@,
    {
        let ghost ls = seg_lists(self.segs@);
        let ghost vv = v@;
        if self.segs.len() > 0 && self.segs[0].len() < SEG_CAP {
            let ghost segs0 = self.segs@;
            match self.segs.pop_front() {
                None => {},
                Some(front) => {
                    let mut seg = front;
                    assert(crate::list_data::list_view(*seg) == ls[0]);
                    let d = own(&mut seg);
                    d.push_front(v);
                    assert(crate::list_data::list_view(*seg) =~= seq![vv] + ls[0]);
                    self.segs.push_front(seg);
                    proof {
                        let x = seq![vv] + ls[0];
                        assert(seg_lists(self.segs@) =~= ls.update(0, x));
                        lemma_cat_replace(ls, 0, x);
                        assert(crate::packed::cat(ls.subrange(0, 0)) =~= Seq::empty());
                        assert(self@ =~= seq![vv] + old(self)@);
                    }
                },
            }
        } else {
            self.segs.push_front(one_seg(v));
            proof {
                assert(seg_lists(self.segs@) =~= seq![seq![vv]] + ls);
                lemma_cat_front(seq![vv], ls);
            }
        }
        self.len = self.len + 1;
    }

    /// Appends an element, on the same one-segment terms.
    pub fn push_back(&mut self, v: Vec<u8>)
        requires
            old(self).wf(),
            old(self)@.len() < usize::MAX,
        ensures
            final(self).wf(),
            final(self)@ == old(self)@.push(v@),
    {
        let ghost ls = seg_lists(self.segs@);
        let ghost vv = v@;
        let n: usize = self.segs.len();
        if n > 0 && self.segs[n - 1].len() < SEG_CAP {
            match self.segs.pop_back() {
                None => {},
                Some(back) => {
                    let mut seg = back;
                    assert(crate::list_data::list_view(*seg) == ls[n - 1]);
                    let d = own(&mut seg);
                    d.push_back(v);
                    assert(crate::list_data::list_view(*seg) =~= ls[n - 1].push(vv));
                    self.segs.push_back(seg);
                    proof {
                        let x = ls[n - 1].push(vv);
                        assert(seg_lists(self.segs@) =~= ls.update(n - 1, x));
                        lemma_cat_replace(ls, n - 1, x);
                        assert(crate::packed::cat(ls.subrange(n as int, n as int)) =~= Seq::empty());
                        assert(self@ =~= old(self)@.push(vv));
                    }
                },
            }
        } else {
            self.segs.push_back(one_seg(v));
            proof {
                assert(seg_lists(self.segs@) =~= ls.push(seq![vv]));
                lemma_cat_back(ls, seq![vv]);
                assert(self@ =~= old(self)@.push(vv));
            }
        }
        self.len = self.len + 1;
    }

    /// Takes the first element. An emptied segment is dropped.
    pub fn pop_front(&mut self) -> (r: Option<Vec<u8>>)
        requires
            old(self).wf(),
        ensures
            final(self).wf(),
            (popped(r), final(self)@) == front_popped(old(self)@),
    {
        let ghost ls = seg_lists(self.segs@);
        match self.segs.pop_front() {
            None => {
                assert(seg_lists(self.segs@) =~= ls);
                assert(ls =~= Seq::empty());
                None
            },
            Some(front) => {
                let mut seg = front;
                proof {
                    lemma_cat_replace(ls, 0, ls[0].subrange(1, ls[0].len() as int));
                    assert(crate::packed::cat(ls.subrange(0, 0)) =~= Seq::empty());
                    lemma_cat_drop(ls, 0);
                }
                assert(crate::list_data::list_view(*seg) == ls[0]);
                let d = own(&mut seg);
                let r = d.pop_front();
                assert(ls[0].len() > 0);
                assert(crate::list_data::list_view(*seg) =~= ls[0].subrange(1, ls[0].len() as int));
                if seg.len() > 0 {
                    self.segs.push_front(seg);
                    proof {
                        assert(seg_lists(self.segs@) =~= ls.update(
                            0,
                            ls[0].subrange(1, ls[0].len() as int),
                        ));
                    }
                } else {
                    proof {
                        assert(ls[0].len() == 1);
                        assert(seg_lists(self.segs@) =~= ls.remove(0));
                    }
                }
                self.len = self.len - 1;
                assert(self@ =~= old(self)@.subrange(1, old(self)@.len() as int));
                r
            },
        }
    }

    /// Takes the last element. An emptied segment is dropped.
    pub fn pop_back(&mut self) -> (r: Option<Vec<u8>>)
        requires
            old(self).wf(),
        ensures
            final(self).wf(),
            (popped(r), final(self)@) == back_popped(old(self)@),
    {
        let ghost ls = seg_lists(self.segs@);
        let ghost n = ls.len();
        match self.segs.pop_back() {
            None => {
                assert(seg_lists(self.segs@) =~= ls);
                assert(ls =~= Seq::empty());
                None
            },
            Some(back) => {
                let mut seg = back;
                proof {
                    lemma_cat_replace(ls, n - 1, ls[n - 1].drop_last());
                    assert(crate::packed::cat(ls.subrange(n as int, n as int)) =~= Seq::empty());
                    lemma_cat_drop(ls, n - 1);
                }
                assert(crate::list_data::list_view(*seg) == ls[n - 1]);
                let d = own(&mut seg);
                let r = d.pop_back();
                assert(ls[n - 1].len() > 0);
                assert(crate::list_data::list_view(*seg) =~= ls[n - 1].drop_last());
                if seg.len() > 0 {
                    self.segs.push_back(seg);
                    proof {
                        assert(seg_lists(self.segs@) =~= ls.update(n - 1, ls[n - 1].drop_last()));
                    }
                } else {
                    proof {
                        assert(ls[n - 1].len() == 1);
                        assert(seg_lists(self.segs@) =~= ls.remove(n - 1));
                    }
                }
                self.len = self.len - 1;
                assert(self@ =~= old(self)@.drop_last());
                r
            },
        }
    }

    /// The segment that holds element `idx`, and its place there.
    fn locate(&self, idx: usize) -> (r: (usize, usize))
        requires
            self.wf(),
            idx < self@.len(),
        ensures
            r.0 < self.segs@.len(),
            r.1 < seg_lists(self.segs@)[r.0 as int].len(),
            idx == crate::packed::cat(seg_lists(self.segs@).subrange(0, r.0 as int)).len() + r.1,
            seg_lists(self.segs@)[r.0 as int][r.1 as int] == self@[idx as int],
    {
        let ghost ls = seg_lists(self.segs@);
        let mut remaining: usize = idx;
        let mut si: usize = 0;
        assert(crate::packed::cat(ls.subrange(0, 0)) =~= Seq::empty());
        assert(ls.len() > 0) by {
            if ls.len() == 0 {
                assert(ls =~= Seq::empty());
            }
        }
        assert(crate::list_data::list_view(*self.segs@[0]) == ls[0]);
        while remaining >= self.segs[si].len()
            invariant
                self.wf(),
                ls == seg_lists(self.segs@),
                idx < self@.len(),
                si < self.segs@.len(),
                idx == crate::packed::cat(ls.subrange(0, si as int)).len() + remaining,
                crate::list_data::list_view(*self.segs@[si as int]) == ls[si as int],
            decreases self.segs@.len() - si,
        {
            proof {
                crate::packed::lemma_cat_split(ls, si as int);
            }
            let total: usize = self.segs.len();
            remaining = remaining - self.segs[si].len();
            si = si + 1;
            proof {
                if si == total {
                    assert(ls.subrange(0, si as int) =~= ls);
                    assert(false);
                }
                assert(crate::list_data::list_view(*self.segs@[si as int]) == ls[si as int]);
            }
        }
        proof {
            crate::packed::lemma_cat_split(ls, si as int);
        }
        (si, remaining)
    }

    /// The element at `idx`.
    pub fn get(&self, idx: usize) -> (r: Option<&Vec<u8>>)
        requires
            self.wf(),
        ensures
            match r {
                Some(v) => idx < self@.len() && v@ == self@[idx as int],
                None => idx >= self@.len(),
            },
    {
        if idx >= self.len {
            return None;
        }
        let (si, off) = self.locate(idx);
        assert(crate::list_data::list_view(*self.segs@[si as int]) == seg_lists(
            self.segs@,
        )[si as int]);
        Some(&self.segs[si][off])
    }

    /// Replaces the element at `idx` and hands back the old one.
    pub fn set(&mut self, idx: usize, val: Vec<u8>) -> (r: Vec<u8>)
        requires
            old(self).wf(),
            idx < old(self)@.len(),
        ensures
            final(self).wf(),
            r@ == old(self)@[idx as int],
            final(self)@ == old(self)@.update(idx as int, val@),
    {
        let ghost ls = seg_lists(self.segs@);
        let ghost vv = val@;
        let (si, off) = self.locate(idx);
        match self.segs.remove(si) {
            None => {
                assert(false);
                val
            },
            Some(arc) => {
                let mut seg = arc;
                assert(crate::list_data::list_view(*seg) == ls[si as int]);
                let d = own(&mut seg);
                let old_v = match d.remove(off) {
                    None => {
                        assert(false);
                        Vec::new()
                    },
                    Some(o) => o,
                };
                d.insert(off, val);
                let ghost x = ls[si as int].update(off as int, vv);
                assert(crate::list_data::list_view(*seg) =~= x);
                self.segs.insert(si, seg);
                proof {
                    assert(seg_lists(self.segs@) =~= ls.update(si as int, x));
                    lemma_cat_replace(ls, si as int, x);
                    assert(self@ =~= old(self)@.update(idx as int, vv));
                }
                old_v
            },
        }
    }

    /// Inserts before element `idx`, or appends when `idx` is past the end.
    /// A segment that grows too long is split in half.
    pub fn insert(&mut self, idx: usize, val: Vec<u8>)
        requires
            old(self).wf(),
            old(self)@.len() < usize::MAX,
        ensures
            final(self).wf(),
            final(self)@ == (if idx < old(self)@.len() {
                old(self)@.insert(idx as int, val@)
            } else {
                old(self)@.push(val@)
            }),
    {
        if idx >= self.len {
            self.push_back(val);
            return;
        }
        let ghost ls = seg_lists(self.segs@);
        let ghost vv = val@;
        let (si, off) = self.locate(idx);
        match self.segs.remove(si) {
            None => {},
            Some(arc) => {
                let mut seg = arc;
                let ghost before = self.segs@;
                assert(crate::list_data::list_view(*seg) == ls[si as int]);
                let d = own(&mut seg);
                d.insert(off, val);
                let ghost x = ls[si as int].insert(off as int, vv);
                assert(crate::list_data::list_view(*d) =~= x);
                proof {
                    lemma_cat_replace(ls, si as int, x);
                    assert(crate::packed::cat(ls.update(si as int, x)) =~= old(self)@.insert(
                        idx as int,
                        vv,
                    ));
                }
                if d.len() > SEG_CAP {
                    let half: usize = d.len() / 2;
                    let tail = d.split_off(half);
                    let ghost a = x.subrange(0, half as int);
                    let ghost b = x.subrange(half as int, x.len() as int);
                    assert(crate::list_data::list_view(*seg) =~= a);
                    assert(crate::list_data::list_view(tail) =~= b);
                    let rest: usize = self.segs.len();
                    assert(si <= rest);
                    self.segs.insert(si, seg);
                    let _now: usize = self.segs.len();
                    self.segs.insert(si + 1, Arc::new(tail));
                    proof {
                        assert(seg_lists(self.segs@) =~= ls.update(si as int, a).insert(
                            si + 1,
                            b,
                        ));
                        assert(a + b =~= x);
                        lemma_cat_two(ls, si as int, a, b);
                    }
                } else {
                    assert(crate::list_data::list_view(*seg) =~= x);
                    self.segs.insert(si, seg);
                    assert(seg_lists(self.segs@) =~= ls.update(si as int, x));
                }
                self.len = self.len + 1;
            },
        }
    }

    /// The place of the first element equal to `val`.
    pub fn position(&self, val: &[u8]) -> (r: Option<usize>)
        requires
            self.wf(),
        ensures
            match r {
                Some(i) => {
                    &&& i < self@.len()
                    &&& self@[i as int] == val@
                    &&& forall|j: int| 0 <= j < i ==> self@[j] != val@
                },
                None => forall|j: int| 0 <= j < self@.len() ==> self@[j] != val@,
            },
    {
        let ghost ls = seg_lists(self.segs@);
        let mut base: usize = 0;
        let mut si: usize = 0;
        assert(crate::packed::cat(ls.subrange(0, 0)) =~= Seq::empty());
        while si < self.segs.len()
            invariant
                self.wf(),
                ls == seg_lists(self.segs@),
                si <= self.segs@.len(),
                base == crate::packed::cat(ls.subrange(0, si as int)).len(),
                base <= self@.len(),
                forall|j: int| 0 <= j < base ==> self@[j] != val@,
            decreases self.segs@.len() - si,
        {
            proof {
                crate::packed::lemma_cat_split(ls, si as int);
            }
            let seg = &self.segs[si];
            assert(crate::list_data::list_view(**seg) == ls[si as int]);
            let mut i: usize = 0;
            while i < seg.len()
                invariant
                    self.wf(),
                    ls == seg_lists(self.segs@),
                    si < self.segs@.len(),
                    crate::list_data::list_view(**seg) == ls[si as int],
                    self@ == crate::packed::cat(ls.subrange(0, si as int)) + ls[si as int]
                        + crate::packed::cat(ls.subrange(si + 1, ls.len() as int)),
                    base == crate::packed::cat(ls.subrange(0, si as int)).len(),
                    base + ls[si as int].len() <= self@.len(),
                    i <= ls[si as int].len(),
                    forall|j: int| 0 <= j < base + i ==> self@[j] != val@,
                decreases ls[si as int].len() - i,
            {
                assert(self@[base + i] == ls[si as int][i as int]);
                if bytes_eq(seg[i].as_slice(), val) {
                    return Some(base + i);
                }
                i = i + 1;
            }
            base = base + seg.len();
            si = si + 1;
        }
        assert(ls.subrange(0, si as int) =~= ls);
        None
    }

    /// Every element, front to back.
    pub fn iter(&self) -> (r: Vec<&Vec<u8>>)
        requires
            self.wf(),
        ensures
            r@.len() == self@.len(),
            forall|i: int| 0 <= i < r@.len() ==> (#[trigger] r@[i])@ == self@[i],
    {
        self.iter_range(0, self.len)
    }

    /// Up to `count` elements from `start` on.
    pub fn iter_range(&self, start: usize, count: usize) -> (r: Vec<&Vec<u8>>)
        requires
            self.wf(),
        ensures
            r@.len() == (if start >= self@.len() {
                0
            } else if count <= self@.len() - start {
                count as int
            } else {
                self@.len() - start
            }),
            forall|i: int| 0 <= i < r@.len() ==> (#[trigger] r@[i])@ == self@[start + i],
    {
        let mut out: Vec<&Vec<u8>> = Vec::new();
        if start >= self.len || count == 0 {
            return out;
        }
        let ghost ls = seg_lists(self.segs@);
        let (s0, o0) = self.locate(start);
        let mut si: usize = s0;
        let mut off: usize = o0;
        while out.len() < count && si < self.segs.len()
            invariant
                self.wf(),
                ls == seg_lists(self.segs@),
                start < self@.len(),
                si <= self.segs@.len(),
                si < self.segs@.len() ==> off <= ls[si as int].len(),
                si == self.segs@.len() ==> off == 0,
                out@.len() <= count,
                start + out@.len() == crate::packed::cat(ls.subrange(0, si as int)).len() + off,
                start + out@.len() <= self@.len(),
                forall|i: int| 0 <= i < out@.len() ==> (#[trigger] out@[i])@ == self@[start + i],
            decreases self.segs@.len() - si, (if si < self.segs@.len() {
                    ls[si as int].len() - off
                } else {
                    0
                }),
        {
            proof {
                crate::packed::lemma_cat_split(ls, si as int);
            }
            let seg = &self.segs[si];
            assert(crate::list_data::list_view(**seg) == ls[si as int]);
            if off < seg.len() {
                assert(self@[start + out@.len()] == ls[si as int][off as int]);
                out.push(&seg[off]);
                off = off + 1;
            } else {
                si = si + 1;
                off = 0;
            }
        }
        proof {
            if si == self.segs@.len() {
                assert(ls.subrange(0, si as int) =~= ls);
            }
        }
        out
    }

    /// Takes out occurrences of `val`: up to `count` from the front, up to
    /// `-count` from the back, all of them for 0. Returns how many went and
    /// the change of the list's weight.
    pub fn remove_occurrences(&mut self, val: &[u8], count: i64) -> (r: (usize, i64))
        requires
            old(self).wf(),
        ensures
            final(self).wf(),
            r.0 == crate::list_data::taken(
                old(self)@,
                val@,
                crate::list_data::rem_limit(count),
            ),
            final(self)@ == crate::list_data::rem_result(old(self)@, val@, count),
            r.1 == crate::list_data::freed_delta(
                crate::list_data::capped(
                    r.0 as nat * crate::list_data::item_weight(val@.len()),
                ) as nat,
            ),
    {
        let limit: usize = rem_limit_of(count);
        let ghost whole = self@;
        let ghost v = val@;
        let from_back: bool = count < 0;
        proof {
            if limit != crate::list_data::rem_limit(count) {
                crate::list_data::lemma_limit_irrelevant(
                    whole,
                    v,
                    limit as nat,
                    crate::list_data::rem_limit(count),
                );
            }
        }
        let removed: usize = if from_back {
            self.remove_from_back(val, limit)
        } else {
            self.remove_from_front(val, limit)
        };
        let each: u64 = crate::list_data::list_item_weight(val.len());
        let freed: u64 = scaled(removed, each);
        proof {
            lemma_scaled(removed as nat, crate::list_data::item_weight(v.len()));
        }
        (removed, freed_as_delta(freed))
    }

    fn remove_from_front(&mut self, val: &[u8], limit: usize) -> (removed: usize)
        requires
            old(self).wf(),
        ensures
            final(self).wf(),
            removed == crate::list_data::taken(old(self)@, val@, limit as nat),
            final(self)@ == crate::list_data::without_first(old(self)@, val@, limit as nat),
    {
        let ghost whole = self@;
        let ghost v = val@;
        let mut removed: usize = 0;
        let mut si: usize = 0;
        proof {
            let ls = seg_lists(self.segs@);
            assert(crate::packed::cat(ls.subrange(0, 0)) =~= Seq::empty());
            assert(ls.subrange(0, ls.len() as int) =~= ls);
            crate::list_data::lemma_occurrences_add(whole, Seq::empty(), v);
        }
        while si < self.segs.len()
            invariant
                v == val@,
                si <= self.segs@.len(),
                removed <= limit,
                seg_sizes(seg_lists(self.segs@)),
                self.len == self@.len() + removed,
                whole.len() == self.len,
                crate::list_data::taken(whole, v, limit as nat) == removed
                    + crate::list_data::taken(
                    crate::packed::cat(
                        seg_lists(self.segs@).subrange(si as int, self.segs@.len() as int),
                    ),
                    v,
                    (limit - removed) as nat,
                ),
                crate::list_data::without_first(whole, v, limit as nat) == crate::packed::cat(
                    seg_lists(self.segs@).subrange(0, si as int),
                ) + crate::list_data::without_first(
                    crate::packed::cat(
                        seg_lists(self.segs@).subrange(si as int, self.segs@.len() as int),
                    ),
                    v,
                    (limit - removed) as nat,
                ),
            decreases self.segs@.len() - si,
        {
            let ghost ls = seg_lists(self.segs@);
            let ghost n = ls.len() as int;
            let ghost x = ls[si as int];
            let ghost pre = ls.subrange(0, si as int);
            let ghost tail = ls.subrange(si as int, n);
            let ghost post = ls.subrange(si + 1, n);
            let ghost left = (limit - removed) as nat;
            assert(crate::list_data::list_view(*self.segs@[si as int]) == x);
            proof {
                assert(tail =~= seq![x] + post);
                lemma_cat_front(x, post);
                crate::packed::lemma_cat_split(ls, si as int);
                crate::list_data::lemma_without_first_add(x, crate::packed::cat(post), v, left);
                crate::list_data::lemma_occurrences_add(x, crate::packed::cat(post), v);
            }
            if removed >= limit || !list_contains(&self.segs[si], val) {
                proof {
                    if left > 0 {
                        crate::list_data::lemma_without_none(x, v, left);
                    }
                    assert(crate::list_data::taken(x, v, left) == 0);
                    assert(crate::list_data::without_first(x, v, left) == x);
                    assert(ls.subrange(0, si + 1) =~= pre.push(x));
                    lemma_cat_back(pre, x);
                    let w = crate::list_data::without_first(crate::packed::cat(post), v, left);
                    assert(crate::packed::cat(pre) + (x + w) =~= crate::packed::cat(pre) + x + w);
                }
                si = si + 1;
            } else {
                match self.segs.remove(si) {
                    None => {
                        assert(false);
                    },
                    Some(arc) => {
                        let mut seg = arc;
                        let d = own(&mut seg);
                        let (gone, _freed) = flat_lrem(d, val, limit - removed, false);
                        let ghost y = crate::list_data::without_first(x, v, left);
                        assert(crate::list_data::list_view(*seg) == y);
                        proof {
                            let w = crate::list_data::without_first(
                                crate::packed::cat(post),
                                v,
                                (left - gone) as nat,
                            );
                            assert(crate::packed::cat(pre) + (y + w) =~= crate::packed::cat(pre) + y
                                + w);
                            lemma_cat_replace(ls, si as int, y);
                            lemma_cat_drop(ls, si as int);
                        }
                        removed = removed + gone;
                        if seg.len() > 0 {
                            self.segs.insert(si, seg);
                            proof {
                                assert(seg_lists(self.segs@) =~= ls.update(si as int, y));
                                assert(seg_lists(self.segs@).subrange(0, si + 1) =~= pre.push(y));
                                assert(seg_lists(self.segs@).subrange(si + 1, n) =~= post);
                                lemma_cat_back(pre, y);
                            }
                            si = si + 1;
                        } else {
                            proof {
                                assert(y =~= Seq::empty());
                                assert(seg_lists(self.segs@) =~= ls.remove(si as int));
                                assert(seg_lists(self.segs@).subrange(0, si as int) =~= pre);
                                assert(seg_lists(self.segs@).subrange(si as int, n - 1) =~= post);
                                assert(crate::packed::cat(pre) + y =~= crate::packed::cat(pre));
                            }
                        }
                    },
                }
            }
        }
        proof {
            let ls = seg_lists(self.segs@);
            let e = ls.subrange(si as int, ls.len() as int);
            assert(e =~= Seq::empty());
            assert(crate::packed::cat(e) =~= Seq::empty());
            assert(ls.subrange(0, si as int) =~= ls);
            let w = crate::list_data::without_first(
                crate::packed::cat(e),
                v,
                (limit - removed) as nat,
            );
            assert(w =~= Seq::empty());
            assert(crate::packed::cat(ls) + w =~= crate::packed::cat(ls));
        }
        self.len = self.len - removed;
        removed
    }

    fn remove_from_back(&mut self, val: &[u8], limit: usize) -> (removed: usize)
        requires
            old(self).wf(),
        ensures
            final(self).wf(),
            removed == crate::list_data::taken(old(self)@, val@, limit as nat),
            final(self)@ == crate::list_data::without_last(old(self)@, val@, limit as nat),
    {
        let ghost whole = self@;
        let ghost v = val@;
        let mut removed: usize = 0;
        let mut si: usize = self.segs.len();
        proof {
            let ls = seg_lists(self.segs@);
            let e = ls.subrange(si as int, ls.len() as int);
            assert(e =~= Seq::empty());
            assert(crate::packed::cat(e) =~= Seq::empty());
            assert(ls.subrange(0, ls.len() as int) =~= ls);
            crate::list_data::lemma_occurrences_add(whole, Seq::empty(), v);
            let w = crate::list_data::without_last(whole, v, limit as nat);
            assert(w + crate::packed::cat(e) =~= w);
        }
        while si > 0
            invariant
                v == val@,
                si <= self.segs@.len(),
                removed <= limit,
                seg_sizes(seg_lists(self.segs@)),
                self.len == self@.len() + removed,
                whole.len() == self.len,
                crate::list_data::taken(whole, v, limit as nat) == removed
                    + crate::list_data::taken(
                    crate::packed::cat(seg_lists(self.segs@).subrange(0, si as int)),
                    v,
                    (limit - removed) as nat,
                ),
                crate::list_data::without_last(whole, v, limit as nat)
                    == crate::list_data::without_last(
                    crate::packed::cat(seg_lists(self.segs@).subrange(0, si as int)),
                    v,
                    (limit - removed) as nat,
                ) + crate::packed::cat(
                    seg_lists(self.segs@).subrange(si as int, self.segs@.len() as int),
                ),
            decreases si,
        {
            let ghost ls = seg_lists(self.segs@);
            let ghost n = ls.len() as int;
            let ghost at = (si - 1) as int;
            let ghost x = ls[at];
            let ghost pre = ls.subrange(0, at);
            let ghost post = ls.subrange(si as int, n);
            let ghost left = (limit - removed) as nat;
            si = si - 1;
            assert(crate::list_data::list_view(*self.segs@[at]) == x);
            proof {
                assert(ls.subrange(0, at + 1) =~= pre.push(x));
                lemma_cat_back(pre, x);
                crate::packed::lemma_cat_split(ls, at);
                crate::list_data::lemma_without_last_add(crate::packed::cat(pre), x, v, left);
                crate::list_data::lemma_occurrences_add(crate::packed::cat(pre), x, v);
                crate::list_data::lemma_occurrences_add(x, Seq::empty(), v);
                assert(ls.subrange(at, n) =~= seq![x] + post);
                lemma_cat_front(x, post);
            }
            if removed >= limit || !list_contains(&self.segs[si], val) {
                proof {
                    if left > 0 {
                        crate::list_data::lemma_without_none(x, v, left);
                    }
                    assert(crate::list_data::taken(x, v, left) == 0);
                    assert(crate::list_data::without_last(x, v, left) == x);
                    let w = crate::list_data::without_last(crate::packed::cat(pre), v, left);
                    assert((w + x) + crate::packed::cat(post) =~= w + (x + crate::packed::cat(
                        post,
                    )));
                }
            } else {
                match self.segs.remove(si) {
                    None => {
                        assert(false);
                    },
                    Some(arc) => {
                        let mut seg = arc;
                        let d = own(&mut seg);
                        let (gone, _freed) = flat_lrem(d, val, limit - removed, true);
                        let ghost y = crate::list_data::without_last(x, v, left);
                        assert(crate::list_data::list_view(*seg) == y);
                        proof {
                            let w = crate::list_data::without_last(
                                crate::packed::cat(pre),
                                v,
                                (left - gone) as nat,
                            );
                            assert((w + y) + crate::packed::cat(post) =~= w + (y
                                + crate::packed::cat(post)));
                            lemma_cat_replace(ls, at, y);
                            lemma_cat_drop(ls, at);
                            lemma_cat_front(y, post);
                        }
                        removed = removed + gone;
                        if seg.len() > 0 {
                            self.segs.insert(si, seg);
                            proof {
                                assert(seg_lists(self.segs@) =~= ls.update(at, y));
                                assert(seg_lists(self.segs@).subrange(0, at) =~= pre);
                                assert(seg_lists(self.segs@).subrange(at, n) =~= seq![y] + post);
                            }
                        } else {
                            proof {
                                assert(y =~= Seq::empty());
                                assert(seg_lists(self.segs@) =~= ls.remove(at));
                                assert(seg_lists(self.segs@).subrange(0, at) =~= pre);
                                assert(seg_lists(self.segs@).subrange(at, n - 1) =~= post);
                                assert(y + crate::packed::cat(post) =~= crate::packed::cat(post));
                            }
                        }
                    },
                }
            }
        }
        proof {
            let ls = seg_lists(self.segs@);
            let e = ls.subrange(0, 0);
            assert(e =~= Seq::empty());
            assert(crate::packed::cat(e) =~= Seq::empty());
            assert(ls.subrange(0, ls.len() as int) =~= ls);
            let w = crate::list_data::without_last(
                crate::packed::cat(e),
                v,
                (limit - removed) as nat,
            );
            assert(w =~= Seq::empty());
            assert(w + crate::packed::cat(ls) =~= crate::packed::cat(ls));
        }
        self.len = self.len - removed;
        removed
    }

    /// Empties the list; returns the change of its weight.
    pub fn clear(&mut self) -> (r: i64)
        requires
            old(self).wf(),
        ensures
            final(self).wf(),
            final(self)@ == Seq::<Seq<u8>>::empty(),
            r == crate::list_data::freed_delta(
                crate::list_data::capped(crate::list_data::items_weight(old(self)@)) as nat,
            ),
    {
        let freed: u64 = self.weight();
        self.segs = VecDeque::new();
        self.len = 0;
        assert(seg_lists(self.segs@) =~= Seq::empty());
        freed_as_delta(freed)
    }

    /// Bytes charged for the elements.
    pub fn weight(&self) -> (r: u64)
        requires
            self.wf(),
        ensures
            r == crate::list_data::capped(crate::list_data::items_weight(self@)),
    {
        let ghost ls = seg_lists(self.segs@);
        let mut acc: u64 = 0;
        let mut si: usize = 0;
        assert(crate::packed::cat(ls.subrange(0, 0)) =~= Seq::empty());
        while si < self.segs.len()
            invariant
                ls == seg_lists(self.segs@),
                si <= self.segs@.len(),
                acc == crate::list_data::capped(
                    crate::list_data::items_weight(
                        crate::packed::cat(ls.subrange(0, si as int)),
                    ),
                ),
            decreases self.segs@.len() - si,
        {
            proof {
                crate::packed::lemma_cat_split(ls, si as int);
                crate::list_data::lemma_items_weight_add(
                    crate::packed::cat(ls.subrange(0, si as int)),
                    ls[si as int],
                );
            }
            assert(crate::list_data::list_view(*self.segs@[si as int]) == ls[si as int]);
            acc = acc.saturating_add(list_weight(&self.segs[si]));
            si = si + 1;
        }
        assert(ls.subrange(0, si as int) =~= ls);
        acc
    }

    /// Keeps the elements `start ..= stop`; returns the change of the list's
    /// weight. Segments wholly outside are released without a copy.
    pub fn trim_to(&mut self, start: usize, stop: usize) -> (r: i64)
        requires
            old(self).wf(),
            start <= stop < old(self)@.len(),
        ensures
            final(self).wf(),
            final(self)@ == old(self)@.subrange(start as int, stop + 1),
            r == crate::list_data::freed_delta(
                crate::list_data::capped(
                    crate::list_data::items_weight(old(self)@.subrange(0, start as int))
                        + crate::list_data::items_weight(
                        old(self)@.subrange(stop + 1, old(self)@.len() as int),
                    ),
                ) as nat,
            ),
    {
        let ghost whole = self@;
        let front: u64 = self.drop_front(start);
        let back: u64 = self.drop_back(stop - start + 1);
        proof {
            let rest = whole.subrange(start as int, whole.len() as int);
            assert(rest.subrange(0, stop - start + 1) =~= whole.subrange(start as int, stop + 1));
            assert(rest.subrange(stop - start + 1, rest.len() as int) =~= whole.subrange(
                stop + 1,
                whole.len() as int,
            ));
        }
        freed_as_delta(front.saturating_add(back))
    }

    /// Drops the first `n` elements; returns the bytes freed.
    fn drop_front(&mut self, n: usize) -> (freed: u64)
        requires
            old(self).wf(),
            n <= old(self)@.len(),
        ensures
            final(self).wf(),
            final(self)@ == old(self)@.subrange(n as int, old(self)@.len() as int),
            freed == crate::list_data::capped(
                crate::list_data::items_weight(old(self)@.subrange(0, n as int)),
            ),
    {
        let ghost whole = self@;
        let mut todo: usize = n;
        let mut freed: u64 = 0;
        assert(whole.subrange(0, 0) =~= Seq::empty());
        assert(whole.subrange(0, whole.len() as int) =~= whole);
        while todo > 0
            invariant
                self.wf(),
                n <= whole.len(),
                todo <= n,
                self@ == whole.subrange(n - todo, whole.len() as int),
                freed == crate::list_data::capped(
                    crate::list_data::items_weight(whole.subrange(0, n - todo)),
                ),
            decreases todo,
        {
            let ghost ls = seg_lists(self.segs@);
            let ghost done = (n - todo) as int;
            let ghost cur = self@;
            match self.segs.pop_front() {
                None => {
                    assert(ls =~= Seq::empty());
                    assert(false);
                },
                Some(arc) => {
                    let mut seg = arc;
                    let ghost x = ls[0];
                    assert(crate::list_data::list_view(*seg) == x);
                    proof {
                        lemma_cat_replace(ls, 0, x);
                        assert(crate::packed::cat(ls.subrange(0, 0)) =~= Seq::empty());
                        lemma_cat_drop(ls, 0);
                        assert(cur =~= x + crate::packed::cat(ls.subrange(1, ls.len() as int)));
                        assert(seg_lists(self.segs@) =~= ls.remove(0));
                        assert(crate::packed::cat(ls.subrange(1, ls.len() as int)) =~= cur.subrange(
                            x.len() as int,
                            cur.len() as int,
                        ));
                        assert(x =~= cur.subrange(0, x.len() as int));
                        assert(x =~= whole.subrange(done, done + x.len()));
                    }
                    let k: usize = seg.len();
                    if k <= todo {
                        freed = freed.saturating_add(list_weight(&seg));
                        self.len = self.len - k;
                        todo = todo - k;
                        proof {
                            assert(whole.subrange(0, done) + x =~= whole.subrange(0, done + k));
                            crate::list_data::lemma_items_weight_add(whole.subrange(0, done), x);
                            assert(self@ =~= whole.subrange(done + k, whole.len() as int));
                        }
                    } else {
                        let d = own(&mut seg);
                        let mut tail = d.split_off(todo);
                        let ghost a = x.subrange(0, todo as int);
                        let ghost b = x.subrange(todo as int, k as int);
                        assert(crate::list_data::list_view(*d) =~= a);
                        assert(crate::list_data::list_view(tail) =~= b);
                        freed = freed.saturating_add(list_weight(d));
                        self.segs.push_front(Arc::new(tail));
                        self.len = self.len - todo;
                        proof {
                            assert(seg_lists(self.segs@) =~= ls.update(0, b));
                            lemma_cat_replace(ls, 0, b);
                            assert(whole.subrange(0, done) + a =~= whole.subrange(0, done + todo));
                            crate::list_data::lemma_items_weight_add(whole.subrange(0, done), a);
                            assert(self@ =~= whole.subrange(done + todo, whole.len() as int));
                        }
                        todo = 0;
                    }
                },
            }
        }
        freed
    }

    /// Keeps the first `keep` elements; returns the bytes freed.
    fn drop_back(&mut self, keep: usize) -> (freed: u64)
        requires
            old(self).wf(),
            keep <= old(self)@.len(),
        ensures
            final(self).wf(),
            final(self)@ == old(self)@.subrange(0, keep as int),
            freed == crate::list_data::capped(
                crate::list_data::items_weight(
                    old(self)@.subrange(keep as int, old(self)@.len() as int),
                ),
            ),
    {
        let ghost whole = self@;
        let mut freed: u64 = 0;
        assert(whole.subrange(0, whole.len() as int) =~= whole);
        assert(whole.subrange(whole.len() as int, whole.len() as int) =~= Seq::empty());
        while self.len > keep
            invariant
                self.wf(),
                keep <= self@.len() <= whole.len(),
                self@ == whole.subrange(0, self@.len() as int),
                freed == crate::list_data::capped(
                    crate::list_data::items_weight(
                        whole.subrange(self@.len() as int, whole.len() as int),
                    ),
                ),
            decreases self@.len(),
        {
            let ghost ls = seg_lists(self.segs@);
            let ghost n = ls.len() as int;
            let ghost cur = self@;
            let over: usize = self.len - keep;
            match self.segs.pop_back() {
                None => {
                    assert(ls =~= Seq::empty());
                    assert(false);
                },
                Some(arc) => {
                    let mut seg = arc;
                    let ghost x = ls[n - 1];
                    assert(crate::list_data::list_view(*seg) == x);
                    proof {
                        lemma_cat_replace(ls, n - 1, x);
                        assert(crate::packed::cat(ls.subrange(n, n)) =~= Seq::empty());
                        lemma_cat_drop(ls, n - 1);
                        assert(cur =~= crate::packed::cat(ls.subrange(0, n - 1)) + x);
                        assert(seg_lists(self.segs@) =~= ls.remove(n - 1));
                        assert(x =~= cur.subrange(cur.len() - x.len(), cur.len() as int));
                        assert(x =~= whole.subrange(cur.len() - x.len(), cur.len() as int));
                        assert(crate::packed::cat(ls.subrange(0, n - 1)) =~= cur.subrange(
                            0,
                            cur.len() - x.len(),
                        ));
                    }
                    let k: usize = seg.len();
                    let ghost done = whole.subrange(cur.len() as int, whole.len() as int);
                    if k <= over {
                        freed = freed.saturating_add(list_weight(&seg));
                        self.len = self.len - k;
                        proof {
                            crate::list_data::lemma_items_weight_add(x, done);
                            assert(x + done =~= whole.subrange(
                                cur.len() - k,
                                whole.len() as int,
                            ));
                            assert(self@ =~= whole.subrange(0, cur.len() - k));
                        }
                    } else {
                        let d = own(&mut seg);
                        let tail = d.split_off(k - over);
                        let ghost a = x.subrange(0, k - over);
                        let ghost b = x.subrange(k - over, k as int);
                        assert(crate::list_data::list_view(tail) =~= b);
                        freed = freed.saturating_add(list_weight(&tail));
                        assert(crate::list_data::list_view(*seg) =~= a);
                        self.segs.push_back(seg);
                        self.len = self.len - over;
                        proof {
                            assert(seg_lists(self.segs@) =~= ls.update(n - 1, a));
                            lemma_cat_replace(ls, n - 1, a);
                            crate::list_data::lemma_items_weight_add(b, done);
                            assert(b + done =~= whole.subrange(keep as int, whole.len() as int));
                            assert(self@ =~= whole.subrange(0, keep as int));
                        }
                    }
                },
            }
        }
        freed
    }
}

/// A clone shares every segment.
impl Clone for SegListData {
    fn clone(&self) -> (r: Self)
        ensures
            r@ == self@,
            r.wf() == self.wf(),
    {
        let mut segs: VecDeque<Arc<ListData>> = VecDeque::new();
        let mut i: usize = 0;
        while i < self.segs.len()
            invariant
                i <= self.segs@.len(),
                segs@ == self.segs@.subrange(0, i as int),
            decreases self.segs@.len() - i,
        {
            segs.push_back(share(&self.segs[i]));
            i = i + 1;
        }
        assert(segs@ =~= self.segs@);
        SegListData { segs, len: self.len }
    }
}

/// `n` times `each`, held to what fits in a `u64`.
fn scaled(n: usize, each: u64) -> (r: u64)
    ensures
        r == crate::list_data::capped((n * each) as nat),
{
    proof {
        assert(n * each <= 0xffff_ffff_ffff_ffff * 0xffff_ffff_ffff_ffff) by (nonlinear_arith)
            requires
                0 <= n <= 0xffff_ffff_ffff_ffff,
                0 <= each <= 0xffff_ffff_ffff_ffff,
        ;
    }
    let p: u128 = (n as u128) * (each as u128);
    if p > u64::MAX as u128 {
        u64::MAX
    } else {
        p as u64
    }
}

proof fn lemma_scaled(n: nat, w: nat)
    ensures
        crate::list_data::capped(n * crate::list_data::capped(w) as nat)
            == crate::list_data::capped(n * w),
{
    if w > u64::MAX {
        if n > 0 {
            assert(n * w > u64::MAX) by (nonlinear_arith)
                requires
                    n >= 1,
                    w > u64::MAX,
            ;
            assert(n * (u64::MAX as nat) >= u64::MAX) by (nonlinear_arith)
                requires
                    n >= 1,
            ;
        } else {
            assert(0 * w == 0);
            assert(0 * (u64::MAX as nat) == 0);
        }
    }
}

/// What a pop gives.
pub open spec fn popped(r: Option<Vec<u8>>) -> Option<Seq<u8>> {
    match r {
        Some(v) => Some(v@),
        None => None,
    }
}

/// The last element of a list, if it has one, and the list without it.
pub open spec fn back_popped(l: Seq<Seq<u8>>) -> (Option<Seq<u8>>, Seq<Seq<u8>>) {
    if l.len() == 0 {
        (None, l)
    } else {
        (Some(l.last()), l.drop_last())
    }
}

/// The first element of a list, if it has one, and the list without it.
pub open spec fn front_popped(l: Seq<Seq<u8>>) -> (Option<Seq<u8>>, Seq<Seq<u8>>) {
    if l.len() == 0 {
        (None, l)
    } else {
        (Some(l[0]), l.subrange(1, l.len() as int))
    }
}

/// What was appended is what is popped at the back, and the list is what it
/// was, however its segments were cut.
pub proof fn lemma_push_pop_back(l: Seq<Seq<u8>>, v: Seq<u8>)
    ensures
        back_popped(l.push(v)) == (Some(v), l),
{
    assert(l.push(v).drop_last() =~= l);
}

/// What was prepended is what is popped at the front, and the list is what
/// it was, however its segments were cut.
pub proof fn lemma_push_pop_front(l: Seq<Seq<u8>>, v: Seq<u8>)
    ensures
        front_popped(seq![v] + l) == (Some(v), l),
{
    let p = seq![v] + l;
    assert(p.subrange(1, p.len() as int) =~= l);
}

} // verus!
