//! Lists, whatever their encoding.
use vstd::prelude::*;
use std::sync::Arc;
use crate::bytes::copy_bytes;
use crate::list::{FlatList, SegList};
use crate::list_seg::SEG_PROMOTE;
use crate::shared::{unshare, unwrap};
use crate::small_list::{PushResult, SmallListData};
use crate::value::Value;

verus! {

/// A flat list of an inline one's elements.
pub fn promote(l: &SmallListData) -> (r: FlatList)
    requires
        l.wf(),
    ensures
        r.wf(),
        r@ == l@,
{
    FlatList::from_vec(small_items(l))
}

/// An inline list's elements, copied out.
fn small_items(l: &SmallListData) -> (r: Vec<Vec<u8>>)
    requires
        l.wf(),
    ensures
        crate::bytes::deep(r@) == l@,
{
    let n: usize = l.len();
    let mut it = l.iter();
    let mut out: Vec<Vec<u8>> = Vec::new();
    let mut i: usize = 0;
    assert(l@.take(0) =~= Seq::empty());
    assert(l@.subrange(0, l@.len() as int) =~= l@);
    while i < n
        invariant
            it.wf(),
            n == l@.len(),
            i <= n,
            it.rest() == l@.subrange(i as int, n as int),
            crate::bytes::deep(out@) == l@.take(i as int),
        decreases n - i,
    {
        let ghost before = crate::bytes::deep(out@);
        match it.next() {
            Some(e) => {
                out.push(copy_bytes(e));
                assert(crate::bytes::deep(out@) =~= before.push(l@[i as int]));
            },
            None => {},
        }
        proof {
            assert(l@.take(i + 1) =~= l@.take(i as int).push(l@[i as int]));
            assert(l@.subrange(i as int, n as int).subrange(1, n - i) =~= l@.subrange(
                i + 1,
                n as int,
            ));
        }
        i = i + 1;
    }
    assert(l@.take(n as int) =~= l@);
    out
}

proof fn lemma_flat_clone(a: Arc<FlatList>, b: FlatList)
    requires
        a.wf(),
        *a == b || cloned(*a, b),
    ensures
        b.wf(),
        b@ == a@,
{
}

proof fn lemma_seg_clone(a: Arc<SegList>, b: SegList)
    requires
        a.wf(),
        *a == b || cloned(*a, b),
    ensures
        b.wf(),
        b@ == a@,
{
}

/// Elements copied out of a sequence of them.
fn copy_range(v: &Vec<Vec<u8>>, start: usize, stop: usize) -> (r: Vec<Vec<u8>>)
    requires
        start <= stop < v@.len(),
    ensures
        crate::bytes::deep(r@) == crate::bytes::deep(v@).subrange(start as int, stop + 1),
{
    let ghost d = crate::bytes::deep(v@);
    let n: usize = v.len();
    let mut out: Vec<Vec<u8>> = Vec::new();
    let mut i: usize = start;
    while i <= stop
        invariant
            start <= i <= stop + 1,
            stop < n,
            n == v@.len(),
            d == crate::bytes::deep(v@),
            crate::bytes::deep(out@) == d.subrange(start as int, i as int),
        decreases stop + 1 - i,
    {
        let ghost before = crate::bytes::deep(out@);
        out.push(copy_bytes(v[i].as_slice()));
        assert(crate::bytes::deep(out@) =~= before.push(d[i as int]));
        i = i + 1;
        assert(crate::bytes::deep(out@) =~= d.subrange(start as int, i as int));
    }
    out
}

impl Value {
    /// The elements of a list, mathematically.
    pub open spec fn items(&self) -> Seq<Seq<u8>> {
        self@->List_0
    }

    /// Number of elements of a list.
    pub fn list_len(&self) -> (r: usize)
        requires
            self.wf(),
            self@ is List,
        ensures
            r == self.items().len(),
    {
        match self {
            Value::List(l) => l.len(),
            Value::SegList(l) => l.len(),
            Value::SmallListInline(l) => l.len(),
            _ => 0,
        }
    }

    /// The element of a list at `i`, copied out.
    pub fn list_get(&self, i: usize) -> (r: Option<Vec<u8>>)
        requires
            self.wf(),
            self@ is List,
        ensures
            match r {
                Some(v) => i < self.items().len() && v@ == self.items()[i as int],
                None => i >= self.items().len(),
            },
    {
        match self {
            Value::List(l) => match l.get(i) {
                Some(v) => Some(copy_bytes(v.as_slice())),
                None => None,
            },
            Value::SegList(l) => match l.get(i) {
                Some(v) => Some(copy_bytes(v.as_slice())),
                None => None,
            },
            Value::SmallListInline(l) => {
                let all = small_items(l);
                if i < all.len() {
                    assert(crate::bytes::deep(all@)[i as int] == all@[i as int]@);
                    Some(copy_bytes(all[i].as_slice()))
                } else {
                    None
                }
            },
            _ => None,
        }
    }

    /// The elements of a list from `start` to `stop`, both included, copied
    /// out.
    pub fn list_slice(&self, start: usize, stop: usize) -> (r: Vec<Vec<u8>>)
        requires
            self.wf(),
            self@ is List,
            start <= stop < self.items().len(),
        ensures
            crate::bytes::deep(r@) == self.items().subrange(start as int, stop + 1),
    {
        match self {
            Value::List(l) => l.slice(start, stop),
            Value::SegList(l) => l.slice(start, stop),
            Value::SmallListInline(l) => copy_range(&small_items(l), start, stop),
            _ => Vec::new(),
        }
    }

    /// The elements of a list, copied out.
    pub fn list_all(&self) -> (r: Vec<Vec<u8>>)
        requires
            self.wf(),
            self@ is List,
        ensures
            crate::bytes::deep(r@) == self.items(),
    {
        let n: usize = self.list_len();
        if n == 0 {
            let none: Vec<Vec<u8>> = Vec::new();
            assert(crate::bytes::deep(none@) =~= self.items());
            return none;
        }
        assert(self.items().subrange(0, n as int) =~= self.items());
        self.list_slice(0, n - 1)
    }

    /// A list of one element.
    pub fn list_of(v: &[u8]) -> (r: Value)
        ensures
            r.wf(),
            r@ is List,
            r.items() == seq![v@],
            !(r is SegList),
    {
        match SmallListData::with_one(v) {
            Some(l) => Value::SmallListInline(l),
            None => {
                let mut l = FlatList::new();
                l.push_back(copy_bytes(v));
                assert(l@ =~= seq![v@]);
                Value::List(Arc::new(l))
            },
        }
    }

    /// Turns an inline list into a flat one.
    pub fn list_to_heap(&mut self)
        requires
            old(self).wf(),
            old(self)@ is List,
        ensures
            final(self).wf(),
            final(self)@ == old(self)@,
            *final(self) is List || *final(self) is SegList,
            *final(self) is SegList <==> *old(self) is SegList,
    {
        let flat = match self {
            Value::SmallListInline(l) => promote(l),
            _ => {
                return ;
            },
        };
        *self = Value::List(Arc::new(flat));
    }

    /// Puts a flat list that has grown big into segments.
    fn list_segment(&mut self)
        requires
            old(self).wf(),
            *old(self) is List || *old(self) is SegList,
        ensures
            final(self).wf(),
            *final(self) is List || *final(self) is SegList,
            final(self)@ == old(self)@,
            *final(self) is SegList <==> (*old(self) is SegList || old(self).items().len()
                >= SEG_PROMOTE),
            !(*old(self) is List && *final(self) is SegList) ==> *final(self) == *old(self),
    {
        let big: bool = match self {
            Value::List(l) => l.len() >= SEG_PROMOTE,
            _ => false,
        };
        if big {
            let mut own = Value::Int(0);
            core::mem::swap(self, &mut own);
            match own {
                Value::List(l) => {
                    let ghost before = l;
                    let flat = unwrap(l);
                    proof {
                        lemma_flat_clone(before, flat);
                    }
                    *self = Value::SegList(Arc::new(SegList::from_flat(flat)));
                },
                _ => {},
            }
        }
    }

    /// Puts an element at one end of a list.
    pub fn list_push(&mut self, v: &[u8], front: bool)
        requires
            old(self).wf(),
            old(self)@ is List,
            old(self).items().len() < usize::MAX,
        ensures
            final(self).wf(),
            final(self)@ is List,
            final(self).items() == (if front {
                seq![v@] + old(self).items()
            } else {
                old(self).items().push(v@)
            }),
            *final(self) is SegList <==> (*old(self) is SegList || old(self).items().len()
                >= SEG_PROMOTE),
    {
        match self {
            Value::SmallListInline(l) => {
                proof {
                    l.lemma_wf();
                }
                let pushed = if front {
                    l.try_push_front(v)
                } else {
                    l.try_push_back(v)
                };
                match pushed {
                    PushResult::Pushed => {
                        return ;
                    },
                    PushResult::NoRoom => {},
                }
            },
            _ => {},
        }
        self.list_to_heap();
        self.list_segment();
        match self {
            Value::List(l) => {
                let ghost before = *l;
                let t = unshare(l);
                proof {
                    lemma_flat_clone(before, *t);
                }
                if front {
                    t.push_front(copy_bytes(v));
                } else {
                    t.push_back(copy_bytes(v));
                }
            },
            Value::SegList(l) => {
                let ghost before = *l;
                let t = unshare(l);
                proof {
                    lemma_seg_clone(before, *t);
                }
                if front {
                    t.push_front(copy_bytes(v));
                } else {
                    t.push_back(copy_bytes(v));
                }
            },
            _ => {},
        }
    }

    /// Takes an element from one end of a list.
    pub fn list_pop(&mut self, front: bool) -> (r: Option<Vec<u8>>)
        requires
            old(self).wf(),
            old(self)@ is List,
        ensures
            final(self).wf(),
            final(self)@ is List,
            match r {
                Some(v) => {
                    &&& old(self).items().len() > 0
                    &&& v@ == (if front {
                        old(self).items().first()
                    } else {
                        old(self).items().last()
                    })
                    &&& final(self).items() == (if front {
                        old(self).items().subrange(1, old(self).items().len() as int)
                    } else {
                        old(self).items().drop_last()
                    })
                },
                None => old(self).items().len() == 0 && final(self).items() == old(self).items(),
            },
            *final(self) is SegList <==> *old(self) is SegList,
    {
        self.list_to_heap();
        match self {
            Value::List(l) => {
                let ghost before = *l;
                let t = unshare(l);
                proof {
                    lemma_flat_clone(before, *t);
                }
                if front {
                    t.pop_front()
                } else {
                    t.pop_back()
                }
            },
            Value::SegList(l) => {
                let ghost before = *l;
                let t = unshare(l);
                proof {
                    lemma_seg_clone(before, *t);
                }
                if front {
                    t.pop_front()
                } else {
                    t.pop_back()
                }
            },
            _ => None,
        }
    }

    /// Puts another element in the place of the one at `i`.
    pub fn list_set(&mut self, i: usize, v: &[u8])
        requires
            old(self).wf(),
            old(self)@ is List,
            i < old(self).items().len(),
        ensures
            final(self).wf(),
            final(self)@ is List,
            final(self).items() == old(self).items().update(i as int, v@),
            *final(self) is SegList <==> *old(self) is SegList,
    {
        self.list_to_heap();
        match self {
            Value::List(l) => {
                let ghost before = *l;
                let t = unshare(l);
                proof {
                    lemma_flat_clone(before, *t);
                }
                t.set(i, copy_bytes(v));
            },
            Value::SegList(l) => {
                let ghost before = *l;
                let t = unshare(l);
                proof {
                    lemma_seg_clone(before, *t);
                }
                t.set(i, copy_bytes(v));
            },
            _ => {},
        }
    }

    /// The place of the first element that equals `v`.
    pub fn list_position(&self, v: &[u8]) -> (r: Option<usize>)
        requires
            self.wf(),
            *self is List || *self is SegList,
        ensures
            match r {
                Some(i) => {
                    &&& i < self.items().len()
                    &&& self.items()[i as int] == v@
                    &&& forall|j: int| 0 <= j < i ==> self.items()[j] != v@
                },
                None => forall|j: int| 0 <= j < self.items().len() ==> self.items()[j] != v@,
            },
    {
        match self {
            Value::List(l) => l.position(v),
            Value::SegList(l) => l.position(v),
            _ => None,
        }
    }

    /// Puts an element in front of the one at `i`, or behind all.
    pub fn list_insert(&mut self, i: usize, v: &[u8])
        requires
            old(self).wf(),
            old(self)@ is List,
            i <= old(self).items().len(),
            old(self).items().len() < usize::MAX,
        ensures
            final(self).wf(),
            final(self)@ is List,
            final(self).items() == old(self).items().insert(i as int, v@),
            *final(self) is SegList <==> *old(self) is SegList,
    {
        self.list_to_heap();
        match self {
            Value::List(l) => {
                let ghost before = *l;
                let t = unshare(l);
                proof {
                    lemma_flat_clone(before, *t);
                }
                t.insert(i, copy_bytes(v));
            },
            Value::SegList(l) => {
                let ghost before = *l;
                let t = unshare(l);
                proof {
                    lemma_seg_clone(before, *t);
                }
                t.insert(i, copy_bytes(v));
            },
            _ => {},
        }
    }

    /// Removes occurrences of `v` from a list: the first `count`, with a
    /// negative count the last ones, with 0 all. Gives their number.
    pub fn list_remove(&mut self, v: &[u8], count: i64) -> (r: usize)
        requires
            old(self).wf(),
            old(self)@ is List,
        ensures
            final(self).wf(),
            final(self)@ is List,
            r == crate::list_data::taken(
                old(self).items(),
                v@,
                crate::list_data::rem_limit(count),
            ),
            final(self).items() == crate::list_data::rem_result(old(self).items(), v@, count),
            *final(self) is SegList <==> *old(self) is SegList,
    {
        self.list_to_heap();
        match self {
            Value::List(l) => {
                let ghost before = *l;
                let t = unshare(l);
                proof {
                    lemma_flat_clone(before, *t);
                }
                t.remove_occurrences(v, count)
            },
            Value::SegList(l) => {
                let ghost before = *l;
                let t = unshare(l);
                proof {
                    lemma_seg_clone(before, *t);
                }
                t.remove_occurrences(v, count)
            },
            _ => 0,
        }
    }

    /// Keeps the elements of a list from `start` to `stop`, both included.
    pub fn list_trim(&mut self, start: usize, stop: usize)
        requires
            old(self).wf(),
            old(self)@ is List,
            start <= stop < old(self).items().len(),
        ensures
            final(self).wf(),
            final(self)@ is List,
            final(self).items() == old(self).items().subrange(start as int, stop + 1),
            *final(self) is SegList <==> *old(self) is SegList,
    {
        self.list_to_heap();
        match self {
            Value::List(l) => {
                let ghost before = *l;
                let t = unshare(l);
                proof {
                    lemma_flat_clone(before, *t);
                }
                t.trim_to(start, stop);
            },
            Value::SegList(l) => {
                let ghost before = *l;
                let t = unshare(l);
                proof {
                    lemma_seg_clone(before, *t);
                }
                t.trim_to(start, stop);
            },
            _ => {},
        }
    }
}

} // verus!
