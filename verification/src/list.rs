//! Lists that know what they cost: one flat, one in segments that copies
//! share.
use vstd::prelude::*;
use crate::bytes::{bytes_eq, copy_bytes};
use crate::list_data::{flat_lrem, list_item_weight, list_weight, rem_limit_of, ListData};
use crate::list_seg::SegListData;

verus! {

/// What an insertion does to the cost.
proof fn lemma_weight_insert(s: Seq<Seq<u8>>, i: int, x: Seq<u8>)
    requires
        0 <= i <= s.len(),
    ensures
        crate::list_data::items_weight(s.insert(i, x)) == crate::list_data::items_weight(s)
            + crate::list_data::item_weight(x.len()),
{
    let a = s.subrange(0, i);
    let b = s.subrange(i, s.len() as int);
    assert(s =~= a + b);
    assert(s.insert(i, x) =~= (a + seq![x]) + b);
    crate::list_data::lemma_items_weight_add(a, b);
    crate::list_data::lemma_items_weight_add(a + seq![x], b);
    crate::list_data::lemma_items_weight_add(a, seq![x]);
    crate::list_data::lemma_items_weight_one(x);
}

/// What a removal does to the cost.
proof fn lemma_weight_remove(s: Seq<Seq<u8>>, i: int)
    requires
        0 <= i < s.len(),
    ensures
        crate::list_data::items_weight(s) == crate::list_data::items_weight(s.remove(i))
            + crate::list_data::item_weight(s[i].len()),
{
    lemma_weight_insert(s.remove(i), i, s[i]);
    assert(s.remove(i).insert(i, s[i]) =~= s);
}

/// What a replacement does to the cost.
proof fn lemma_weight_update(s: Seq<Seq<u8>>, i: int, x: Seq<u8>)
    requires
        0 <= i < s.len(),
    ensures
        crate::list_data::items_weight(s.update(i, x)) + crate::list_data::item_weight(s[i].len())
            == crate::list_data::items_weight(s) + crate::list_data::item_weight(x.len()),
{
    lemma_weight_remove(s, i);
    lemma_weight_insert(s.remove(i), i, x);
    assert(s.remove(i).insert(i, x) =~= s.update(i, x));
}

/// What a trim does to the cost.
proof fn lemma_weight_trim(s: Seq<Seq<u8>>, a: int, b: int)
    requires
        0 <= a <= b <= s.len(),
    ensures
        crate::list_data::items_weight(s) == crate::list_data::items_weight(s.subrange(0, a))
            + crate::list_data::items_weight(s.subrange(a, b)) + crate::list_data::items_weight(
            s.subrange(b, s.len() as int),
        ),
{
    let x = s.subrange(0, a);
    let y = s.subrange(a, b);
    let z = s.subrange(b, s.len() as int);
    assert(s =~= (x + y) + z);
    crate::list_data::lemma_items_weight_add(x + y, z);
    crate::list_data::lemma_items_weight_add(x, y);
}

/// A flat list.
pub struct FlatList {
    items: ListData,
    bytes: u64,
}

impl View for FlatList {
    type V = Seq<Seq<u8>>;

    /// The elements, front to back.
    closed spec fn view(&self) -> Seq<Seq<u8>> {
        crate::list_data::list_view(self.items)
    }
}

impl FlatList {
    /// The cost is counted.
    pub closed spec fn wf(&self) -> bool {
        &&& self.bytes == crate::list_data::capped(crate::list_data::items_weight(self@))
    }

    /// An empty list.
    pub fn new() -> (r: Self)
        ensures
            r.wf(),
            r@ == Seq::<Seq<u8>>::empty(),
    {
        let r = FlatList { items: ListData::new(), bytes: 0 };
        assert(r@ =~= Seq::empty());
        r
    }

    /// The bytes that the elements cost, at most `u64::MAX`.
    pub fn weight(&self) -> (r: u64)
        requires
            self.wf(),
        ensures
            r == crate::list_data::capped(crate::list_data::items_weight(self@)),
    {
        self.bytes
    }

    /// Number of elements.
    pub fn len(&self) -> (r: usize)
        requires
            self.wf(),
        ensures
            r == self@.len(),
    {
        self.items.len()
    }

    /// Whether there is no element.
    pub fn is_empty(&self) -> (r: bool)
        requires
            self.wf(),
        ensures
            r == (self@.len() == 0),
    {
        self.items.len() == 0
    }

    /// Takes `len` bytes of one element off the cost.
    fn take_off(&mut self, len: usize)
        requires
            exists|before: nat|
                old(self).bytes == crate::list_data::capped(before) && #[trigger] crate::list_data::capped(
                    before,
                ) <= u64::MAX && before == crate::list_data::items_weight(old(self)@)
                    + crate::list_data::item_weight(len as nat),
        ensures
            final(self).wf(),
            final(self)@ == old(self)@,
    {
        if self.bytes < u64::MAX {
            self.bytes = self.bytes - list_item_weight(len);
        } else {
            self.bytes = list_weight(&self.items);
        }
    }

    /// Puts an element in front of the others.
    pub fn push_front(&mut self, v: Vec<u8>)
        requires
            old(self).wf(),
            old(self)@.len() < usize::MAX,
        ensures
            final(self).wf(),
            final(self)@ == seq![v@] + old(self)@,
    {
        let ghost s = self@;
        let w: u64 = list_item_weight(v.len());
        self.items.push_front(v);
        self.bytes = self.bytes.saturating_add(w);
        proof {
            assert(self@ =~= seq![v@] + s);
            lemma_weight_insert(s, 0, v@);
            assert(s.insert(0, v@) =~= seq![v@] + s);
        }
    }

    /// Puts an element behind the others.
    pub fn push_back(&mut self, v: Vec<u8>)
        requires
            old(self).wf(),
            old(self)@.len() < usize::MAX,
        ensures
            final(self).wf(),
            final(self)@ == old(self)@.push(v@),
    {
        let ghost s = self@;
        let w: u64 = list_item_weight(v.len());
        self.items.push_back(v);
        self.bytes = self.bytes.saturating_add(w);
        proof {
            assert(self@ =~= s.push(v@));
            lemma_weight_insert(s, s.len() as int, v@);
            assert(s.insert(s.len() as int, v@) =~= s.push(v@));
        }
    }

    /// Takes the first element.
    pub fn pop_front(&mut self) -> (r: Option<Vec<u8>>)
        requires
            old(self).wf(),
        ensures
            final(self).wf(),
            match r {
                Some(v) => {
                    &&& old(self)@.len() > 0
                    &&& v@ == old(self)@[0]
                    &&& final(self)@ == old(self)@.subrange(1, old(self)@.len() as int)
                },
                None => old(self)@.len() == 0 && final(self)@ == old(self)@,
            },
    {
        let ghost s = self@;
        match self.items.pop_front() {
            None => {
                assert(self@ =~= s);
                None
            },
            Some(v) => {
                proof {
                    lemma_weight_remove(s, 0);
                    assert(s.remove(0) =~= s.subrange(1, s.len() as int));
                    assert(self@ =~= s.remove(0));
                    assert(v@ == s[0]);
                    assert(crate::list_data::capped(crate::list_data::items_weight(s)) <= u64::MAX);
                }
                self.take_off(v.len());
                Some(v)
            },
        }
    }

    /// Takes the last element.
    pub fn pop_back(&mut self) -> (r: Option<Vec<u8>>)
        requires
            old(self).wf(),
        ensures
            final(self).wf(),
            match r {
                Some(v) => {
                    &&& old(self)@.len() > 0
                    &&& v@ == old(self)@.last()
                    &&& final(self)@ == old(self)@.drop_last()
                },
                None => old(self)@.len() == 0 && final(self)@ == old(self)@,
            },
    {
        let ghost s = self@;
        match self.items.pop_back() {
            None => {
                assert(self@ =~= s);
                None
            },
            Some(v) => {
                proof {
                    let n = s.len() - 1;
                    lemma_weight_remove(s, n);
                    assert(s.remove(n) =~= s.drop_last());
                    assert(self@ =~= s.drop_last());
                    assert(v@ == s[n]);
                    assert(crate::list_data::capped(crate::list_data::items_weight(s)) <= u64::MAX);
                }
                self.take_off(v.len());
                Some(v)
            },
        }
    }

    /// The element at `i`.
    pub fn get(&self, i: usize) -> (r: Option<&Vec<u8>>)
        requires
            self.wf(),
        ensures
            match r {
                Some(v) => i < self@.len() && v@ == self@[i as int],
                None => i >= self@.len(),
            },
    {
        if i < self.items.len() {
            Some(&self.items[i])
        } else {
            None
        }
    }

    /// Puts another element in the place of the one at `i`.
    pub fn set(&mut self, i: usize, v: Vec<u8>)
        requires
            old(self).wf(),
            i < old(self)@.len(),
        ensures
            final(self).wf(),
            final(self)@ == old(self)@.update(i as int, v@),
    {
        let ghost s = self@;
        let len: usize = v.len();
        let n: usize = self.items.len();
        self.items.insert(i, v);
        let gone = match self.items.remove(i + 1) {
            Some(g) => g,
            None => Vec::new(),
        };
        proof {
            assert(self@ =~= s.update(i as int, v@));
            assert(gone@ == s[i as int]);
            lemma_weight_update(s, i as int, v@);
            lemma_weight_remove(s, i as int);
        }
        if self.bytes < u64::MAX {
            self.bytes = (self.bytes - list_item_weight(gone.len())).saturating_add(
                list_item_weight(len),
            );
        } else {
            self.bytes = list_weight(&self.items);
        }
    }

    /// Puts an element in front of the one at `i`, or behind all.
    pub fn insert(&mut self, i: usize, v: Vec<u8>)
        requires
            old(self).wf(),
            old(self)@.len() < usize::MAX,
            i <= old(self)@.len(),
        ensures
            final(self).wf(),
            final(self)@ == old(self)@.insert(i as int, v@),
    {
        let ghost s = self@;
        let w: u64 = list_item_weight(v.len());
        self.items.insert(i, v);
        self.bytes = self.bytes.saturating_add(w);
        proof {
            assert(self@ =~= s.insert(i as int, v@));
            lemma_weight_insert(s, i as int, v@);
        }
    }

    /// The place of the first element that equals `v`.
    pub fn position(&self, v: &[u8]) -> (r: Option<usize>)
        requires
            self.wf(),
        ensures
            match r {
                Some(i) => {
                    &&& i < self@.len()
                    &&& self@[i as int] == v@
                    &&& forall|j: int| 0 <= j < i ==> self@[j] != v@
                },
                None => forall|j: int| 0 <= j < self@.len() ==> self@[j] != v@,
            },
    {
        let mut i: usize = 0;
        while i < self.items.len()
            invariant
                i <= self@.len(),
                self@ == crate::list_data::list_view(self.items),
                forall|j: int| 0 <= j < i ==> self@[j] != v@,
            decreases self@.len() - i,
        {
            assert(self@[i as int] == self.items@[i as int]@);
            if bytes_eq(self.items[i].as_slice(), v) {
                return Some(i);
            }
            i = i + 1;
        }
        None
    }

    /// Removes occurrences of `v`: the first `count`, with a negative count
    /// the last ones, with 0 all. Gives their number.
    pub fn remove_occurrences(&mut self, v: &[u8], count: i64) -> (r: usize)
        requires
            old(self).wf(),
        ensures
            final(self).wf(),
            r == crate::list_data::taken(
                old(self)@,
                v@,
                crate::list_data::rem_limit(count),
            ),
            final(self)@ == crate::list_data::rem_result(old(self)@, v@, count),
    {
        let ghost s = self@;
        let limit: usize = rem_limit_of(count);
        let n: usize = self.items.len();
        let (removed, _freed) = flat_lrem(&mut self.items, v, limit, count < 0);
        proof {
            if limit != crate::list_data::rem_limit(count) {
                crate::list_data::lemma_limit_irrelevant(
                    s,
                    v@,
                    limit as nat,
                    crate::list_data::rem_limit(count),
                );
            }
        }
        if removed > 0 {
            self.bytes = list_weight(&self.items);
        } else {
            proof {
                lemma_none_removed(s, v@, limit as nat);
            }
        }
        removed
    }

    /// Keeps the elements from `start` to `stop`, both included.
    pub fn trim_to(&mut self, start: usize, stop: usize)
        requires
            old(self).wf(),
            start <= stop < old(self)@.len(),
        ensures
            final(self).wf(),
            final(self)@ == old(self)@.subrange(start as int, stop + 1),
    {
        let ghost s = self@;
        let n: usize = self.items.len();
        let mut tail = self.items.split_off(start);
        let _rest = tail.split_off(stop + 1 - start);
        core::mem::swap(&mut self.items, &mut tail);
        assert(self@ =~= s.subrange(start as int, stop + 1));
        self.bytes = list_weight(&self.items);
    }

    /// The elements from `start` to `stop`, both included, copied out.
    pub fn slice(&self, start: usize, stop: usize) -> (r: Vec<Vec<u8>>)
        requires
            self.wf(),
            start <= stop < self@.len(),
        ensures
            crate::bytes::deep(r@) == self@.subrange(start as int, stop + 1),
    {
        let mut out: Vec<Vec<u8>> = Vec::new();
        let mut i: usize = start;
        let n: usize = self.items.len();
        while i <= stop
            invariant
                start <= i <= stop + 1,
                stop < n,
                n == self@.len(),
                self@ == crate::list_data::list_view(self.items),
                crate::bytes::deep(out@) == self@.subrange(start as int, i as int),
            decreases stop + 1 - i,
        {
            assert(self@[i as int] == self.items@[i as int]@);
            let ghost before = crate::bytes::deep(out@);
            out.push(copy_bytes(self.items[i].as_slice()));
            assert(crate::bytes::deep(out@) =~= before.push(self@[i as int]));
            i = i + 1;
            assert(crate::bytes::deep(out@) =~= self@.subrange(start as int, i as int));
        }
        out
    }

    /// A list of the given elements.
    pub fn from_vec(v: Vec<Vec<u8>>) -> (r: Self)
        ensures
            r.wf(),
            r@ == crate::bytes::deep(v@),
    {
        let mut items = ListData::new();
        let mut src = v;
        let ghost d = crate::bytes::deep(v@);
        let ghost n = v@.len();
        while src.len() > 0
            invariant
                src@.len() <= n,
                n == d.len(),
                crate::bytes::deep(src@) == d.take(src@.len() as int),
                crate::list_data::list_view(items) == d.subrange(src@.len() as int, n as int),
            decreases src@.len(),
        {
            let ghost k = src@.len() - 1;
            let ghost was = crate::list_data::list_view(items);
            assert(crate::bytes::deep(src@)[k] == src@[k]@);
            assert(d.take(k + 1)[k] == d[k]);
            match src.pop() {
                Some(x) => {
                    items.push_front(x);
                    assert(crate::list_data::list_view(items) =~= seq![d[k]] + was);
                },
                None => {},
            }
            proof {
                assert(crate::bytes::deep(src@) =~= d.take(k));
                assert(seq![d[k]] + was =~= d.subrange(k, n as int));
            }
        }
        let bytes: u64 = list_weight(&items);
        let r = FlatList { items, bytes };
        assert(r@ =~= d);
        r
    }

    /// The list behind, without its cost.
    pub fn into_items(self) -> (r: ListData)
        requires
            self.wf(),
        ensures
            crate::list_data::list_view(r) == self@,
    {
        self.items
    }
}

impl Clone for FlatList {
    fn clone(&self) -> (r: Self)
        ensures
            self.wf() ==> r.wf(),
            r@ == self@,
    {
        let items = self.items.clone();
        proof {
            crate::list_data::lemma_cloned_list(self.items, items);
        }
        FlatList { items, bytes: self.bytes }
    }
}

/// What is removed from a list in which nothing is to be removed.
proof fn lemma_none_removed(s: Seq<Seq<u8>>, v: Seq<u8>, n: nat)
    requires
        crate::list_data::taken(s, v, n) == 0,
    ensures
        crate::list_data::without_first(s, v, n) == s,
        crate::list_data::without_last(s, v, n) == s,
{
    if n > 0 {
        crate::list_data::lemma_without_none(s, v, n);
    }
}

/// A list in segments.
pub struct SegList {
    items: SegListData,
    bytes: u64,
}

impl View for SegList {
    type V = Seq<Seq<u8>>;

    /// The elements, front to back.
    closed spec fn view(&self) -> Seq<Seq<u8>> {
        self.items@
    }
}

impl SegList {
    /// The cost is counted.
    pub closed spec fn wf(&self) -> bool {
        &&& self.items.wf()
        &&& self.bytes == crate::list_data::capped(crate::list_data::items_weight(self@))
    }

    /// An empty list.
    pub fn new() -> (r: Self)
        ensures
            r.wf(),
            r@ == Seq::<Seq<u8>>::empty(),
    {
        let r = SegList { items: SegListData::new(), bytes: 0 };
        assert(r@ =~= Seq::empty());
        r
    }

    /// The bytes that the elements cost, at most `u64::MAX`.
    pub fn weight(&self) -> (r: u64)
        requires
            self.wf(),
        ensures
            r == crate::list_data::capped(crate::list_data::items_weight(self@)),
    {
        self.bytes
    }

    /// Number of elements.
    pub fn len(&self) -> (r: usize)
        requires
            self.wf(),
        ensures
            r == self@.len(),
    {
        self.items.len()
    }

    /// Whether there is no element.
    pub fn is_empty(&self) -> (r: bool)
        requires
            self.wf(),
        ensures
            r == (self@.len() == 0),
    {
        self.items.len() == 0
    }

    /// Takes `len` bytes of one element off the cost.
    fn take_off(&mut self, len: usize)
        requires
            old(self).items.wf(),
            exists|before: nat|
                old(self).bytes == crate::list_data::capped(before) && #[trigger] crate::list_data::capped(
                    before,
                ) <= u64::MAX && before == crate::list_data::items_weight(old(self)@)
                    + crate::list_data::item_weight(len as nat),
        ensures
            final(self).wf(),
            final(self)@ == old(self)@,
    {
        if self.bytes < u64::MAX {
            self.bytes = self.bytes - list_item_weight(len);
        } else {
            self.bytes = self.items.weight();
        }
    }

    /// Puts an element in front of the others.
    pub fn push_front(&mut self, v: Vec<u8>)
        requires
            old(self).wf(),
            old(self)@.len() < usize::MAX,
        ensures
            final(self).wf(),
            final(self)@ == seq![v@] + old(self)@,
    {
        let ghost s = self@;
        let w: u64 = list_item_weight(v.len());
        self.items.push_front(v);
        self.bytes = self.bytes.saturating_add(w);
        proof {
            assert(self@ =~= seq![v@] + s);
            lemma_weight_insert(s, 0, v@);
            assert(s.insert(0, v@) =~= seq![v@] + s);
        }
    }

    /// Puts an element behind the others.
    pub fn push_back(&mut self, v: Vec<u8>)
        requires
            old(self).wf(),
            old(self)@.len() < usize::MAX,
        ensures
            final(self).wf(),
            final(self)@ == old(self)@.push(v@),
    {
        let ghost s = self@;
        let w: u64 = list_item_weight(v.len());
        self.items.push_back(v);
        self.bytes = self.bytes.saturating_add(w);
        proof {
            assert(self@ =~= s.push(v@));
            lemma_weight_insert(s, s.len() as int, v@);
            assert(s.insert(s.len() as int, v@) =~= s.push(v@));
        }
    }

    /// Takes the first element.
    pub fn pop_front(&mut self) -> (r: Option<Vec<u8>>)
        requires
            old(self).wf(),
        ensures
            final(self).wf(),
            match r {
                Some(v) => {
                    &&& old(self)@.len() > 0
                    &&& v@ == old(self)@[0]
                    &&& final(self)@ == old(self)@.subrange(1, old(self)@.len() as int)
                },
                None => old(self)@.len() == 0 && final(self)@ == old(self)@,
            },
    {
        let ghost s = self@;
        match self.items.pop_front() {
            None => {
                assert(self@ =~= s);
                None
            },
            Some(v) => {
                proof {
                    lemma_weight_remove(s, 0);
                    assert(s.remove(0) =~= s.subrange(1, s.len() as int));
                    assert(self@ =~= s.remove(0));
                    assert(v@ == s[0]);
                    assert(crate::list_data::capped(crate::list_data::items_weight(s)) <= u64::MAX);
                }
                self.take_off(v.len());
                Some(v)
            },
        }
    }

    /// Takes the last element.
    pub fn pop_back(&mut self) -> (r: Option<Vec<u8>>)
        requires
            old(self).wf(),
        ensures
            final(self).wf(),
            match r {
                Some(v) => {
                    &&& old(self)@.len() > 0
                    &&& v@ == old(self)@.last()
                    &&& final(self)@ == old(self)@.drop_last()
                },
                None => old(self)@.len() == 0 && final(self)@ == old(self)@,
            },
    {
        let ghost s = self@;
        match self.items.pop_back() {
            None => {
                assert(self@ =~= s);
                None
            },
            Some(v) => {
                proof {
                    let n = s.len() - 1;
                    lemma_weight_remove(s, n);
                    assert(s.remove(n) =~= s.drop_last());
                    assert(self@ =~= s.drop_last());
                    assert(v@ == s[n]);
                    assert(crate::list_data::capped(crate::list_data::items_weight(s)) <= u64::MAX);
                }
                self.take_off(v.len());
                Some(v)
            },
        }
    }

    /// The element at `i`.
    pub fn get(&self, i: usize) -> (r: Option<&Vec<u8>>)
        requires
            self.wf(),
        ensures
            match r {
                Some(v) => i < self@.len() && v@ == self@[i as int],
                None => i >= self@.len(),
            },
    {
        self.items.get(i)
    }

    /// Puts another element in the place of the one at `i`.
    pub fn set(&mut self, i: usize, v: Vec<u8>)
        requires
            old(self).wf(),
            i < old(self)@.len(),
        ensures
            final(self).wf(),
            final(self)@ == old(self)@.update(i as int, v@),
    {
        let ghost s = self@;
        let len: usize = v.len();
        let gone = self.items.set(i, v);
        proof {
            assert(self@ =~= s.update(i as int, v@));
            assert(gone@ == s[i as int]);
            lemma_weight_update(s, i as int, v@);
            lemma_weight_remove(s, i as int);
        }
        if self.bytes < u64::MAX {
            self.bytes = (self.bytes - list_item_weight(gone.len())).saturating_add(
                list_item_weight(len),
            );
        } else {
            self.bytes = self.items.weight();
        }
    }

    /// Puts an element in front of the one at `i`, or behind all.
    pub fn insert(&mut self, i: usize, v: Vec<u8>)
        requires
            old(self).wf(),
            old(self)@.len() < usize::MAX,
            i <= old(self)@.len(),
        ensures
            final(self).wf(),
            final(self)@ == old(self)@.insert(i as int, v@),
    {
        let ghost s = self@;
        let w: u64 = list_item_weight(v.len());
        self.items.insert(i, v);
        self.bytes = self.bytes.saturating_add(w);
        proof {
            assert(self@ =~= s.insert(i as int, v@));
            lemma_weight_insert(s, i as int, v@);
        }
    }

    /// The place of the first element that equals `v`.
    pub fn position(&self, v: &[u8]) -> (r: Option<usize>)
        requires
            self.wf(),
        ensures
            match r {
                Some(i) => {
                    &&& i < self@.len()
                    &&& self@[i as int] == v@
                    &&& forall|j: int| 0 <= j < i ==> self@[j] != v@
                },
                None => forall|j: int| 0 <= j < self@.len() ==> self@[j] != v@,
            },
    {
        self.items.position(v)
    }

    /// Removes occurrences of `v`: the first `count`, with a negative count
    /// the last ones, with 0 all. Gives their number.
    pub fn remove_occurrences(&mut self, v: &[u8], count: i64) -> (r: usize)
        requires
            old(self).wf(),
        ensures
            final(self).wf(),
            r == crate::list_data::taken(
                old(self)@,
                v@,
                crate::list_data::rem_limit(count),
            ),
            final(self)@ == crate::list_data::rem_result(old(self)@, v@, count),
    {
        let ghost s = self@;
        let (removed, _freed) = self.items.remove_occurrences(v, count);
        if removed > 0 {
            self.bytes = self.items.weight();
        } else {
            proof {
                lemma_none_removed(s, v@, crate::list_data::rem_limit(count));
            }
        }
        removed
    }

    /// Keeps the elements from `start` to `stop`, both included.
    pub fn trim_to(&mut self, start: usize, stop: usize)
        requires
            old(self).wf(),
            start <= stop < old(self)@.len(),
        ensures
            final(self).wf(),
            final(self)@ == old(self)@.subrange(start as int, stop + 1),
    {
        let ghost s = self@;
        proof {
            lemma_weight_trim(s, start as int, stop + 1);
        }
        let delta: i64 = self.items.trim_to(start, stop);
        if self.bytes < 0x7fff_ffff_ffff_ffff {
            self.bytes = self.bytes - ((-delta) as u64);
        } else {
            self.bytes = self.items.weight();
        }
    }

    /// The elements from `start` to `stop`, both included, copied out.
    pub fn slice(&self, start: usize, stop: usize) -> (r: Vec<Vec<u8>>)
        requires
            self.wf(),
            start <= stop < self@.len(),
        ensures
            crate::bytes::deep(r@) == self@.subrange(start as int, stop + 1),
    {
        let n: usize = self.items.len();
        let refs = self.items.iter_range(start, stop + 1 - start);
        let mut out: Vec<Vec<u8>> = Vec::new();
        let mut i: usize = 0;
        while i < refs.len()
            invariant
                start <= stop < self@.len(),
                refs@.len() == stop + 1 - start,
                forall|k: int| 0 <= k < refs@.len() ==> (#[trigger] refs@[k])@ == self@[start + k],
                i <= refs@.len(),
                crate::bytes::deep(out@) == self@.subrange(start as int, start + i),
            decreases refs@.len() - i,
        {
            assert(refs@[i as int]@ == self@[start + i]);
            let ghost before = crate::bytes::deep(out@);
            out.push(copy_bytes(refs[i].as_slice()));
            assert(crate::bytes::deep(out@) =~= before.push(self@[start + i]));
            i = i + 1;
            assert(crate::bytes::deep(out@) =~= self@.subrange(start as int, start + i));
        }
        out
    }

    /// A flat list's elements, in segments.
    pub fn from_flat(flat: FlatList) -> (r: Self)
        requires
            flat.wf(),
        ensures
            r.wf(),
            r@ == flat@,
    {
        let bytes: u64 = flat.weight();
        SegList { items: SegListData::from_flat(flat.into_items()), bytes }
    }

    /// The segments, which copies of the list share.
    pub fn segments(&self) -> (r: &SegListData)
        requires
            self.wf(),
        ensures
            r.wf(),
            r@ == self@,
    {
        &self.items
    }
}

impl Clone for SegList {
    fn clone(&self) -> (r: Self)
        ensures
            self.wf() ==> r.wf(),
            r@ == self@,
    {
        SegList { items: self.items.clone(), bytes: self.bytes }
    }
}

} // verus!
