//! Sets, whatever their encoding.
use vstd::prelude::*;
use std::sync::Arc;
use crate::bytes::copy_bytes;
use crate::payload::Present;
use crate::seg_map::HS_PROMOTE;
use crate::shared::{unshare, unwrap};
use crate::small_set::{AddResult, SmallSetData};
use crate::table::{SegTable, SetData};
use crate::value::Value;

verus! {

/// A flat set of the given members.
pub fn flat_of(members: &Vec<Vec<u8>>) -> (r: SetData)
    ensures
        r.wf(),
        r@.dom() == crate::bytes::deep(members@).to_set(),
{
    let ghost d = crate::bytes::deep(members@);
    let mut out = SetData::new();
    let mut i: usize = 0;
    proof {
        assert(d.take(0).to_set() =~= Set::empty());
        assert(out@.dom() =~= Set::empty());
    }
    while i < members.len()
        invariant
            out.wf(),
            d == crate::bytes::deep(members@),
            i <= members@.len(),
            out@.dom() == d.take(i as int).to_set(),
        decreases members@.len() - i,
    {
        let ghost before = out@;
        out.insert(copy_bytes(members[i].as_slice()), Present);
        proof {
            lemma_take_set(d, i as int);
            assert(out@.dom() =~= before.dom().insert(d[i as int]));
        }
        i = i + 1;
    }
    assert(d.take(d.len() as int) =~= d);
    out
}

/// One more element of a sequence, as a set.
pub proof fn lemma_take_set<T>(d: Seq<T>, i: int)
    requires
        0 <= i < d.len(),
    ensures
        d.take(i + 1).to_set() == d.take(i).to_set().insert(d[i]),
{
    let t = d.take(i);
    let u = d.take(i + 1);
    assert forall|x: T| u.to_set().contains(x) == t.to_set().insert(d[i]).contains(x) by {
        if t.contains(x) {
            let j = choose|j: int| 0 <= j < t.len() && t[j] == x;
            assert(u[j] == x);
        }
        if x == d[i] {
            assert(u[i] == x);
        }
        if u.contains(x) && x != d[i] {
            let j = choose|j: int| 0 <= j < u.len() && u[j] == x;
            assert(t[j] == x);
        }
    }
    assert(u.to_set() =~= t.to_set().insert(d[i]));
}

/// What a longer sequence holds.
pub proof fn lemma_push_contains<T>(s: Seq<T>, x: T, y: T)
    ensures
        s.push(x).contains(y) == (s.contains(y) || x == y),
{
    let t = s.push(x);
    if s.contains(y) {
        let i = choose|i: int| 0 <= i < s.len() && s[i] == y;
        assert(t[i] == y);
    }
    if x == y {
        assert(t[s.len() as int] == y);
    }
    if t.contains(y) && x != y {
        let i = choose|i: int| 0 <= i < t.len() && t[i] == y;
        assert(s[i] == y);
    }
}

/// A flat set of an inline one's members.
pub fn promote(s: &SmallSetData) -> (r: SetData)
    requires
        s.wf(),
    ensures
        r.wf(),
        r@.dom() == s@.to_set(),
{
    flat_of(&small_members(s))
}

/// An inline set's members, copied out.
fn small_members(s: &SmallSetData) -> (r: Vec<Vec<u8>>)
    requires
        s.wf(),
    ensures
        crate::bytes::deep(r@) == s@,
{
    let n: usize = s.len();
    let mut it = s.iter();
    let mut out: Vec<Vec<u8>> = Vec::new();
    let mut i: usize = 0;
    assert(s@.take(0) =~= Seq::empty());
    assert(s@.subrange(0, s@.len() as int) =~= s@);
    while i < n
        invariant
            it.wf(),
            n == s@.len(),
            i <= n,
            it.rest() == s@.subrange(i as int, n as int),
            crate::bytes::deep(out@) == s@.take(i as int),
        decreases n - i,
    {
        let ghost before = crate::bytes::deep(out@);
        match it.next() {
            Some(e) => {
                out.push(copy_bytes(e));
                assert(crate::bytes::deep(out@) =~= before.push(s@[i as int]));
            },
            None => {},
        }
        proof {
            assert(s@.take(i + 1) =~= s@.take(i as int).push(s@[i as int]));
            assert(s@.subrange(i as int, n as int).subrange(1, n - i) =~= s@.subrange(
                i + 1,
                n as int,
            ));
        }
        i = i + 1;
    }
    assert(s@.take(n as int) =~= s@);
    out
}

impl Value {
    /// The members of a set, mathematically.
    pub open spec fn members(&self) -> Set<Seq<u8>> {
        self@->Members_0
    }

    /// The members of a set in the order in which a walk meets them.
    pub open spec fn order(&self) -> Seq<Seq<u8>> {
        match self {
            Value::FlatSet(s) => s.key_order(),
            Value::SegSet(s) => s.key_order(),
            Value::SmallSetInline(s) => s@,
            _ => Seq::empty(),
        }
    }

    /// A walk meets every member exactly once.
    pub proof fn lemma_order(&self)
        requires
            self.wf(),
            self@ is Members,
        ensures
            self.order().no_duplicates(),
            self.order().to_set() == self.members(),
            self.members().finite(),
            self.order().len() == self.members().len(),
    {
        match self {
            Value::FlatSet(s) => {
                s.lemma_key_order();
            },
            Value::SegSet(s) => {
                s.lemma_key_order();
            },
            Value::SmallSetInline(s) => {
                s.lemma_wf();
                s@.unique_seq_to_set();
            },
            _ => {},
        }
    }

    /// Whether a set has a member.
    pub fn set_contains(&self, m: &[u8]) -> (r: bool)
        requires
            self.wf(),
            self@ is Members,
        ensures
            r == self.members().contains(m@),
    {
        match self {
            Value::FlatSet(s) => s.contains_key(m),
            Value::SegSet(s) => s.contains_key(m),
            Value::SmallSetInline(s) => s.contains(m),
            _ => false,
        }
    }

    /// Number of members of a set.
    pub fn set_len(&self) -> (r: usize)
        requires
            self.wf(),
            self@ is Members,
        ensures
            self.members().finite(),
            self.members().len() <= usize::MAX ==> r == self.members().len(),
    {
        proof {
            self.lemma_order();
        }
        match self {
            Value::FlatSet(s) => s.len(),
            Value::SegSet(s) => s.len(),
            Value::SmallSetInline(s) => s.len(),
            _ => 0,
        }
    }

    /// Whether a set has no members.
    pub fn set_is_empty(&self) -> (r: bool)
        requires
            self.wf(),
            self@ is Members,
        ensures
            r == (self.members() == Set::<Seq<u8>>::empty()),
    {
        proof {
            self.lemma_order();
            if self.members().len() == 0 {
                assert(self.members() =~= Set::empty());
            }
        }
        match self {
            Value::FlatSet(s) => s.is_empty(),
            Value::SegSet(s) => s.is_empty(),
            Value::SmallSetInline(s) => s.is_empty(),
            _ => true,
        }
    }

    /// The members of a set, copied out, in walking order.
    pub fn set_members(&self) -> (r: Vec<Vec<u8>>)
        requires
            self.wf(),
            self@ is Members,
        ensures
            crate::bytes::deep(r@) == self.order(),
            self.order().no_duplicates(),
            self.order().to_set() == self.members(),
            self.members().finite(),
            r@.len() == self.members().len(),
    {
        let r = match self {
            Value::FlatSet(s) => s.keys(),
            Value::SegSet(s) => s.keys(),
            Value::SmallSetInline(s) => small_members(s),
            _ => Vec::new(),
        };
        proof {
            self.lemma_order();
            assert(crate::bytes::deep(r@).len() == r@.len());
        }
        r
    }

    /// A set of one member.
    pub fn set_of(m: &[u8]) -> (r: Value)
        ensures
            r.wf(),
            r@ is Members,
            r.members() == Set::<Seq<u8>>::empty().insert(m@),
            !(r is SegSet),
    {
        match SmallSetData::with_one(m) {
            Some(s) => {
                proof {
                    assert forall|x: Seq<u8>| s@.to_set().contains(x) == Set::<Seq<u8>>::empty().insert(
                        m@,
                    ).contains(x) by {
                        if x == m@ {
                            assert(s@[0] == x);
                        }
                    }
                    assert(s@.to_set() =~= Set::<Seq<u8>>::empty().insert(m@));
                }
                Value::SmallSetInline(s)
            },
            None => {
                let mut t = SetData::new();
                t.insert(copy_bytes(m), Present);
                assert(t@.dom() =~= Set::<Seq<u8>>::empty().insert(m@));
                Value::FlatSet(Arc::new(t))
            },
        }
    }

    /// Turns an inline set into a flat one.
    fn set_to_heap(&mut self)
        requires
            old(self).wf(),
            old(self)@ is Members,
        ensures
            final(self).wf(),
            final(self)@ == old(self)@,
            *final(self) is FlatSet || *final(self) is SegSet,
            *final(self) is SegSet <==> *old(self) is SegSet,
    {
        let flat = match self {
            Value::SmallSetInline(s) => promote(s),
            _ => {
                return ;
            },
        };
        *self = Value::FlatSet(Arc::new(flat));
    }

    /// Puts a flat set that has grown big into buckets.
    fn set_shard(&mut self)
        requires
            old(self).wf(),
            *old(self) is FlatSet || *old(self) is SegSet,
        ensures
            final(self).wf(),
            *final(self) is FlatSet || *final(self) is SegSet,
            final(self)@ == old(self)@,
            old(self).members().len() <= usize::MAX ==> (*final(self) is SegSet <==> (*old(self) is SegSet
                || old(self).members().len() >= HS_PROMOTE)),
            !(*old(self) is FlatSet && *final(self) is SegSet) ==> *final(self) == *old(self),
    {
        let big: bool = match self {
            Value::FlatSet(s) => s.len() >= HS_PROMOTE,
            _ => false,
        };
        if big {
            let mut own = Value::Int(0);
            core::mem::swap(self, &mut own);
            match own {
                Value::FlatSet(s) => {
                    let ghost before = s;
                    let flat = unwrap(s);
                    proof {
                        crate::value_hash::lemma_flat_clone(before, flat);
                    }
                    *self = Value::SegSet(Arc::new(SegTable::from_flat(flat)));
                },
                _ => {},
            }
        }
    }

    /// Adds a member to a set; says whether it was new.
    pub fn set_add(&mut self, m: &[u8]) -> (r: bool)
        requires
            old(self).wf(),
            old(self)@ is Members,
        ensures
            final(self).wf(),
            final(self)@ is Members,
            final(self).members() == old(self).members().insert(m@),
            r == !old(self).members().contains(m@),
            old(self).members().len() <= usize::MAX ==> (*final(self) is SegSet <==> (*old(
                self,
            ) is SegSet || old(self).members().len() >= HS_PROMOTE)),
    {
        let ghost before = self.members();
        match self {
            Value::SmallSetInline(s) => {
                let ghost old_seq = s@;
                proof {
                    s.lemma_wf();
                    old_seq.unique_seq_to_set();
                }
                match s.try_add(m) {
                    AddResult::Added => {
                        proof {
                            let d = old_seq.push(m@);
                            lemma_take_set(d, old_seq.len() as int);
                            assert(d.take(old_seq.len() as int) =~= old_seq);
                            assert(d.take(d.len() as int) =~= d);
                        }
                        return true;
                    },
                    AddResult::AlreadyPresent => {
                        assert(before.insert(m@) =~= before);
                        return false;
                    },
                    AddResult::NoRoom => {},
                }
            },
            _ => {},
        }
        self.set_to_heap();
        self.set_shard();
        match self {
            Value::FlatSet(s) => {
                let ghost arc = *s;
                let t = unshare(s);
                proof {
                    crate::value_hash::lemma_flat_clone(arc, *t);
                }
                let added: bool = t.insert(copy_bytes(m), Present).is_none();
                assert(t@.dom() =~= before.insert(m@));
                added
            },
            Value::SegSet(s) => {
                let ghost arc = *s;
                let t = unshare(s);
                proof {
                    crate::value_hash::lemma_seg_clone(arc, *t);
                }
                let added: bool = t.insert(copy_bytes(m), Present).is_none();
                assert(t@.dom() =~= before.insert(m@));
                added
            },
            _ => false,
        }
    }

    /// Removes a member from a set; says whether it was there.
    pub fn set_remove(&mut self, m: &[u8]) -> (r: bool)
        requires
            old(self).wf(),
            old(self)@ is Members,
        ensures
            final(self).wf(),
            final(self)@ is Members,
            final(self).members() == old(self).members().remove(m@),
            r == old(self).members().contains(m@),
            *final(self) is SegSet <==> *old(self) is SegSet,
    {
        let ghost before = self.members();
        match self {
            Value::SmallSetInline(s) => {
                let ghost old_seq = s@;
                proof {
                    s.lemma_wf();
                }
                let r: bool = s.try_remove(m);
                proof {
                    if r {
                        lemma_remove_set(old_seq, m@);
                    } else {
                        assert(before.remove(m@) =~= before);
                    }
                }
                r
            },
            Value::FlatSet(s) => {
                let ghost arc = *s;
                let t = unshare(s);
                proof {
                    crate::value_hash::lemma_flat_clone(arc, *t);
                }
                let r: bool = t.remove(m).is_some();
                assert(t@.dom() =~= before.remove(m@));
                r
            },
            Value::SegSet(s) => {
                let ghost arc = *s;
                let t = unshare(s);
                proof {
                    crate::value_hash::lemma_seg_clone(arc, *t);
                }
                let r: bool = t.remove(m).is_some();
                assert(t@.dom() =~= before.remove(m@));
                r
            },
            _ => false,
        }
    }
}

/// Removing the one place of an element removes it from the set.
proof fn lemma_remove_set(s: Seq<Seq<u8>>, m: Seq<u8>)
    requires
        s.no_duplicates(),
        s.contains(m),
    ensures
        s.remove(s.index_of(m)).to_set() == s.to_set().remove(m),
{
    let i = s.index_of(m);
    let r = s.remove(i);
    assert(s[i] == m);
    assert forall|x: Seq<u8>| r.to_set().contains(x) == s.to_set().remove(m).contains(x) by {
        if r.contains(x) {
            let j = choose|j: int| 0 <= j < r.len() && r[j] == x;
            let k = if j < i {
                j
            } else {
                j + 1
            };
            assert(s[k] == x);
            assert(k != i);
        }
        if s.contains(x) && x != m {
            let k = choose|k: int| 0 <= k < s.len() && s[k] == x;
            let j = if k < i {
                k
            } else {
                k - 1
            };
            assert(r[j] == x);
        }
    }
    assert(r.to_set() =~= s.to_set().remove(m));
}

} // verus!
