//! List commands.
use vstd::prelude::*;
use super::Store;
use crate::bytes::bytes_eq;
use crate::list_seg::SEG_PROMOTE;
use crate::text::{norm_index, range_bounds};
use crate::types::StoreError;
use crate::value::Value;

verus! {

/// The list under a key, if there is one.
pub open spec fn list_at(s: super::StoreModel, key: Seq<u8>) -> Result<
    Option<Seq<Seq<u8>>>,
    StoreError,
> {
    if !s.slots.dom().contains(key) {
        Ok(None)
    } else {
        match s.slots[key].value {
            crate::value::Val::List(l) => Ok(Some(l)),
            _ => Err(StoreError::WrongType),
        }
    }
}

/// Whether the list under a key can grow by `n` elements: no list is longer
/// than a machine can hold.
pub open spec fn room(s: super::StoreModel, key: Seq<u8>, n: nat) -> bool {
    list_at(s, key) matches Ok(Some(l)) ==> l.len() + n <= isize::MAX
}

/// A list in place of the one under a key; an empty one takes the key along.
pub open spec fn relisted(s: super::StoreModel, key: Seq<u8>, l: Seq<Seq<u8>>) -> super::StoreModel {
    if l.len() == 0 {
        super::dropped(s, key)
    } else {
        super::revalued(s, key, crate::value::Val::List(l))
    }
}

/// The byte strings that a slice of them refers to.
pub open spec fn referred(v: Seq<&[u8]>) -> Seq<Seq<u8>> {
    Seq::new(v.len(), |i: int| v[i]@)
}

/// A list onto one end of which values were pushed, one after the other.
pub open spec fn pushed(l: Seq<Seq<u8>>, values: Seq<Seq<u8>>, front: bool) -> Seq<Seq<u8>> {
    if front {
        values.reverse() + l
    } else {
        l + values
    }
}

/// A keyspace after values were pushed onto the list under a key.
pub open spec fn after_push(
    s: super::StoreModel,
    key: Seq<u8>,
    values: Seq<Seq<u8>>,
    front: bool,
) -> super::StoreModel {
    let t = super::seen(s, key);
    match list_at(t, key) {
        Err(_e) => t,
        Ok(None) => super::put(
            t,
            key,
            crate::entry::Slot {
                value: crate::value::Val::List(pushed(Seq::empty(), values, front)),
                expire: None,
            },
        ),
        Ok(Some(l)) => super::revalued(
            t,
            key,
            crate::value::Val::List(pushed(l, values, front)),
        ),
    }
}

/// The lesser of two.
pub open spec fn lesser(a: nat, b: nat) -> nat {
    if a < b {
        a
    } else {
        b
    }
}

/// What pops of up to `count` elements from one end give, in order.
pub open spec fn popped(l: Seq<Seq<u8>>, count: nat, front: bool) -> Seq<Seq<u8>> {
    let n = lesser(count, l.len());
    if front {
        l.take(n as int)
    } else {
        l.skip(l.len() - n).reverse()
    }
}

/// What pops of up to `count` elements from one end leave.
pub open spec fn unpopped(l: Seq<Seq<u8>>, count: nat, front: bool) -> Seq<Seq<u8>> {
    let n = lesser(count, l.len());
    if front {
        l.skip(n as int)
    } else {
        l.take(l.len() - n)
    }
}

/// A keyspace after pops from the list under a key.
pub open spec fn after_pop(
    s: super::StoreModel,
    key: Seq<u8>,
    count: nat,
    front: bool,
) -> super::StoreModel {
    let t = super::seen(s, key);
    match list_at(t, key) {
        Ok(Some(l)) => relisted(t, key, unpopped(l, count, front)),
        _ => t,
    }
}

/// The first place of an element in a list.
pub open spec fn first_place(l: Seq<Seq<u8>>, v: Seq<u8>) -> Option<nat>
    decreases l.len(),
{
    if l.len() == 0 {
        None
    } else {
        match first_place(l.drop_last(), v) {
            Some(i) => Some(i),
            None => if l.last() == v {
                Some((l.len() - 1) as nat)
            } else {
                None
            },
        }
    }
}

/// The first place is the only one before which the element does not occur.
pub proof fn lemma_first_place(l: Seq<Seq<u8>>, v: Seq<u8>)
    ensures
        match first_place(l, v) {
            Some(i) => i < l.len() && l[i as int] == v && forall|j: int|
                0 <= j < i ==> #[trigger] l[j] != v,
            None => forall|j: int| 0 <= j < l.len() ==> #[trigger] l[j] != v,
        },
    decreases l.len(),
{
    if l.len() > 0 {
        lemma_first_place(l.drop_last(), v);
        assert forall|j: int| 0 <= j < l.len() - 1 implies l[j] == l.drop_last()[j] by {}
    }
}

/// A list with an element put before or behind the first place of another.
pub open spec fn inserted(l: Seq<Seq<u8>>, before: bool, at: nat, v: Seq<u8>) -> Seq<Seq<u8>> {
    l.insert(
        if before {
            at as int
        } else {
            (at + 1) as int
        },
        v,
    )
}

/// The place that a scan comes to in its `k`th step.
pub open spec fn scan_place(n: nat, backward: bool, k: int) -> int {
    if backward {
        n - 1 - k
    } else {
        k
    }
}

/// Where the first `k` steps of a scan meet an element, in scan order.
pub open spec fn hits(l: Seq<Seq<u8>>, v: Seq<u8>, backward: bool, k: nat) -> Seq<i64>
    decreases k,
{
    if k == 0 {
        Seq::empty()
    } else {
        let i = scan_place(l.len(), backward, k - 1);
        let before = hits(l, v, backward, (k - 1) as nat);
        if l[i] == v {
            before.push(i as i64)
        } else {
            before
        }
    }
}

/// Where a scan meets an element: the first `rank - 1` meetings are passed
/// over, then at most `count` are told (one if that is not given, all if it
/// is 0), within the first `maxlen` steps unless that is 0.
pub open spec fn lpos_spec(
    l: Seq<Seq<u8>>,
    v: Seq<u8>,
    rank: i64,
    count: Option<i64>,
    maxlen: nat,
) -> Seq<i64> {
    let skip = if rank < 0 {
        (-rank - 1) as nat
    } else {
        (rank - 1) as nat
    };
    let steps = if maxlen == 0 {
        l.len()
    } else {
        lesser(maxlen, l.len())
    };
    let all = hits(l, v, rank < 0, steps);
    let told = all.skip(lesser(skip, all.len()) as int);
    match count {
        None => told.take(lesser(1, told.len()) as int),
        Some(c) => if c == 0 {
            told
        } else {
            told.take(lesser(c as nat, told.len()) as int)
        },
    }
}

proof fn lemma_hits_prefix(l: Seq<Seq<u8>>, v: Seq<u8>, backward: bool, k: nat, m: nat)
    requires
        k <= m,
    ensures
        hits(l, v, backward, k).len() <= hits(l, v, backward, m).len(),
        hits(l, v, backward, m).take(hits(l, v, backward, k).len() as int) == hits(
            l,
            v,
            backward,
            k,
        ),
    decreases m,
{
    let a = hits(l, v, backward, k);
    let b = hits(l, v, backward, m);
    if k == m {
        assert(b.take(a.len() as int) =~= a);
    } else {
        lemma_hits_prefix(l, v, backward, k, (m - 1) as nat);
        let c = hits(l, v, backward, (m - 1) as nat);
        assert(b.take(a.len() as int) =~= c.take(a.len() as int));
    }
}

/// Changing a value twice is changing it once.
pub proof fn lemma_revalue_twice(
    s: super::StoreModel,
    key: Seq<u8>,
    a: crate::value::Val,
    b: crate::value::Val,
)
    ensures
        super::revalued(super::revalued(s, key, a), key, b) == super::revalued(s, key, b),
        super::dropped(super::revalued(s, key, a), key) == super::dropped(s, key),
{
    assert(super::revalued(super::revalued(s, key, a), key, b).slots =~= super::revalued(
        s,
        key,
        b,
    ).slots);
    assert(super::dropped(super::revalued(s, key, a), key).slots =~= super::dropped(
        s,
        key,
    ).slots);
}

impl Store {
    /// Takes a key's value out, leaving a placeholder that
    /// [`Store::restore`] must replace.
    pub fn lend(&mut self, key: &[u8]) -> (r: Value)
        requires
            old(self).wf(),
            old(self)@.slots.dom().contains(key@),
        ensures
            final(self).became(
                *old(self),
                super::revalued(
                    old(self)@,
                    key@,
                    crate::value::Val::Str(crate::text::decimal(0)),
                ),
            ),
            final(self).used() <= old(self).used(),
            r.wf(),
            r == old(self).held(key@),
            r@ == old(self)@.slots[key@].value,
            final(self).use_clock() == old(self).use_clock(),
            final(self).mark(key@) == old(self).mark(key@),
            final(self).kept_others(*old(self), key@),
    {
        let mut v = Value::Int(0);
        self.swap_value(key, &mut v);
        v
    }

    /// Puts a value under a key in place of the one that it has.
    pub fn restore(&mut self, key: &[u8], v: Value)
        requires
            old(self).wf(),
            old(self)@.slots.dom().contains(key@),
            v.wf(),
        ensures
            final(self).became(*old(self), super::revalued(old(self)@, key@, v@)),
            final(self).held(key@) == v,
            final(self).use_clock() == old(self).use_clock(),
            final(self).mark(key@) == old(self).mark(key@),
            final(self).kept_others(*old(self), key@),
    {
        let mut w = v;
        self.swap_value(key, &mut w);
    }

    /// Puts a list that was lent back, or drops the key if it is empty.
    fn restore_list(&mut self, key: &[u8], v: Value)
        requires
            old(self).wf(),
            old(self)@.slots.dom().contains(key@),
            v.wf(),
            v@ is List,
        ensures
            final(self).became(*old(self), relisted(old(self)@, key@, v.items())),
            final(self).use_clock() == old(self).use_clock(),
            final(self)@.slots.dom().contains(key@) ==> final(self).held(key@) == v
                && final(self).mark(key@) == old(self).mark(key@),
            final(self).kept_others(*old(self), key@),
    {
        if v.list_len() == 0 {
            self.remove_entry(key);
        } else {
            self.restore(key, v);
        }
    }

    /// Looks a key up for a change of its list: once to see whether the list
    /// is in segments, and once more if it is not.
    fn open_list(&mut self, key: &[u8]) -> (r: bool)
        requires
            old(self).wf(),
        ensures
            final(self).became(*old(self), super::seen(old(self)@, key@)),
            final(self).used() <= old(self).used(),
            r == super::key_live(old(self)@, key@, super::read_now(old(self)@)),
            r == final(self)@.slots.dom().contains(key@),
            r ==> final(self).held(key@) == old(self).held(key@),
            final(self).kept_others(*old(self), key@),
            final(self).used_times(*old(self), old(self)@, key@, list_uses(old(self).held(key@)), 0),
    {
        if !self.find(key) {
            return false;
        }
        let n: u128 = match self.value_ref(key) {
            Some(Value::SegList(_)) => 1,
            _ => 2,
        };
        self.use_times(key, n);
        true
    }

    /// The length of the list under a key, its deadline come or not; 0 if
    /// there is none.
    fn stored_len(&self, key: &[u8]) -> (r: usize)
        requires
            self.wf(),
        ensures
            match list_at(self@, key@) {
                Ok(Some(l)) => r == l.len(),
                _ => r == 0,
            },
    {
        match self.value_ref(key) {
            Some(v) => if v.is_list() {
                v.list_len()
            } else {
                0
            },
            None => 0,
        }
    }

    /// Puts values in front of the list under a key, one after the other,
    /// and gives its length.
    pub fn lpush(&mut self, key: &[u8], values: &[&[u8]]) -> (r: Result<usize, StoreError>)
        requires
            old(self).wf(),
            room(old(self)@, key@, values@.len()),
            values@.len() <= isize::MAX,
        ensures
            push_told(old(self)@, key@, referred(values@), r),
            final(self).became(
                *old(self),
                if values@.len() == 0 {
                    old(self)@
                } else {
                    after_push(old(self)@, key@, referred(values@), true)
                },
            ),
            final(self).kept_others(*old(self), key@),
            values@.len() > 0 && r is Ok ==> push_form(*old(self), *final(self), key@),
            values@.len() == 0 ==> *final(self) == *old(self),
            values@.len() > 0 && r is Ok ==> final(self).used_times(
                *old(self),
                old(self)@,
                key@,
                2 * values@.len(),
                (2 * values@.len() - 2) as nat,
            ),
            values@.len() > 0 && r is Err ==> final(self).used_at(*old(self), key@),
    {
        self.push(key, values, true)
    }

    /// Puts values behind the list under a key, one after the other, and
    /// gives its length.
    pub fn rpush(&mut self, key: &[u8], values: &[&[u8]]) -> (r: Result<usize, StoreError>)
        requires
            old(self).wf(),
            room(old(self)@, key@, values@.len()),
            values@.len() <= isize::MAX,
        ensures
            push_told(old(self)@, key@, referred(values@), r),
            final(self).became(
                *old(self),
                if values@.len() == 0 {
                    old(self)@
                } else {
                    after_push(old(self)@, key@, referred(values@), false)
                },
            ),
            final(self).kept_others(*old(self), key@),
            values@.len() > 0 && r is Ok ==> push_form(*old(self), *final(self), key@),
            values@.len() == 0 ==> *final(self) == *old(self),
            values@.len() > 0 && r is Ok ==> final(self).used_times(
                *old(self),
                old(self)@,
                key@,
                2 * values@.len(),
                (2 * values@.len() - 2) as nat,
            ),
            values@.len() > 0 && r is Err ==> final(self).used_at(*old(self), key@),
    {
        self.push(key, values, false)
    }

    fn push(&mut self, key: &[u8], values: &[&[u8]], front: bool) -> (r: Result<usize, StoreError>)
        requires
            old(self).wf(),
            room(old(self)@, key@, values@.len()),
            values@.len() <= isize::MAX,
        ensures
            push_told(old(self)@, key@, referred(values@), r),
            final(self).became(
                *old(self),
                if values@.len() == 0 {
                    old(self)@
                } else {
                    after_push(old(self)@, key@, referred(values@), front)
                },
            ),
            final(self).kept_others(*old(self), key@),
            values@.len() > 0 && r is Ok ==> push_form(*old(self), *final(self), key@),
            values@.len() == 0 ==> *final(self) == *old(self),
            values@.len() > 0 && r is Ok ==> final(self).used_times(
                *old(self),
                old(self)@,
                key@,
                2 * values@.len(),
                (2 * values@.len() - 2) as nat,
            ),
            values@.len() > 0 && r is Err ==> final(self).used_at(*old(self), key@),
    {
        let n: usize = values.len();
        if n == 0 {
            return Ok(self.stored_len(key));
        }
        let ghost all = referred(values@);
        let there: bool = self.find(key);
        let ghost t = self@;
        let mut v = if there {
            let list: bool = match self.value_ref(key) {
                Some(v) => v.is_list(),
                None => false,
            };
            if !list {
                self.live(key);
                return Err(StoreError::WrongType);
            }
            self.use_times(key, 2 * n as u128);
            self.lend(key)
        } else {
            Value::list_of(values[0])
        };
        let ghost l0 = if there {
            v.items()
        } else {
            Seq::empty()
        };
        let ghost was = there && v is SegList;
        let mut i: usize = if there {
            0
        } else {
            1
        };
        proof {
            if there {
                assert(pushed(l0, all.take(0), front) =~= l0);
            } else {
                assert(pushed(l0, all.take(1), front) =~= seq![all[0]]);
            }
        }
        while i < n
            invariant
                n == values@.len(),
                all == referred(values@),
                i <= n,
                v.wf(),
                v@ is List,
                l0.len() + n <= isize::MAX,
                v.items() == pushed(l0, all.take(i as int), front),
                v is SegList <==> (was || (i > 0 && v.items().len() > SEG_PROMOTE)),
            decreases n - i,
        {
            let ghost before = v.items();
            v.list_push(values[i], front);
            assert(v.items() =~= pushed(l0, all.take(i + 1), front));
            i = i + 1;
        }
        assert(all.take(n as int) =~= all);
        let len: usize = v.list_len();
        if there {
            self.restore(key, v);
            proof {
                lemma_revalue_twice(
                    t,
                    key@,
                    crate::value::Val::Str(crate::text::decimal(0)),
                    v@,
                );
            }
        } else {
            self.insert_entry(key, v, None);
            self.use_times(key, 2 * (n as u128) - 2);
        }
        Ok(len)
    }

    /// Pops up to `count` elements from the front of the list under a key.
    pub fn lpop(&mut self, key: &[u8], count: usize) -> (r: Result<Vec<Vec<u8>>, StoreError>)
        requires
            old(self).wf(),
        ensures
            pop_told(old(self)@, key@, count as nat, true, r),
            final(self).became(*old(self), after_pop(old(self)@, key@, count as nat, true)),
            final(self).kept_others(*old(self), key@),
            final(self).kept_form(*old(self), key@),
            final(self).used_times(*old(self), old(self)@, key@, list_uses(old(self).held(key@)), 0),
    {
        self.pop(key, count, true)
    }

    /// Pops up to `count` elements from the back of the list under a key.
    pub fn rpop(&mut self, key: &[u8], count: usize) -> (r: Result<Vec<Vec<u8>>, StoreError>)
        requires
            old(self).wf(),
        ensures
            pop_told(old(self)@, key@, count as nat, false, r),
            final(self).became(*old(self), after_pop(old(self)@, key@, count as nat, false)),
            final(self).kept_others(*old(self), key@),
            final(self).kept_form(*old(self), key@),
            final(self).used_times(*old(self), old(self)@, key@, list_uses(old(self).held(key@)), 0),
    {
        self.pop(key, count, false)
    }

    fn pop(&mut self, key: &[u8], count: usize, front: bool) -> (r: Result<
        Vec<Vec<u8>>,
        StoreError,
    >)
        requires
            old(self).wf(),
        ensures
            pop_told(old(self)@, key@, count as nat, front, r),
            final(self).became(*old(self), after_pop(old(self)@, key@, count as nat, front)),
            final(self).kept_others(*old(self), key@),
            final(self).kept_form(*old(self), key@),
            final(self).used_times(*old(self), old(self)@, key@, list_uses(old(self).held(key@)), 0),
    {
        let mut out: Vec<Vec<u8>> = Vec::new();
        if !self.open_list(key) {
            assert(crate::bytes::deep(out@) =~= Seq::empty());
            return Ok(out);
        }
        let list: bool = match self.value_ref(key) {
            Some(v) => v.is_list(),
            None => false,
        };
        if !list {
            return Err(StoreError::WrongType);
        }
        let ghost t = self@;
        let mut v = self.lend(key);
        let ghost v0 = v;
        let ghost l0 = v.items();
        let mut more: bool = true;
        proof {
            assert(crate::bytes::deep(out@) =~= popped(l0, 0, front));
            assert(unpopped(l0, 0, front) =~= l0);
        }
        while more && out.len() < count
            invariant
                v.wf(),
                v@ is List,
                v is SegList <==> v0 is SegList,
                out@.len() <= count,
                crate::bytes::deep(out@) == popped(l0, out@.len(), front),
                v.items() == unpopped(l0, out@.len(), front),
                out@.len() <= l0.len(),
                !more ==> out@.len() == l0.len(),
            decreases count - out@.len() + (if more { 1int } else { 0int }),
        {
            let ghost n = out@.len();
            let ghost before = v.items();
            match v.list_pop(front) {
                Some(x) => {
                    out.push(x);
                    proof {
                        assert(crate::bytes::deep(out@) =~= popped(l0, n, front).push(x@));
                        assert(popped(l0, n + 1, front) =~= popped(l0, n, front).push(x@));
                        assert(v.items() =~= unpopped(l0, n + 1, front));
                    }
                },
                None => {
                    more = false;
                },
            }
        }
        proof {
            let n = out@.len();
            assert(n == lesser(count as nat, l0.len()));
            assert(popped(l0, n, front) =~= popped(l0, count as nat, front));
            assert(unpopped(l0, n, front) =~= unpopped(l0, count as nat, front));
            lemma_revalue_twice(t, key@, crate::value::Val::Str(crate::text::decimal(0)), v@);
        }
        self.restore_list(key, v);
        Ok(out)
    }

    /// Replaces an element of the list under a key.
    pub fn lset(&mut self, key: &[u8], idx: i64, val: &[u8]) -> (r: Result<(), StoreError>)
        requires
            old(self).wf(),
        ensures
            match list_at(super::seen(old(self)@, key@), key@) {
                Err(e) => r == Err::<(), StoreError>(e) && final(self).became(
                    *old(self),
                    super::seen(old(self)@, key@),
                ),
                Ok(None) => r == Err::<(), StoreError>(StoreError::NoSuchKey) && final(self).became(*old(self), super::seen(old(self)@, key@)),
                Ok(Some(l)) => match crate::text::norm_index_spec(idx, l.len()) {
                    None => r == Err::<(), StoreError>(StoreError::OutOfRange) && final(self).became(*old(self), super::seen(old(self)@, key@)),
                    Some(i) => r == Ok::<(), StoreError>(()) && final(self).became(
                        *old(self),
                        super::revalued(
                            super::seen(old(self)@, key@),
                            key@,
                            crate::value::Val::List(l.update(i as int, val@)),
                        ),
                    ),
                },
            },
            final(self).kept_others(*old(self), key@),
            final(self).kept_form(*old(self), key@),
            final(self).used_times(*old(self), old(self)@, key@, list_uses(old(self).held(key@)), 0),
    {
        if !self.open_list(key) {
            return Err(StoreError::NoSuchKey);
        }
        let ghost t = self@;
        let n: usize = match self.value_ref(key) {
            Some(v) => if v.is_list() {
                v.list_len()
            } else {
                return Err(StoreError::WrongType);
            },
            None => 0,
        };
        match norm_index(idx, n) {
            None => Err(StoreError::OutOfRange),
            Some(i) => {
                let mut v = self.lend(key);
                v.list_to_heap();
                v.list_set(i, val);
                self.restore(key, v);
                proof {
                    lemma_revalue_twice(
                        t,
                        key@,
                        crate::value::Val::Str(crate::text::decimal(0)),
                        v@,
                    );
                }
                Ok(())
            },
        }
    }

    /// Puts an element before or behind the first place of another in the
    /// list under a key. Gives the new length, 0 if there is no such key, -1
    /// if the other is not in the list.
    pub fn linsert(&mut self, key: &[u8], before: bool, pivot: &[u8], val: &[u8]) -> (r: Result<
        i64,
        StoreError,
    >)
        requires
            old(self).wf(),
            room(old(self)@, key@, 1),
        ensures
            match list_at(super::seen(old(self)@, key@), key@) {
                Err(e) => r == Err::<i64, StoreError>(e) && final(self).became(
                    *old(self),
                    super::seen(old(self)@, key@),
                ),
                Ok(None) => r == Ok::<i64, StoreError>(0) && final(self).became(
                    *old(self),
                    super::seen(old(self)@, key@),
                ),
                Ok(Some(l)) => match first_place(l, pivot@) {
                    None => r == Ok::<i64, StoreError>((-1) as i64) && final(self).became(
                        *old(self),
                        super::seen(old(self)@, key@),
                    ),
                    Some(i) => r == Ok::<i64, StoreError>((l.len() + 1) as i64) && final(self).became(
                        *old(self),
                        super::revalued(
                            super::seen(old(self)@, key@),
                            key@,
                            crate::value::Val::List(inserted(l, before, i, val@)),
                        ),
                    ),
                },
            },
            final(self).kept_others(*old(self), key@),
            final(self).kept_form(*old(self), key@),
            final(self).used_times(*old(self), old(self)@, key@, list_uses(old(self).held(key@)), 0),
    {
        if !self.open_list(key) {
            return Ok(0);
        }
        let ghost t = self@;
        let list: bool = match self.value_ref(key) {
            Some(v) => v.is_list(),
            None => false,
        };
        if !list {
            return Err(StoreError::WrongType);
        }
        let mut v = self.lend(key);
        let ghost l = v.items();
        v.list_to_heap();
        proof {
            lemma_first_place(l, pivot@);
            lemma_revalue_twice(t, key@, crate::value::Val::Str(crate::text::decimal(0)), v@);
        }
        match v.list_position(pivot) {
            None => {
                assert(first_place(l, pivot@) is None) by {
                    if let Some(k) = first_place(l, pivot@) {
                        assert(v.items()[k as int] != pivot@);
                    }
                }
                self.restore(key, v);
                assert(self@.slots =~= t.slots);
                Ok(-1)
            },
            Some(i) => {
                proof {
                    match first_place(l, pivot@) {
                        Some(k) => {
                            assert(l[k as int] == pivot@);
                            if k < i {
                                assert(v.items()[k as int] != pivot@);
                            }
                            assert(k == i);
                        },
                        None => {
                            assert(l[i as int] != pivot@);
                        },
                    }
                }
                let at: usize = if before {
                    i
                } else {
                    i + 1
                };
                v.list_insert(at, val);
                let n: usize = v.list_len();
                self.restore(key, v);
                proof {
                    lemma_revalue_twice(
                        t,
                        key@,
                        crate::value::Val::Str(crate::text::decimal(0)),
                        v@,
                    );
                }
                Ok(n as i64)
            },
        }
    }

    /// Removes an element's occurrences from the list under a key: the first
    /// `count` of them, the last ones if that is negative, all if it is 0.
    /// Gives how many went.
    pub fn lrem(&mut self, key: &[u8], count: i64, val: &[u8]) -> (r: Result<usize, StoreError>)
        requires
            old(self).wf(),
        ensures
            match list_at(super::seen(old(self)@, key@), key@) {
                Err(e) => r == Err::<usize, StoreError>(e) && final(self).became(
                    *old(self),
                    super::seen(old(self)@, key@),
                ),
                Ok(None) => r == Ok::<usize, StoreError>(0) && final(self).became(
                    *old(self),
                    super::seen(old(self)@, key@),
                ),
                Ok(Some(l)) => {
                    let left = crate::list_data::rem_result(l, val@, count);
                    &&& r matches Ok(n)
                    &&& n == crate::list_data::taken(
                        l,
                        val@,
                        crate::list_data::rem_limit(count),
                    )
                    &&& final(self).became(
                        *old(self),
                        relisted(super::seen(old(self)@, key@), key@, left),
                    )
                },
            },
            final(self).kept_others(*old(self), key@),
            final(self).kept_form(*old(self), key@),
            final(self).used_times(*old(self), old(self)@, key@, list_uses(old(self).held(key@)), 0),
    {
        if !self.open_list(key) {
            return Ok(0);
        }
        let ghost t = self@;
        let list: bool = match self.value_ref(key) {
            Some(v) => v.is_list(),
            None => false,
        };
        if !list {
            return Err(StoreError::WrongType);
        }
        let mut v = self.lend(key);
        v.list_to_heap();
        let n: usize = v.list_remove(val, count);
        proof {
            lemma_revalue_twice(t, key@, crate::value::Val::Str(crate::text::decimal(0)), v@);
        }
        self.restore_list(key, v);
        Ok(n)
    }

    /// Keeps only the elements of the list under a key that an inclusive
    /// range covers.
    pub fn ltrim(&mut self, key: &[u8], start: i64, stop: i64) -> (r: Result<(), StoreError>)
        requires
            old(self).wf(),
        ensures
            match list_at(super::seen(old(self)@, key@), key@) {
                Err(e) => r == Err::<(), StoreError>(e) && final(self).became(
                    *old(self),
                    super::seen(old(self)@, key@),
                ),
                Ok(None) => r == Ok::<(), StoreError>(()) && final(self).became(
                    *old(self),
                    super::seen(old(self)@, key@),
                ),
                Ok(Some(l)) => r == Ok::<(), StoreError>(()) && final(self).became(
                    *old(self),
                    relisted(super::seen(old(self)@, key@), key@, lrange_spec(l, start, stop)),
                ),
            },
            final(self).kept_others(*old(self), key@),
            final(self).kept_form(*old(self), key@),
            final(self).used_times(*old(self), old(self)@, key@, list_uses(old(self).held(key@)), 0),
    {
        if !self.open_list(key) {
            return Ok(());
        }
        let ghost t = self@;
        let n: usize = match self.value_ref(key) {
            Some(v) => if v.is_list() {
                v.list_len()
            } else {
                return Err(StoreError::WrongType);
            },
            None => 0,
        };
        match range_bounds(start, stop, n) {
            None => {
                self.remove_entry(key);
            },
            Some((s, e)) => {
                let mut v = self.lend(key);
                v.list_to_heap();
                v.list_trim(s, e);
                proof {
                    lemma_revalue_twice(
                        t,
                        key@,
                        crate::value::Val::Str(crate::text::decimal(0)),
                        v@,
                    );
                }
                self.restore_list(key, v);
            },
        }
        Ok(())
    }

    /// How many elements the list under a key has, 0 if there is none.
    pub fn llen(&mut self, key: &[u8]) -> (r: Result<usize, StoreError>)
        requires
            old(self).wf(),
        ensures
            final(self).became(*old(self), super::seen(old(self)@, key@)),
            match list_at(super::seen(old(self)@, key@), key@) {
                Ok(Some(l)) => r matches Ok(n) && n == l.len(),
                Ok(None) => r == Ok::<usize, StoreError>(0),
                Err(e) => r == Err::<usize, StoreError>(e),
            },
            final(self).kept_others(*old(self), key@),
            final(self).used_at(*old(self), key@),
    {
        if !self.live(key) {
            return Ok(0);
        }
        match self.value_ref(key) {
            None => Ok(0),
            Some(v) => if v.is_list() {
                Ok(v.list_len())
            } else {
                Err(StoreError::WrongType)
            },
        }
    }

    /// An element of the list under a key.
    pub fn lindex(&mut self, key: &[u8], idx: i64) -> (r: Result<Option<Vec<u8>>, StoreError>)
        requires
            old(self).wf(),
        ensures
            final(self).became(*old(self), super::seen(old(self)@, key@)),
            super::strings::bytes_result(r) == (match list_at(
                super::seen(old(self)@, key@),
                key@,
            ) {
                Ok(Some(l)) => match crate::text::norm_index_spec(idx, l.len()) {
                    Some(i) => Ok(Some(l[i as int])),
                    None => Ok(None),
                },
                Ok(None) => Ok(None),
                Err(e) => Err::<Option<Seq<u8>>, StoreError>(e),
            }),
            final(self).kept_others(*old(self), key@),
            final(self).used_at(*old(self), key@),
    {
        if !self.live(key) {
            return Ok(None);
        }
        match self.value_ref(key) {
            None => Ok(None),
            Some(v) => if v.is_list() {
                match norm_index(idx, v.list_len()) {
                    None => Ok(None),
                    Some(i) => Ok(v.list_get(i)),
                }
            } else {
                Err(StoreError::WrongType)
            },
        }
    }

    /// The elements of the list under a key that an inclusive range covers.
    pub fn lrange(&mut self, key: &[u8], start: i64, stop: i64) -> (r: Result<
        Vec<Vec<u8>>,
        StoreError,
    >)
        requires
            old(self).wf(),
        ensures
            final(self).became(*old(self), super::seen(old(self)@, key@)),
            match list_at(super::seen(old(self)@, key@), key@) {
                Ok(Some(l)) => r matches Ok(v) && crate::bytes::deep(v@) == lrange_spec(
                    l,
                    start,
                    stop,
                ),
                Ok(None) => r matches Ok(v) && v@.len() == 0,
                Err(e) => r == Err::<Vec<Vec<u8>>, StoreError>(e),
            },
            final(self).kept_others(*old(self), key@),
            final(self).used_at(*old(self), key@),
    {
        if !self.live(key) {
            return Ok(Vec::new());
        }
        match self.value_ref(key) {
            None => Ok(Vec::new()),
            Some(v) => if v.is_list() {
                match range_bounds(start, stop, v.list_len()) {
                    None => {
                        let out: Vec<Vec<u8>> = Vec::new();
                        assert(crate::bytes::deep(out@) =~= Seq::empty());
                        Ok(out)
                    },
                    Some((s, e)) => Ok(v.list_slice(s, e)),
                }
            } else {
                Err(StoreError::WrongType)
            },
        }
    }

    /// Moves the last element of one list to the front of another.
    pub fn rpoplpush(&mut self, src: &[u8], dst: &[u8]) -> (r: Result<Option<Vec<u8>>, StoreError>)
        requires
            old(self).wf(),
            room(old(self)@, dst@, 1),
        ensures
            move_told(old(self)@, src@, dst@, false, r),
            final(self).wf(),
            final(self)@ == after_move(old(self)@, src@, dst@, false, true),
            final(self).came_by(*old(self), move_path(old(self)@, src@, dst@, false, true)),
    {
        self.lmove(src, dst, false, true)
    }

    /// Moves an element from one end of a list to one end of another, which
    /// may be the same list. Nothing is popped if the other key holds
    /// something else than a list.
    pub fn lmove(&mut self, src: &[u8], dst: &[u8], from_left: bool, to_left: bool) -> (r: Result<
        Option<Vec<u8>>,
        StoreError,
    >)
        requires
            old(self).wf(),
            room(old(self)@, dst@, 1),
        ensures
            move_told(old(self)@, src@, dst@, from_left, r),
            final(self).wf(),
            final(self)@ == after_move(old(self)@, src@, dst@, from_left, to_left),
            final(self).came_by(*old(self), move_path(old(self)@, src@, dst@, from_left, to_left)),
    {
        let ghost s = self@;
        let there: bool = self.live(dst);
        proof {
            old(self).lemma_no_step();
            self.lemma_step(*old(self), *old(self), Seq::empty(), dst@, self@);
        }
        if there {
            let list: bool = match self.value_ref(dst) {
                Some(v) => v.is_list(),
                None => false,
            };
            if !list {
                return Err(StoreError::WrongType);
            }
        }
        let ghost t = self@;
        let ghost at = *self;
        let ghost path = seq![(dst@, t)];
        let popped_out = self.pop(src, 1, from_left);
        proof {
            self.lemma_step(at, *old(self), path, src@, self@);
        }
        let ghost path = path.push((src@, self@));
        assert(!(moved(s, src@, dst@, from_left) matches Ok(Some(_v))) ==> path =~= move_path(
            s,
            src@,
            dst@,
            from_left,
            to_left,
        ));
        let mut out = match popped_out {
            Err(e) => {
                return Err(e);
            },
            Ok(out) => out,
        };
        let ghost told = out@;
        match out.pop() {
            None => {
                assert(crate::bytes::deep(told).len() == 0);
                Ok(None)
            },
            Some(v) => {
                proof {
                    let l = list_at(super::seen(t, src@), src@)->Ok_0->Some_0;
                    assert(crate::bytes::deep(told) == popped(l, 1, from_left));
                    assert(popped(l, 1, from_left).len() <= 1);
                    assert(crate::bytes::deep(told).len() == told.len());
                    assert(crate::bytes::deep(told)[0] == told[0]@);
                    lemma_move_room(s, src@, dst@, from_left);
                }
                let ghost mid = *self;
                {
                    let one = [v.as_slice()];
                    assert(referred(one@) =~= seq![v@]);
                    match self.push(dst, &one, to_left) {
                        Err(e) => {
                            assert(false);
                            return Err(e);
                        },
                        Ok(_n) => {},
                    }
                }
                proof {
                    self.lemma_step(mid, *old(self), path, dst@, self@);
                    assert(path.push((dst@, self@)) =~= move_path(
                        s,
                        src@,
                        dst@,
                        from_left,
                        to_left,
                    ));
                }
                Ok(Some(v))
            },
        }
    }

    /// Where the list under a key holds an element, as absolute places in
    /// the order of the scan.
    pub fn lpos(
        &mut self,
        key: &[u8],
        element: &[u8],
        rank: i64,
        count: Option<i64>,
        maxlen: usize,
    ) -> (r: Result<Vec<i64>, StoreError>)
        requires
            old(self).wf(),
            room(old(self)@, key@, 0),
        ensures
            lpos_refused(rank, count) ==> r == Err::<Vec<i64>, StoreError>(StoreError::OutOfRange)
                && *final(self) == *old(self),
            !lpos_refused(rank, count) ==> final(self).became(
                *old(self),
                super::seen(old(self)@, key@),
            ),
            !lpos_refused(rank, count) ==> match list_at(super::seen(old(self)@, key@), key@) {
                Ok(Some(l)) => r matches Ok(v) && v@ == lpos_spec(
                    l,
                    element@,
                    rank,
                    count,
                    maxlen as nat,
                ),
                Ok(None) => r matches Ok(v) && v@.len() == 0,
                Err(e) => r == Err::<Vec<i64>, StoreError>(e),
            },
            final(self).kept_others(*old(self), key@),
            !lpos_refused(rank, count) ==> final(self).used_at(*old(self), key@),
    {
        if rank == 0 {
            return Err(StoreError::OutOfRange);
        }
        match count {
            Some(c) => {
                if c < 0 {
                    return Err(StoreError::OutOfRange);
                }
            },
            None => {},
        }
        if !self.live(key) {
            return Ok(Vec::new());
        }
        match self.value_ref(key) {
            None => Ok(Vec::new()),
            Some(v) => if v.is_list() {
                Ok(scan(&v.list_all(), element, rank, count, maxlen))
            } else {
                Err(StoreError::WrongType)
            },
        }
    }
}

/// Whether a search is refused: the rank is 0 or the count is negative.
pub open spec fn lpos_refused(rank: i64, count: Option<i64>) -> bool {
    rank == 0 || (count matches Some(c) && c < 0)
}

/// Where a scan meets an element.
fn scan(l: &Vec<Vec<u8>>, element: &[u8], rank: i64, count: Option<i64>, maxlen: usize) -> (r: Vec<
    i64,
>)
    requires
        !lpos_refused(rank, count),
        l@.len() <= isize::MAX,
    ensures
        r@ == lpos_spec(crate::bytes::deep(l@), element@, rank, count, maxlen as nat),
{
    let ghost items = crate::bytes::deep(l@);
    let n: usize = l.len();
    let backward: bool = rank < 0;
    let skip: u64 = if rank == i64::MIN {
        0x7fff_ffff_ffff_ffffu64
    } else if backward {
        (-rank - 1) as u64
    } else {
        (rank - 1) as u64
    };
    let cap: u64 = match count {
        None => 1,
        Some(c) => if c == 0 {
            u64::MAX
        } else {
            c as u64
        },
    };
    let steps: usize = if maxlen == 0 || maxlen > n {
        n
    } else {
        maxlen
    };
    let mut out: Vec<i64> = Vec::new();
    let mut passed: u64 = 0;
    let mut k: usize = 0;
    let ghost all = hits(items, element@, backward, steps as nat);
    assert(out@ =~= hits(items, element@, backward, 0).skip(0));
    while k < steps && (out.len() as u64) < cap
        invariant
            k <= steps <= n,
            n == l@.len(),
            n <= isize::MAX,
            items == crate::bytes::deep(l@),
            cap > 0,
            passed <= skip,
            passed + out@.len() == hits(items, element@, backward, k as nat).len(),
            passed < skip ==> out@.len() == 0,
            out@ == hits(items, element@, backward, k as nat).skip(passed as int),
            out@.len() <= cap,
            out@.len() <= k,
        decreases steps - k,
    {
        let at: usize = if backward {
            n - 1 - k
        } else {
            k
        };
        let ghost h = hits(items, element@, backward, k as nat);
        assert(items[at as int] == l@[at as int]@);
        if bytes_eq(l[at].as_slice(), element) {
            if passed < skip {
                passed = passed + 1;
                proof {
                    assert(h.push(at as i64).skip(passed as int) =~= out@);
                }
            } else {
                out.push(at as i64);
                proof {
                    assert(h.push(at as i64).skip(passed as int) =~= out@);
                }
            }
        }
        k = k + 1;
    }
    proof {
        lemma_hits_prefix(items, element@, backward, k as nat, steps as nat);
        let h = hits(items, element@, backward, k as nat);
        let told = all.skip(lesser(skip as nat, all.len()) as int);
        assert forall|j: int| 0 <= j < h.len() implies h[j] == all[j] by {
            assert(all.take(h.len() as int)[j] == all[j]);
        }
        if k < steps {
            assert(out@.len() == cap);
            assert(out@ =~= told.take(cap as int));
        } else {
            assert(h =~= all);
            assert(out@ =~= told);
            assert(told =~= told.take(told.len() as int));
        }
    }
    out
}

/// The elements of a list that an inclusive range covers.
pub open spec fn lrange_spec(l: Seq<Seq<u8>>, start: i64, stop: i64) -> Seq<Seq<u8>> {
    match crate::text::range_bounds_spec(start, stop, l.len()) {
        Some((s, e)) => l.subrange(s as int, (e + 1) as int),
        None => Seq::empty(),
    }
}

/// What a push tells: the length of the list.
pub open spec fn push_told(
    s: super::StoreModel,
    key: Seq<u8>,
    values: Seq<Seq<u8>>,
    r: Result<usize, StoreError>,
) -> bool {
    if values.len() == 0 {
        r matches Ok(n) && n == (match list_at(s, key) {
            Ok(Some(l)) => l.len(),
            _ => 0,
        })
    } else {
        match list_at(super::seen(s, key), key) {
            Err(e) => r == Err::<usize, StoreError>(e),
            Ok(None) => r matches Ok(n) && n == values.len(),
            Ok(Some(l)) => r matches Ok(n) && n == l.len() + values.len(),
        }
    }
}

/// What pops tell: the elements that went, in order.
pub open spec fn pop_told(
    s: super::StoreModel,
    key: Seq<u8>,
    count: nat,
    front: bool,
    r: Result<Vec<Vec<u8>>, StoreError>,
) -> bool {
    match list_at(super::seen(s, key), key) {
        Err(e) => r == Err::<Vec<Vec<u8>>, StoreError>(e),
        Ok(None) => r matches Ok(v) && v@.len() == 0,
        Ok(Some(l)) => r matches Ok(v) && crate::bytes::deep(v@) == popped(l, count, front),
    }
}

/// The element that a move takes, if any.
pub open spec fn moved(s: super::StoreModel, src: Seq<u8>, dst: Seq<u8>, from_left: bool) -> Result<
    Option<Seq<u8>>,
    StoreError,
> {
    let t = super::seen(s, dst);
    match list_at(t, dst) {
        Err(e) => Err(e),
        Ok(_l) => match list_at(super::seen(t, src), src) {
            Err(e) => Err(e),
            Ok(None) => Ok(None),
            Ok(Some(l)) => if l.len() == 0 {
                Ok(None)
            } else if from_left {
                Ok(Some(l.first()))
            } else {
                Ok(Some(l.last()))
            },
        },
    }
}

/// What a move tells: the element that went.
pub open spec fn move_told(
    s: super::StoreModel,
    src: Seq<u8>,
    dst: Seq<u8>,
    from_left: bool,
    r: Result<Option<Vec<u8>>, StoreError>,
) -> bool {
    super::strings::bytes_result(r) == moved(s, src, dst, from_left)
}

/// A keyspace after a move.
pub open spec fn after_move(
    s: super::StoreModel,
    src: Seq<u8>,
    dst: Seq<u8>,
    from_left: bool,
    to_left: bool,
) -> super::StoreModel {
    let t = super::seen(s, dst);
    if list_at(t, dst) is Err {
        t
    } else {
        let u = after_pop(t, src, 1, from_left);
        match moved(s, src, dst, from_left) {
            Ok(Some(v)) => after_push(u, dst, seq![v], to_left),
            _ => u,
        }
    }
}

/// How often a change of a list looks its key up.
pub open spec fn list_uses(v: Value) -> nat {
    if v is SegList {
        1
    } else {
        2
    }
}

/// Whether a push leaves a list in segments exactly if it was so before or has
/// grown past what a flat list holds.
pub open spec fn push_form(before: Store, after: Store, key: Seq<u8>) -> bool {
    after.held(key) is SegList <==> (super::seen(before@, key).slots.dom().contains(key)
        && before.held(key) is SegList) || after.held(key).items().len() > SEG_PROMOTE
}

/// The steps of a move: the lookup of the target, the pop and the push.
pub open spec fn move_path(
    s: super::StoreModel,
    src: Seq<u8>,
    dst: Seq<u8>,
    from_left: bool,
    to_left: bool,
) -> Seq<(Seq<u8>, super::StoreModel)> {
    let t = super::seen(s, dst);
    if list_at(t, dst) is Err {
        seq![(dst, t)]
    } else {
        let u = after_pop(t, src, 1, from_left);
        match moved(s, src, dst, from_left) {
            Ok(Some(v)) => seq![(dst, t), (src, u), (dst, after_push(u, dst, seq![v], to_left))],
            _ => seq![(dst, t), (src, u)],
        }
    }
}

proof fn lemma_move_room(s: super::StoreModel, src: Seq<u8>, dst: Seq<u8>, from_left: bool)
    requires
        room(s, dst, 1),
        list_at(super::seen(s, dst), dst) is Ok,
    ensures
        room(after_pop(super::seen(s, dst), src, 1, from_left), dst, 1),
        list_at(super::seen(after_pop(super::seen(s, dst), src, 1, from_left), dst), dst) is Ok,
{
}

/// What was pushed is what is popped from the same end, and the list is what
/// it was.
pub proof fn lemma_push_pop(l: Seq<Seq<u8>>, v: Seq<u8>, front: bool)
    ensures
        popped(pushed(l, seq![v], front), 1, front) == seq![v],
        unpopped(pushed(l, seq![v], front), 1, front) == l,
{
    let p = pushed(l, seq![v], front);
    assert(popped(p, 1, front) =~= seq![v]);
    assert(unpopped(p, 1, front) =~= l);
}

/// What was pushed at one end is popped from the other in the order in which
/// it was pushed, where the list was empty.
pub proof fn lemma_queue(values: Seq<Seq<u8>>, front: bool)
    ensures
        popped(pushed(Seq::empty(), values, front), values.len(), !front) == values,
        unpopped(pushed(Seq::empty(), values, front), values.len(), !front) == Seq::<
            Seq<u8>,
        >::empty(),
{
    let p = pushed(Seq::empty(), values, front);
    assert(popped(p, values.len(), !front) =~= values);
    assert(unpopped(p, values.len(), !front) =~= Seq::<Seq<u8>>::empty());
}

/// A move inside one list rotates it: no element is lost or gained.
pub proof fn lemma_rotate(l: Seq<Seq<u8>>, from_left: bool, to_left: bool)
    requires
        l.len() > 0,
    ensures
        pushed(unpopped(l, 1, from_left), popped(l, 1, from_left), to_left).len() == l.len(),
        pushed(unpopped(l, 1, from_left), popped(l, 1, from_left), to_left).to_multiset()
            == l.to_multiset(),
        from_left == to_left ==> pushed(
            unpopped(l, 1, from_left),
            popped(l, 1, from_left),
            to_left,
        ) == l,
{
    let p = popped(l, 1, from_left);
    let u = unpopped(l, 1, from_left);
    let m = pushed(u, p, to_left);
    assert(p.len() == 1);
    assert(p.reverse() =~= p);
    if from_left {
        assert(l =~= p + u);
    } else {
        assert(l =~= u + p);
    }
    vstd::seq_lib::lemma_multiset_commutative(p, u);
    vstd::seq_lib::lemma_multiset_commutative(u, p);
    assert(m == (if to_left {
        p + u
    } else {
        u + p
    }));
    assert(p.to_multiset().add(u.to_multiset()) =~= u.to_multiset().add(p.to_multiset()));
}

} // verus!
