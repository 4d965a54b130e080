//! Set commands.
use vstd::prelude::*;
use super::Store;
use crate::bytes::copy_bytes;
use crate::rng::below;
use crate::seg_map::HS_PROMOTE;
use crate::types::StoreError;
use crate::value::Value;

verus! {

/// The set under a key, if there is one.
pub open spec fn set_at(s: super::StoreModel, key: Seq<u8>) -> Result<
    Option<Set<Seq<u8>>>,
    StoreError,
> {
    if !s.slots.dom().contains(key) {
        Ok(None)
    } else {
        match s.slots[key].value {
            crate::value::Val::Members(m) => Ok(Some(m)),
            _ => Err(StoreError::WrongType),
        }
    }
}

/// A set in place of the one under a key; an empty one takes the key along.
pub open spec fn remembered(s: super::StoreModel, key: Seq<u8>, m: Set<Seq<u8>>) -> super::StoreModel {
    if m == Set::<Seq<u8>>::empty() {
        super::dropped(s, key)
    } else {
        super::revalued(s, key, crate::value::Val::Members(m))
    }
}

/// Elements `i` and `j` exchanged.
pub open spec fn swapped<T>(s: Seq<T>, i: int, j: int) -> Seq<T> {
    s.update(i, s[j]).update(j, s[i])
}

/// The draw that step `i` of a shuffle goes by: the draws are used up from
/// the end, and when they run out the step number stands in.
pub open spec fn draw_for(draws: Seq<u64>, i: nat) -> u64 {
    if i < draws.len() {
        draws[draws.len() - 1 - i]
    } else {
        i as u64
    }
}

/// A sequence after the first `k` steps of a shuffle: each step exchanges
/// its element with a drawn one at or behind it.
pub open spec fn shuffled<T>(s: Seq<T>, k: nat, draws: Seq<u64>) -> Seq<T>
    decreases k,
{
    if k == 0 {
        s
    } else {
        let i = (k - 1) as nat;
        swapped(
            shuffled(s, i, draws),
            i as int,
            i + crate::rng::below_spec(draw_for(draws, i), (s.len() - i) as u64),
        )
    }
}

proof fn lemma_swapped<T>(s: Seq<T>, i: int, j: int)
    requires
        0 <= i < s.len(),
        0 <= j < s.len(),
    ensures
        swapped(s, i, j).len() == s.len(),
        s.no_duplicates() ==> swapped(s, i, j).no_duplicates(),
        swapped(s, i, j).to_set() == s.to_set(),
{
    let t = swapped(s, i, j);
    assert forall|x: T| t.contains(x) == s.contains(x) by {
        if s.contains(x) {
            let k = choose|k: int| 0 <= k < s.len() && s[k] == x;
            assert(t[if k == i {
                j
            } else if k == j {
                i
            } else {
                k
            }] == x);
        }
        if t.contains(x) {
            let k = choose|k: int| 0 <= k < t.len() && t[k] == x;
            assert(s[if k == i {
                j
            } else if k == j {
                i
            } else {
                k
            }] == x);
        }
    }
    assert(t.to_set() =~= s.to_set());
}

/// A shuffle only moves elements about.
pub proof fn lemma_shuffled<T>(s: Seq<T>, k: nat, draws: Seq<u64>)
    requires
        k <= s.len() <= u64::MAX,
    ensures
        shuffled(s, k, draws).len() == s.len(),
        s.no_duplicates() ==> shuffled(s, k, draws).no_duplicates(),
        shuffled(s, k, draws).to_set() == s.to_set(),
    decreases k,
{
    if k > 0 {
        let i = (k - 1) as nat;
        lemma_shuffled(s, i, draws);
        let p = shuffled(s, i, draws);
        crate::rng::lemma_below_range(draw_for(draws, i), (s.len() - i) as u64);
        lemma_swapped(
            p,
            i as int,
            i + crate::rng::below_spec(draw_for(draws, i), (s.len() - i) as u64),
        );
    }
}

/// What the first `k` places of a shuffle hold are `k` different elements of
/// a sequence that repeats none.
pub proof fn lemma_picked<T>(s: Seq<T>, k: nat, draws: Seq<u64>)
    requires
        k <= s.len() <= u64::MAX,
        s.no_duplicates(),
    ensures
        shuffled(s, k, draws).take(k as int).no_duplicates(),
        shuffled(s, k, draws).take(k as int).to_set().subset_of(s.to_set()),
        shuffled(s, k, draws).take(k as int).len() == k,
{
    lemma_shuffled(s, k, draws);
    let p = shuffled(s, k, draws);
    let t = p.take(k as int);
    assert forall|x: T| t.to_set().contains(x) implies s.to_set().contains(x) by {
        let j = choose|j: int| 0 <= j < t.len() && t[j] == x;
        assert(p[j] == x);
        assert(p.to_set().contains(x));
    }
}

/// Shuffles the first `k` places, as far as there are so many. Uses the
/// draws up from the end. Gives how many places that was.
pub fn shuffle_prefix(items: &mut Vec<Vec<u8>>, k: usize, draws: &mut Vec<u64>) -> (r: usize)
    ensures
        r == super::lists::lesser(k as nat, old(items)@.len()),
        final(items)@ == shuffled(old(items)@, r as nat, old(draws)@),
        final(draws)@ == (if r <= old(draws)@.len() {
            old(draws)@.take(old(draws)@.len() - r)
        } else {
            Seq::empty()
        }),
{
    let n: usize = items.len();
    let k: usize = if k < n {
        k
    } else {
        n
    };
    let ghost s0 = items@;
    let ghost d0 = draws@;
    let mut i: usize = 0;
    assert(d0.take(d0.len() as int) =~= d0);
    while i < k
        invariant
            i <= k <= n,
            n == s0.len(),
            items@ == shuffled(s0, i as nat, d0),
            items@.len() == n,
            draws@ == (if i <= d0.len() {
                d0.take(d0.len() - i)
            } else {
                Seq::empty()
            }),
        decreases k - i,
    {
        let span: u64 = (n - i) as u64;
        let d: u64 = match draws.pop() {
            Some(d) => d,
            None => i as u64,
        };
        assert(d == draw_for(d0, i as nat));
        let j: usize = i + below(d, span) as usize;
        exchange(items, i, j);
        assert(draws@ =~= (if i + 1 <= d0.len() {
            d0.take(d0.len() - (i + 1))
        } else {
            Seq::empty()
        }));
        i = i + 1;
    }
    k
}

fn exchange(items: &mut Vec<Vec<u8>>, i: usize, j: usize)
    requires
        i < old(items)@.len(),
        j < old(items)@.len(),
    ensures
        final(items)@ == swapped(old(items)@, i as int, j as int),
{
    let ghost s = items@;
    let mut a: Vec<u8> = Vec::new();
    let ghost e = a;
    core::mem::swap(&mut a, &mut items[i]);
    if i != j {
        core::mem::swap(&mut a, &mut items[j]);
    }
    core::mem::swap(&mut a, &mut items[i]);
    assert(items@ =~= swapped(s, i as int, j as int));
}

/// The next `n` numbers of a random stream.
pub open spec fn draws_of(state: u64, n: nat) -> Seq<u64> {
    Seq::new(n, |i: int| crate::rng::mixed(crate::rng::stepped_by(state, (i + 1) as nat)))
}

/// The members that a draw of `k` picks.
pub open spec fn picks(order: Seq<Seq<u8>>, k: nat, state: u64) -> Seq<Seq<u8>> {
    shuffled(order, k, draws_of(state, k)).take(k as int)
}

proof fn lemma_shuffled_deep(s: Seq<Vec<u8>>, k: nat, draws: Seq<u64>)
    requires
        k <= s.len() <= u64::MAX,
    ensures
        crate::bytes::deep(shuffled(s, k, draws)) == shuffled(crate::bytes::deep(s), k, draws),
        shuffled(s, k, draws).len() == s.len(),
    decreases k,
{
    if k > 0 {
        let i = (k - 1) as nat;
        lemma_shuffled_deep(s, i, draws);
        crate::rng::lemma_below_range(draw_for(draws, i), (s.len() - i) as u64);
        let j = i + crate::rng::below_spec(draw_for(draws, i), (s.len() - i) as u64);
        let p = shuffled(s, i, draws);
        assert(crate::bytes::deep(swapped(p, i as int, j)) =~= swapped(
            crate::bytes::deep(p),
            i as int,
            j,
        ));
    }
}

/// Whether members put into a set leave it in buckets exactly if it was so
/// before or had, before the last of them, what a flat set may have at most.
pub open spec fn add_form(before: Store, after: Store, key: Seq<u8>, ms: Seq<Seq<u8>>) -> bool {
    let t = super::seen(before@, key);
    let there = t.slots.dom().contains(key);
    let m0 = if there {
        t.slots[key].value->Members_0
    } else {
        Set::empty()
    };
    after.held(key).members().len() <= usize::MAX ==> (after.held(key) is SegSet <==> (there
        && before.held(key) is SegSet) || m0.union(ms.drop_last().to_set()).len() >= HS_PROMOTE)
}

impl Store {
    /// Takes `n` draws from the random stream.
    pub fn draw(&mut self, n: usize) -> (r: Vec<u64>)
        requires
            old(self).wf(),
        ensures
            final(self).became(*old(self), super::admin::drawn(old(self)@, n as nat)),
            final(self).used() == old(self).used(),
            r@ == draws_of(old(self)@.random, n as nat),
            final(self).kept_all(*old(self)),
    {
        let mut out: Vec<u64> = Vec::new();
        let ghost s = *self;
        while out.len() < n
            invariant
                out@.len() <= n,
                s.wf(),
                self.used() == s.used(),
                self.became(s, super::admin::drawn(s@, out@.len())),
                out@ == draws_of(s@.random, out@.len()),
                self.kept_all(s),
            decreases n - out@.len(),
        {
            let ghost m = out@.len();
            let d: u64 = self.rand_draw();
            out.push(d);
            proof {
                reveal_with_fuel(crate::rng::stepped_by, 2);
                assert(out@ =~= draws_of(s@.random, m + 1));
            }
        }
        out
    }

    /// Picks up to `count` members of a set at random.
    fn pick_members(&mut self, key: &[u8], count: usize) -> (r: Vec<Vec<u8>>)
        requires
            old(self).wf(),
            old(self)@.slots.dom().contains(key@),
            old(self)@.slots[key@].value is Members,
        ensures
            ({
                let m = old(self)@.slots[key@].value->Members_0;
                let k = super::lists::lesser(count as nat, m.len());
                &&& m.finite()
                &&& crate::bytes::deep(r@) == picks(
                    old(self).held(key@).order(),
                    k,
                    old(self)@.random,
                )
                &&& final(self).became(*old(self), super::admin::drawn(old(self)@, k))
                &&& picked_from(crate::bytes::deep(r@), m, count as nat)
            }),
            final(self).used() == old(self).used(),
            final(self).kept_all(*old(self)),
    {
        let mut all = match self.value_ref(key) {
            Some(v) => {
                proof {
                    v.lemma_order();
                }
                v.set_members()
            },
            None => Vec::new(),
        };
        let ghost items = all@;
        let n: usize = all.len();
        let k: usize = if count < n {
            count
        } else {
            n
        };
        let mut draws = self.draw(k);
        let ghost d0 = draws@;
        let k: usize = shuffle_prefix(&mut all, k, &mut draws);
        proof {
            lemma_shuffled_deep(items, k as nat, d0);
            lemma_picked(crate::bytes::deep(items), k as nat, d0);
        }
        all.truncate(k);
        proof {
            assert(crate::bytes::deep(all@) =~= shuffled(
                crate::bytes::deep(items),
                k as nat,
                d0,
            ).take(k as int));
        }
        all
    }

    /// Adds members to the set under a key. Gives how many were new.
    pub fn sadd(&mut self, key: &[u8], members: &[&[u8]]) -> (r: Result<usize, StoreError>)
        requires
            old(self).wf(),
        ensures
            match set_at(super::seen(old(self)@, key@), key@) {
                _ if members@.len() == 0 => r == Ok::<usize, StoreError>(0) && *final(self)
                    == *old(self),
                Err(e) => r == Err::<usize, StoreError>(e) && final(self).became(
                    *old(self),
                    super::seen(old(self)@, key@),
                ),
                Ok(None) => {
                    let m = super::lists::referred(members@).to_set();
                    &&& r matches Ok(n)
                    &&& n == m.len()
                    &&& final(self).became(
                        *old(self),
                        super::put(
                            super::seen(old(self)@, key@),
                            key@,
                            crate::entry::Slot {
                                value: crate::value::Val::Members(m),
                                expire: None,
                            },
                        ),
                    )
                },
                Ok(Some(m0)) => {
                    let m = m0.union(super::lists::referred(members@).to_set());
                    &&& r matches Ok(n)
                    &&& n == m.len() - m0.len()
                    &&& final(self).became(
                        *old(self),
                        super::revalued(
                            super::seen(old(self)@, key@),
                            key@,
                            crate::value::Val::Members(m),
                        ),
                    )
                },
            },
            final(self).kept_others(*old(self), key@),
            members@.len() > 0 && r is Ok ==> add_form(
                *old(self),
                *final(self),
                key@,
                super::lists::referred(members@),
            ),
            members@.len() == 0 ==> *final(self) == *old(self),
            members@.len() > 0 && r is Ok ==> final(self).used_times(
                *old(self),
                old(self)@,
                key@,
                2 * members@.len(),
                (2 * members@.len() - 2) as nat,
            ),
            members@.len() > 0 && r is Err ==> final(self).used_at(*old(self), key@),
    {
        let n: usize = members.len();
        if n == 0 {
            return Ok(0);
        }
        let ghost all = super::lists::referred(members@);
        let there: bool = self.find(key);
        let ghost t = self@;
        let mut v = if there {
            let fits: bool = match self.value_ref(key) {
                Some(v) => v.is_set(),
                None => false,
            };
            if !fits {
                self.live(key);
                return Err(StoreError::WrongType);
            }
            self.use_times(key, 2 * n as u128);
            self.lend(key)
        } else {
            Value::set_of(members[0])
        };
        let ghost m0: Set<Seq<u8>> = if there {
            v.members()
        } else {
            Set::empty()
        };
        let mut i: usize = if there {
            0
        } else {
            1
        };
        let mut added: usize = i;
        let ghost was = there && v is SegSet;
        let ghost mut prev: nat = 0;
        proof {
            v.lemma_order();
            assert(all.take(0).to_set() =~= Set::<Seq<u8>>::empty());
            if there {
                assert(m0.union(all.take(0).to_set()) =~= m0);
            } else {
                crate::value_set::lemma_take_set(all, 0);
                assert(m0.union(all.take(1).to_set()) =~= v.members());
                assert(m0.union(all.take(0).to_set()) =~= m0);
            }
        }
        while i < n
            invariant
                n == members@.len(),
                all == super::lists::referred(members@),
                i <= n,
                added <= i,
                v.wf(),
                v@ is Members,
                m0.finite(),
                v.members().finite(),
                v.members() == m0.union(all.take(i as int).to_set()),
                added + m0.len() == v.members().len(),
                i > 0 ==> prev == m0.union(all.take(i - 1).to_set()).len(),
                prev <= v.members().len(),
                v.members().len() <= usize::MAX ==> (v is SegSet <==> (was || (i > 0 && prev
                    >= HS_PROMOTE))),
            decreases n - i,
        {
            let ghost before = v.members();
            proof {
                prev = before.len();
            }
            if v.set_add(members[i]) {
                added = added + 1;
            }
            proof {
                crate::value_set::lemma_take_set(all, i as int);
                assert(v.members() =~= m0.union(all.take(i + 1).to_set()));
                if before.contains(all[i as int]) {
                    assert(before.insert(all[i as int]) =~= before);
                }
            }
            i = i + 1;
        }
        proof {
            assert(all.take(n as int) =~= all);
            assert(all.take(n - 1) =~= all.drop_last());
        }
        if there {
            self.restore(key, v);
            proof {
                super::lists::lemma_revalue_twice(
                    t,
                    key@,
                    crate::value::Val::Str(crate::text::decimal(0)),
                    v@,
                );
            }
        } else {
            assert(v.members() =~= all.to_set());
            self.insert_entry(key, v, None);
            self.use_times(key, 2 * (n as u128) - 2);
        }
        Ok(added)
    }

    /// Puts a set that was lent back, or drops the key if it is empty.
    fn restore_set(&mut self, key: &[u8], v: Value)
        requires
            old(self).wf(),
            old(self)@.slots.dom().contains(key@),
            v.wf(),
            v@ is Members,
        ensures
            final(self).became(*old(self), remembered(old(self)@, key@, v.members())),
            final(self).kept_others(*old(self), key@),
            final(self).use_clock() == old(self).use_clock(),
            final(self)@.slots.dom().contains(key@) ==> final(self).held(key@) == v
                && final(self).mark(key@) == old(self).mark(key@),
    {
        if v.set_is_empty() {
            self.remove_entry(key);
        } else {
            self.restore(key, v);
        }
    }

    /// Removes members from the set under a key. Gives how many went.
    pub fn srem(&mut self, key: &[u8], members: &[&[u8]]) -> (r: Result<usize, StoreError>)
        requires
            old(self).wf(),
        ensures
            match set_at(super::seen(old(self)@, key@), key@) {
                Err(e) => r == Err::<usize, StoreError>(e) && final(self).became(
                    *old(self),
                    super::seen(old(self)@, key@),
                ),
                Ok(None) => r == Ok::<usize, StoreError>(0) && final(self).became(
                    *old(self),
                    super::seen(old(self)@, key@),
                ),
                Ok(Some(m0)) => {
                    let m = m0.difference(super::lists::referred(members@).to_set());
                    &&& r matches Ok(n)
                    &&& n == m0.len() - m.len()
                    &&& final(self).became(
                        *old(self),
                        remembered(super::seen(old(self)@, key@), key@, m),
                    )
                },
            },
            final(self).kept_others(*old(self), key@),
            final(self).kept_form(*old(self), key@),
            final(self).used_at(*old(self), key@),
    {
        if !self.live(key) {
            return Ok(0);
        }
        let ghost t = self@;
        let fits: bool = match self.value_ref(key) {
            Some(v) => v.is_set(),
            None => false,
        };
        if !fits {
            return Err(StoreError::WrongType);
        }
        let n: usize = members.len();
        let mut v = self.lend(key);
        let ghost v0 = v;
        let ghost all = super::lists::referred(members@);
        let ghost m0 = v.members();
        let mut removed: usize = 0;
        let mut i: usize = 0;
        proof {
            v.lemma_order();
            assert(all.take(0).to_set() =~= Set::<Seq<u8>>::empty());
            assert(m0.difference(all.take(0).to_set()) =~= m0);
        }
        while i < n
            invariant
                n == members@.len(),
                all == super::lists::referred(members@),
                i <= n,
                removed <= i,
                v.wf(),
                v@ is Members,
                v is SegSet <==> v0 is SegSet,
                m0.finite(),
                v.members().finite(),
                v.members() == m0.difference(all.take(i as int).to_set()),
                removed + v.members().len() == m0.len(),
            decreases n - i,
        {
            let ghost before = v.members();
            if v.set_remove(members[i]) {
                removed = removed + 1;
            }
            proof {
                crate::value_set::lemma_take_set(all, i as int);
                assert(v.members() =~= m0.difference(all.take(i + 1).to_set()));
                if !before.contains(all[i as int]) {
                    assert(before.remove(all[i as int]) =~= before);
                }
            }
            i = i + 1;
        }
        proof {
            assert(all.take(n as int) =~= all);
            super::lists::lemma_revalue_twice(
                t,
                key@,
                crate::value::Val::Str(crate::text::decimal(0)),
                v@,
            );
        }
        self.restore_set(key, v);
        Ok(removed)
    }

    /// Removes up to `count` members from the set under a key, drawn at
    /// random, and gives them.
    pub fn spop(&mut self, key: &[u8], count: usize) -> (r: Result<Vec<Vec<u8>>, StoreError>)
        requires
            old(self).wf(),
        ensures
            match set_at(super::seen(old(self)@, key@), key@) {
                Err(e) => r == Err::<Vec<Vec<u8>>, StoreError>(e) && final(self).became(
                    *old(self),
                    super::seen(old(self)@, key@),
                ),
                Ok(None) => (r matches Ok(v) && v@.len() == 0) && final(self).became(
                    *old(self),
                    super::seen(old(self)@, key@),
                ),
                Ok(Some(m)) => {
                    let k = super::lists::lesser(count as nat, m.len());
                    &&& r matches Ok(v)
                    &&& crate::bytes::deep(v@) == picks(
                        old(self).held(key@).order(),
                        k,
                        old(self)@.random,
                    )
                    &&& picked_from(crate::bytes::deep(v@), m, count as nat)
                    &&& final(self).became(
                        *old(self),
                        remembered(
                            super::admin::drawn(super::seen(old(self)@, key@), k),
                            key@,
                            m.difference(crate::bytes::deep(v@).to_set()),
                        ),
                    )
                },
            },
            final(self).kept_others(*old(self), key@),
            final(self).kept_form(*old(self), key@),
            final(self).used_at(*old(self), key@),
    {
        if !self.live(key) {
            return Ok(Vec::new());
        }
        let fits: bool = match self.value_ref(key) {
            Some(v) => v.is_set(),
            None => false,
        };
        if !fits {
            return Err(StoreError::WrongType);
        }
        let out = self.pick_members(key, count);
        let ghost t = self@;
        let n: usize = out.len();
        let mut v = self.lend(key);
        let ghost v0 = v;
        let ghost all = crate::bytes::deep(out@);
        let ghost m0 = v.members();
        let mut i: usize = 0;
        proof {
            assert(all.take(0).to_set() =~= Set::<Seq<u8>>::empty());
            assert(m0.difference(all.take(0).to_set()) =~= m0);
        }
        while i < n
            invariant
                n == out@.len(),
                all == crate::bytes::deep(out@),
                i <= n,
                v.wf(),
                v@ is Members,
                v is SegSet <==> v0 is SegSet,
                v.members() == m0.difference(all.take(i as int).to_set()),
            decreases n - i,
        {
            v.set_remove(out[i].as_slice());
            proof {
                crate::value_set::lemma_take_set(all, i as int);
                assert(all[i as int] == out@[i as int]@);
                assert(v.members() =~= m0.difference(all.take(i + 1).to_set()));
            }
            i = i + 1;
        }
        proof {
            assert(all.take(n as int) =~= all);
            super::lists::lemma_revalue_twice(
                t,
                key@,
                crate::value::Val::Str(crate::text::decimal(0)),
                v@,
            );
        }
        self.restore_set(key, v);
        Ok(out)
    }

    /// Whether the set under a key has a member.
    pub fn sismember(&mut self, key: &[u8], member: &[u8]) -> (r: Result<bool, StoreError>)
        requires
            old(self).wf(),
        ensures
            final(self).became(*old(self), super::seen(old(self)@, key@)),
            match set_at(super::seen(old(self)@, key@), key@) {
                Ok(Some(m)) => r == Ok::<bool, StoreError>(m.contains(member@)),
                Ok(None) => r == Ok::<bool, StoreError>(false),
                Err(e) => r == Err::<bool, StoreError>(e),
            },
            final(self).kept_others(*old(self), key@),
            final(self).used_at(*old(self), key@),
    {
        if !self.live(key) {
            return Ok(false);
        }
        match self.value_ref(key) {
            None => Ok(false),
            Some(v) => if v.is_set() {
                Ok(v.set_contains(member))
            } else {
                Err(StoreError::WrongType)
            },
        }
    }

    /// How many members the set under a key has, 0 if there is none.
    pub fn scard(&mut self, key: &[u8]) -> (r: Result<usize, StoreError>)
        requires
            old(self).wf(),
        ensures
            final(self).became(*old(self), super::seen(old(self)@, key@)),
            match set_at(super::seen(old(self)@, key@), key@) {
                Ok(Some(m)) => r matches Ok(n) && (m.len() <= usize::MAX ==> n == m.len()),
                Ok(None) => r == Ok::<usize, StoreError>(0),
                Err(e) => r == Err::<usize, StoreError>(e),
            },
            final(self).kept_others(*old(self), key@),
            final(self).used_at(*old(self), key@),
    {
        if !self.live(key) {
            return Ok(0);
        }
        match self.value_ref(key) {
            None => Ok(0),
            Some(v) => if v.is_set() {
                Ok(v.set_len())
            } else {
                Err(StoreError::WrongType)
            },
        }
    }

    /// The members of the set under a key, each once, in no order that is
    /// promised.
    pub fn smembers(&mut self, key: &[u8]) -> (r: Result<Vec<Vec<u8>>, StoreError>)
        requires
            old(self).wf(),
        ensures
            final(self).became(*old(self), super::seen(old(self)@, key@)),
            match set_at(super::seen(old(self)@, key@), key@) {
                Ok(Some(m)) => (r matches Ok(v) && crate::bytes::deep(v@).no_duplicates()
                    && crate::bytes::deep(v@).to_set() == m && v@.len() == m.len()),
                Ok(None) => r matches Ok(v) && v@.len() == 0,
                Err(e) => r == Err::<Vec<Vec<u8>>, StoreError>(e),
            },
            final(self).kept_others(*old(self), key@),
            final(self).used_at(*old(self), key@),
    {
        if !self.live(key) {
            return Ok(Vec::new());
        }
        match self.value_ref(key) {
            None => Ok(Vec::new()),
            Some(v) => if v.is_set() {
                Ok(v.set_members())
            } else {
                Err(StoreError::WrongType)
            },
        }
    }

    /// Up to `count` different members of the set under a key, drawn at
    /// random. They stay in it.
    pub fn srandmember(&mut self, key: &[u8], count: usize) -> (r: Result<Vec<Vec<u8>>, StoreError>)
        requires
            old(self).wf(),
        ensures
            match set_at(super::seen(old(self)@, key@), key@) {
                Err(e) => r == Err::<Vec<Vec<u8>>, StoreError>(e) && final(self).became(
                    *old(self),
                    super::seen(old(self)@, key@),
                ),
                Ok(None) => (r matches Ok(v) && v@.len() == 0) && final(self).became(
                    *old(self),
                    super::seen(old(self)@, key@),
                ),
                Ok(Some(m)) => {
                    let k = super::lists::lesser(count as nat, m.len());
                    &&& r matches Ok(v)
                    &&& crate::bytes::deep(v@) == picks(
                        old(self).held(key@).order(),
                        k,
                        old(self)@.random,
                    )
                    &&& picked_from(crate::bytes::deep(v@), m, count as nat)
                    &&& final(self).became(
                        *old(self),
                        super::admin::drawn(super::seen(old(self)@, key@), k),
                    )
                },
            },
            final(self).kept_others(*old(self), key@),
            final(self).used_at(*old(self), key@),
    {
        if !self.live(key) {
            return Ok(Vec::new());
        }
        let fits: bool = match self.value_ref(key) {
            Some(v) => v.is_set(),
            None => false,
        };
        if !fits {
            return Err(StoreError::WrongType);
        }
        Ok(self.pick_members(key, count))
    }

    /// `count` members of the set under a key, drawn at random, with
    /// repetition.
    pub fn srandmember_with_repeats(&mut self, key: &[u8], count: usize) -> (r: Result<
        Vec<Vec<u8>>,
        StoreError,
    >)
        requires
            old(self).wf(),
        ensures
            match set_at(super::seen(old(self)@, key@), key@) {
                Err(e) => r == Err::<Vec<Vec<u8>>, StoreError>(e) && final(self).became(
                    *old(self),
                    super::seen(old(self)@, key@),
                ),
                Ok(None) => (r matches Ok(v) && v@.len() == 0) && final(self).became(
                    *old(self),
                    super::seen(old(self)@, key@),
                ),
                Ok(Some(m)) => {
                    let k = if m == Set::<Seq<u8>>::empty() {
                        0
                    } else {
                        count as nat
                    };
                    &&& r matches Ok(v)
                    &&& crate::bytes::deep(v@) == repeats(
                        old(self).held(key@).order(),
                        k,
                        old(self)@.random,
                    )
                    &&& crate::bytes::deep(v@).to_set().subset_of(m)
                    &&& v@.len() == k
                    &&& final(self).became(
                        *old(self),
                        super::admin::drawn(super::seen(old(self)@, key@), k),
                    )
                },
            },
            final(self).kept_others(*old(self), key@),
            final(self).used_at(*old(self), key@),
    {
        if !self.live(key) {
            return Ok(Vec::new());
        }
        let all = match self.value_ref(key) {
            None => Vec::new(),
            Some(v) => if v.is_set() {
                proof {
                    v.lemma_order();
                }
                v.set_members()
            } else {
                return Err(StoreError::WrongType);
            },
        };
        let ghost order = self.held(key@).order();
        let ghost m = self@.slots[key@].value->Members_0;
        let n: usize = all.len();
        let k: usize = if n == 0 {
            assert(m =~= Set::empty());
            0
        } else {
            assert(order.to_set().contains(order[0]));
            count
        };
        let draws = self.draw(k);
        let ghost state = old(self)@.random;
        let mut out: Vec<Vec<u8>> = Vec::new();
        assert(crate::bytes::deep(out@) =~= repeats(order, 0, state));
        while out.len() < k
            invariant
                n == all@.len(),
                crate::bytes::deep(all@) == order,
                order.to_set() == m,
                k > 0 ==> n > 0,
                draws@ == draws_of(state, k as nat),
                out@.len() <= k,
                crate::bytes::deep(out@) == repeats(order, out@.len(), state),
                crate::bytes::deep(out@).to_set().subset_of(m),
            decreases k - out@.len(),
        {
            let i: usize = out.len();
            let at: usize = below(draws[i], n as u64) as usize;
            let ghost before = crate::bytes::deep(out@);
            out.push(copy_bytes(all[at].as_slice()));
            proof {
                assert(order[at as int] == all@[at as int]@);
                assert(order.to_set().contains(order[at as int]));
                let now = crate::bytes::deep(out@);
                assert(now =~= before.push(order[at as int]));
                assert(now =~= repeats(order, i as nat + 1, state));
                assert forall|x: Seq<u8>| now.to_set().contains(x) implies m.contains(x) by {
                    let j = choose|j: int| 0 <= j < now.len() && now[j] == x;
                    if j < before.len() {
                        assert(before[j] == x);
                        assert(before.to_set().contains(x));
                    }
                }
            }
        }
        Ok(out)
    }

    /// The members of the set under a key, as [`Store::smembers`] gives them.
    pub fn set_snapshot(&mut self, key: &[u8]) -> (r: Result<Vec<Vec<u8>>, StoreError>)
        requires
            old(self).wf(),
        ensures
            final(self).became(*old(self), super::seen(old(self)@, key@)),
            match set_at(super::seen(old(self)@, key@), key@) {
                Ok(Some(m)) => (r matches Ok(v) && crate::bytes::deep(v@).no_duplicates()
                    && crate::bytes::deep(v@).to_set() == m && v@.len() == m.len()),
                Ok(None) => r matches Ok(v) && v@.len() == 0,
                Err(e) => r == Err::<Vec<Vec<u8>>, StoreError>(e),
            },
            final(self).kept_others(*old(self), key@),
            final(self).used_at(*old(self), key@),
    {
        self.smembers(key)
    }
}

/// As many different members of a set as were asked for, or all of them.
pub open spec fn picked_from(v: Seq<Seq<u8>>, m: Set<Seq<u8>>, count: nat) -> bool {
    &&& v.no_duplicates()
    &&& v.to_set().subset_of(m)
    &&& v.len() == super::lists::lesser(count, m.len())
}

/// The members that `k` independent draws pick.
pub open spec fn repeats(order: Seq<Seq<u8>>, k: nat, state: u64) -> Seq<Seq<u8>> {
    Seq::new(
        k,
        |i: int|
            order[crate::rng::below_spec(
                draws_of(state, k)[i],
                order.len() as u64,
            ) as int],
    )
}

/// What was added is a member until it is removed, and removing what was
/// new gives the set back.
pub proof fn lemma_add_remove(m: Set<Seq<u8>>, v: Set<Seq<u8>>)
    requires
        m.disjoint(v),
    ensures
        v.subset_of(m.union(v)),
        m.union(v).difference(v) == m,
{
    assert(m.union(v).difference(v) =~= m);
}

} // verus!
