//! Frozen views of the live keys.
use vstd::prelude::*;
use super::Store;
use crate::bytes::copy_bytes;
use crate::entry::remaining_ms;
use crate::value::Value;

verus! {

/// A key, its value and how many milliseconds it still has.
pub type SnapshotEntry = (Vec<u8>, Value, Option<u64>);

/// The live keys of a store at one instant, with their values and the
/// deadlines of their fields. Values are shared with the store, which copies
/// what it changes, so nothing that happens to the store shows here.
pub struct SnapshotView {
    entries: Vec<SnapshotEntry>,
    hfttl: Vec<(Vec<u8>, Vec<u8>, u64)>,
}

/// A key, what it holds and how long it still has, mathematically.
pub struct Frozen {
    /// The key.
    pub key: Seq<u8>,
    /// What it holds.
    pub value: crate::value::Val,
    /// How many milliseconds it still has.
    pub ttl: Option<u64>,
}

/// What entries stand for.
pub open spec fn frozen(v: Seq<SnapshotEntry>) -> Seq<Frozen> {
    Seq::new(v.len(), |i: int| Frozen { key: v[i].0@, value: v[i].1@, ttl: v[i].2 })
}

/// The live ones of some keys, as they are now.
pub open spec fn frozen_keys(s: super::StoreModel, keys: Seq<Seq<u8>>) -> Seq<Frozen> {
    let live = super::walk::wanted_keys(s, None, keys);
    Seq::new(
        live.len(),
        |i: int|
            Frozen {
                key: live[i],
                value: s.slots[live[i]].value,
                ttl: super::keyspace::ttl_left(s, live[i]),
            },
    )
}

/// Whether a list of deadlines tells of every field that has one, once.
pub open spec fn lists_ttls(s: super::StoreModel, v: Seq<(Vec<u8>, Vec<u8>, u64)>) -> bool {
    &&& forall|i: int|
        0 <= i < v.len() ==> super::hash_ttl::field_deadline(s, (#[trigger] v[i]).0@, v[i].1@)
            == Some(v[i].2)
    &&& forall|k: Seq<u8>, f: Seq<u8>|
        #![trigger super::hash_ttl::field_deadline(s, k, f)]
        super::hash_ttl::field_deadline(s, k, f) is Some ==> exists|i: int|
            0 <= i < v.len() && (#[trigger] v[i]).0@ == k && v[i].1@ == f
    &&& forall|i: int, j: int|
        0 <= i < j < v.len() ==> (#[trigger] v[i]).0@ != (#[trigger] v[j]).0@ || v[i].1@ != v[j].1@
}

/// Every value is well-formed.
pub open spec fn values_ok(v: Seq<SnapshotEntry>) -> bool {
    forall|i: int| 0 <= i < v.len() ==> (#[trigger] v[i]).1.wf()
}

impl SnapshotView {
    /// The entries.
    pub closed spec fn entries(&self) -> Seq<SnapshotEntry> {
        self.entries@
    }

    /// The deadlines of fields.
    pub closed spec fn ttls(&self) -> Seq<(Vec<u8>, Vec<u8>, u64)> {
        self.hfttl@
    }

    /// The entries, in the order in which they were met.
    pub fn each(&self) -> (r: &Vec<SnapshotEntry>)
        ensures
            r@ == self.entries(),
    {
        &self.entries
    }

    /// The deadlines of fields: key, field and deadline.
    pub fn each_hash_ttl(&self) -> (r: &Vec<(Vec<u8>, Vec<u8>, u64)>)
        ensures
            r@ == self.ttls(),
    {
        &self.hfttl
    }

    /// Number of entries.
    pub fn len(&self) -> (r: usize)
        ensures
            r == self.entries().len(),
    {
        self.entries.len()
    }

    /// Whether there is no entry.
    pub fn is_empty(&self) -> (r: bool)
        ensures
            r == (self.entries().len() == 0),
    {
        self.entries.len() == 0
    }
}

impl Store {
    /// The live keys with their values and how long they still have, in
    /// walking order.
    pub fn snapshot_each(&self) -> (r: Vec<SnapshotEntry>)
        requires
            self.wf(),
        ensures
            frozen(r@) == frozen_keys(self@, self.key_order()),
            values_ok(r@),
    {
        let ghost order = self.key_order();
        let mut out: Vec<SnapshotEntry> = Vec::new();
        let mut b: usize = 0;
        let mut i: usize = 0;
        let mut more: bool = true;
        proof {
            self.lemma_start(0);
            assert(order.take(0) =~= Seq::empty());
            assert(frozen(out@) =~= frozen_keys(self@, order.take(0)));
        }
        while more
            invariant
                self.wf(),
                order == self.key_order(),
                self.stands(b as int, i as int),
                0 <= self.place(b as int, i as int) <= order.len(),
                frozen(out@) == frozen_keys(self@, order.take(self.place(b as int, i as int))),
                values_ok(out@),
                !more ==> self.place(b as int, i as int) == order.len(),
            decreases order.len() - self.place(b as int, i as int) + (if more {
                1int
            } else {
                0int
            }),
        {
            let ghost p = self.place(b as int, i as int);
            match self.step(b, i) {
                None => {
                    more = false;
                },
                Some((k, e, c, j)) => {
                    let ghost before = frozen(out@);
                    let ghost kv = k@;
                    let ghost out0 = out@;
                    proof {
                        assert(order.take(p + 1).drop_last() =~= order.take(p));
                        assert(order.take(p + 1).last() == kv);
                    }
                    if !e.is_expired_at(self.now_ns()) {
                        let ttl: Option<u64> = match e.expire_at_ns {
                            Some(d) => Some(remaining_ms(d, self.now_ns())),
                            None => None,
                        };
                        out.push((copy_bytes(k.as_slice()), e.value.clone(), ttl));
                        proof {
                            assert(frozen(out@) =~= before.push(
                                Frozen {
                                    key: kv,
                                    value: self@.slots[kv].value,
                                    ttl: super::keyspace::ttl_left(self@, kv),
                                },
                            ));
                            assert forall|a: int| 0 <= a < out@.len() implies (
                            #[trigger] out@[a]).1.wf() by {
                                if a < out0.len() {
                                    assert(out@[a] == out0[a]);
                                }
                            }
                        }
                    }
                    assert(frozen(out@) =~= frozen_keys(self@, order.take(p + 1)));
                    b = c;
                    i = j;
                },
            }
        }
        assert(order.take(order.len() as int) =~= order);
        out
    }

    /// Freezes the live keys, with their values, how long they still have
    /// and the deadlines of their fields.
    pub fn collect_snapshot(&self) -> (r: SnapshotView)
        requires
            self.wf(),
        ensures
            frozen(r.entries()) == frozen_keys(self@, self.key_order()),
            values_ok(r.entries()),
            lists_ttls(self@, r.ttls()),
    {
        SnapshotView { entries: self.snapshot_each(), hfttl: self.hash_ttl_each() }
    }
}

/// A keyspace into which entries were loaded, one after the other.
pub open spec fn all_loaded(s: super::StoreModel, v: Seq<Frozen>) -> super::StoreModel
    decreases v.len(),
{
    if v.len() == 0 {
        s
    } else {
        super::keyspace::loaded(
            all_loaded(s, v.drop_last()),
            v.last().key,
            v.last().value,
            v.last().ttl,
        )
    }
}

/// A snapshot that is loaded into an empty keyspace brings back exactly the
/// live keys with what they held.
pub proof fn lemma_snapshot_restore(
    s: super::StoreModel,
    order: Seq<Seq<u8>>,
    fresh: super::StoreModel,
)
    requires
        order.no_duplicates(),
        order.to_set() == s.slots.dom(),
        fresh.slots == Map::<Seq<u8>, crate::entry::Slot>::empty(),
    ensures
        forall|k: Seq<u8>|
            #![trigger all_loaded(fresh, frozen_keys(s, order)).slots.dom().contains(k)]
            all_loaded(fresh, frozen_keys(s, order)).slots.dom().contains(k) <==> super::key_live(
                s,
                k,
                s.now,
            ),
        forall|k: Seq<u8>|
            #![trigger all_loaded(fresh, frozen_keys(s, order)).slots[k]]
            super::key_live(s, k, s.now) ==> all_loaded(
                fresh,
                frozen_keys(s, order),
            ).slots[k].value == s.slots[k].value,
{
    let live = super::walk::wanted_keys(s, None, order);
    let v = frozen_keys(s, order);
    super::walk::lemma_wanted_keys(s, None, order);
    lemma_loaded(fresh, v, s);
    let t = all_loaded(fresh, v);
    assert forall|k: Seq<u8>| #[trigger] t.slots.dom().contains(k) <==> super::key_live(
        s,
        k,
        s.now,
    ) by {
        assert(super::walk::wanted(s, None, k) == super::key_live(s, k, s.now));
        assert(live.contains(k) <==> super::walk::wanted(s, None, k));
        if live.contains(k) {
            let i = choose|i: int| 0 <= i < live.len() && live[i] == k;
            assert(v[i].key == k);
        }
        if t.slots.dom().contains(k) {
            let i = choose|i: int| 0 <= i < v.len() && (#[trigger] v[i]).key == k;
            assert(live[i] == k);
        }
    }
    assert forall|k: Seq<u8>|
        super::key_live(s, k, s.now) implies (#[trigger] t.slots[k]).value == s.slots[k].value by {
        assert(t.slots.dom().contains(k));
    }
}

proof fn lemma_loaded(fresh: super::StoreModel, v: Seq<Frozen>, s: super::StoreModel)
    requires
        fresh.slots == Map::<Seq<u8>, crate::entry::Slot>::empty(),
        forall|i: int|
            0 <= i < v.len() ==> (#[trigger] v[i]).value == s.slots[v[i].key].value,
    ensures
        forall|k: Seq<u8>| #[trigger]
            all_loaded(fresh, v).slots.dom().contains(k) <==> exists|i: int|
                0 <= i < v.len() && (#[trigger] v[i]).key == k,
        forall|k: Seq<u8>| #[trigger]
            all_loaded(fresh, v).slots.dom().contains(k) ==> all_loaded(fresh, v).slots[k].value
                == s.slots[k].value,
    decreases v.len(),
{
    if v.len() > 0 {
        let d = v.drop_last();
        assert forall|i: int| 0 <= i < d.len() implies (#[trigger] d[i]).value
            == s.slots[d[i].key].value by {
            assert(d[i] == v[i]);
        }
        lemma_loaded(fresh, d, s);
        let t = all_loaded(fresh, v);
        assert forall|k: Seq<u8>| #[trigger] t.slots.dom().contains(k) <==> exists|i: int|
            0 <= i < v.len() && (#[trigger] v[i]).key == k by {
            if all_loaded(fresh, d).slots.dom().contains(k) {
                let i = choose|i: int| 0 <= i < d.len() && (#[trigger] d[i]).key == k;
                assert(v[i].key == k);
            }
            if k == v.last().key {
                assert(v[v.len() - 1].key == k);
            }
            if exists|i: int| 0 <= i < v.len() && (#[trigger] v[i]).key == k {
                let i = choose|i: int| 0 <= i < v.len() && (#[trigger] v[i]).key == k;
                if i < d.len() {
                    assert(d[i].key == k);
                }
            }
        }
    }
}

} // verus!
