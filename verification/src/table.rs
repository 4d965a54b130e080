//! Tables of byte strings that know what they cost: one flat, one sharded
//! into buckets that copies share.
use vstd::prelude::*;
use crate::byte_map::ByteMap;
use crate::bytes::heap_bytes;
use crate::payload::{Payload, Present};
use crate::seg_map::SegMap;

verus! {

/// What the bindings of a map cost, key by key.
pub open spec fn pair_costs<V: Payload>(m: Map<Seq<u8>, Seq<u8>>) -> Map<Seq<u8>, nat> {
    Map::new(
        |k: Seq<u8>| m.dom().contains(k),
        |k: Seq<u8>|
            V::slot_spec() + crate::bytes::heap_bytes_spec(k.len())
                + crate::bytes::heap_bytes_spec(m[k].len()),
    )
}

/// What the bindings of a map cost together.
pub open spec fn table_cost<V: Payload>(m: Map<Seq<u8>, Seq<u8>>) -> nat {
    crate::weigh::total(pair_costs::<V>(m))
}

/// What one binding costs.
fn pair_cost<V: Payload>(key_len: usize, v: &V) -> (r: u64)
    ensures
        r == crate::list_data::capped(
            V::slot_spec() + crate::bytes::heap_bytes_spec(key_len as nat)
                + crate::bytes::heap_bytes_spec(v.model().len()),
        ),
{
    V::slot_bytes().saturating_add(heap_bytes(key_len)).saturating_add(v.heap_bytes())
}

proof fn lemma_pair_costs<V: Payload>(m: Map<Seq<u8>, Seq<u8>>, k: Seq<u8>, v: Seq<u8>)
    ensures
        pair_costs::<V>(m).dom() == m.dom(),
        pair_costs::<V>(m.insert(k, v)) == pair_costs::<V>(m).insert(
            k,
            V::slot_spec() + crate::bytes::heap_bytes_spec(k.len())
                + crate::bytes::heap_bytes_spec(v.len()),
        ),
        pair_costs::<V>(m.remove(k)) == pair_costs::<V>(m).remove(k),
{
    assert(pair_costs::<V>(m).dom() =~= m.dom());
    assert(pair_costs::<V>(m.insert(k, v)) =~= pair_costs::<V>(m).insert(
        k,
        V::slot_spec() + crate::bytes::heap_bytes_spec(k.len()) + crate::bytes::heap_bytes_spec(
            v.len(),
        ),
    ));
    assert(pair_costs::<V>(m.remove(k)) =~= pair_costs::<V>(m).remove(k));
}

/// What binding a key does to the cost.
proof fn lemma_cost_insert<V: Payload>(m: Map<Seq<u8>, Seq<u8>>, k: Seq<u8>, v: Seq<u8>)
    requires
        m.dom().finite(),
    ensures
        table_cost::<V>(m.insert(k, v)) == table_cost::<V>(m.remove(k)) + V::slot_spec()
            + crate::bytes::heap_bytes_spec(k.len()) + crate::bytes::heap_bytes_spec(v.len()),
        m.dom().contains(k) ==> table_cost::<V>(m) == table_cost::<V>(m.remove(k))
            + V::slot_spec() + crate::bytes::heap_bytes_spec(k.len())
            + crate::bytes::heap_bytes_spec(m[k].len()),
        !m.dom().contains(k) ==> table_cost::<V>(m) == table_cost::<V>(m.remove(k)),
{
    lemma_pair_costs::<V>(m, k, v);
    crate::weigh::lemma_total_insert(
        pair_costs::<V>(m),
        k,
        V::slot_spec() + crate::bytes::heap_bytes_spec(k.len()) + crate::bytes::heap_bytes_spec(
            v.len(),
        ),
    );
}

/// A flat table.
pub struct FlatTable<V: Payload> {
    map: ByteMap<V>,
    bytes: u64,
}

/// A hash's table: field to value.
pub type HashData = FlatTable<Vec<u8>>;

/// A set's table: the members are the keys.
pub type SetData = FlatTable<Present>;

impl<V: Payload> View for FlatTable<V> {
    type V = Map<Seq<u8>, Seq<u8>>;

    /// The bindings.
    closed spec fn view(&self) -> Map<Seq<u8>, Seq<u8>> {
        crate::payload::model_map(self.map@)
    }
}

impl<V: Payload> FlatTable<V> {
    /// The cost is counted.
    pub closed spec fn wf(&self) -> bool {
        &&& self.map.wf()
        &&& self@.dom().finite()
        &&& self.bytes == crate::list_data::capped(table_cost::<V>(self@))
    }

    /// The keys in the order in which a walk meets them.
    pub closed spec fn key_order(&self) -> Seq<Seq<u8>> {
        self.map.key_order()
    }

    /// A walk meets every key exactly once.
    pub proof fn lemma_key_order(&self)
        requires
            self.wf(),
        ensures
            self.key_order().no_duplicates(),
            self.key_order().to_set() == self@.dom(),
            self.key_order().len() == self@.dom().len(),
            self@.dom().finite(),
    {
        self.map.lemma_key_order();
        assert(self@.dom() =~= self.map@.dom());
    }

    /// An empty table.
    pub fn new() -> (r: Self)
        ensures
            r.wf(),
            r@ == Map::<Seq<u8>, Seq<u8>>::empty(),
    {
        let r = FlatTable { map: ByteMap::new(), bytes: 0 };
        proof {
            assert(r@ =~= Map::empty());
            assert(pair_costs::<V>(r@) =~= Map::empty());
            crate::weigh::lemma_total_empty::<Seq<u8>>();
            assert(r@.dom() =~= Set::empty());
        }
        r
    }

    /// The bytes that the bindings cost, at most `u64::MAX`.
    pub fn weight(&self) -> (r: u64)
        requires
            self.wf(),
        ensures
            r == crate::list_data::capped(table_cost::<V>(self@)),
    {
        self.bytes
    }

    /// Number of keys.
    pub fn len(&self) -> (r: usize)
        requires
            self.wf(),
        ensures
            self@.dom().finite(),
            self@.dom().len() <= usize::MAX ==> r == self@.dom().len(),
            r != 0 ==> self@.dom().len() != 0,
    {
        assert(self@.dom() =~= self.map@.dom());
        self.map.len()
    }

    /// Whether no key is bound.
    pub fn is_empty(&self) -> (r: bool)
        requires
            self.wf(),
        ensures
            r == (self@.dom().len() == 0),
            r == (self@ == Map::<Seq<u8>, Seq<u8>>::empty()),
    {
        proof {
            assert(self@.dom() =~= self.map@.dom());
            self.lemma_key_order();
            if self@.dom().len() == 0 {
                assert(self@.dom() =~= Set::empty());
                assert(self@ =~= Map::empty());
                assert(self.map@ =~= Map::empty());
            }
            assert(Map::<Seq<u8>, Seq<u8>>::empty().dom() =~= Set::empty());
            assert(Map::<Seq<u8>, V>::empty().dom() =~= Set::empty());
        }
        self.map.is_empty()
    }

    /// What a key is bound to.
    pub fn get(&self, key: &[u8]) -> (r: Option<&V>)
        requires
            self.wf(),
        ensures
            match r {
                Some(v) => self@.dom().contains(key@) && v.model() == self@[key@],
                None => !self@.dom().contains(key@),
            },
    {
        self.map.get(key)
    }

    /// Whether a key is bound.
    pub fn contains_key(&self, key: &[u8]) -> (r: bool)
        requires
            self.wf(),
        ensures
            r == self@.dom().contains(key@),
    {
        self.map.contains_key(key)
    }

    /// Binds a key and hands back what it was bound to.
    pub fn insert(&mut self, key: Vec<u8>, value: V) -> (r: Option<V>)
        requires
            old(self).wf(),
        ensures
            final(self).wf(),
            final(self)@ == old(self)@.insert(key@, value.model()),
            match r {
                Some(o) => old(self)@.dom().contains(key@) && old(self)@[key@] == o.model(),
                None => !old(self)@.dom().contains(key@),
            },
    {
        let ghost m = self@;
        let ghost k = key@;
        let ghost v = value.model();
        let key_len: usize = key.len();
        let cost: u64 = pair_cost(key_len, &value);
        proof {
            crate::payload::lemma_model_map(self.map@, k, value);
            lemma_cost_insert::<V>(m, k, v);
        }
        let old_value = self.map.insert(key, value);
        match &old_value {
            None => {
                self.bytes = self.bytes.saturating_add(cost);
            },
            Some(o) => {
                if self.bytes < u64::MAX {
                    let gone: u64 = pair_cost(key_len, o);
                    self.bytes = (self.bytes - gone).saturating_add(cost);
                } else {
                    self.recount();
                }
            },
        }
        old_value
    }

    /// Unbinds a key and hands back what it was bound to.
    pub fn remove(&mut self, key: &[u8]) -> (r: Option<V>)
        requires
            old(self).wf(),
        ensures
            final(self).wf(),
            final(self)@ == old(self)@.remove(key@),
            match r {
                Some(o) => old(self)@.dom().contains(key@) && old(self)@[key@] == o.model(),
                None => !old(self)@.dom().contains(key@),
            },
    {
        let ghost m = self@;
        proof {
            if self.map@.dom().contains(key@) {
                crate::payload::lemma_model_map(self.map@, key@, self.map@[key@]);
                lemma_cost_insert::<V>(m, key@, m[key@]);
            } else {
                assert(self.map@.remove(key@) =~= self.map@);
                assert(m.remove(key@) =~= m);
            }
        }
        let old_value = self.map.remove(key);
        match &old_value {
            None => {},
            Some(o) => {
                if self.bytes < u64::MAX {
                    let gone: u64 = pair_cost(key.len(), o);
                    self.bytes = self.bytes - gone;
                } else {
                    self.recount();
                }
            },
        }
        old_value
    }

    /// Counts the cost anew.
    fn recount(&mut self)
        requires
            old(self).map.wf(),
            old(self)@.dom().finite(),
        ensures
            final(self).wf(),
            final(self).map == old(self).map,
    {
        let names = self.map.keys();
        let ghost q = self.map.key_order();
        let ghost costs = pair_costs::<V>(self@);
        proof {
            self.map.lemma_key_order();
            lemma_pair_costs::<V>(self@, Seq::empty(), Seq::empty());
            assert(self@.dom() =~= self.map@.dom());
            crate::weigh::lemma_sum_of(costs, q);
            assert(q.take(0) =~= Seq::empty());
        }
        let mut sum: u64 = 0;
        let mut i: usize = 0;
        while i < names.len()
            invariant
                self.map.wf(),
                q == self.map.key_order(),
                crate::bytes::deep(names@) == q,
                q.to_set() == self.map@.dom(),
                costs == pair_costs::<V>(self@),
                i <= names@.len(),
                sum == crate::list_data::capped(crate::weigh::sum_of(costs, q.take(i as int))),
            decreases names@.len() - i,
        {
            proof {
                assert(q[i as int] == names@[i as int]@);
                assert(q.to_set().contains(q[i as int]));
                assert(q.take(i + 1).drop_last() =~= q.take(i as int));
                assert(q.take(i + 1).last() == q[i as int]);
            }
            match self.map.get(names[i].as_slice()) {
                Some(v) => {
                    assert(self@[q[i as int]] == v.model());
                    sum = sum.saturating_add(pair_cost(names[i].len(), v));
                },
                None => {
                    assert(false);
                },
            }
            i = i + 1;
        }
        proof {
            assert(q.len() == names@.len());
            assert(q.take(q.len() as int) =~= q);
        }
        self.bytes = sum;
    }

    /// The keys, in walking order.
    pub fn keys(&self) -> (r: Vec<Vec<u8>>)
        requires
            self.wf(),
        ensures
            crate::bytes::deep(r@) == self.key_order(),
    {
        self.map.keys()
    }

    /// The `n`th key of a walk, with its value.
    pub fn nth(&self, n: usize) -> (r: Option<(&Vec<u8>, &V)>)
        requires
            self.wf(),
        ensures
            match r {
                Some((k, v)) => {
                    &&& n < self.key_order().len()
                    &&& k@ == self.key_order()[n as int]
                    &&& self@.dom().contains(k@)
                    &&& v.model() == self@[k@]
                },
                None => n >= self.key_order().len(),
            },
    {
        proof {
            self.map.lemma_key_order();
        }
        self.map.nth(n)
    }

    /// The table behind, without its cost.
    pub fn into_map(self) -> (r: ByteMap<V>)
        requires
            self.wf(),
        ensures
            r.wf(),
            crate::payload::model_map(r@) == self@,
    {
        self.map
    }
}

impl<V: Payload> Clone for FlatTable<V> {
    fn clone(&self) -> (r: Self)
        ensures
            self.wf() ==> r.wf(),
            self.wf() ==> r@ == self@,
    {
        let map = self.map.clone();
        proof {
            if self.wf() {
                crate::payload::lemma_cloned_table(self.map, map);
            }
        }
        FlatTable { map, bytes: self.bytes }
    }
}

/// A table in buckets.
pub struct SegTable<V: Payload> {
    map: SegMap<V>,
    bytes: u64,
}

impl<V: Payload> View for SegTable<V> {
    type V = Map<Seq<u8>, Seq<u8>>;

    /// The bindings.
    closed spec fn view(&self) -> Map<Seq<u8>, Seq<u8>> {
        self.map@
    }
}

impl<V: Payload> SegTable<V> {
    /// The cost is counted.
    pub closed spec fn wf(&self) -> bool {
        &&& self.map.wf()
        &&& self@.dom().finite()
        &&& self.bytes == crate::list_data::capped(table_cost::<V>(self@))
    }

    /// The keys in the order in which a walk meets them.
    pub closed spec fn key_order(&self) -> Seq<Seq<u8>> {
        self.map.key_order()
    }

    /// A walk meets every key exactly once.
    pub proof fn lemma_key_order(&self)
        requires
            self.wf(),
        ensures
            self.key_order().no_duplicates(),
            self.key_order().to_set() == self@.dom(),
            self.key_order().len() == self@.dom().len(),
            self@.dom().finite(),
    {
        self.map.lemma_key_order();
    }

    /// An empty table.
    pub fn new() -> (r: Self)
        ensures
            r.wf(),
            r@ == Map::<Seq<u8>, Seq<u8>>::empty(),
    {
        let r = SegTable { map: SegMap::new(), bytes: 0 };
        proof {
            assert(pair_costs::<V>(r@) =~= Map::empty());
            crate::weigh::lemma_total_empty::<Seq<u8>>();
            assert(r@.dom() =~= Set::empty());
        }
        r
    }

    /// A flat table's bindings, in buckets.
    pub fn from_flat(flat: FlatTable<V>) -> (r: Self)
        requires
            flat.wf(),
        ensures
            r.wf(),
            r@ == flat@,
    {
        let bytes: u64 = flat.weight();
        SegTable { map: SegMap::from_flat(flat.into_map()), bytes }
    }

    /// The bytes that the bindings cost, at most `u64::MAX`.
    pub fn weight(&self) -> (r: u64)
        requires
            self.wf(),
        ensures
            r == crate::list_data::capped(table_cost::<V>(self@)),
    {
        self.bytes
    }

    /// Number of keys.
    pub fn len(&self) -> (r: usize)
        requires
            self.wf(),
        ensures
            self@.dom().finite(),
            self@.dom().len() <= usize::MAX ==> r == self@.dom().len(),
            r != 0 ==> self@.dom().len() != 0,
    {
        self.map.len()
    }

    /// Whether no key is bound.
    pub fn is_empty(&self) -> (r: bool)
        requires
            self.wf(),
        ensures
            r == (self@.dom().len() == 0),
            r == (self@ == Map::<Seq<u8>, Seq<u8>>::empty()),
    {
        proof {
            if self@.dom().len() == 0 {
                assert(self@.dom() =~= Set::empty());
                assert(self@ =~= Map::empty());
            }
            assert(Map::<Seq<u8>, Seq<u8>>::empty().dom() =~= Set::empty());
        }
        self.map.is_empty()
    }

    /// What a key is bound to.
    pub fn get(&self, key: &[u8]) -> (r: Option<&V>)
        requires
            self.wf(),
        ensures
            match r {
                Some(v) => self@.dom().contains(key@) && v.model() == self@[key@],
                None => !self@.dom().contains(key@),
            },
    {
        self.map.get(key)
    }

    /// Whether a key is bound.
    pub fn contains_key(&self, key: &[u8]) -> (r: bool)
        requires
            self.wf(),
        ensures
            r == self@.dom().contains(key@),
    {
        self.map.contains_key(key)
    }

    /// Binds a key and hands back what it was bound to.
    pub fn insert(&mut self, key: Vec<u8>, value: V) -> (r: Option<V>)
        requires
            old(self).wf(),
        ensures
            final(self).wf(),
            final(self)@ == old(self)@.insert(key@, value.model()),
            match r {
                Some(o) => old(self)@.dom().contains(key@) && old(self)@[key@] == o.model(),
                None => !old(self)@.dom().contains(key@),
            },
    {
        let ghost m = self@;
        let key_len: usize = key.len();
        let cost: u64 = pair_cost(key_len, &value);
        proof {
            lemma_cost_insert::<V>(m, key@, value.model());
        }
        let old_value = self.map.insert(key, value);
        match &old_value {
            None => {
                self.bytes = self.bytes.saturating_add(cost);
            },
            Some(o) => {
                if self.bytes < u64::MAX {
                    let gone: u64 = pair_cost(key_len, o);
                    self.bytes = (self.bytes - gone).saturating_add(cost);
                } else {
                    self.recount();
                }
            },
        }
        old_value
    }

    /// Unbinds a key and hands back what it was bound to.
    pub fn remove(&mut self, key: &[u8]) -> (r: Option<V>)
        requires
            old(self).wf(),
        ensures
            final(self).wf(),
            final(self)@ == old(self)@.remove(key@),
            match r {
                Some(o) => old(self)@.dom().contains(key@) && old(self)@[key@] == o.model(),
                None => !old(self)@.dom().contains(key@),
            },
    {
        let ghost m = self@;
        proof {
            if m.dom().contains(key@) {
                lemma_cost_insert::<V>(m, key@, m[key@]);
            } else {
                assert(m.remove(key@) =~= m);
            }
        }
        let old_value = self.map.remove(key);
        match &old_value {
            None => {},
            Some(o) => {
                if self.bytes < u64::MAX {
                    let gone: u64 = pair_cost(key.len(), o);
                    self.bytes = self.bytes - gone;
                } else {
                    self.recount();
                }
            },
        }
        old_value
    }

    /// Counts the cost anew.
    fn recount(&mut self)
        requires
            old(self).map.wf(),
            old(self)@.dom().finite(),
        ensures
            final(self).wf(),
            final(self).map == old(self).map,
    {
        let names = self.map.keys();
        let ghost q = self.map.key_order();
        let ghost costs = pair_costs::<V>(self@);
        proof {
            self.map.lemma_key_order();
            lemma_pair_costs::<V>(self@, Seq::empty(), Seq::empty());
            crate::weigh::lemma_sum_of(costs, q);
            assert(q.take(0) =~= Seq::empty());
        }
        let mut sum: u64 = 0;
        let mut i: usize = 0;
        while i < names.len()
            invariant
                self.map.wf(),
                q == self.map.key_order(),
                crate::bytes::deep(names@) == q,
                q.to_set() == self.map@.dom(),
                costs == pair_costs::<V>(self@),
                i <= names@.len(),
                sum == crate::list_data::capped(crate::weigh::sum_of(costs, q.take(i as int))),
            decreases names@.len() - i,
        {
            proof {
                assert(q[i as int] == names@[i as int]@);
                assert(q.to_set().contains(q[i as int]));
                assert(q.take(i + 1).drop_last() =~= q.take(i as int));
                assert(q.take(i + 1).last() == q[i as int]);
            }
            match self.map.get(names[i].as_slice()) {
                Some(v) => {
                    sum = sum.saturating_add(pair_cost(names[i].len(), v));
                },
                None => {
                    assert(false);
                },
            }
            i = i + 1;
        }
        proof {
            assert(q.len() == names@.len());
            assert(q.take(q.len() as int) =~= q);
        }
        self.bytes = sum;
    }

    /// The keys, in walking order.
    pub fn keys(&self) -> (r: Vec<Vec<u8>>)
        requires
            self.wf(),
        ensures
            crate::bytes::deep(r@) == self.key_order(),
    {
        self.map.keys()
    }

    /// The key that a draw picks, every key being as likely.
    pub fn rand_entry(&self, draw: u64) -> (r: Option<(&Vec<u8>, &V)>)
        requires
            self.wf(),
            self@.dom().len() <= usize::MAX,
        ensures
            match r {
                Some((k, v)) => {
                    &&& self@.dom().len() > 0
                    &&& k@ == self.key_order()[crate::rng::below_spec(
                        draw,
                        self@.dom().len() as u64,
                    ) as int]
                    &&& self@.dom().contains(k@)
                    &&& v.model() == self@[k@]
                },
                None => self@.dom().len() == 0,
            },
    {
        self.map.rand_entry(draw)
    }

    /// The buckets, which copies of the table share.
    pub fn buckets(&self) -> (r: &SegMap<V>)
        requires
            self.wf(),
        ensures
            r.wf(),
            r@ == self@,
    {
        &self.map
    }
}

impl<V: Payload> Clone for SegTable<V> {
    fn clone(&self) -> (r: Self)
        ensures
            self.wf() ==> r.wf(),
            self.wf() ==> r@ == self@,
    {
        SegTable { map: self.map.clone(), bytes: self.bytes }
    }
}

} // verus!
