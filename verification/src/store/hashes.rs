//! Hash commands.
use vstd::prelude::*;
use super::Store;
use crate::bytes::copy_bytes;
use crate::cold::ColdKind;
use crate::rng::below;
use crate::seg_map::HS_PROMOTE;
use crate::text::{format_i64, parse_i64};
use crate::types::StoreError;
use crate::value::Value;

verus! {

/// Pairs of a field and its value.
pub type FieldValuePairs = Vec<(Vec<u8>, Vec<u8>)>;

/// The pairs that a slice of them refers to.
pub open spec fn referred_pairs(v: Seq<(&[u8], &[u8])>) -> Seq<(Seq<u8>, Seq<u8>)> {
    Seq::new(v.len(), |i: int| (v[i].0@, v[i].1@))
}

/// A hash in which pairs were set, one after the other.
pub open spec fn overlaid(h: Map<Seq<u8>, Seq<u8>>, ps: Seq<(Seq<u8>, Seq<u8>)>) -> Map<
    Seq<u8>,
    Seq<u8>,
>
    decreases ps.len(),
{
    if ps.len() == 0 {
        h
    } else {
        overlaid(h, ps.drop_last()).insert(ps.last().0, ps.last().1)
    }
}

/// The keyspace that a read of a hash works on.
pub open spec fn hash_seen(s: super::StoreModel, key: Seq<u8>) -> super::StoreModel {
    super::seen(super::hash_ttl::purged(s, key), key)
}

/// The hash that a read of it finds.
pub open spec fn hash_read(s: super::StoreModel, key: Seq<u8>) -> Result<
    Option<Map<Seq<u8>, Seq<u8>>>,
    StoreError,
> {
    super::hash_ttl::hash_at(hash_seen(s, key), key)
}

/// The value that a hash has for a field, if any.
pub open spec fn field_of(h: Map<Seq<u8>, Seq<u8>>, f: Seq<u8>) -> Option<Seq<u8>> {
    if h.dom().contains(f) {
        Some(h[f])
    } else {
        None
    }
}

/// The hash that a write starts from: empty if there is none.
pub open spec fn start_hash(o: Option<Map<Seq<u8>, Seq<u8>>>) -> Map<Seq<u8>, Seq<u8>> {
    match o {
        Some(h) => h,
        None => Map::empty(),
    }
}

/// A keyspace in which a hash was stored under a key, whose deadline stays,
/// or under a new key without one.
pub open spec fn rehashed(
    s: super::StoreModel,
    key: Seq<u8>,
    h: Map<Seq<u8>, Seq<u8>>,
) -> super::StoreModel {
    if s.slots.dom().contains(key) {
        super::revalued(s, key, crate::value::Val::Hash(h))
    } else {
        super::put(
            s,
            key,
            crate::entry::Slot { value: crate::value::Val::Hash(h), expire: None },
        )
    }
}

/// The keyspace that a write to fields of a hash works on: their deadlines
/// are forgotten.
pub open spec fn hash_opened(
    s: super::StoreModel,
    key: Seq<u8>,
    fs: Set<Seq<u8>>,
) -> super::StoreModel {
    super::seen(super::hash_ttl::untimed(super::hash_ttl::purged(s, key), key, fs), key)
}

/// The number that an increment leaves in a field.
pub open spec fn hincr_result(
    o: Option<Map<Seq<u8>, Seq<u8>>>,
    f: Seq<u8>,
    delta: i64,
) -> Result<i64, StoreError> {
    match field_of(start_hash(o), f) {
        None => Ok(delta),
        Some(b) => match crate::text::parse_i64_spec(b) {
            None => Err(StoreError::NotInteger),
            Some(n) => if i64::MIN <= n + delta <= i64::MAX {
                Ok((n + delta) as i64)
            } else {
                Err(StoreError::Overflow)
            },
        },
    }
}

/// Fields and values in turn.
pub open spec fn alternating(ps: Seq<(Seq<u8>, Seq<u8>)>) -> Seq<Seq<u8>> {
    Seq::new(
        2 * ps.len(),
        |i: int|
            if i % 2 == 0 {
                ps[i / 2].0
            } else {
                ps[i / 2].1
            },
    )
}

/// The bytes of optional byte strings.
pub open spec fn deep_options(v: Seq<Option<Vec<u8>>>) -> Seq<Option<Seq<u8>>> {
    Seq::new(
        v.len(),
        |i: int|
            match v[i] {
                Some(b) => Some(b@),
                None => None,
            },
    )
}

/// Fields with their values, or with nothing in their place.
pub open spec fn with_values_of(
    fs: Seq<Seq<u8>>,
    h: Map<Seq<u8>, Seq<u8>>,
    with_values: bool,
) -> Seq<(Seq<u8>, Seq<u8>)> {
    Seq::new(
        fs.len(),
        |i: int|
            (
                fs[i],
                if with_values {
                    h[fs[i]]
                } else {
                    Seq::empty()
                },
            ),
    )
}

/// How many fields a count asks for, where a hash has `n`: all different and
/// at most `n` if it is positive, else as many as it says.
pub open spec fn asked(count: i64, n: nat) -> nat {
    if n == 0 {
        0
    } else if count < 0 {
        (-count) as nat
    } else {
        super::lists::lesser(count as nat, n)
    }
}

/// The fields that a random draw picks.
pub open spec fn random_fields(order: Seq<Seq<u8>>, count: i64, state: u64) -> Seq<Seq<u8>> {
    let k = asked(count, order.len());
    if count < 0 {
        super::sets::repeats(order, k, state)
    } else {
        super::sets::picks(order, k, state)
    }
}

/// Whether fields set in a hash leave it in buckets: it is so if it was before
/// or had, before the last of them, what a flat hash may have at most. A
/// declared row of that size may also stay one.
pub open spec fn set_form(before: Store, after: Store, key: Seq<u8>, there: bool, n: nat) -> bool {
    let was = there && before.held(key) is SegHash;
    let row = there && before.held(key) is PackedRow;
    after.held(key).fields().dom().len() <= usize::MAX ==> {
        &&& was ==> after.held(key) is SegHash
        &&& after.held(key) is SegHash ==> was || n >= HS_PROMOTE
        &&& n >= HS_PROMOTE && !row ==> after.held(key) is SegHash
    }
}

/// How often setting a field looks the key up: twice, once more for a
/// declared row, and again if that does not stay one.
fn set_lookups(row: bool, still: bool) -> (r: u128)
    ensures
        r == (if !row {
            2int
        } else if still {
            3
        } else {
            4
        }),
{
    if !row {
        2
    } else if still {
        3
    } else {
        4
    }
}

/// Whether setting `n` fields of a hash, behind some lookups of its key, left
/// so many uses: two for each field, up to four where the hash was a declared
/// row.
pub open spec fn set_uses(before: Store, after: Store, key: Seq<u8>, lookups: nat, n: nat) -> bool {
    let p = super::hash_ttl::purged(before@, key);
    let more = (2 * n - 2) as nat;
    if before.held(key) is PackedRow {
        exists|u: nat|
            lookups + 2 * n <= u <= lookups + 4 * n && #[trigger] after.used_times(
                before,
                p,
                key,
                u,
                more,
            )
    } else {
        after.used_times(before, p, key, lookups + 2 * n, more)
    }
}

impl Store {
    /// Whether the key is there to be read as a hash, once fields whose
    /// deadlines have come are gone.
    fn open_hash(&mut self, key: &[u8]) -> (r: Result<bool, StoreError>)
        requires
            old(self).wf(),
        ensures
            exists|mid: Store| #[trigger]
                super::hash_ttl::swept(*old(self), mid, key@) && final(self).became(
                    mid,
                    hash_seen(old(self)@, key@),
                ) && final(self).kept_others(mid, key@) && final(self).used() <= mid.used(),
            final(self)@.slots.dom().contains(key@) ==> (final(self).held(key@) is PackedRow ==> old(
                self,
            ).held(key@) is PackedRow),
            final(self).kept_form(*old(self), key@),
            final(self).came_past(*old(self), key@, hash_seen(old(self)@, key@)),
            match hash_read(old(self)@, key@) {
                Ok(Some(_h)) => r == Ok::<bool, StoreError>(true),
                Ok(None) => r == Ok::<bool, StoreError>(false),
                Err(e) => r == Err::<bool, StoreError>(e),
            },
            final(self).kept_others(*old(self), key@),
            final(self).used_past(*old(self), key@),
    {
        self.purge_hash_ttl(key);
        assert(super::hash_ttl::swept(*old(self), *self, key@));
        if !self.live(key) {
            return Ok(false);
        }
        match self.value_ref(key) {
            None => Ok(false),
            Some(v) => if v.is_hash() {
                Ok(true)
            } else {
                Err(self.refusal(key, ColdKind::Hash))
            },
        }
    }

    /// Sets fields of the hash under a key. Gives how many were new. The
    /// fields lose their deadlines.
    pub fn hset(&mut self, key: &[u8], pairs: &[(&[u8], &[u8])]) -> (r: Result<usize, StoreError>)
        requires
            old(self).wf(),
        ensures
            ({
                let ps = referred_pairs(pairs@);
                let t = hash_opened(old(self)@, key@, crate::bytes::firsts(ps).to_set());
                match super::hash_ttl::hash_at(t, key@) {
                    _ if pairs@.len() == 0 => r == Ok::<usize, StoreError>(0) && final(self).came_past(*old(self), key@, super::hash_ttl::purged(old(self)@, key@)),
                    Err(e) => r == Err::<usize, StoreError>(e) && final(self).came_past(
                        *old(self), key@,
                        t,
                    ),
                    Ok(o) => {
                        let h = overlaid(start_hash(o), ps);
                        &&& r matches Ok(n)
                        &&& n == h.dom().len() - start_hash(o).dom().len()
                        &&& final(self).came_past(*old(self), key@, rehashed(t, key@, h))
                    },
                }
            }),
            pairs@.len() > 0 && r is Ok ==> ({
                let ps = referred_pairs(pairs@);
                let t = hash_opened(old(self)@, key@, crate::bytes::firsts(ps).to_set());
                set_form(
                    *old(self),
                    *final(self),
                    key@,
                    t.slots.dom().contains(key@),
                    overlaid(
                        start_hash(super::hash_ttl::hash_at(t, key@)->Ok_0),
                        ps.drop_last(),
                    ).dom().len(),
                )
            }),
            final(self).kept_others(*old(self), key@),
            pairs@.len() == 0 ==> final(self).unused_at(*old(self), key@),
            pairs@.len() > 0 && r is Ok ==> set_uses(
                *old(self),
                *final(self),
                key@,
                0,
                pairs@.len(),
            ),
            pairs@.len() > 0 && r is Err ==> final(self).used_past(*old(self), key@),
    {
        self.purge_hash_ttl(key);
        assert(super::hash_ttl::swept(*old(self), *self, key@));
        let n: usize = pairs.len();
        if n == 0 {
            return Ok(0);
        }
        let ghost ps = referred_pairs(pairs@);
        let names = names_of(pairs);
        self.clear_hash_field_ttls(key, names.as_slice());
        let there: bool = self.find(key);
        let ghost t = self@;
        let mut v = if there {
            let fits: bool = match self.value_ref(key) {
                Some(v) => v.is_hash(),
                None => false,
            };
            if !fits {
                self.live(key);
                return Err(self.refusal(key, ColdKind::Hash));
            }
            self.lend(key)
        } else {
            Value::hash_of(pairs[0].0, pairs[0].1)
        };
        let ghost h0: Map<Seq<u8>, Seq<u8>> = if there {
            v.fields()
        } else {
            Map::empty()
        };
        let mut i: usize = if there {
            0
        } else {
            1
        };
        let mut added: usize = i;
        v.hash_len();
        let ghost v0 = v;
        let ghost mut prev: nat = 0;
        let ghost i0 = i as int;
        let mut uses: u128 = 0;
        proof {
            assert(ps.take(0) =~= Seq::empty());
            assert(overlaid(h0, Seq::empty()) == h0);
            if !there {
                assert(ps.take(1).drop_last() =~= Seq::empty());
                assert(ps.take(1).last() == ps[0]);
                assert(v.fields().dom() =~= h0.dom().insert(ps[0].0));
                assert(ps.take(0).len() == 0);
            }
        }
        while i < n
            invariant
                n == pairs@.len(),
                ps == referred_pairs(pairs@),
                i <= n,
                added <= i,
                v.wf(),
                v@ is Hash,
                h0.dom().finite(),
                v.fields().dom().finite(),
                v.fields() == overlaid(h0, ps.take(i as int)),
                added + h0.dom().len() == v.fields().dom().len(),
                i > 0 ==> prev == overlaid(h0, ps.take(i - 1)).dom().len(),
                prev <= v.fields().dom().len(),
                0 <= i0 <= i,
                2 * (i - i0) <= uses <= 4 * (i - i0),
                !(v0 is PackedRow) ==> uses == 2 * (i - i0),
                v0 is SegHash ==> v is SegHash,
                v is PackedRow ==> v0 is PackedRow,
                v.fields().dom().len() <= usize::MAX && v is SegHash ==> v0 is SegHash || (i > 0
                    && prev >= HS_PROMOTE),
                v.fields().dom().len() <= usize::MAX && i > 0 && prev >= HS_PROMOTE
                    && !(v0 is PackedRow) ==> v is SegHash,
            decreases n - i,
        {
            let ghost before = v.fields();
            proof {
                prev = before.dom().len();
            }
            let (f, x) = pairs[i];
            let row: bool = v.is_row();
            if v.hash_set(f, x) {
                added = added + 1;
            }
            uses = uses + set_lookups(row, v.is_row());
            proof {
                assert(ps.take(i + 1).drop_last() =~= ps.take(i as int));
                assert(ps.take(i + 1).last() == ps[i as int]);
                assert(v.fields().dom() =~= before.dom().insert(ps[i as int].0));
                if before.dom().contains(ps[i as int].0) {
                    assert(before.dom().insert(ps[i as int].0) =~= before.dom());
                }
            }
            i = i + 1;
        }
        assert(ps.take(n as int) =~= ps);
        assert(ps.take(n - 1) =~= ps.drop_last());
        if there {
            self.use_times(key, uses);
            self.restore(key, v);
            proof {
                super::lists::lemma_revalue_twice(
                    t,
                    key@,
                    crate::value::Val::Str(crate::text::decimal(0)),
                    v@,
                );
            }
        } else {
            self.insert_entry(key, v, None);
            self.use_times(key, uses);
        }
        proof {
            let p = super::hash_ttl::purged(old(self)@, key@);
            let u = if there {
                uses as nat
            } else {
                2 * n as nat
            };
            assert(self.used_times(*old(self), p, key@, u, (2 * n - 2) as nat));
            assert(!(old(self).held(key@) is PackedRow) ==> u == 2 * n);
            assert(set_uses(*old(self), *self, key@, 0, n as nat));
        }
        Ok(added)
    }

    /// Sets a field of the hash under a key if it is not there. Says whether
    /// it did.
    pub fn hsetnx(&mut self, key: &[u8], field: &[u8], val: &[u8]) -> (r: Result<bool, StoreError>)
        requires
            old(self).wf(),
        ensures
            match hash_read(old(self)@, key@) {
                Err(e) => r == Err::<bool, StoreError>(e) && final(self).came_past(
                    *old(self), key@,
                    hash_seen(old(self)@, key@),
                ),
                Ok(o) => if start_hash(o).dom().contains(field@) {
                    r == Ok::<bool, StoreError>(false) && final(self).came_past(
                        *old(self), key@,
                        hash_seen(old(self)@, key@),
                    )
                } else {
                    r == Ok::<bool, StoreError>(true) && final(self).came_past(
                        *old(self), key@,
                        rehashed(
                            hash_seen(old(self)@, key@),
                            key@,
                            start_hash(o).insert(field@, val@),
                        ),
                    )
                },
            },
            r == Ok::<bool, StoreError>(true) ==> set_form(
                *old(self),
                *final(self),
                key@,
                hash_seen(old(self)@, key@).slots.dom().contains(key@),
                start_hash(hash_read(old(self)@, key@)->Ok_0).dom().len(),
            ),
            final(self).kept_others(*old(self), key@),
            if r == Ok::<bool, StoreError>(true) {
                set_uses(*old(self), *final(self), key@, 1, 1)
            } else {
                final(self).used_past(*old(self), key@)
            },
    {
        let there: bool = match self.open_hash(key) {
            Err(e) => {
                return Err(e);
            },
            Ok(there) => there,
        };
        let ghost t = self@;
        let ghost mid = choose|mid: Store| #[trigger]
            super::hash_ttl::swept(*old(self), mid, key@) && self.became(
                mid,
                hash_seen(old(self)@, key@),
            ) && self.kept_others(mid, key@) && self.used() <= mid.used();
        if there {
            let found: bool = match self.value_ref(key) {
                Some(v) => v.hash_get(field).is_some(),
                None => false,
            };
            if found {
                return Ok(false);
            }
        }
        let ghost at = *self;
        let row: bool = self.holds_row(key);
        self.put_field(key, field, val, there, false);
        if there {
            let uses: u128 = set_lookups(row, self.holds_row(key));
            self.use_times(key, uses);
            proof {
                super::lemma_one_use(*old(self), key@);
                super::lemma_uses(
                    old(self)@,
                    old(self).mark(key@),
                    old(self).use_clock(),
                    1,
                    uses as nat,
                );
                let p = super::hash_ttl::purged(old(self)@, key@);
                let n: nat = 1;
                let more = (2 * n - 2) as nat;
                assert(self.used_times(*old(self), p, key@, (1 + uses) as nat, more));
                assert(!(old(self).held(key@) is PackedRow) ==> 1 + uses == 1 + 2 * n);
                assert(set_uses(*old(self), *self, key@, 1, 1));
            }
        } else {
            proof {
                let p = super::hash_ttl::purged(old(self)@, key@);
                let n: nat = 1;
                let more = (2 * n - 2) as nat;
                assert(self.used_times(*old(self), p, key@, 1 + 2 * n, more));
                assert(set_uses(*old(self), *self, key@, 1, 1));
            }
        }
        Ok(true)
    }

    /// Whether a key holds a declared row.
    fn holds_row(&self, key: &[u8]) -> (r: bool)
        requires
            self.wf(),
        ensures
            r == (self@.slots.dom().contains(key@) && self.held(key@) is PackedRow),
    {
        match self.value_ref(key) {
            Some(v) => v.is_row(),
            None => false,
        }
    }

    /// Sets one field of a hash that is there, or of a new one, on the heap
    /// if it has to be.
    fn put_field(&mut self, key: &[u8], field: &[u8], val: &[u8], there: bool, heap: bool)
        requires
            old(self).wf(),
            there == old(self)@.slots.dom().contains(key@),
            there ==> old(self)@.slots[key@].value is Hash,
        ensures
            final(self).became(
                *old(self),
                rehashed(
                    old(self)@,
                    key@,
                    start_hash(
                        super::hash_ttl::hash_at(old(self)@, key@)->Ok_0,
                    ).insert(field@, val@),
                ),
            ),
            set_form(
                *old(self),
                *final(self),
                key@,
                there,
                start_hash(super::hash_ttl::hash_at(old(self)@, key@)->Ok_0).dom().len(),
            ),
            final(self).kept_others(*old(self), key@),
            heap ==> final(self).held(key@) is Hash || final(self).held(key@) is SegHash,
            final(self).held(key@) is PackedRow ==> there && old(self).held(key@) is PackedRow,
            there ==> final(self).unused_at(*old(self), key@),
            !there ==> final(self).bound_at(*old(self), key@),
    {
        let ghost t = self@;
        if there {
            let mut v = self.lend(key);
            let ghost h = v.fields();
            v.hash_len();
            if heap {
                v.hash_to_heap();
            }
            v.hash_set(field, val);
            assert(v.fields().dom() =~= h.dom().insert(field@));
            self.restore(key, v);
            proof {
                super::lists::lemma_revalue_twice(
                    t,
                    key@,
                    crate::value::Val::Str(crate::text::decimal(0)),
                    v@,
                );
            }
        } else {
            assert(Map::<Seq<u8>, Seq<u8>>::empty().dom() =~= Set::empty());
            let mut v = Value::hash_of(field, val);
            if heap {
                v.hash_to_heap();
            }
            self.insert_entry(key, v, None);
        }
    }

    /// Removes fields from the hash under a key. Gives how many went.
    pub fn hdel(&mut self, key: &[u8], fields: &[&[u8]]) -> (r: Result<usize, StoreError>)
        requires
            old(self).wf(),
        ensures
            ({
                let p = super::hash_ttl::purged(old(self)@, key@);
                let fs = super::lists::referred(fields@).to_set();
                &&& final(self).came_past(*old(self), key@, super::hash_ttl::unfielded(p, key@, fs))
                &&& match super::hash_ttl::hash_at(super::reaped(p, key@, p.now), key@) {
                    Err(e) => r == Err::<usize, StoreError>(e),
                    Ok(None) => r == Ok::<usize, StoreError>(0),
                    Ok(Some(h)) => r matches Ok(n) && n == h.dom().len() - h.remove_keys(
                        fs,
                    ).dom().len(),
                }
            }),
            final(self).kept_others(*old(self), key@),
            final(self).kept_form(*old(self), key@),
            final(self).unused_at(*old(self), key@),
    {
        self.purge_hash_ttl(key);
        assert(super::hash_ttl::swept(*old(self), *self, key@));
        self.delete_fields(key, fields)
    }

    /// Adds `delta` to the number in a field of the hash under a key, which
    /// counts as 0 if it is not there. The field loses its deadline.
    pub fn hincrby(&mut self, key: &[u8], field: &[u8], delta: i64) -> (r: Result<i64, StoreError>)
        requires
            old(self).wf(),
        ensures
            ({
                let t = hash_opened(old(self)@, key@, set![field@]);
                match super::hash_ttl::hash_at(t, key@) {
                    Err(e) => r == Err::<i64, StoreError>(e) && final(self).came_past(*old(self), key@, t),
                    Ok(o) => r == hincr_result(o, field@, delta) && match r {
                        Ok(n) => final(self).came_past(
                            *old(self), key@,
                            rehashed(
                                t,
                                key@,
                                start_hash(o).insert(field@, crate::text::decimal(n as int)),
                            ),
                        ),
                        Err(_e) => final(self).came_past(*old(self), key@, t),
                    },
                }
            }),
            r is Ok ==> ({
                let t = hash_opened(old(self)@, key@, set![field@]);
                set_form(
                    *old(self),
                    *final(self),
                    key@,
                    t.slots.dom().contains(key@),
                    start_hash(super::hash_ttl::hash_at(t, key@)->Ok_0).dom().len(),
                )
            }),
            r is Ok ==> final(self).held(key@) is Hash || final(self).held(key@) is SegHash,
            final(self).kept_others(*old(self), key@),
            final(self).used_past(*old(self), key@),
    {
        self.purge_hash_ttl(key);
        assert(super::hash_ttl::swept(*old(self), *self, key@));
        {
            let one = [field];
            assert(super::lists::referred(one@) =~= seq![field@]);
            assert(seq![field@].to_set() =~= set![field@]) by {
                assert(seq![field@][0] == field@);
            }
            self.clear_hash_field_ttls(key, &one);
        }
        let there: bool = self.live(key);
        let mut cur: i64 = 0;
        if there {
            match self.value_ref(key) {
                Some(v) => {
                    if !v.is_hash() {
                        return Err(self.refusal(key, ColdKind::Hash));
                    }
                    match v.hash_get(field) {
                        Some(b) => match parse_i64(b) {
                            Some(n) => {
                                cur = n;
                            },
                            None => {
                                return Err(StoreError::NotInteger);
                            },
                        },
                        None => {},
                    }
                },
                None => {},
            }
        }
        match cur.checked_add(delta) {
            None => Err(StoreError::Overflow),
            Some(next) => {
                let text = format_i64(next);
                self.put_field(key, field, text.as_slice(), there, true);
                Ok(next)
            },
        }
    }

    /// The value of a field of the hash under a key.
    pub fn hget(&mut self, key: &[u8], field: &[u8]) -> (r: Result<Option<Vec<u8>>, StoreError>)
        requires
            old(self).wf(),
        ensures
            final(self).came_past(*old(self), key@, hash_seen(old(self)@, key@)),
            super::strings::bytes_result(r) == (match hash_read(old(self)@, key@) {
                Ok(o) => Ok(field_of(start_hash(o), field@)),
                Err(e) => Err::<Option<Seq<u8>>, StoreError>(e),
            }),
            final(self).kept_others(*old(self), key@),
            final(self).used_past(*old(self), key@),
    {
        match self.open_hash(key) {
            Err(e) => Err(e),
            Ok(false) => Ok(None),
            Ok(true) => match self.value_ref(key) {
                None => Ok(None),
                Some(v) => match v.hash_get(field) {
                    None => Ok(None),
                    Some(b) => Ok(Some(copy_bytes(b))),
                },
            },
        }
    }

    /// Whether the hash under a key has a field.
    pub fn hexists(&mut self, key: &[u8], field: &[u8]) -> (r: Result<bool, StoreError>)
        requires
            old(self).wf(),
        ensures
            final(self).came_past(*old(self), key@, hash_seen(old(self)@, key@)),
            r == (match hash_read(old(self)@, key@) {
                Ok(o) => Ok(start_hash(o).dom().contains(field@)),
                Err(e) => Err::<bool, StoreError>(e),
            }),
            final(self).kept_others(*old(self), key@),
            final(self).used_past(*old(self), key@),
    {
        match self.open_hash(key) {
            Err(e) => Err(e),
            Ok(false) => Ok(false),
            Ok(true) => match self.value_ref(key) {
                None => Ok(false),
                Some(v) => Ok(v.hash_get(field).is_some()),
            },
        }
    }

    /// How many fields the hash under a key has, 0 if there is none.
    pub fn hlen(&mut self, key: &[u8]) -> (r: Result<usize, StoreError>)
        requires
            old(self).wf(),
        ensures
            final(self).came_past(*old(self), key@, hash_seen(old(self)@, key@)),
            match hash_read(old(self)@, key@) {
                Ok(Some(h)) => r matches Ok(n) && (h.dom().len() <= usize::MAX ==> n
                    == h.dom().len()),
                Ok(None) => r == Ok::<usize, StoreError>(0),
                Err(e) => r == Err::<usize, StoreError>(e),
            },
            final(self).kept_others(*old(self), key@),
            final(self).used_past(*old(self), key@),
    {
        match self.open_hash(key) {
            Err(e) => Err(e),
            Ok(false) => Ok(0),
            Ok(true) => match self.value_ref(key) {
                None => Ok(0),
                Some(v) => Ok(v.hash_len()),
            },
        }
    }

    /// The values of fields of the hash under a key, in the order in which
    /// they are asked for.
    pub fn hmget(&mut self, key: &[u8], fields: &[&[u8]]) -> (r: Result<
        Vec<Option<Vec<u8>>>,
        StoreError,
    >)
        requires
            old(self).wf(),
        ensures
            final(self).came_past(*old(self), key@, hash_seen(old(self)@, key@)),
            match hash_read(old(self)@, key@) {
                Ok(o) => r matches Ok(v) && deep_options(v@) == Seq::new(
                    fields@.len(),
                    |i: int| field_of(start_hash(o), fields@[i]@),
                ),
                Err(e) => r == Err::<Vec<Option<Vec<u8>>>, StoreError>(e),
            },
            final(self).kept_others(*old(self), key@),
            final(self).used_past(*old(self), key@),
    {
        let there: bool = match self.open_hash(key) {
            Err(e) => {
                return Err(e);
            },
            Ok(there) => there,
        };
        let ghost h = start_hash(super::hash_ttl::hash_at(self@, key@)->Ok_0);
        let n: usize = fields.len();
        let mut out: Vec<Option<Vec<u8>>> = Vec::new();
        let mut i: usize = 0;
        while i < n
            invariant
                n == fields@.len(),
                i <= n,
                self.wf(),
                there == self@.slots.dom().contains(key@),
                there ==> self@.slots[key@].value is Hash,
                h == start_hash(super::hash_ttl::hash_at(self@, key@)->Ok_0),
                out@.len() == i,
                forall|k: int|
                    #![trigger out@[k]]
                    0 <= k < i ==> (match out@[k] {
                        Some(b) => Some(b@),
                        None => None,
                    }) == field_of(h, fields@[k]@),
            decreases n - i,
        {
            let v: Option<Vec<u8>> = if there {
                match self.value_ref(key) {
                    Some(v) => match v.hash_get(fields[i]) {
                        Some(b) => Some(copy_bytes(b)),
                        None => None,
                    },
                    None => None,
                }
            } else {
                None
            };
            out.push(v);
            i = i + 1;
        }
        assert(deep_options(out@) =~= Seq::new(
            fields@.len(),
            |i: int| field_of(h, fields@[i]@),
        ));
        Ok(out)
    }

    /// The pairs of the hash under a key, in walking order.
    pub fn hash_pairs(&mut self, key: &[u8]) -> (r: Result<Option<FieldValuePairs>, StoreError>)
        requires
            old(self).wf(),
        ensures
            final(self).came_past(*old(self), key@, hash_seen(old(self)@, key@)),
            match hash_read(old(self)@, key@) {
                Ok(Some(h)) => (r matches Ok(Some(v)) && crate::bytes::deep_pairs(v@) == final(self).held(key@).listing() && in_full(final(self).held(key@), h)),
                Ok(None) => r matches Ok(None),
                Err(e) => r == Err::<Option<FieldValuePairs>, StoreError>(e),
            },
            final(self).kept_others(*old(self), key@),
            final(self).used_past(*old(self), key@),
    {
        match self.open_hash(key) {
            Err(e) => Err(e),
            Ok(false) => Ok(None),
            Ok(true) => match self.value_ref(key) {
                None => Ok(None),
                Some(v) => {
                    let pairs = v.hash_pairs();
                    assert(crate::bytes::deep_pairs(pairs@).len() == pairs@.len());
                    Ok(Some(pairs))
                },
            },
        }
    }

    /// The fields and values of the hash under a key, in turn, in walking
    /// order.
    pub fn hgetall(&mut self, key: &[u8]) -> (r: Result<Vec<Vec<u8>>, StoreError>)
        requires
            old(self).wf(),
        ensures
            final(self).came_past(*old(self), key@, hash_seen(old(self)@, key@)),
            match hash_read(old(self)@, key@) {
                Ok(Some(h)) => (r matches Ok(v) && crate::bytes::deep(v@) == alternating(
                    final(self).held(key@).listing(),
                ) && in_full(final(self).held(key@), h)),
                Ok(None) => r matches Ok(v) && v@.len() == 0,
                Err(e) => r == Err::<Vec<Vec<u8>>, StoreError>(e),
            },
            final(self).kept_others(*old(self), key@),
            final(self).used_past(*old(self), key@),
    {
        let pairs = match self.hash_pairs(key) {
            Err(e) => {
                return Err(e);
            },
            Ok(None) => {
                return Ok(Vec::new());
            },
            Ok(Some(pairs)) => pairs,
        };
        let ghost ps = crate::bytes::deep_pairs(pairs@);
        let mut out: Vec<Vec<u8>> = Vec::new();
        let mut i: usize = 0;
        while i < pairs.len()
            invariant
                i <= pairs@.len(),
                ps == crate::bytes::deep_pairs(pairs@),
                out@.len() == 2 * i,
                forall|k: int|
                    0 <= k < 2 * i ==> (#[trigger] out@[k])@ == alternating(ps)[k],
            decreases pairs@.len() - i,
        {
            out.push(copy_bytes(pairs[i].0.as_slice()));
            out.push(copy_bytes(pairs[i].1.as_slice()));
            proof {
                assert(ps[i as int] == (pairs@[i as int].0@, pairs@[i as int].1@));
                assert((2 * i) / 2 == i && (2 * i) % 2 == 0);
                assert((2 * i + 1) / 2 == i && (2 * i + 1) % 2 == 1);
            }
            i = i + 1;
        }
        assert(crate::bytes::deep(out@) =~= alternating(ps));
        Ok(out)
    }

    /// The fields of the hash under a key, in walking order.
    pub fn hkeys(&mut self, key: &[u8]) -> (r: Result<Vec<Vec<u8>>, StoreError>)
        requires
            old(self).wf(),
        ensures
            final(self).came_past(*old(self), key@, hash_seen(old(self)@, key@)),
            match hash_read(old(self)@, key@) {
                Ok(Some(h)) => (r matches Ok(v) && crate::bytes::deep(v@) == final(self).held(
                    key@,
                ).field_order() && in_full(final(self).held(key@), h)),
                Ok(None) => r matches Ok(v) && v@.len() == 0,
                Err(e) => r == Err::<Vec<Vec<u8>>, StoreError>(e),
            },
            final(self).kept_others(*old(self), key@),
            final(self).used_past(*old(self), key@),
    {
        let pairs = match self.hash_pairs(key) {
            Err(e) => {
                return Err(e);
            },
            Ok(None) => {
                return Ok(Vec::new());
            },
            Ok(Some(pairs)) => pairs,
        };
        let mut out: Vec<Vec<u8>> = Vec::new();
        let mut i: usize = 0;
        while i < pairs.len()
            invariant
                i <= pairs@.len(),
                out@.len() == i,
                forall|k: int| 0 <= k < i ==> (#[trigger] out@[k])@ == pairs@[k].0@,
            decreases pairs@.len() - i,
        {
            out.push(copy_bytes(pairs[i].0.as_slice()));
            i = i + 1;
        }
        proof {
            let ps = crate::bytes::deep_pairs(pairs@);
            let held = self.held(key@);
            let order = held.field_order();
            assert(ps.len() == order.len());
            assert forall|k: int| 0 <= k < out@.len() implies (#[trigger] out@[k])@ == order[k] by {
                assert(ps[k] == held.listing()[k]);
                assert(held.listing()[k].0 == order[k]);
                assert(ps[k] == (pairs@[k].0@, pairs@[k].1@));
            }
            assert(crate::bytes::deep(out@) =~= self.held(key@).field_order());
        }
        Ok(out)
    }

    /// The values of the hash under a key, in the order in which
    /// [`Store::hkeys`] gives their fields.
    pub fn hvals(&mut self, key: &[u8]) -> (r: Result<Vec<Vec<u8>>, StoreError>)
        requires
            old(self).wf(),
        ensures
            final(self).came_past(*old(self), key@, hash_seen(old(self)@, key@)),
            match hash_read(old(self)@, key@) {
                Ok(Some(h)) => (r matches Ok(v) && crate::bytes::deep(v@)
                    == crate::bytes::seconds(final(self).held(key@).listing()) && in_full(
                    final(self).held(key@),
                    h,
                )),
                Ok(None) => r matches Ok(v) && v@.len() == 0,
                Err(e) => r == Err::<Vec<Vec<u8>>, StoreError>(e),
            },
            final(self).kept_others(*old(self), key@),
            final(self).used_past(*old(self), key@),
    {
        let pairs = match self.hash_pairs(key) {
            Err(e) => {
                return Err(e);
            },
            Ok(None) => {
                return Ok(Vec::new());
            },
            Ok(Some(pairs)) => pairs,
        };
        let mut out: Vec<Vec<u8>> = Vec::new();
        let mut i: usize = 0;
        while i < pairs.len()
            invariant
                i <= pairs@.len(),
                out@.len() == i,
                forall|k: int| 0 <= k < i ==> (#[trigger] out@[k])@ == pairs@[k].1@,
            decreases pairs@.len() - i,
        {
            out.push(copy_bytes(pairs[i].1.as_slice()));
            i = i + 1;
        }
        proof {
            let ps = crate::bytes::deep_pairs(pairs@);
            assert forall|k: int| 0 <= k < out@.len() implies #[trigger] out@[k]@
                == crate::bytes::seconds(ps)[k] by {
                assert(ps[k].1 == out@[k]@);
            }
            assert(crate::bytes::deep(out@) =~= crate::bytes::seconds(ps));
        }
        Ok(out)
    }

    /// Fields of the hash under a key, drawn at random, with their values or
    /// with nothing in their place: up to `count` different ones, or exactly
    /// `-count` with repetition if it is negative.
    pub fn hrandfield(&mut self, key: &[u8], count: i64, with_values: bool) -> (r: Result<
        FieldValuePairs,
        StoreError,
    >)
        requires
            old(self).wf(),
            -count <= usize::MAX,
        ensures
            match hash_read(old(self)@, key@) {
                Err(e) => r == Err::<FieldValuePairs, StoreError>(e) && final(self).came_past(
                    *old(self), key@,
                    hash_seen(old(self)@, key@),
                ),
                Ok(None) => (r matches Ok(v) && v@.len() == 0) && final(self).came_past(
                    *old(self), key@,
                    hash_seen(old(self)@, key@),
                ),
                Ok(Some(h)) => {
                    let order = final(self).held(key@).field_order();
                    let fs = random_fields(order, count, hash_seen(old(self)@, key@).random);
                    &&& r matches Ok(v)
                    &&& crate::bytes::deep_pairs(v@) == with_values_of(fs, h, with_values)
                    &&& in_full(final(self).held(key@), h)
                    &&& fs.to_set().subset_of(h.dom())
                    &&& v@.len() == asked(count, h.dom().len())
                    &&& count >= 0 ==> fs.no_duplicates()
                    &&& final(self).came_past(
                        *old(self), key@,
                        super::admin::drawn(
                            hash_seen(old(self)@, key@),
                            asked(count, h.dom().len()),
                        ),
                    )
                },
            },
            final(self).kept_others(*old(self), key@),
            final(self).used_past(*old(self), key@),
    {
        let pairs = match self.hash_pairs(key) {
            Err(e) => {
                return Err(e);
            },
            Ok(None) => {
                return Ok(Vec::new());
            },
            Ok(Some(pairs)) => pairs,
        };
        let ghost mid = choose|mid: Store| #[trigger]
            super::hash_ttl::swept(*old(self), mid, key@) && self.became(
                mid,
                hash_seen(old(self)@, key@),
            ) && self.kept_others(mid, key@);
        let ghost h = self@.slots[key@].value->Hash_0;
        let ghost order = self.held(key@).field_order();
        let ghost listing = self.held(key@).listing();
        let ghost state = self@.random;
        let n: usize = pairs.len();
        let k: usize = if n == 0 {
            0
        } else if count < 0 {
            (-(count as i128)) as usize
        } else if count as u64 >= n as u64 {
            n
        } else {
            count as usize
        };
        let mut draws = self.draw(k);
        let ghost d0 = draws@;
        let places = if count < 0 {
            independent(&draws, n)
        } else {
            distinct(&mut draws, n, k)
        };
        let ghost fs = random_fields(order, count, state);
        proof {
            let ps = crate::bytes::deep_pairs(pairs@);
            assert(ps.len() == order.len());
            assert forall|i: int| 0 <= i < n implies (#[trigger] pairs@[i]).0@ == order[i]
                && pairs@[i].1@ == h[order[i]] by {
                assert(ps[i] == listing[i]);
            }
            if count < 0 {
                assert forall|i: int| 0 <= i < k implies order[#[trigger] places@[i] as int]
                    == fs[i] by {}
            } else {
                lemma_places(order, places@, k as nat, d0);
                super::sets::lemma_picked(order, k as nat, d0);
                assert forall|i: int| 0 <= i < k implies order[#[trigger] places@[i] as int]
                    == fs[i] by {}
            }
            assert(fs.len() == k);
            assert forall|f: Seq<u8>| fs.to_set().contains(f) implies h.dom().contains(f) by {
                let i = choose|i: int| 0 <= i < fs.len() && fs[i] == f;
                assert(order[places@[i] as int] == f);
                assert(order.to_set().contains(f));
            }
        }
        let mut out: FieldValuePairs = Vec::new();
        while out.len() < k
            invariant
                n == pairs@.len(),
                crate::bytes::deep_pairs(pairs@).len() == order.len(),
                forall|i: int|
                    0 <= i < n ==> (#[trigger] pairs@[i]).0@ == order[i] && pairs@[i].1@
                        == h[order[i]],
                places@.len() == k,
                forall|i: int| 0 <= i < k ==> (#[trigger] places@[i]) < n,
                forall|i: int| 0 <= i < k ==> order[#[trigger] places@[i] as int] == fs[i],
                fs.len() == k,
                out@.len() <= k,
                forall|i: int|
                    0 <= i < out@.len() ==> (#[trigger] out@[i]).0@ == with_values_of(
                        fs,
                        h,
                        with_values,
                    )[i].0 && out@[i].1@ == with_values_of(fs, h, with_values)[i].1,
            decreases k - out@.len(),
        {
            let at: usize = places[out.len()];
            let f = copy_bytes(pairs[at].0.as_slice());
            let v: Vec<u8> = if with_values {
                copy_bytes(pairs[at].1.as_slice())
            } else {
                Vec::new()
            };
            assert(!with_values ==> v@ =~= Seq::empty());
            out.push((f, v));
        }
        assert(crate::bytes::deep_pairs(out@) =~= with_values_of(fs, h, with_values));
        Ok(out)
    }
}

/// That a value's listing is the whole of a hash: every field once, with its
/// value.
pub open spec fn in_full(v: Value, h: Map<Seq<u8>, Seq<u8>>) -> bool {
    &&& v.field_order().no_duplicates()
    &&& v.field_order().to_set() == h.dom()
    &&& v.field_order().len() == h.dom().len()
    &&& v.fields() == h
}

/// The names that pairs give.
fn names_of<'a>(pairs: &[(&'a [u8], &'a [u8])]) -> (r: Vec<&'a [u8]>)
    ensures
        super::lists::referred(r@) == crate::bytes::firsts(referred_pairs(pairs@)),
{
    let mut out: Vec<&'a [u8]> = Vec::new();
    let mut i: usize = 0;
    while i < pairs.len()
        invariant
            i <= pairs@.len(),
            out@.len() == i,
            forall|k: int| 0 <= k < i ==> (#[trigger] out@[k])@ == pairs@[k].0@,
        decreases pairs@.len() - i,
    {
        out.push(pairs[i].0);
        i = i + 1;
    }
    assert(super::lists::referred(out@) =~= crate::bytes::firsts(referred_pairs(pairs@)));
    out
}

/// The places that independent draws pick among `n`.
fn independent(draws: &Vec<u64>, n: usize) -> (r: Vec<usize>)
    requires
        draws@.len() > 0 ==> n > 0,
    ensures
        r@.len() == draws@.len(),
        forall|i: int|
            0 <= i < r@.len() ==> (#[trigger] r@[i]) < n && r@[i] == crate::rng::below_spec(
                draws@[i],
                n as u64,
            ),
{
    let mut out: Vec<usize> = Vec::new();
    let mut i: usize = 0;
    while i < draws.len()
        invariant
            draws@.len() > 0 ==> n > 0,
            i <= draws@.len(),
            out@.len() == i,
            forall|k: int|
                0 <= k < i ==> (#[trigger] out@[k]) < n && out@[k] == crate::rng::below_spec(
                    draws@[k],
                    n as u64,
                ),
        decreases draws@.len() - i,
    {
        out.push(below(draws[i], n as u64) as usize);
        i = i + 1;
    }
    out
}

/// The numbers from 0 up to `n`.
pub open spec fn counted(n: nat) -> Seq<usize> {
    Seq::new(n, |i: int| i as usize)
}

/// `k` different places among `n`, by a partial shuffle.
fn distinct(draws: &mut Vec<u64>, n: usize, k: usize) -> (r: Vec<usize>)
    requires
        k <= n,
        old(draws)@.len() == k,
    ensures
        r@ == super::sets::shuffled(counted(n as nat), k as nat, old(draws)@).take(k as int),
        forall|i: int| 0 <= i < r@.len() ==> (#[trigger] r@[i]) < n,
        r@.len() == k,
{
    let ghost d0 = draws@;
    let mut idx: Vec<usize> = Vec::new();
    while idx.len() < n
        invariant
            idx@.len() <= n,
            idx@ == counted(idx@.len()),
        decreases n - idx@.len(),
    {
        let i: usize = idx.len();
        idx.push(i);
        assert(idx@ =~= counted(i as nat + 1));
    }
    let ghost s0 = idx@;
    let mut i: usize = 0;
    assert(d0.take(d0.len() as int) =~= d0);
    while i < k
        invariant
            i <= k <= n,
            d0.len() == k,
            n == s0.len(),
            idx@.len() == n,
            idx@ == super::sets::shuffled(s0, i as nat, d0),
            forall|j: int| 0 <= j < n ==> (#[trigger] idx@[j]) < n,
            draws@ == d0.take(d0.len() - i),
        decreases k - i,
    {
        let d: u64 = match draws.pop() {
            Some(d) => d,
            None => i as u64,
        };
        assert(d == super::sets::draw_for(d0, i as nat));
        let j: usize = i + below(d, (n - i) as u64) as usize;
        let a: usize = idx[i];
        let b: usize = idx[j];
        let ghost before = idx@;
        idx.set(i, b);
        idx.set(j, a);
        proof {
            assert(idx@ =~= super::sets::swapped(before, i as int, j as int));
            assert(draws@ =~= d0.take(d0.len() - (i + 1)));
        }
        i = i + 1;
    }
    let ghost done = idx@;
    idx.truncate(k);
    assert(idx@ =~= done.take(k as int));
    assert forall|j: int| 0 <= j < idx@.len() implies (#[trigger] idx@[j]) < n by {
        assert(done[j] < n);
    }
    idx
}

/// A shuffle of places picks what the same shuffle of the elements does.
proof fn lemma_places(order: Seq<Seq<u8>>, places: Seq<usize>, k: nat, draws: Seq<u64>)
    requires
        k <= order.len() <= usize::MAX,
        order.len() <= u64::MAX,
        places == super::sets::shuffled(counted(order.len()), k, draws).take(k as int),
    ensures
        forall|i: int|
            0 <= i < k ==> order[#[trigger] places[i] as int] == super::sets::shuffled(
                order,
                k,
                draws,
            ).take(k as int)[i],
{
    lemma_places_all(order, k, draws);
    let s = super::sets::shuffled(counted(order.len()), k, draws);
    assert forall|i: int| 0 <= i < k implies order[#[trigger] places[i] as int]
        == super::sets::shuffled(order, k, draws).take(k as int)[i] by {
        assert(places[i] == s[i]);
    }
}

proof fn lemma_places_all(order: Seq<Seq<u8>>, k: nat, draws: Seq<u64>)
    requires
        k <= order.len() <= usize::MAX,
        order.len() <= u64::MAX,
    ensures
        super::sets::shuffled(counted(order.len()), k, draws).len() == order.len(),
        super::sets::shuffled(order, k, draws).len() == order.len(),
        forall|i: int|
            #![trigger super::sets::shuffled(counted(order.len()), k, draws)[i]]
            0 <= i < order.len() ==> order[super::sets::shuffled(
                counted(order.len()),
                k,
                draws,
            )[i] as int] == super::sets::shuffled(order, k, draws)[i],
    decreases k,
{
    if k > 0 {
        let i = (k - 1) as nat;
        lemma_places_all(order, i, draws);
        crate::rng::lemma_below_range(
            super::sets::draw_for(draws, i),
            (order.len() - i) as u64,
        );
    }
}

/// What was set is what is read, until it is set again or removed; other
/// fields stay as they are.
pub proof fn lemma_hset_hget(h: Map<Seq<u8>, Seq<u8>>, f: Seq<u8>, v: Seq<u8>, g: Seq<u8>)
    ensures
        field_of(overlaid(h, seq![(f, v)]), g) == (if g == f {
            Some(v)
        } else {
            field_of(h, g)
        }),
        field_of(h.remove_keys(set![f]), g) == (if g == f {
            None
        } else {
            field_of(h, g)
        }),
{
    let ps = seq![(f, v)];
    assert(ps.drop_last() =~= Seq::empty());
    assert(ps.last() == (f, v));
    reveal_with_fuel(overlaid, 2);
}

} // verus!
