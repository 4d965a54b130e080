//! Deadlines of single fields of hashes.
use vstd::prelude::*;
use super::Store;
use crate::byte_map::ByteMap;
use crate::bytes::copy_bytes;
use crate::cold::ColdKind;
use crate::types::StoreError;
use crate::value::Value;

verus! {

/// What setting a field's deadline came to: -2 if there is no such field, 0
/// if the condition was not met, 1 if the deadline was set, 2 if it had come
/// already and the field was dropped.
pub type HExpireCode = i8;

/// On what condition a field's deadline is set.
#[derive(Clone, Copy, Debug, PartialEq, Eq, Structural)]
pub enum HExpireCond {
    /// In any case.
    Always,
    /// Only if the field has none.
    Nx,
    /// Only if the field has one.
    Xx,
    /// Only if it is later than the one that the field has.
    Gt,
    /// Only if it is earlier than the one that the field has, or if the
    /// field has none.
    Lt,
}

impl Default for HExpireCond {
    fn default() -> (r: Self)
        ensures
            r == HExpireCond::Always,
    {
        HExpireCond::Always
    }
}

/// The hash under a key, if there is one.
pub open spec fn hash_at(s: super::StoreModel, key: Seq<u8>) -> Result<
    Option<Map<Seq<u8>, Seq<u8>>>,
    StoreError,
> {
    if !s.slots.dom().contains(key) {
        Ok(None)
    } else {
        match s.slots[key].value {
            crate::value::Val::Hash(h) => Ok(Some(h)),
            v => Err(super::refused(v, ColdKind::Hash)),
        }
    }
}

/// A hash in place of the one under a key; an empty one takes the key along.
pub open spec fn refielded(
    s: super::StoreModel,
    key: Seq<u8>,
    h: Map<Seq<u8>, Seq<u8>>,
) -> super::StoreModel {
    if h == Map::<Seq<u8>, Seq<u8>>::empty() {
        super::dropped(s, key)
    } else {
        super::revalued(s, key, crate::value::Val::Hash(h))
    }
}

/// The deadline of a field, in Unix milliseconds.
pub open spec fn field_deadline(s: super::StoreModel, key: Seq<u8>, f: Seq<u8>) -> Option<u64> {
    if s.ttls.dom().contains(key) && s.ttls[key].dom().contains(f) {
        Some(s.ttls[key][f])
    } else {
        None
    }
}

/// The fields of a key whose deadlines have come, wherever its value is.
pub open spec fn fields_past(s: super::StoreModel, key: Seq<u8>) -> Set<Seq<u8>> {
    Set::new(|f: Seq<u8>| field_deadline(s, key, f) matches Some(d) && d <= s.wall)
}

/// Whether a key's value is not in memory.
pub open spec fn cold_at(s: super::StoreModel, key: Seq<u8>) -> bool {
    s.slots.dom().contains(key) && s.slots[key].value is Cold
}

/// The fields of a key that are to be removed because their deadlines have
/// come. Those of a value that is not in memory wait until it is back.
pub open spec fn fields_due(s: super::StoreModel, key: Seq<u8>) -> Set<Seq<u8>> {
    if cold_at(s, key) {
        Set::empty()
    } else {
        fields_past(s, key)
    }
}

/// Deadlines from which those of some fields of a key are struck.
pub open spec fn unttl(
    t: Map<Seq<u8>, Map<Seq<u8>, u64>>,
    key: Seq<u8>,
    fs: Set<Seq<u8>>,
) -> Map<Seq<u8>, Map<Seq<u8>, u64>> {
    if !t.dom().contains(key) {
        t
    } else {
        let m = t[key].remove_keys(fs);
        if m == Map::<Seq<u8>, u64>::empty() {
            t.remove(key)
        } else {
            t.insert(key, m)
        }
    }
}

/// A keyspace that forgot the deadlines of some fields of a key.
pub open spec fn untimed(
    s: super::StoreModel,
    key: Seq<u8>,
    fs: Set<Seq<u8>>,
) -> super::StoreModel {
    super::StoreModel { ttls: unttl(s.ttls, key, fs), ..s }
}

/// A keyspace in which a field has a deadline.
pub open spec fn timed(
    s: super::StoreModel,
    key: Seq<u8>,
    f: Seq<u8>,
    d: u64,
) -> super::StoreModel {
    let m = if s.ttls.dom().contains(key) {
        s.ttls[key]
    } else {
        Map::empty()
    };
    super::StoreModel { ttls: s.ttls.insert(key, m.insert(f, d)), ..s }
}

/// A keyspace after some fields were removed from the hash under a key,
/// which was dropped first if its deadline had come.
pub open spec fn unfielded(
    s: super::StoreModel,
    key: Seq<u8>,
    fs: Set<Seq<u8>>,
) -> super::StoreModel {
    let t = super::reaped(s, key, s.now);
    match hash_at(t, key) {
        Ok(Some(h)) => refielded(t, key, h.remove_keys(fs)),
        _ => t,
    }
}

/// A keyspace in which no deadline of a key's fields has come: those fields
/// were removed.
pub open spec fn purged(s: super::StoreModel, key: Seq<u8>) -> super::StoreModel {
    let due = fields_due(s, key);
    if due == Set::<Seq<u8>>::empty() {
        s
    } else {
        unfielded(untimed(s, key, due), key, due)
    }
}

/// Whether a condition lets a deadline replace another.
pub open spec fn cond_met(cond: HExpireCond, current: Option<u64>, deadline: u64) -> bool {
    match cond {
        HExpireCond::Always => true,
        HExpireCond::Nx => current is None,
        HExpireCond::Xx => current is Some,
        HExpireCond::Gt => current matches Some(c) && deadline > c,
        HExpireCond::Lt => match current {
            Some(c) => deadline < c,
            None => true,
        },
    }
}

/// What setting one field's deadline comes to, and the keyspace afterwards.
pub open spec fn hexpire_step(
    s: super::StoreModel,
    key: Seq<u8>,
    f: Seq<u8>,
    deadline: u64,
    cond: HExpireCond,
) -> (super::StoreModel, i8) {
    let t = super::seen(s, key);
    if !(hash_at(t, key) matches Ok(Some(h)) && h.dom().contains(f)) {
        (t, (-2) as i8)
    } else if !cond_met(cond, field_deadline(t, key, f), deadline) {
        (t, 0)
    } else if deadline <= t.wall {
        (unfielded(untimed(t, key, set![f]), key, set![f]), 2)
    } else {
        (timed(t, key, f, deadline), 1)
    }
}

/// What setting the deadlines of fields one after the other comes to.
pub open spec fn hexpire_steps(
    s: super::StoreModel,
    key: Seq<u8>,
    fs: Seq<Seq<u8>>,
    deadline: u64,
    cond: HExpireCond,
) -> (super::StoreModel, Seq<i8>)
    decreases fs.len(),
{
    if fs.len() == 0 {
        (s, Seq::empty())
    } else {
        let (t, codes) = hexpire_steps(s, key, fs.drop_last(), deadline, cond);
        let (u, code) = hexpire_step(t, key, fs.last(), deadline, cond);
        (u, codes.push(code))
    }
}

/// Milliseconds as far as an `i64` can tell them.
pub open spec fn told_ms(ms: int) -> i64 {
    if ms < 0 {
        0
    } else if ms > i64::MAX {
        i64::MAX
    } else {
        ms as i64
    }
}

/// How long a field still has, in milliseconds: -2 if there is no such
/// field, -1 if it has no deadline.
pub open spec fn hpttl_of(s: super::StoreModel, key: Seq<u8>, f: Seq<u8>) -> i64 {
    if !(hash_at(s, key) matches Ok(Some(h)) && h.dom().contains(f)) {
        (-2) as i64
    } else {
        match field_deadline(s, key, f) {
            Some(d) => told_ms(d - s.wall),
            None => (-1) as i64,
        }
    }
}

/// What forgetting the deadlines of fields one after the other tells: -2 if
/// there is no such field, -1 if it has no deadline, else 1.
pub open spec fn hpersist_code(
    s: super::StoreModel,
    key: Seq<u8>,
    fs: Seq<Seq<u8>>,
    i: int,
) -> i8 {
    if !(hash_at(s, key) matches Ok(Some(h)) && h.dom().contains(fs[i])) {
        (-2) as i8
    } else if field_deadline(s, key, fs[i]) is Some && !fs.take(i).contains(fs[i]) {
        1
    } else {
        (-1) as i8
    }
}

/// The named fields of the hash under a key, if there is one.
pub open spec fn named_fields(s: super::StoreModel, key: Seq<u8>, fs: Set<Seq<u8>>) -> Set<
    Seq<u8>,
> {
    match hash_at(s, key) {
        Ok(Some(h)) => h.dom().intersect(fs),
        _ => Set::empty(),
    }
}

proof fn lemma_unttl_more(
    t: Map<Seq<u8>, Map<Seq<u8>, u64>>,
    key: Seq<u8>,
    fs: Set<Seq<u8>>,
    f: Seq<u8>,
)
    ensures
        unttl(unttl(t, key, fs), key, set![f]) == unttl(t, key, fs.insert(f)),
{
    let e = Map::<Seq<u8>, u64>::empty();
    if t.dom().contains(key) {
        let m = t[key].remove_keys(fs);
        let n = t[key].remove_keys(fs.insert(f));
        assert(m.remove_keys(set![f]) =~= n);
        if m == e {
            assert(n =~= e) by {
                assert forall|k: Seq<u8>| !n.dom().contains(k) by {
                    assert(!m.dom().contains(k));
                }
            }
        }
        assert(unttl(unttl(t, key, fs), key, set![f]) =~= unttl(t, key, fs.insert(f)));
    }
}

/// Striking no field's deadline changes nothing, as long as no key is kept
/// for nothing.
proof fn lemma_unttl_none(t: Map<Seq<u8>, Map<Seq<u8>, u64>>, key: Seq<u8>)
    requires
        t.dom().contains(key) ==> t[key] != Map::<Seq<u8>, u64>::empty(),
    ensures
        unttl(t, key, Set::empty()) == t,
{
    if t.dom().contains(key) {
        assert(t[key].remove_keys(Set::empty()) =~= t[key]);
        assert(t.insert(key, t[key]) =~= t);
    }
}

/// References to byte strings.
pub fn refs(v: &Vec<Vec<u8>>) -> (r: Vec<&[u8]>)
    ensures
        super::lists::referred(r@) == crate::bytes::deep(v@),
{
    let mut out: Vec<&[u8]> = Vec::new();
    let mut i: usize = 0;
    while i < v.len()
        invariant
            i <= v@.len(),
            out@.len() == i,
            forall|k: int| 0 <= k < i ==> (#[trigger] out@[k])@ == v@[k]@,
        decreases v@.len() - i,
    {
        out.push(v[i].as_slice());
        i = i + 1;
    }
    assert(super::lists::referred(out@) =~= crate::bytes::deep(v@));
    out
}

/// Whether `mid` is what a store comes to when the fields of a key whose
/// deadlines have come are removed. The key is not used by that.
pub open spec fn swept(before: Store, mid: Store, key: Seq<u8>) -> bool {
    &&& mid.became(before, purged(before@, key))
    &&& mid.kept_others(before, key)
    &&& mid.unused_at(before, key)
    &&& mid.kept_form(before, key)
    &&& mid@.slots.dom().contains(key) && mid.held(key) is PackedRow ==> before.held(
        key,
    ) is PackedRow
    &&& fields_due(before@, key) == Set::<Seq<u8>>::empty() ==> mid == before
}

/// The steps by which deadlines are set, one field after the other.
pub open spec fn hexpire_path(
    p: super::StoreModel,
    key: Seq<u8>,
    fields: Seq<Seq<u8>>,
    deadline_ms: u64,
    cond: HExpireCond,
) -> Seq<(Seq<u8>, super::StoreModel)>
    decreases fields.len(),
{
    if fields.len() == 0 {
        seq![(key, p)]
    } else {
        hexpire_path(p, key, fields.drop_last(), deadline_ms, cond).push(
            (key, hexpire_steps(p, key, fields, deadline_ms, cond).0),
        )
    }
}

/// The steps by which keys lose the fields whose deadlines have come.
pub open spec fn purge_path(s: super::StoreModel, keys: Seq<Seq<u8>>) -> Seq<
    (Seq<u8>, super::StoreModel),
>
    decreases keys.len(),
{
    if keys.len() == 0 {
        Seq::empty()
    } else {
        purge_path(s, keys.drop_last()).push((keys.last(), all_purged(s, keys)))
    }
}

impl Store {
    /// As [`Store::became`], for a command on a hash: fields whose deadlines
    /// have come go first, so that the memory in use may have been at its
    /// peak once they were gone.
    pub open spec fn came_past(&self, before: Store, key: Seq<u8>, m: super::StoreModel) -> bool {
        &&& self.wf()
        &&& self@ == m
        &&& exists|mid: Store| #[trigger]
            swept(before, mid, key) && self.became(mid, m) && self.kept_others(mid, key)
    }

    /// As [`Store::used_at`], for a command on a hash: what was there is
    /// asked once fields whose deadlines have come are gone.
    pub open spec fn used_past(&self, before: Store, key: Seq<u8>) -> bool {
        self.used_when(before, purged(before@, key), key)
    }

    /// The deadlines of no key are kept for nothing.
    proof fn lemma_ttls(&self, key: Seq<u8>)
        requires
            self.wf(),
        ensures
            self@.ttls.dom().contains(key) ==> self@.ttls[key] != Map::<Seq<u8>, u64>::empty(),
            self@.ttls.dom() == self.hfttl@.dom(),
    {
        if self@.ttls.dom().contains(key) {
            assert(self.hfttl@.dom().contains(key));
        }
        assert(self@.ttls.dom() =~= self.hfttl@.dom());
    }

    /// The deadline of a field.
    fn deadline_of_field(&self, key: &[u8], field: &[u8]) -> (r: Option<u64>)
        requires
            self.wf(),
        ensures
            r == field_deadline(self@, key@, field@),
    {
        match self.hfttl.get(key) {
            None => None,
            Some(m) => {
                assert(self.hfttl@.dom().contains(key@));
                match m.get(field) {
                    None => None,
                    Some(d) => Some(*d),
                }
            },
        }
    }

    /// Gives a field a deadline, in Unix milliseconds, whether it is there
    /// or not.
    pub fn load_hash_field_ttl(&mut self, key: &[u8], field: &[u8], deadline_ms: u64)
        requires
            old(self).wf(),
        ensures
            final(self).became(*old(self), timed(old(self)@, key@, field@, deadline_ms)),
            final(self).used() == old(self).used(),
            final(self).kept_all(*old(self)),
            final(self).kept_others(*old(self), key@),
    {
        let ghost before = self@;
        let ghost h0 = self.hfttl@;
        let mut m = match self.hfttl.remove(key) {
            Some(m) => m,
            None => ByteMap::new(),
        };
        let ghost m0 = m@;
        proof {
            if h0.dom().contains(key@) {
                assert(h0[key@].wf());
            }
        }
        m.insert(copy_bytes(field), deadline_ms);
        let ghost m1 = m@;
        self.hfttl.insert(copy_bytes(key), m);
        proof {
            assert(m1.dom().contains(field@));
            assert forall|k: Seq<u8>| #[trigger] self.hfttl@.dom().contains(k) implies self.hfttl@[k].wf()
                && self.hfttl@[k]@ != Map::<Seq<u8>, u64>::empty() by {
                if k != key@ {
                    assert(h0.dom().contains(k));
                }
            }
            assert(self@.ttls =~= timed(before, key@, field@, deadline_ms).ttls);
        }
    }

    /// Forgets the deadline of one field.
    fn drop_field_ttl(&mut self, key: &[u8], field: &[u8])
        requires
            old(self).wf(),
        ensures
            final(self).became(*old(self), untimed(old(self)@, key@, set![field@])),
            final(self).used() == old(self).used(),
            final(self).kept_all(*old(self)),
            final(self).kept_others(*old(self), key@),
    {
        let ghost before = self@;
        let ghost h0 = self.hfttl@;
        match self.hfttl.remove(key) {
            None => {
                assert(self.hfttl@ =~= h0);
            },
            Some(m) => {
                assert(h0[key@].wf());
                let mut m = m;
                let ghost m0 = m@;
                m.remove(field);
                assert(m@ =~= m0.remove_keys(set![field@]));
                if !m.is_empty() {
                    self.hfttl.insert(copy_bytes(key), m);
                }
                proof {
                    assert forall|k: Seq<u8>| #[trigger] self.hfttl@.dom().contains(k) implies self.hfttl@[k].wf()
                        && self.hfttl@[k]@ != Map::<Seq<u8>, u64>::empty() by {
                        if k != key@ {
                            assert(h0.dom().contains(k));
                        }
                    }
                    assert(self@.ttls =~= unttl(before.ttls, key@, set![field@]));
                }
            },
        }
    }

    /// Forgets the deadlines of fields.
    pub fn clear_hash_field_ttls(&mut self, key: &[u8], fields: &[&[u8]])
        requires
            old(self).wf(),
        ensures
            final(self).became(
                *old(self),
                untimed(old(self)@, key@, super::lists::referred(fields@).to_set()),
            ),
            final(self).used() == old(self).used(),
            final(self).kept_all(*old(self)),
            final(self).kept_others(*old(self), key@),
    {
        let ghost s = *self;
        let ghost all = super::lists::referred(fields@);
        let n: usize = fields.len();
        let mut i: usize = 0;
        proof {
            self.lemma_ttls(key@);
            assert(all.take(0).to_set() =~= Set::empty());
            lemma_unttl_none(s@.ttls, key@);
        }
        while i < n
            invariant
                n == fields@.len(),
                all == super::lists::referred(fields@),
                i <= n,
                s.wf(),
                self.used() == s.used(),
                self.became(s, untimed(s@, key@, all.take(i as int).to_set())),
                self.kept_all(s),
            decreases n - i,
        {
            proof {
                crate::value_set::lemma_take_set(all, i as int);
                lemma_unttl_more(s@.ttls, key@, all.take(i as int).to_set(), all[i as int]);
            }
            self.drop_field_ttl(key, fields[i]);
            i = i + 1;
        }
        assert(all.take(n as int) =~= all);
    }

    /// Whether a key's value is not in memory.
    pub fn is_cold(&self, key: &[u8]) -> (r: bool)
        requires
            self.wf(),
        ensures
            r == cold_at(self@, key@),
    {
        match self.value_ref(key) {
            Some(Value::Cold(_)) => true,
            _ => false,
        }
    }

    /// The fields of a key that are to be removed because their deadlines
    /// have come.
    fn due_fields(&self, key: &[u8]) -> (r: Vec<Vec<u8>>)
        requires
            self.wf(),
        ensures
            crate::bytes::deep(r@).no_duplicates(),
            crate::bytes::deep(r@).to_set() == fields_due(self@, key@),
            r@.len() == 0 <==> fields_due(self@, key@) == Set::<Seq<u8>>::empty(),
    {
        if self.is_cold(key) {
            let none: Vec<Vec<u8>> = Vec::new();
            assert(crate::bytes::deep(none@).to_set() =~= Set::empty());
            none
        } else {
            self.past_fields(key)
        }
    }

    /// Whether a deadline of a key's fields has come.
    pub fn has_past_fields(&self, key: &[u8]) -> (r: bool)
        requires
            self.wf(),
        ensures
            r == (fields_past(self@, key@) != Set::<Seq<u8>>::empty()),
    {
        self.past_fields(key).len() > 0
    }

    /// The fields of a key whose deadlines have come.
    fn past_fields(&self, key: &[u8]) -> (r: Vec<Vec<u8>>)
        requires
            self.wf(),
        ensures
            crate::bytes::deep(r@).no_duplicates(),
            crate::bytes::deep(r@).to_set() == fields_past(self@, key@),
            r@.len() == 0 <==> fields_past(self@, key@) == Set::<Seq<u8>>::empty(),
    {
        let mut out: Vec<Vec<u8>> = Vec::new();
        let ghost due = fields_past(self@, key@);
        match self.hfttl.get(key) {
            None => {
                assert(crate::bytes::deep(out@).to_set() =~= due);
                assert(due =~= Set::empty());
                out
            },
            Some(m) => {
                assert(self.hfttl@.dom().contains(key@));
                let names = m.keys();
                let ghost q = m.key_order();
                proof {
                    m.lemma_key_order();
                    assert(self@.ttls[key@] == m@);
                }
                let mut i: usize = 0;
                while i < names.len()
                    invariant
                        m.wf(),
                        q == m.key_order(),
                        q.no_duplicates(),
                        q.to_set() == m@.dom(),
                        crate::bytes::deep(names@) == q,
                        i <= names@.len(),
                        crate::bytes::deep(out@).no_duplicates(),
                        forall|f: Seq<u8>| #[trigger]
                            crate::bytes::deep(out@).contains(f) <==> q.take(i as int).contains(f)
                                && m@[f] <= self@.wall,
                    decreases names@.len() - i,
                {
                    let ghost before = crate::bytes::deep(out@);
                    assert(q[i as int] == names@[i as int]@);
                    assert(q.to_set().contains(q[i as int]));
                    let ghost f = q[i as int];
                    assert(!q.take(i as int).contains(f)) by {
                        if q.take(i as int).contains(f) {
                            let j = choose|j: int| 0 <= j < i && q.take(i as int)[j] == f;
                            assert(q[j] == f);
                        }
                    }
                    assert(q.take(i + 1) =~= q.take(i as int).push(f));
                    match m.get(names[i].as_slice()) {
                        Some(d) => {
                            if *d <= self.wall_ms {
                                out.push(copy_bytes(names[i].as_slice()));
                                proof {
                                    assert(crate::bytes::deep(out@) =~= before.push(f));
                                    assert(!before.contains(f));
                                    assert forall|a: int, b: int|
                                        0 <= a < b < before.push(f).len() implies before.push(f)[a]
                                        != before.push(f)[b] by {
                                        assert(before.contains(before[a]));
                                    }
                                }
                            }
                        },
                        None => {
                            assert(false);
                        },
                    }
                    proof {
                        let now = crate::bytes::deep(out@);
                        assert forall|g: Seq<u8>| #[trigger] now.contains(g) <==> q.take(
                            i + 1,
                        ).contains(g) && m@[g] <= self@.wall by {
                            crate::value_set::lemma_push_contains(q.take(i as int), f, g);
                            crate::value_set::lemma_push_contains(before, f, g);
                            assert(before.contains(g) <==> q.take(i as int).contains(g) && m@[g]
                                <= self@.wall);
                        }
                    }
                    i = i + 1;
                }
                proof {
                    assert(q.take(q.len() as int) =~= q);
                    let d = crate::bytes::deep(out@);
                    assert forall|f: Seq<u8>| #[trigger] d.to_set().contains(f) == due.contains(
                        f,
                    ) by {
                        assert(d.contains(f) <==> q.contains(f) && m@[f] <= self@.wall);
                        assert(q.contains(f) == q.to_set().contains(f));
                    }
                    assert(d.to_set() =~= due);
                    if out@.len() > 0 {
                        assert(d.to_set().contains(d[0]));
                    } else {
                        assert(due =~= Set::empty());
                    }
                }
                out
            },
        }
    }

    /// Removes fields from the hash under a key, which is dropped first if
    /// its deadline has come by the fresh clock.
    pub fn delete_fields(&mut self, key: &[u8], fields: &[&[u8]]) -> (r: Result<usize, StoreError>)
        requires
            old(self).wf(),
        ensures
            final(self).became(
                *old(self),
                unfielded(old(self)@, key@, super::lists::referred(fields@).to_set()),
            ),
            match hash_at(super::reaped(old(self)@, key@, old(self)@.now), key@) {
                Err(e) => r == Err::<usize, StoreError>(e),
                Ok(None) => r == Ok::<usize, StoreError>(0),
                Ok(Some(h)) => r matches Ok(n) && n == h.dom().len() - h.remove_keys(
                    super::lists::referred(fields@).to_set(),
                ).dom().len(),
            },
            final(self).kept_others(*old(self), key@),
            final(self).kept_form(*old(self), key@),
            final(self)@.slots.dom().contains(key@) && final(self).held(key@) is PackedRow ==> old(
                self,
            ).held(key@) is PackedRow,
            final(self).unused_at(*old(self), key@),
    {
        let now: u64 = self.now_ns();
        if !self.reap(key, now) {
            return Ok(0);
        }
        let ghost t = self@;
        let fits: bool = match self.value_ref(key) {
            Some(v) => v.is_hash(),
            None => false,
        };
        if !fits {
            return Err(self.refusal(key, ColdKind::Hash));
        }
        let n: usize = fields.len();
        let mut v = self.lend(key);
        let ghost v0 = v;
        let ghost h0 = v.fields();
        let ghost all = super::lists::referred(fields@);
        let mut gone: usize = 0;
        let mut i: usize = 0;
        v.hash_len();
        proof {
            assert(all.take(0).to_set() =~= Set::<Seq<u8>>::empty());
            assert(h0.remove_keys(all.take(0).to_set()) =~= h0);
        }
        while i < n
            invariant
                n == fields@.len(),
                all == super::lists::referred(fields@),
                i <= n,
                gone <= i,
                v.wf(),
                v@ is Hash,
                v.fields().dom().finite(),
                v.fields() == h0.remove_keys(all.take(i as int).to_set()),
                v is SegHash <==> v0 is SegHash,
                v is PackedRow ==> v0 is PackedRow,
                gone + v.fields().dom().len() == h0.dom().len(),
            decreases n - i,
        {
            let ghost before = v.fields();
            if v.hash_remove(fields[i]) {
                gone = gone + 1;
            }
            proof {
                crate::value_set::lemma_take_set(all, i as int);
                assert(v.fields() =~= h0.remove_keys(all.take(i + 1).to_set()));
                assert(v.fields().dom() =~= before.dom().remove(all[i as int]));
            }
            i = i + 1;
        }
        proof {
            assert(all.take(n as int) =~= all);
            super::lists::lemma_revalue_twice(
                t,
                key@,
                crate::value::Val::Str(crate::text::decimal(0)),
                v@,
            );
        }
        self.restore_hash(key, v);
        Ok(gone)
    }

    /// Puts a hash that was lent back, or drops the key if it is empty.
    fn restore_hash(&mut self, key: &[u8], v: Value)
        requires
            old(self).wf(),
            old(self)@.slots.dom().contains(key@),
            v.wf(),
            v@ is Hash,
        ensures
            final(self).became(*old(self), refielded(old(self)@, key@, v.fields())),
            final(self).use_clock() == old(self).use_clock(),
            final(self)@.slots.dom().contains(key@) ==> final(self).held(key@) == v
                && final(self).mark(key@) == old(self).mark(key@),
            final(self).kept_others(*old(self), key@),
    {
        if v.hash_is_empty() {
            self.remove_entry(key);
        } else {
            self.restore(key, v);
        }
    }

    /// Removes the fields of a key whose deadlines have come. Every command
    /// on a hash starts with this.
    pub fn purge_hash_ttl(&mut self, key: &[u8])
        requires
            old(self).wf(),
        ensures
            swept(*old(self), *final(self), key@),
    {
        self.sweep(key);
    }

    /// Removes the fields of a key whose deadlines have come, and gives
    /// them.
    fn sweep(&mut self, key: &[u8]) -> (r: Vec<Vec<u8>>)
        requires
            old(self).wf(),
        ensures
            swept(*old(self), *final(self), key@),
            crate::bytes::deep(r@).no_duplicates(),
            crate::bytes::deep(r@).to_set() == fields_due(old(self)@, key@),
    {
        let due = self.due_fields(key);
        if due.len() > 0 {
            let names = refs(&due);
            self.clear_hash_field_ttls(key, names.as_slice());
            let _ = self.delete_fields(key, names.as_slice());
        }
        due
    }

    /// Sets the deadlines of fields of the hash under a key, in Unix
    /// milliseconds. Gives one code for each.
    pub fn hexpire_at(
        &mut self,
        key: &[u8],
        fields: &[&[u8]],
        deadline_ms: u64,
        cond: HExpireCond,
    ) -> (r: Result<Vec<HExpireCode>, StoreError>)
        requires
            old(self).wf(),
        ensures
            hexpire_told(
                old(self)@,
                key@,
                super::lists::referred(fields@),
                deadline_ms,
                cond,
                r,
            ),
            final(self)@ == (if r is Err {
                super::seen(purged(old(self)@, key@), key@)
            } else {
                hexpire_steps(
                    purged(old(self)@, key@),
                    key@,
                    super::lists::referred(fields@),
                    deadline_ms,
                    cond,
                ).0
            }),
            final(self).came_by(
                *old(self),
                if r is Err {
                    seq![
                        (key@, purged(old(self)@, key@)),
                        (key@, super::seen(purged(old(self)@, key@), key@)),
                    ]
                } else {
                    hexpire_path(
                        purged(old(self)@, key@),
                        key@,
                        super::lists::referred(fields@),
                        deadline_ms,
                        cond,
                    )
                },
            ),
            final(self).kept_others(*old(self), key@),
    {
        self.purge_hash_ttl(key);
        let ghost p = *self;
        let ghost mut path: Seq<(Seq<u8>, super::StoreModel)> = seq![(key@, p@)];
        proof {
            assert(swept(*old(self), *self, key@));
            old(self).lemma_no_step();
            self.lemma_step(*old(self), *old(self), Seq::empty(), key@, p@);
        }
        let ghost all = super::lists::referred(fields@);
        let n: usize = fields.len();
        let mut codes: Vec<HExpireCode> = Vec::new();
        let mut i: usize = 0;
        proof {
            assert(all.take(0) =~= Seq::empty());
            assert(codes@ =~= Seq::empty());
            assert(path =~= hexpire_path(p@, key@, all.take(0), deadline_ms, cond));
        }
        while i < n
            invariant
                n == fields@.len(),
                all == super::lists::referred(fields@),
                i <= n,
                self.wf(),
                self.came_by(*old(self), path),
                path == hexpire_path(p@, key@, all.take(i as int), deadline_ms, cond),
                p.wf(),
                self@ == hexpire_steps(p@, key@, all.take(i as int), deadline_ms, cond).0,
                codes@ == hexpire_steps(p@, key@, all.take(i as int), deadline_ms, cond).1,
                self.kept_others(*old(self), key@),
                p@ == purged(old(self)@, key@),
                i > 0 ==> !(hash_at(super::seen(p@, key@), key@) is Err),
                i > 0 ==> !(hash_at(self@, key@) is Err),
            decreases n - i,
        {
            let ghost s = self@;
            let ghost at = *self;
            let f = fields[i];
            proof {
                assert(all.take(i + 1).drop_last() =~= all.take(i as int));
                assert(all.take(i + 1).last() == f@);
                assert(i == 0 ==> all.take(0) =~= Seq::empty());
            }
            let found: bool = if self.live(key) {
                match self.value_ref(key) {
                    Some(v) => if v.is_hash() {
                        v.hash_get(f).is_some()
                    } else {
                        proof {
                            assert(i == 0);
                            assert(path =~= seq![(key@, p@)]);
                            self.lemma_step(at, *old(self), path, key@, self@);
                            assert(path.push((key@, self@)) =~= seq![
                                (key@, purged(old(self)@, key@)),
                                (key@, super::seen(purged(old(self)@, key@), key@)),
                            ]);
                        }
                        return Err(self.refusal(key, ColdKind::Hash));
                    },
                    None => false,
                }
            } else {
                false
            };
            let code: HExpireCode = if !found {
                -2
            } else {
                let current: Option<u64> = self.deadline_of_field(key, f);
                let met: bool = match cond {
                    HExpireCond::Always => true,
                    HExpireCond::Nx => current.is_none(),
                    HExpireCond::Xx => current.is_some(),
                    HExpireCond::Gt => match current {
                        Some(c) => deadline_ms > c,
                        None => false,
                    },
                    HExpireCond::Lt => match current {
                        Some(c) => deadline_ms < c,
                        None => true,
                    },
                };
                if !met {
                    0
                } else if deadline_ms <= self.wall_ms {
                    self.drop_field_ttl(key, f);
                    {
                        let one = [f];
                        assert(super::lists::referred(one@) =~= seq![f@]);
                        assert(seq![f@].to_set() =~= set![f@]) by {
                            assert(seq![f@][0] == f@);
                        }
                        let _ = self.delete_fields(key, &one);
                    }
                    2
                } else {
                    self.load_hash_field_ttl(key, f, deadline_ms);
                    1
                }
            };
            codes.push(code);
            proof {
                self.lemma_step(at, *old(self), path, key@, self@);
                path = path.push((key@, self@));
            }
            i = i + 1;
        }
        assert(all.take(n as int) =~= all);
        Ok(codes)
    }

    /// How long fields of the hash under a key still have.
    pub fn hpttl(&mut self, key: &[u8], fields: &[&[u8]]) -> (r: Result<Vec<i64>, StoreError>)
        requires
            old(self).wf(),
        ensures
            ({
                let p = purged(old(self)@, key@);
                let t = if fields@.len() == 0 {
                    p
                } else {
                    super::seen(p, key@)
                };
                &&& final(self).came_past(*old(self), key@, t)
                &&& r is Err <==> fields@.len() > 0 && hash_at(t, key@) is Err
                &&& r matches Err(e) ==> hash_at(t, key@) == Err::<
                    Option<Map<Seq<u8>, Seq<u8>>>,
                    StoreError,
                >(e)
                &&& r matches Ok(v) ==> v@ == Seq::new(
                    fields@.len(),
                    |i: int| hpttl_of(t, key@, fields@[i]@),
                )
            }),
            final(self).kept_others(*old(self), key@),
            fields@.len() > 0 && r is Ok ==> final(self).used_times(
                *old(self),
                purged(old(self)@, key@),
                key@,
                fields@.len(),
                0,
            ),
            fields@.len() > 0 && r is Err ==> final(self).used_past(*old(self), key@),
            fields@.len() == 0 ==> final(self).unused_at(*old(self), key@),
    {
        self.purge_hash_ttl(key);
        assert(swept(*old(self), *self, key@));
        let n: usize = fields.len();
        let mut out: Vec<i64> = Vec::new();
        if n == 0 {
            assert(out@ =~= Seq::new(0, |i: int| hpttl_of(self@, key@, fields@[i]@)));
            return Ok(out);
        }
        let there: bool = self.find(key);
        if there {
            let fits: bool = match self.value_ref(key) {
                Some(v) => v.is_hash(),
                None => false,
            };
            if !fits {
                self.live(key);
                return Err(self.refusal(key, ColdKind::Hash));
            }
            self.use_times(key, n as u128);
        }
        let mut i: usize = 0;
        while i < n
            invariant
                n == fields@.len(),
                i <= n,
                self.wf(),
                there == self@.slots.dom().contains(key@),
                there ==> self@.slots[key@].value is Hash,
                out@.len() == i,
                forall|k: int|
                    0 <= k < i ==> #[trigger] out@[k] == hpttl_of(self@, key@, fields@[k]@),
            decreases n - i,
        {
            let f = fields[i];
            let found: bool = match self.value_ref(key) {
                Some(v) => v.hash_get(f).is_some(),
                None => false,
            };
            let left: i64 = if !found {
                -2
            } else {
                match self.deadline_of_field(key, f) {
                    None => -1,
                    Some(d) => if d <= self.wall_ms {
                        0
                    } else if d - self.wall_ms > i64::MAX as u64 {
                        i64::MAX
                    } else {
                        (d - self.wall_ms) as i64
                    },
                }
            };
            out.push(left);
            i = i + 1;
        }
        assert(out@ =~= Seq::new(n as nat, |i: int| hpttl_of(self@, key@, fields@[i]@)));
        Ok(out)
    }

    /// Forgets the deadlines of fields of the hash under a key. Gives one
    /// code for each.
    pub fn hpersist(&mut self, key: &[u8], fields: &[&[u8]]) -> (r: Result<
        Vec<HExpireCode>,
        StoreError,
    >)
        requires
            old(self).wf(),
        ensures
            ({
                let p = purged(old(self)@, key@);
                let fs = super::lists::referred(fields@);
                let t = if fields@.len() == 0 {
                    p
                } else {
                    super::seen(p, key@)
                };
                &&& r is Err <==> fields@.len() > 0 && hash_at(t, key@) is Err
                &&& r matches Err(e) ==> hash_at(t, key@) == Err::<
                    Option<Map<Seq<u8>, Seq<u8>>>,
                    StoreError,
                >(e)
                &&& r matches Ok(v) ==> v@ == Seq::new(
                    fields@.len(),
                    |i: int| hpersist_code(t, key@, fs, i),
                )
                &&& final(self).came_past(
                    *old(self), key@,
                    untimed(t, key@, named_fields(t, key@, fs.to_set())),
                )
            }),
            final(self).kept_others(*old(self), key@),
            fields@.len() > 0 && r is Ok ==> final(self).used_times(
                *old(self),
                purged(old(self)@, key@),
                key@,
                fields@.len(),
                0,
            ),
            fields@.len() > 0 && r is Err ==> final(self).used_past(*old(self), key@),
            fields@.len() == 0 ==> final(self).unused_at(*old(self), key@),
    {
        self.purge_hash_ttl(key);
        assert(swept(*old(self), *self, key@));
        let n: usize = fields.len();
        let mut out: Vec<HExpireCode> = Vec::new();
        let ghost fs = super::lists::referred(fields@);
        if n == 0 {
            proof {
                self.lemma_ttls(key@);
                assert(fs.to_set() =~= Set::empty());
                assert(named_fields(self@, key@, fs.to_set()) =~= Set::empty());
                lemma_unttl_none(self@.ttls, key@);
                assert(out@ =~= Seq::new(0, |i: int| hpersist_code(self@, key@, fs, i)));
            }
            return Ok(out);
        }
        let there: bool = self.find(key);
        proof {
            self.lemma_ttls(key@);
            lemma_unttl_none(self@.ttls, key@);
        }
        if there {
            let fits: bool = match self.value_ref(key) {
                Some(v) => v.is_hash(),
                None => false,
            };
            if !fits {
                self.live(key);
                return Err(self.refusal(key, ColdKind::Hash));
            }
            self.use_times(key, n as u128);
        }
        let ghost t = *self;
        let mut i: usize = 0;
        proof {
            assert(fs.take(0).to_set() =~= Set::empty());
            assert(named_fields(t@, key@, fs.take(0).to_set()) =~= Set::empty());
        }
        while i < n
            invariant
                n == fields@.len(),
                fs == super::lists::referred(fields@),
                i <= n,
                t.wf(),
                there == t@.slots.dom().contains(key@),
                there ==> t@.slots[key@].value is Hash,
                self.used() == t.used(),
                self.kept_all(t),
                self.kept_others(*old(self), key@),
                self.became(
                    t,
                    untimed(t@, key@, named_fields(t@, key@, fs.take(i as int).to_set())),
                ),
                out@.len() == i,
                forall|k: int|
                    0 <= k < i ==> #[trigger] out@[k] == hpersist_code(t@, key@, fs, k),
            decreases n - i,
        {
            let f = fields[i];
            let ghost names = fs.take(i as int).to_set();
            let ghost gone = named_fields(t@, key@, names);
            proof {
                crate::value_set::lemma_take_set(fs, i as int);
                assert(fs[i as int] == f@);
                assert(fs.take(i as int).contains(f@) == names.contains(f@));
            }
            let found: bool = match self.value_ref(key) {
                Some(v) => v.hash_get(f).is_some(),
                None => false,
            };
            let code: HExpireCode = if !found {
                proof {
                    assert(named_fields(t@, key@, names.insert(f@)) =~= gone);
                }
                -2
            } else {
                let timed_field: bool = self.deadline_of_field(key, f).is_some();
                proof {
                    lemma_unttl_more(t@.ttls, key@, gone, f@);
                    assert(named_fields(t@, key@, names.insert(f@)) =~= gone.insert(f@));
                    lemma_struck(t@, key@, gone, f@);
                }
                self.drop_field_ttl(key, f);
                if timed_field {
                    1
                } else {
                    -1
                }
            };
            out.push(code);
            i = i + 1;
        }
        proof {
            assert(fs.take(n as int) =~= fs);
            assert(out@ =~= Seq::new(n as nat, |i: int| hpersist_code(t@, key@, fs, i)));
        }
        Ok(out)
    }

    /// The keys that have fields with deadlines, in walking order.
    pub closed spec fn timed_keys(&self) -> Seq<Seq<u8>> {
        self.hfttl.key_order()
    }

    /// Removes the fields whose deadlines have come from up to `max_keys`
    /// keys that have such fields. Gives those keys and the fields.
    pub fn tick_hash_ttl(&mut self, max_keys: usize) -> (r: Vec<(Vec<u8>, Vec<Vec<u8>>)>)
        requires
            old(self).wf(),
        ensures
            swept_keys(r@) == due_keys(old(self)@, old(self).timed_keys(), max_keys as nat),
            forall|i: int|
                #![trigger r@[i]]
                0 <= i < r@.len() ==> crate::bytes::deep(r@[i].1@).no_duplicates()
                    && crate::bytes::deep(r@[i].1@).to_set() == fields_due(old(self)@, r@[i].0@),
            final(self).wf(),
            final(self)@ == all_purged(old(self)@, swept_keys(r@)),
            final(self).came_by(*old(self), purge_path(old(self)@, swept_keys(r@))),
            final(self).use_clock() == old(self).use_clock(),
    {
        let names = self.hfttl.keys();
        let ghost q = self.timed_keys();
        let ghost s = *self;
        proof {
            self.hfttl.lemma_key_order();
        }
        let mut out: Vec<(Vec<u8>, Vec<Vec<u8>>)> = Vec::new();
        let mut i: usize = 0;
        proof {
            assert(swept_keys(out@) =~= Seq::empty());
            assert(q.take(0) =~= Seq::empty());
            self.lemma_no_step();
        }
        while i < names.len() && out.len() < max_keys
            invariant
                crate::bytes::deep(names@) == q,
                q.no_duplicates(),
                i <= names@.len(),
                out@.len() <= max_keys,
                swept_keys(out@) == all_due(s@, q.take(i as int)),
                self.wf(),
                self@ == all_purged(s@, swept_keys(out@)),
                self.came_by(s, purge_path(s@, swept_keys(out@))),
                self.use_clock() == s.use_clock(),
                forall|k: Seq<u8>|
                    #![trigger fields_due(self@, k)]
                    !q.take(i as int).contains(k) ==> fields_due(self@, k) == fields_due(s@, k),
                forall|j: int|
                    #![trigger out@[j]]
                    0 <= j < out@.len() ==> crate::bytes::deep(out@[j].1@).no_duplicates()
                        && crate::bytes::deep(out@[j].1@).to_set() == fields_due(s@, out@[j].0@),
            decreases names@.len() - i,
        {
            let ghost k = names@[i as int]@;
            let ghost at = *self;
            let ghost before = self@;
            let ghost keys0 = swept_keys(out@);
            proof {
                assert(q[i as int] == k);
                assert(!q.take(i as int).contains(k)) by {
                    if q.take(i as int).contains(k) {
                        let j = choose|j: int| 0 <= j < i && q.take(i as int)[j] == k;
                        assert(q[j] == k);
                    }
                }
                assert(q.take(i + 1) =~= q.take(i as int).push(k));
                assert(q.take(i + 1).drop_last() =~= q.take(i as int));
                assert(fields_due(self@, k) == fields_due(s@, k));
            }
            let due = self.sweep(names[i].as_slice());
            let ghost d = crate::bytes::deep(due@);
            proof {
                lemma_purge_others(before, k);
                if due@.len() > 0 {
                    assert(d.to_set().contains(d[0]));
                } else {
                    assert(d.to_set() =~= Set::<Seq<u8>>::empty());
                }
            }
            if due.len() > 0 {
                out.push((copy_bytes(names[i].as_slice()), due));
                proof {
                    assert(swept_keys(out@) =~= keys0.push(k));
                    assert(keys0.push(k).drop_last() =~= keys0);
                    self.lemma_step(at, s, purge_path(s@, keys0), k, self@);
                }
            }
            proof {
                assert forall|m: Seq<u8>|
                    #![trigger fields_due(self@, m)]
                    !q.take(i + 1).contains(m) implies fields_due(self@, m) == fields_due(s@, m) by {
                    crate::value_set::lemma_push_contains(q.take(i as int), k, m);
                    assert(fields_due(before, m) == fields_due(s@, m));
                }
            }
            i = i + 1;
        }
        proof {
            lemma_all_due(s@, q, i as int);
            assert(q.len() == names@.len());
            if i == q.len() {
                assert(q.take(i as int) =~= q);
            }
            let full = all_due(s@, q);
            let part = all_due(s@, q.take(i as int));
            assert(swept_keys(out@).len() == out@.len());
            assert(part =~= full.take(super::lists::lesser(max_keys as nat, full.len()) as int));
        }
        out
    }

    /// The deadlines of all fields: key, field and deadline.
    pub fn hash_ttl_each(&self) -> (r: Vec<(Vec<u8>, Vec<u8>, u64)>)
        requires
            self.wf(),
        ensures
            forall|i: int|
                0 <= i < r@.len() ==> field_deadline(self@, (#[trigger] r@[i]).0@, r@[i].1@)
                    == Some(r@[i].2),
            forall|k: Seq<u8>, f: Seq<u8>|
                #![trigger field_deadline(self@, k, f)]
                field_deadline(self@, k, f) is Some ==> exists|i: int|
                    0 <= i < r@.len() && (#[trigger] r@[i]).0@ == k && r@[i].1@ == f,
            forall|i: int, j: int|
                0 <= i < j < r@.len() ==> (#[trigger] r@[i]).0@ != (#[trigger] r@[j]).0@ || r@[i].1@
                    != r@[j].1@,
    {
        let names = self.hfttl.keys();
        let ghost q = self.hfttl.key_order();
        proof {
            self.hfttl.lemma_key_order();
        }
        let mut out: Vec<(Vec<u8>, Vec<u8>, u64)> = Vec::new();
        let mut i: usize = 0;
        while i < names.len()
            invariant
                self.wf(),
                q == self.hfttl.key_order(),
                q.no_duplicates(),
                q.to_set() == self.hfttl@.dom(),
                crate::bytes::deep(names@) == q,
                i <= names@.len(),
                listed(self@, out@, q.take(i as int), Seq::empty(), Seq::empty()),
            decreases names@.len() - i,
        {
            let ghost k = q[i as int];
            assert(k == names@[i as int]@);
            assert(q.to_set().contains(k));
            let ghost done = q.take(i as int);
            assert(!done.contains(k)) by {
                if done.contains(k) {
                    let j = choose|j: int| 0 <= j < i && done[j] == k;
                    assert(q[j] == k);
                }
            }
            match self.hfttl.get(names[i].as_slice()) {
                None => {
                    assert(false);
                },
                Some(m) => {
                    assert(self@.ttls[k] == m@);
                    let fields = m.keys();
                    let ghost w = m.key_order();
                    proof {
                        m.lemma_key_order();
                        assert(w.take(0) =~= Seq::empty());
                        assert(listed(self@, out@, done, k, w.take(0)));
                    }
                    let mut j: usize = 0;
                    while j < fields.len()
                        invariant
                            m.wf(),
                            self@.ttls.dom().contains(k),
                            self@.ttls[k] == m@,
                            k == names@[i as int]@,
                            i < names@.len(),
                            w == m.key_order(),
                            w.no_duplicates(),
                            w.to_set() == m@.dom(),
                            crate::bytes::deep(fields@) == w,
                            j <= fields@.len(),
                            !done.contains(k),
                            listed(self@, out@, done, k, w.take(j as int)),
                        decreases fields@.len() - j,
                    {
                        let ghost f = w[j as int];
                        assert(f == fields@[j as int]@);
                        assert(w.to_set().contains(f));
                        let ghost before = out@;
                        match m.get(fields[j].as_slice()) {
                            None => {
                                assert(false);
                            },
                            Some(d) => {
                                let ghost dv = *d;
                                out.push(
                                    (
                                        copy_bytes(names[i].as_slice()),
                                        copy_bytes(fields[j].as_slice()),
                                        *d,
                                    ),
                                );
                                proof {
                                    assert(!w.take(j as int).contains(f)) by {
                                        if w.take(j as int).contains(f) {
                                            let a = choose|a: int|
                                                0 <= a < j && w.take(j as int)[a] == f;
                                            assert(w[a] == f);
                                        }
                                    }
                                    assert(w.take(j + 1) =~= w.take(j as int).push(f));
                                    assert(out@.drop_last() =~= before);
                                    lemma_listed_more(
                                        self@,
                                        before,
                                        out@,
                                        done,
                                        k,
                                        w.take(j as int),
                                        f,
                                    );
                                }
                            },
                        }
                        j = j + 1;
                    }
                    proof {
                        assert(w.take(w.len() as int) =~= w);
                        assert(q.take(i + 1) =~= done.push(k));
                        lemma_listed_key(self@, out@, done, k, w);
                    }
                },
            }
            i = i + 1;
        }
        proof {
            assert(q.take(q.len() as int) =~= q);
            assert forall|k: Seq<u8>, f: Seq<u8>|
                #![trigger field_deadline(self@, k, f)]
                field_deadline(self@, k, f) is Some implies exists|i: int|
                0 <= i < out@.len() && (#[trigger] out@[i]).0@ == k && out@[i].1@ == f by {
                assert(self.hfttl@.dom().contains(k));
                assert(q.to_set().contains(k));
                assert(q.contains(k));
            }
        }
        out
    }
}

/// What a list of deadlines covers: all fields of the keys in `done`, and
/// those in `part` of the key `k`, each once.
spec fn listed(
    s: super::StoreModel,
    v: Seq<(Vec<u8>, Vec<u8>, u64)>,
    done: Seq<Seq<u8>>,
    k: Seq<u8>,
    part: Seq<Seq<u8>>,
) -> bool {
    &&& forall|i: int|
        0 <= i < v.len() ==> field_deadline(s, (#[trigger] v[i]).0@, v[i].1@) == Some(v[i].2) && (
        done.contains(v[i].0@) || (v[i].0@ == k && part.contains(v[i].1@)))
    &&& forall|a: Seq<u8>, f: Seq<u8>|
        #![trigger field_deadline(s, a, f)]
        field_deadline(s, a, f) is Some && (done.contains(a) || (a == k && part.contains(f)))
            ==> told(v, a, f)
    &&& forall|i: int, j: int|
        0 <= i < j < v.len() ==> (#[trigger] v[i]).0@ != (#[trigger] v[j]).0@ || v[i].1@ != v[j].1@
}

spec fn told(v: Seq<(Vec<u8>, Vec<u8>, u64)>, k: Seq<u8>, f: Seq<u8>) -> bool {
    exists|i: int| 0 <= i < v.len() && (#[trigger] v[i]).0@ == k && v[i].1@ == f
}

proof fn lemma_listed_more(
    s: super::StoreModel,
    v: Seq<(Vec<u8>, Vec<u8>, u64)>,
    w: Seq<(Vec<u8>, Vec<u8>, u64)>,
    done: Seq<Seq<u8>>,
    k: Seq<u8>,
    part: Seq<Seq<u8>>,
    f: Seq<u8>,
)
    requires
        listed(s, v, done, k, part),
        w.len() == v.len() + 1,
        w.drop_last() == v,
        w.last().0@ == k,
        w.last().1@ == f,
        field_deadline(s, k, f) == Some(w.last().2),
        !done.contains(k),
        !part.contains(f),
    ensures
        listed(s, w, done, k, part.push(f)),
{
    let more = part.push(f);
    assert forall|i: int| 0 <= i < v.len() implies w[i] == v[i] by {
        assert(w.drop_last()[i] == w[i]);
    }
    assert forall|i: int| 0 <= i < w.len() implies field_deadline(
        s,
        (#[trigger] w[i]).0@,
        w[i].1@,
    ) == Some(w[i].2) && (done.contains(w[i].0@) || (w[i].0@ == k && more.contains(w[i].1@))) by {
        if i < v.len() {
            assert(w[i] == v[i]);
            crate::value_set::lemma_push_contains(part, f, v[i].1@);
        } else {
            crate::value_set::lemma_push_contains(part, f, f);
        }
    }
    assert forall|a: Seq<u8>, g: Seq<u8>|
        #![trigger field_deadline(s, a, g)]
        field_deadline(s, a, g) is Some && (done.contains(a) || (a == k && more.contains(
            g,
        ))) implies told(w, a, g) by {
        crate::value_set::lemma_push_contains(part, f, g);
        if a == k && g == f {
            assert(w[v.len() as int].0@ == k);
        } else {
            assert(told(v, a, g));
            let i = choose|i: int| 0 <= i < v.len() && (#[trigger] v[i]).0@ == a && v[i].1@ == g;
            assert(w[i] == v[i]);
        }
    }
    assert forall|i: int, j: int| 0 <= i < j < w.len() implies (#[trigger] w[i]).0@ != (
    #[trigger] w[j]).0@ || w[i].1@ != w[j].1@ by {
        assert(w[i] == v[i]);
        if j < v.len() {
            assert(w[j] == v[j]);
        }
    }
}

proof fn lemma_listed_key(
    s: super::StoreModel,
    v: Seq<(Vec<u8>, Vec<u8>, u64)>,
    done: Seq<Seq<u8>>,
    k: Seq<u8>,
    all: Seq<Seq<u8>>,
)
    requires
        listed(s, v, done, k, all),
        s.ttls.dom().contains(k),
        all.to_set() == s.ttls[k].dom(),
    ensures
        listed(s, v, done.push(k), Seq::empty(), Seq::empty()),
{
    let more = done.push(k);
    assert forall|i: int| 0 <= i < v.len() implies field_deadline(
        s,
        (#[trigger] v[i]).0@,
        v[i].1@,
    ) == Some(v[i].2) && more.contains(v[i].0@) by {
        crate::value_set::lemma_push_contains(done, k, v[i].0@);
    }
    assert forall|a: Seq<u8>, g: Seq<u8>|
        #![trigger field_deadline(s, a, g)]
        field_deadline(s, a, g) is Some && more.contains(a) implies told(v, a, g) by {
        crate::value_set::lemma_push_contains(done, k, a);
        if a == k {
            assert(all.to_set().contains(g));
            assert(all.contains(g));
        }
    }
}

/// What setting the deadlines of fields tells.
pub open spec fn hexpire_told(
    s: super::StoreModel,
    key: Seq<u8>,
    fs: Seq<Seq<u8>>,
    deadline: u64,
    cond: HExpireCond,
    r: Result<Vec<HExpireCode>, StoreError>,
) -> bool {
    let p = purged(s, key);
    if fs.len() > 0 && hash_at(super::seen(p, key), key) is Err {
        r == Err::<Vec<HExpireCode>, StoreError>(hash_at(super::seen(p, key), key)->Err_0)
    } else {
        r matches Ok(v) && v@ == hexpire_steps(p, key, fs, deadline, cond).1
    }
}

/// The keys that a sweep tells of.
pub open spec fn swept_keys(v: Seq<(Vec<u8>, Vec<Vec<u8>>)>) -> Seq<Seq<u8>> {
    Seq::new(v.len(), |i: int| v[i].0@)
}

/// Those of some keys that have fields whose deadlines have come.
pub open spec fn all_due(s: super::StoreModel, keys: Seq<Seq<u8>>) -> Seq<Seq<u8>>
    decreases keys.len(),
{
    if keys.len() == 0 {
        Seq::empty()
    } else {
        let before = all_due(s, keys.drop_last());
        if fields_due(s, keys.last()) == Set::<Seq<u8>>::empty() {
            before
        } else {
            before.push(keys.last())
        }
    }
}

/// The first `n` of those.
pub open spec fn due_keys(s: super::StoreModel, keys: Seq<Seq<u8>>, n: nat) -> Seq<Seq<u8>> {
    all_due(s, keys).take(super::lists::lesser(n, all_due(s, keys).len()) as int)
}

/// A keyspace in which some keys were purged, one after the other.
pub open spec fn all_purged(s: super::StoreModel, keys: Seq<Seq<u8>>) -> super::StoreModel
    decreases keys.len(),
{
    if keys.len() == 0 {
        s
    } else {
        purged(all_purged(s, keys.drop_last()), keys.last())
    }
}

proof fn lemma_all_due(s: super::StoreModel, q: Seq<Seq<u8>>, i: int)
    requires
        0 <= i <= q.len(),
    ensures
        all_due(s, q.take(i)).len() <= all_due(s, q).len(),
        all_due(s, q).take(all_due(s, q.take(i)).len() as int) == all_due(s, q.take(i)),
    decreases q.len(),
{
    let part = all_due(s, q.take(i));
    if i == q.len() {
        assert(q.take(i) =~= q);
        assert(all_due(s, q).take(part.len() as int) =~= part);
    } else {
        let d = q.drop_last();
        lemma_all_due(s, d, i);
        assert(d.take(i) =~= q.take(i));
        assert(all_due(s, q).take(part.len() as int) =~= all_due(s, d).take(part.len() as int));
    }
}

/// Purging a key leaves the fields of other keys, and their deadlines, as
/// they are.
pub proof fn lemma_purge_others(s: super::StoreModel, key: Seq<u8>)
    ensures
        forall|k: Seq<u8>|
            #![trigger fields_due(purged(s, key), k)]
            k != key ==> fields_due(purged(s, key), k) == fields_due(s, k),
        forall|k: Seq<u8>|
            k != key ==> #[trigger] hash_at(purged(s, key), k) == hash_at(s, k),
        purged(s, key).wall == s.wall,
{
    assert forall|k: Seq<u8>|
        #![trigger fields_due(purged(s, key), k)]
        k != key implies fields_due(purged(s, key), k) == fields_due(s, k) by {
        assert(fields_due(purged(s, key), k) =~= fields_due(s, k));
    }
}

/// After a purge, no deadline of the key's fields has come, and no field
/// whose deadline had come is left. So no command on a hash sees a field
/// whose deadline has come.
pub proof fn lemma_purged(s: super::StoreModel, key: Seq<u8>)
    ensures
        fields_due(purged(s, key), key) == Set::<Seq<u8>>::empty(),
        forall|f: Seq<u8>|
            #![trigger fields_due(s, key).contains(f)]
            fields_due(s, key).contains(f) ==> !(hash_at(
                super::seen(purged(s, key), key),
                key,
            ) matches Ok(Some(h)) && h.dom().contains(f)),
        purged(purged(s, key), key) == purged(s, key),
{
    let due = fields_due(s, key);
    let p = purged(s, key);
    assert(fields_due(p, key) =~= Set::empty());
}

/// A field keeps its deadline when those of others are struck, and loses it
/// when its own is.
proof fn lemma_struck(s: super::StoreModel, key: Seq<u8>, gone: Set<Seq<u8>>, f: Seq<u8>)
    ensures
        field_deadline(untimed(s, key, gone), key, f) == (if gone.contains(f) {
            None
        } else {
            field_deadline(s, key, f)
        }),
{
    if s.ttls.dom().contains(key) {
        let m = s.ttls[key].remove_keys(gone);
        if m == Map::<Seq<u8>, u64>::empty() {
            assert(!m.dom().contains(f));
        }
    }
}

} // verus!
