//! Hashes, whatever their encoding.
use vstd::prelude::*;
use std::sync::Arc;
use crate::bytes::copy_bytes;
use crate::payload::Payload;
use crate::seg_map::HS_PROMOTE;
use crate::shared::{unshare, unwrap};
use crate::small_hash::{AddResult, SmallHashData};
use crate::table::{FlatTable, HashData, SegTable};
use crate::value::Value;

verus! {

/// The map that a list of pairs makes; the last of several under one field
/// counts.
pub open spec fn folded(ps: Seq<(Seq<u8>, Seq<u8>)>) -> Map<Seq<u8>, Seq<u8>>
    decreases ps.len(),
{
    if ps.len() == 0 {
        Map::empty()
    } else {
        folded(ps.drop_last()).insert(ps.last().0, ps.last().1)
    }
}

/// Distinct fields make the map of the pairs, with as many keys.
pub proof fn lemma_folded(ps: Seq<(Seq<u8>, Seq<u8>)>)
    requires
        crate::small_hash::fields_unique(ps),
    ensures
        folded(ps) == crate::small_hash::pairs_map(ps),
        folded(ps).dom().finite(),
        folded(ps).dom().len() == ps.len(),
    decreases ps.len(),
{
    if ps.len() == 0 {
        assert(crate::small_hash::pairs_map(ps) =~= Map::empty());
        assert(folded(ps).dom() =~= Set::empty());
    } else {
        let d = ps.drop_last();
        let (f, v) = ps.last();
        assert forall|i: int, j: int| 0 <= i < d.len() && 0 <= j < d.len() && i != j implies #[trigger] d[i].0
            != #[trigger] d[j].0 by {
            assert(ps[i].0 != ps[j].0);
        }
        lemma_folded(d);
        assert(!crate::small_hash::has_field(d, f)) by {
            if crate::small_hash::has_field(d, f) {
                let i = choose|i: int| crate::small_hash::field_at(d, f, i);
                assert(ps[i].0 != ps[ps.len() - 1].0);
            }
        }
        crate::small_hash::lemma_pairs_map(d, f, v);
        assert(ps =~= d.push((f, v)));
        assert(!folded(d).dom().contains(f));
        assert(folded(ps).dom() =~= folded(d).dom().insert(f));
    }
}

/// Folding always makes a finite map.
pub proof fn lemma_folded_finite(ps: Seq<(Seq<u8>, Seq<u8>)>)
    ensures
        folded(ps).dom().finite(),
    decreases ps.len(),
{
    if ps.len() == 0 {
        assert(folded(ps).dom() =~= Set::empty());
    } else {
        lemma_folded_finite(ps.drop_last());
        assert(folded(ps).dom() =~= folded(ps.drop_last()).dom().insert(ps.last().0));
    }
}

/// Pairs with distinct fields, told from their fields alone.
proof fn lemma_listing(ps: Seq<(Seq<u8>, Seq<u8>)>, order: Seq<Seq<u8>>)
    requires
        crate::small_hash::fields_unique(ps),
        crate::bytes::firsts(ps) == order,
    ensures
        order.no_duplicates(),
        order.to_set() == crate::small_hash::pairs_map(ps).dom(),
        forall|i: int|
            0 <= i < ps.len() ==> crate::small_hash::pairs_map(ps)[(#[trigger] ps[i]).0] == ps[i].1
                && ps[i].0 == order[i],
{
    let m = crate::small_hash::pairs_map(ps);
    assert forall|i: int| 0 <= i < ps.len() implies m[(#[trigger] ps[i]).0] == ps[i].1 && ps[i].0
        == order[i] && m.dom().contains(ps[i].0) by {
        assert(crate::small_hash::field_at(ps, ps[i].0, i));
        crate::small_hash::lemma_field_index(ps, ps[i].0, i);
    }
    assert forall|f: Seq<u8>| #[trigger] order.to_set().contains(f) == m.dom().contains(f) by {
        if order.to_set().contains(f) {
            let i = choose|i: int| 0 <= i < order.len() && order[i] == f;
            assert(ps[i].0 == f);
        }
        if m.dom().contains(f) {
            let i = crate::small_hash::field_index(ps, f);
            assert(crate::small_hash::field_at(ps, f, i));
            assert(order[i] == f);
        }
    }
    assert(order.to_set() =~= m.dom());
    assert forall|i: int, j: int|
        0 <= i < order.len() && 0 <= j < order.len() && i != j implies order[i] != order[j] by {
        assert(ps[i].0 != ps[j].0);
    }
}

/// A declared row's pair comes from a column that holds a value.
proof fn lemma_present_from(
    names: Seq<Vec<u8>>,
    row: Seq<Option<Seq<u8>>>,
    n: nat,
    i: int,
) -> (c: int)
    requires
        n <= row.len(),
        n <= names.len(),
        0 <= i < crate::packed_row::present_fields(names, row, n).len(),
    ensures
        0 <= c < n,
        row[c] is Some,
        crate::packed_row::present_fields(names, row, n)[i] == (names[c]@, row[c]->0),
    decreases n,
{
    let before = crate::packed_row::present_fields(names, row, (n - 1) as nat);
    if i < before.len() {
        lemma_present_from(names, row, (n - 1) as nat, i)
    } else {
        n - 1
    }
}

/// A column that holds a value gives a pair.
proof fn lemma_present_to(names: Seq<Vec<u8>>, row: Seq<Option<Seq<u8>>>, n: nat, c: int) -> (i: int)
    requires
        n <= row.len(),
        n <= names.len(),
        0 <= c < n,
        row[c] is Some,
    ensures
        0 <= i < crate::packed_row::present_fields(names, row, n).len(),
        crate::packed_row::present_fields(names, row, n)[i] == (names[c]@, row[c]->0),
    decreases n,
{
    let before = crate::packed_row::present_fields(names, row, (n - 1) as nat);
    if c == n - 1 {
        before.len() as int
    } else {
        lemma_present_to(names, row, (n - 1) as nat, c)
    }
}

proof fn lemma_present_unique(names: Seq<Vec<u8>>, row: Seq<Option<Seq<u8>>>, n: nat)
    requires
        n <= row.len(),
        n <= names.len(),
        crate::value::names_distinct(names),
    ensures
        crate::small_hash::fields_unique(crate::packed_row::present_fields(names, row, n)),
        crate::packed_row::present_fields(names, row, n).len() == crate::packed_row::present_count(
            row,
            n,
        ),
    decreases n,
{
    let ps = crate::packed_row::present_fields(names, row, n);
    if n > 0 {
        lemma_present_unique(names, row, (n - 1) as nat);
        let before = crate::packed_row::present_fields(names, row, (n - 1) as nat);
        if row[n - 1] is Some {
            assert forall|i: int, j: int|
                0 <= i < ps.len() && 0 <= j < ps.len() && i != j implies #[trigger] ps[i].0
                != #[trigger] ps[j].0 by {
                if i < before.len() && j < before.len() {
                    assert(before[i].0 != before[j].0);
                } else if i < before.len() {
                    let c = lemma_present_from(names, row, (n - 1) as nat, i);
                    assert(names[c]@ != names[n - 1]@);
                } else {
                    let c = lemma_present_from(names, row, (n - 1) as nat, j);
                    assert(names[c]@ != names[n - 1]@);
                }
            }
        }
    }
}

/// A declared row binds the names of the columns that hold a value.
proof fn lemma_row(names: Seq<Vec<u8>>, row: Seq<Option<Seq<u8>>>)
    requires
        names.len() == row.len(),
        crate::value::names_distinct(names),
    ensures
        crate::small_hash::fields_unique(
            crate::packed_row::present_fields(names, row, row.len()),
        ),
        forall|f: Seq<u8>| #[trigger]
            crate::small_hash::pairs_map(
                crate::packed_row::present_fields(names, row, row.len()),
            ).dom().contains(f) == (crate::packed_row::named_value(names, row, f) is Some),
        forall|f: Seq<u8>| #[trigger]
            crate::small_hash::pairs_map(
                crate::packed_row::present_fields(names, row, row.len()),
            ).dom().contains(f) ==> crate::small_hash::pairs_map(
                crate::packed_row::present_fields(names, row, row.len()),
            )[f] == crate::packed_row::named_value(names, row, f)->0,
{
    let ps = crate::packed_row::present_fields(names, row, row.len());
    let m = crate::small_hash::pairs_map(ps);
    lemma_present_unique(names, row, row.len());
    assert forall|f: Seq<u8>| #[trigger] m.dom().contains(f) == (crate::packed_row::named_value(
        names,
        row,
        f,
    ) is Some) && (m.dom().contains(f) ==> m[f] == crate::packed_row::named_value(
        names,
        row,
        f,
    )->0) by {
        if m.dom().contains(f) {
            let i = crate::small_hash::field_index(ps, f);
            assert(crate::small_hash::field_at(ps, f, i));
            let c = lemma_present_from(names, row, row.len(), i);
            lemma_named(names, row, f, c);
        }
        if crate::packed_row::named_value(names, row, f) is Some {
            let c = choose|c: int| crate::packed_row::first_named(names, f, c);
            assert(crate::packed_row::first_named(names, f, c));
            let i = lemma_present_to(names, row, row.len(), c);
            assert(crate::small_hash::field_at(ps, f, i));
            crate::small_hash::lemma_field_index(ps, f, i);
        }
    }
}

/// With distinct names, a name's column is the first of that name.
proof fn lemma_named(names: Seq<Vec<u8>>, row: Seq<Option<Seq<u8>>>, f: Seq<u8>, c: int)
    requires
        crate::value::names_distinct(names),
        crate::packed_row::named(names, f, c),
    ensures
        crate::packed_row::named_value(names, row, f) == row[c],
{
    assert forall|j: int| 0 <= j < c implies !crate::packed_row::named(names, f, j) by {
        assert(names[j]@ != names[c]@);
    }
    assert(crate::packed_row::first_named(names, f, c));
    let d = choose|d: int| crate::packed_row::first_named(names, f, d);
    assert(crate::packed_row::first_named(names, f, d));
    if d < c {
        assert(names[d]@ != names[c]@);
    } else if c < d {
        assert(names[c]@ != names[d]@);
    }
}

/// What a name is bound to after a column was written.
proof fn lemma_row_read(
    names: Seq<Vec<u8>>,
    row: Seq<Option<Seq<u8>>>,
    c: int,
    f: Seq<u8>,
    v: Seq<u8>,
    g: Seq<u8>,
)
    requires
        names.len() == row.len(),
        crate::value::names_distinct(names),
        crate::packed_row::named(names, f, c),
    ensures
        crate::packed_row::named_value(names, row.update(c, Some(v)), g) == (if g == f {
            Some(v)
        } else {
            crate::packed_row::named_value(names, row, g)
        }),
{
    let next = row.update(c, Some(v));
    if g == f {
        lemma_named(names, next, f, c);
    } else if exists|d: int| crate::packed_row::first_named(names, g, d) {
        let d = choose|d: int| crate::packed_row::first_named(names, g, d);
        assert(crate::packed_row::first_named(names, g, d));
        lemma_named(names, row, g, d);
        lemma_named(names, next, g, d);
        assert(d != c);
    }
}

/// Writing a column binds its name.
proof fn lemma_row_update(
    names: Seq<Vec<u8>>,
    row: Seq<Option<Seq<u8>>>,
    c: int,
    f: Seq<u8>,
    v: Seq<u8>,
)
    requires
        names.len() == row.len(),
        crate::value::names_distinct(names),
        crate::packed_row::named(names, f, c),
    ensures
        crate::small_hash::pairs_map(
            crate::packed_row::present_fields(names, row.update(c, Some(v)), row.len()),
        ) == crate::small_hash::pairs_map(
            crate::packed_row::present_fields(names, row, row.len()),
        ).insert(f, v),
{
    let next = row.update(c, Some(v));
    lemma_row(names, row);
    lemma_row(names, next);
    let a = crate::small_hash::pairs_map(
        crate::packed_row::present_fields(names, row, row.len()),
    );
    let b = crate::small_hash::pairs_map(
        crate::packed_row::present_fields(names, next, next.len()),
    );
    assert forall|g: Seq<u8>| #[trigger] b.dom().contains(g) == (g == f || a.dom().contains(g)) by {
        lemma_row_read(names, row, c, f, v, g);
        assert(a.dom().contains(g) == (crate::packed_row::named_value(names, row, g) is Some));
    }
    assert forall|g: Seq<u8>| #[trigger] b.dom().contains(g) implies b[g] == a.insert(f, v)[g] by {
        lemma_row_read(names, row, c, f, v, g);
        assert(a.dom().contains(g) == (crate::packed_row::named_value(names, row, g) is Some));
    }
    assert(b =~= a.insert(f, v));
}

proof fn lemma_pairs_of_order(
    ps: Seq<(Seq<u8>, Seq<u8>)>,
    q: Seq<Seq<u8>>,
    m: Map<Seq<u8>, Seq<u8>>,
)
    requires
        ps.len() == q.len(),
        forall|i: int| 0 <= i < ps.len() ==> #[trigger] ps[i] == (q[i], m[q[i]]),
        crate::small_hash::fields_unique(ps),
        q.to_set() == m.dom(),
    ensures
        crate::small_hash::pairs_map(ps) == m,
{
    let pm = crate::small_hash::pairs_map(ps);
    assert forall|f: Seq<u8>| #[trigger] pm.dom().contains(f) == m.dom().contains(f) by {
        if pm.dom().contains(f) {
            let i = crate::small_hash::field_index(ps, f);
            assert(crate::small_hash::field_at(ps, f, i));
            assert(q[i] == f);
            assert(q.to_set().contains(q[i]));
        }
        if m.dom().contains(f) {
            assert(q.to_set().contains(f));
            let i = choose|i: int| 0 <= i < q.len() && q[i] == f;
            assert(ps[i].0 == f);
            assert(crate::small_hash::field_at(ps, f, i));
        }
    }
    assert forall|f: Seq<u8>| #[trigger] pm.dom().contains(f) implies pm[f] == m[f] by {
        let i = crate::small_hash::field_index(ps, f);
        assert(crate::small_hash::field_at(ps, f, i));
        assert(ps[i] == (q[i], m[q[i]]));
    }
    assert(pm =~= m);
}

/// A flat hash of the given pairs; the last of several under one field
/// counts.
pub fn flat_of(pairs: &Vec<(Vec<u8>, Vec<u8>)>) -> (r: HashData)
    ensures
        r.wf(),
        r@ == folded(crate::bytes::deep_pairs(pairs@)),
{
    let ghost d = crate::bytes::deep_pairs(pairs@);
    let mut out = HashData::new();
    let mut i: usize = 0;
    assert(d.take(0) =~= Seq::empty());
    while i < pairs.len()
        invariant
            out.wf(),
            d == crate::bytes::deep_pairs(pairs@),
            i <= pairs@.len(),
            out@ == folded(d.take(i as int)),
        decreases pairs@.len() - i,
    {
        assert(d.take(i + 1).drop_last() =~= d.take(i as int));
        out.insert(copy_bytes(pairs[i].0.as_slice()), copy_bytes(pairs[i].1.as_slice()));
        i = i + 1;
    }
    assert(d.take(d.len() as int) =~= d);
    out
}

/// A flat hash of an inline one's pairs.
pub fn promote(h: &SmallHashData) -> (r: HashData)
    requires
        h.wf(),
    ensures
        r.wf(),
        r@ == crate::small_hash::pairs_map(h@),
{
    let pairs = small_pairs(h);
    proof {
        h.lemma_wf();
        lemma_folded(h@);
    }
    flat_of(&pairs)
}

/// An inline hash's pairs, copied out.
fn small_pairs(h: &SmallHashData) -> (r: Vec<(Vec<u8>, Vec<u8>)>)
    requires
        h.wf(),
    ensures
        crate::bytes::deep_pairs(r@) == h@,
{
    let n: usize = h.len();
    let mut it = h.iter();
    let mut out: Vec<(Vec<u8>, Vec<u8>)> = Vec::new();
    let mut i: usize = 0;
    assert(h@.take(0) =~= Seq::empty());
    assert(h@.subrange(0, h@.len() as int) =~= h@);
    while i < n
        invariant
            it.wf(),
            n == h@.len(),
            i <= n,
            it.rest() == h@.subrange(i as int, n as int),
            crate::bytes::deep_pairs(out@) == h@.take(i as int),
        decreases n - i,
    {
        let ghost before = crate::bytes::deep_pairs(out@);
        match it.next() {
            Some((f, v)) => {
                out.push((copy_bytes(f), copy_bytes(v)));
                assert(crate::bytes::deep_pairs(out@) =~= before.push(h@[i as int]));
            },
            None => {},
        }
        proof {
            assert(h@.take(i + 1) =~= h@.take(i as int).push(h@[i as int]));
            assert(h@.subrange(i as int, n as int).subrange(1, n - i) =~= h@.subrange(
                i + 1,
                n as int,
            ));
        }
        i = i + 1;
    }
    assert(h@.take(n as int) =~= h@);
    out
}

/// A clone of a table is well-formed and binds the same.
pub proof fn lemma_flat_clone<V: Payload>(a: Arc<FlatTable<V>>, b: FlatTable<V>)
    requires
        a.wf(),
        *a == b || cloned(*a, b),
    ensures
        b.wf(),
        b@ == a@,
{
}

/// A clone of a table in buckets is well-formed and binds the same.
pub proof fn lemma_seg_clone<V: Payload>(a: Arc<SegTable<V>>, b: SegTable<V>)
    requires
        a.wf(),
        *a == b || cloned(*a, b),
    ensures
        b.wf(),
        b@ == a@,
{
}

impl Value {
    /// The fields of a hash, mathematically.
    pub open spec fn fields(&self) -> Map<Seq<u8>, Seq<u8>> {
        self@->Hash_0
    }

    /// The fields of a hash in the order in which a walk meets them.
    pub open spec fn field_order(&self) -> Seq<Seq<u8>> {
        match self {
            Value::Hash(h) => h.key_order(),
            Value::SegHash(h) => h.key_order(),
            Value::SmallHashInline(h) => crate::bytes::firsts(h@),
            Value::PackedRow(p) => crate::bytes::firsts(
                crate::packed_row::present_fields(p.col_names(), p@, p@.len()),
            ),
            _ => Seq::empty(),
        }
    }

    /// The pairs of a hash in the order in which a walk meets them.
    pub open spec fn listing(&self) -> Seq<(Seq<u8>, Seq<u8>)> {
        Seq::new(
            self.field_order().len(),
            |i: int| (self.field_order()[i], self.fields()[self.field_order()[i]]),
        )
    }

    /// The listing of a flat or a tiny hash names each field once and makes
    /// up the hash.
    pub proof fn lemma_listed(&self)
        requires
            self.wf(),
            self is Hash || self is SmallHashInline,
        ensures
            crate::small_hash::fields_unique(self.listing()),
            crate::small_hash::pairs_map(self.listing()) == self.fields(),
    {
        let q = self.field_order();
        let m = self.fields();
        let ps = self.listing();
        match self {
            Value::Hash(h) => {
                h.lemma_key_order();
            },
            Value::SmallHashInline(h) => {
                h.lemma_wf();
                lemma_folded(h@);
                lemma_listing(h@, q);
                assert(ps =~= h@);
            },
            _ => {},
        }
        if self is Hash {
            assert forall|a: int, b: int|
                0 <= a < ps.len() && 0 <= b < ps.len() && a != b implies #[trigger] ps[a].0
                != #[trigger] ps[b].0 by {
                assert(q[a] != q[b]);
            }
            lemma_pairs_of_order(ps, q, m);
        }
    }

    /// What a field of a hash is bound to.
    pub fn hash_get(&self, field: &[u8]) -> (r: Option<&[u8]>)
        requires
            self.wf(),
            self@ is Hash,
        ensures
            match r {
                Some(v) => self.fields().dom().contains(field@) && v@ == self.fields()[field@],
                None => !self.fields().dom().contains(field@),
            },
    {
        match self {
            Value::Hash(h) => match h.get(field) {
                Some(v) => Some(v.as_slice()),
                None => None,
            },
            Value::SegHash(h) => match h.get(field) {
                Some(v) => Some(v.as_slice()),
                None => None,
            },
            Value::SmallHashInline(h) => h.get(field),
            Value::PackedRow(r) => {
                proof {
                    r.lemma_wf();
                    lemma_row(r.col_names(), r@);
                    assert(self.fields() == crate::small_hash::pairs_map(
                        crate::packed_row::present_fields(r.col_names(), r@, r@.len()),
                    ));
                    assert(self.fields().dom().contains(field@) == (
                    crate::packed_row::named_value(r.col_names(), r@, field@) is Some));
                }
                r.get_named(field)
            },
            _ => None,
        }
    }

    /// The pairs of a hash, copied out, each field once, in walking order.
    pub fn hash_pairs(&self) -> (r: Vec<(Vec<u8>, Vec<u8>)>)
        requires
            self.wf(),
            self@ is Hash,
        ensures
            crate::bytes::deep_pairs(r@) == self.listing(),
            self.field_order().no_duplicates(),
            self.field_order().to_set() == self.fields().dom(),
            crate::small_hash::fields_unique(crate::bytes::deep_pairs(r@)),
            crate::small_hash::pairs_map(crate::bytes::deep_pairs(r@)) == self.fields(),
            self.fields().dom().finite(),
            r@.len() == self.fields().dom().len(),
    {
        let r = match self {
            Value::Hash(h) => {
                let keys = h.keys();
                proof {
                    h.lemma_key_order();
                }
                self.pairs_under(&keys)
            },
            Value::SegHash(h) => {
                let keys = h.keys();
                proof {
                    h.lemma_key_order();
                }
                self.pairs_under(&keys)
            },
            Value::SmallHashInline(h) => {
                proof {
                    h.lemma_wf();
                }
                small_pairs(h)
            },
            Value::PackedRow(p) => {
                proof {
                    p.lemma_wf();
                    lemma_row(p.col_names(), p@);
                }
                p.fields()
            },
            _ => Vec::new(),
        };
        proof {
            let ps = crate::bytes::deep_pairs(r@);
            lemma_folded(ps);
            assert(crate::bytes::firsts(ps) =~= self.field_order());
            lemma_listing(ps, self.field_order());
            assert(ps =~= self.listing());
        }
        r
    }

    /// The pairs under all the keys of a hash.
    fn pairs_under(&self, keys: &Vec<Vec<u8>>) -> (r: Vec<(Vec<u8>, Vec<u8>)>)
        requires
            self.wf(),
            self@ is Hash,
            crate::bytes::deep(keys@).no_duplicates(),
            crate::bytes::deep(keys@).to_set() == self.fields().dom(),
        ensures
            crate::small_hash::fields_unique(crate::bytes::deep_pairs(r@)),
            crate::small_hash::pairs_map(crate::bytes::deep_pairs(r@)) == self.fields(),
            crate::bytes::firsts(crate::bytes::deep_pairs(r@)) == crate::bytes::deep(keys@),
    {
        let ghost q = crate::bytes::deep(keys@);
        let ghost m = self.fields();
        let mut out: Vec<(Vec<u8>, Vec<u8>)> = Vec::new();
        let mut i: usize = 0;
        while i < keys.len()
            invariant
                self.wf(),
                self@ is Hash,
                m == self.fields(),
                q == crate::bytes::deep(keys@),
                q.to_set() == m.dom(),
                i <= keys@.len(),
                out@.len() == i,
                forall|k: int|
                    0 <= k < i ==> (#[trigger] out@[k]).0@ == q[k] && out@[k].1@ == m[q[k]],
            decreases keys@.len() - i,
        {
            assert(q[i as int] == keys@[i as int]@);
            assert(q.to_set().contains(q[i as int]));
            match self.hash_get(keys[i].as_slice()) {
                Some(v) => {
                    out.push((copy_bytes(keys[i].as_slice()), copy_bytes(v)));
                },
                None => {
                    assert(false);
                },
            }
            i = i + 1;
        }
        proof {
            let ps = crate::bytes::deep_pairs(out@);
            assert forall|a: int, b: int|
                0 <= a < ps.len() && 0 <= b < ps.len() && a != b implies #[trigger] ps[a].0
                != #[trigger] ps[b].0 by {
                assert(q[a] != q[b]);
                assert(out@[a].0@ == q[a]);
                assert(out@[b].0@ == q[b]);
            }
            let pm = crate::small_hash::pairs_map(ps);
            assert forall|f: Seq<u8>| #[trigger] pm.dom().contains(f) implies m.dom().contains(f)
                && pm[f] == m[f] by {
                let k = crate::small_hash::field_index(ps, f);
                assert(crate::small_hash::field_at(ps, f, k));
                assert(out@[k].0@ == q[k]);
                assert(q.to_set().contains(q[k]));
            }
            assert forall|f: Seq<u8>| #[trigger] m.dom().contains(f) implies pm.dom().contains(f) by {
                assert(q.to_set().contains(f));
                let k = choose|k: int| 0 <= k < q.len() && q[k] == f;
                assert(out@[k].0@ == q[k]);
                assert(crate::small_hash::field_at(ps, f, k));
            }
            assert(pm =~= m);
        }
        out
    }

    /// Number of fields of a hash.
    pub fn hash_len(&self) -> (r: usize)
        requires
            self.wf(),
            self@ is Hash,
        ensures
            self.fields().dom().finite(),
            self.fields().dom().len() <= usize::MAX ==> r == self.fields().dom().len(),
    {
        match self {
            Value::Hash(h) => h.len(),
            Value::SegHash(h) => h.len(),
            Value::SmallHashInline(h) => {
                proof {
                    h.lemma_wf();
                    lemma_folded(h@);
                }
                h.len()
            },
            Value::PackedRow(p) => {
                proof {
                    p.lemma_wf();
                    lemma_row(p.col_names(), p@);
                    lemma_present_unique(p.col_names(), p@, p@.len());
                    lemma_folded(crate::value::row_pairs(*p));
                }
                p.len()
            },
            _ => 0,
        }
    }

    /// Whether a hash has no fields.
    pub fn hash_is_empty(&self) -> (r: bool)
        requires
            self.wf(),
            self@ is Hash,
        ensures
            r == (self.fields() == Map::<Seq<u8>, Seq<u8>>::empty()),
    {
        proof {
            assert(Map::<Seq<u8>, Seq<u8>>::empty().dom() =~= Set::empty());
        }
        match self {
            Value::Hash(h) => h.is_empty(),
            Value::SegHash(h) => h.is_empty(),
            Value::SmallHashInline(h) => {
                proof {
                    h.lemma_wf();
                    lemma_folded(h@);
                    if h@.len() == 0 {
                        assert(self.fields().dom() =~= Set::empty());
                        assert(self.fields() =~= Map::empty());
                    }
                }
                h.is_empty()
            },
            Value::PackedRow(p) => {
                proof {
                    p.lemma_wf();
                    lemma_row(p.col_names(), p@);
                    lemma_present_unique(p.col_names(), p@, p@.len());
                    lemma_folded(crate::value::row_pairs(*p));
                    if crate::value::row_pairs(*p).len() == 0 {
                        assert(self.fields().dom() =~= Set::empty());
                        assert(self.fields() =~= Map::empty());
                    }
                }
                p.is_empty()
            },
            _ => true,
        }
    }

    /// A hash of one pair.
    pub fn hash_of(field: &[u8], value: &[u8]) -> (r: Value)
        ensures
            r.wf(),
            r@ is Hash,
            r.fields() == Map::<Seq<u8>, Seq<u8>>::empty().insert(field@, value@),
            !(r is SegHash),
            !(r is PackedRow),
    {
        match SmallHashData::with_one(field, value) {
            Some(h) => {
                proof {
                    let e = Seq::<(Seq<u8>, Seq<u8>)>::empty();
                    crate::small_hash::lemma_pairs_map(e, field@, value@);
                    assert(h@ =~= e.push((field@, value@)));
                    assert(crate::small_hash::pairs_map(e) =~= Map::empty());
                }
                Value::SmallHashInline(h)
            },
            None => {
                let mut t = HashData::new();
                t.insert(copy_bytes(field), copy_bytes(value));
                Value::Hash(Arc::new(t))
            },
        }
    }

    /// Whether the value is a declared row.
    pub fn is_row(&self) -> (r: bool)
        ensures
            r == (self is PackedRow),
    {
        match self {
            Value::PackedRow(_) => true,
            _ => false,
        }
    }

    /// Turns an inline hash or a declared row into a flat hash.
    pub fn hash_to_heap(&mut self)
        requires
            old(self).wf(),
            old(self)@ is Hash,
        ensures
            final(self).wf(),
            final(self)@ == old(self)@,
            *final(self) is Hash || *final(self) is SegHash,
            *final(self) is SegHash <==> *old(self) is SegHash,
    {
        let flat = match self {
            Value::SmallHashInline(h) => promote(h),
            Value::PackedRow(p) => {
                let pairs = p.fields();
                proof {
                    p.lemma_wf();
                    lemma_row(p.col_names(), p@);
                    lemma_folded(crate::value::row_pairs(*p));
                }
                flat_of(&pairs)
            },
            _ => {
                return ;
            },
        };
        *self = Value::Hash(Arc::new(flat));
    }

    /// Binds a field of a hash; says whether it was new.
    pub fn hash_set(&mut self, field: &[u8], value: &[u8]) -> (r: bool)
        requires
            old(self).wf(),
            old(self)@ is Hash,
        ensures
            final(self).wf(),
            final(self)@ is Hash,
            final(self).fields() == old(self).fields().insert(field@, value@),
            r == !old(self).fields().dom().contains(field@),
            *old(self) is SegHash ==> *final(self) is SegHash,
            old(self).fields().dom().len() <= usize::MAX && *final(self) is SegHash ==> *old(
                self,
            ) is SegHash || old(self).fields().dom().len() >= HS_PROMOTE,
            old(self).fields().dom().len() <= usize::MAX && old(self).fields().dom().len()
                >= HS_PROMOTE && !(*old(self) is PackedRow) ==> *final(self) is SegHash,
            *final(self) is PackedRow ==> *old(self) is PackedRow,
            *old(self) is Hash || *old(self) is SegHash ==> *final(self) is Hash
                || *final(self) is SegHash,
    {
        match self {
            Value::SmallHashInline(h) => {
                proof {
                    h.lemma_wf();
                    lemma_folded(h@);
                    crate::small_hash::lemma_pairs_map(h@, field@, value@);
                }
                match h.try_set(field, value) {
                    AddResult::Added => {
                        return true;
                    },
                    AddResult::Updated => {
                        return false;
                    },
                    AddResult::NoRoom => {},
                }
            },
            Value::PackedRow(p) => {
                let ghost names = p.col_names();
                let ghost row = p@;
                proof {
                    p.lemma_wf();
                    lemma_row(names, row);
                }
                match p.position_named(field) {
                    Some(i) => {
                        let had: bool = p.has(i);
                        proof {
                            lemma_row_update(names, row, i as int, field@, value@);
                            lemma_named(names, row, field@, i as int);
                        }
                        if p.set_same_width(i, value) {
                            return !had;
                        }
                        match p.with_column(i, Some(value)) {
                            Some(next) => {
                                *p = next;
                                return !had;
                            },
                            None => {},
                        }
                    },
                    None => {},
                }
            },
            _ => {},
        }
        self.hash_to_heap();
        self.heap_hash_set(field, value)
    }

    /// Binds a field of a hash that is on the heap; says whether it was new.
    fn heap_hash_set(&mut self, field: &[u8], value: &[u8]) -> (r: bool)
        requires
            old(self).wf(),
            *old(self) is Hash || *old(self) is SegHash,
        ensures
            final(self).wf(),
            final(self)@ is Hash,
            final(self).fields() == old(self).fields().insert(field@, value@),
            r == !old(self).fields().dom().contains(field@),
            old(self).fields().dom().len() <= usize::MAX ==> (*final(self) is SegHash <==> (*old(
                self,
            ) is SegHash || old(self).fields().dom().len() >= HS_PROMOTE)),
            *old(self) is SegHash ==> *final(self) is SegHash,
            *final(self) is Hash || *final(self) is SegHash,
    {
        self.hash_shard();
        match self {
            Value::Hash(h) => {
                let ghost before = *h;
                let t = unshare(h);
                proof {
                    lemma_flat_clone(before, *t);
                }
                t.insert(copy_bytes(field), copy_bytes(value)).is_none()
            },
            Value::SegHash(h) => {
                let ghost before = *h;
                let t = unshare(h);
                proof {
                    lemma_seg_clone(before, *t);
                }
                t.insert(copy_bytes(field), copy_bytes(value)).is_none()
            },
            _ => false,
        }
    }

    /// Puts a flat hash that has grown big into buckets.
    fn hash_shard(&mut self)
        requires
            old(self).wf(),
            *old(self) is Hash || *old(self) is SegHash,
        ensures
            final(self).wf(),
            *final(self) is Hash || *final(self) is SegHash,
            final(self)@ == old(self)@,
            old(self).fields().dom().len() <= usize::MAX ==> (*final(self) is SegHash <==> (*old(self) is SegHash
                || old(self).fields().dom().len() >= HS_PROMOTE)),
            !(*old(self) is Hash && *final(self) is SegHash) ==> *final(self) == *old(self),
    {
        let big: bool = match self {
            Value::Hash(h) => h.len() >= HS_PROMOTE,
            _ => false,
        };
        if big {
            let mut own = Value::Int(0);
            core::mem::swap(self, &mut own);
            match own {
                Value::Hash(h) => {
                    let ghost before = h;
                    let flat = unwrap(h);
                    proof {
                        lemma_flat_clone(before, flat);
                    }
                    *self = Value::SegHash(Arc::new(SegTable::from_flat(flat)));
                },
                _ => {},
            }
        }
    }

    /// Unbinds a field of a hash; says whether it was bound.
    pub fn hash_remove(&mut self, field: &[u8]) -> (r: bool)
        requires
            old(self).wf(),
            old(self)@ is Hash,
        ensures
            final(self).wf(),
            final(self)@ is Hash,
            final(self).fields() == old(self).fields().remove(field@),
            r == old(self).fields().dom().contains(field@),
            *final(self) is SegHash <==> *old(self) is SegHash,
            *final(self) is PackedRow ==> *old(self) is PackedRow,
    {
        match self {
            Value::SmallHashInline(h) => {
                proof {
                    h.lemma_wf();
                    crate::small_hash::lemma_pairs_map(h@, field@, field@);
                    if !crate::small_hash::has_field(h@, field@) {
                        let m = crate::small_hash::pairs_map(h@);
                        assert(m.remove(field@) =~= m);
                    }
                }
                return h.try_remove(field);
            },
            _ => {},
        }
        self.hash_to_heap();
        match self {
            Value::Hash(h) => {
                let ghost before = *h;
                let t = unshare(h);
                proof {
                    lemma_flat_clone(before, *t);
                }
                t.remove(field).is_some()
            },
            Value::SegHash(h) => {
                let ghost before = *h;
                let t = unshare(h);
                proof {
                    lemma_seg_clone(before, *t);
                }
                t.remove(field).is_some()
            },
            _ => false,
        }
    }
}

} // verus!
