//! Paging over the keys.
use vstd::prelude::*;
use super::Store;
use crate::cold::ColdKind;
use crate::byte_map::bucket_for;
use crate::bytes::copy_bytes;
use crate::text::glob_match;
use crate::value::Value;

verus! {

/// Buckets that are visited in one step of a page.
pub const BUCKETS_PER_STEP: usize = 16;

/// How many ranks there are.
pub open spec fn ranks() -> int {
    0x1_0000_0000_0000_0000
}

/// The letter in lower case, where it is one.
pub open spec fn lower(b: u8) -> u8 {
    if 65 <= b <= 90 {
        (b + 32) as u8
    } else {
        b
    }
}

/// Whether two names are the same but for the case of letters.
pub open spec fn same_name(a: Seq<u8>, b: Seq<u8>) -> bool {
    a.len() == b.len() && forall|i: int| 0 <= i < a.len() ==> lower(#[trigger] a[i]) == lower(b[i])
}

/// The name of a value's type, in bytes.
pub open spec fn kind_bytes(v: crate::value::Val) -> Seq<u8> {
    match v {
        crate::value::Val::Str(_s) => seq![115u8, 116, 114, 105, 110, 103],
        crate::value::Val::Hash(_m) => seq![104u8, 97, 115, 104],
        crate::value::Val::List(_l) => seq![108u8, 105, 115, 116],
        crate::value::Val::Members(_s) => seq![115u8, 101, 116],
        crate::value::Val::Sorted(_m) => seq![122u8, 115, 101, 116],
        crate::value::Val::Stream(_s) => seq![115u8, 116, 114, 101, 97, 109],
        crate::value::Val::Cold(c) => match c.kind {
            ColdKind::Str => seq![115u8, 116, 114, 105, 110, 103],
            ColdKind::Hash => seq![104u8, 97, 115, 104],
        },
    }
}

/// The bytes of a type's name are those of its letters.
pub proof fn lemma_kind_bytes(v: crate::value::Val)
    ensures
        kind_bytes(v).len() == crate::value::kind_name_spec(v).len(),
        forall|i: int|
            0 <= i < kind_bytes(v).len() ==> kind_bytes(v)[i] as int
                == #[trigger] crate::value::kind_name_spec(v)[i] as int,
{
    reveal_strlit("string");
    reveal_strlit("hash");
    reveal_strlit("list");
    reveal_strlit("set");
    reveal_strlit("zset");
    reveal_strlit("stream");
}

/// Whether a page wants a key: it is live, matches the pattern, and holds a
/// value of the named type, as far as these are given.
pub open spec fn page_wants(
    s: super::StoreModel,
    pattern: Option<Seq<u8>>,
    kind: Option<Seq<u8>>,
    k: Seq<u8>,
) -> bool {
    super::walk::wanted(s, pattern, k) && (kind matches Some(t) ==> same_name(
        t,
        kind_bytes(s.slots[k].value),
    ))
}

/// Those of some keys that a page wants, in order.
pub open spec fn page_keys(
    s: super::StoreModel,
    pattern: Option<Seq<u8>>,
    kind: Option<Seq<u8>>,
    keys: Seq<Seq<u8>>,
) -> Seq<Seq<u8>>
    decreases keys.len(),
{
    if keys.len() == 0 {
        Seq::empty()
    } else {
        let before = page_keys(s, pattern, kind, keys.drop_last());
        if page_wants(s, pattern, kind, keys.last()) {
            before.push(keys.last())
        } else {
            before
        }
    }
}

/// The bucket at which a page starts in a table of `n` buckets.
pub open spec fn page_start(cursor: u64, n: nat) -> int {
    crate::byte_map::bucket_of_rank(cursor, n)
}

/// How many buckets a page is to visit: `count`, and at least one, held to
/// what no table exceeds.
pub open spec fn page_budget(count: nat) -> int {
    if count == 0 {
        1
    } else if count > isize::MAX {
        isize::MAX as int
    } else {
        count as int
    }
}

/// How many steps a page takes: as many as bring the buckets visited to its
/// budget, as far as there are buckets.
pub open spec fn page_steps(cursor: u64, count: nat, n: nat) -> int {
    let budget = page_budget(count);
    let wanted = (budget + BUCKETS_PER_STEP - 1) / BUCKETS_PER_STEP as int;
    let left = (n - page_start(cursor, n) + BUCKETS_PER_STEP - 1) / BUCKETS_PER_STEP as int;
    if wanted < left {
        wanted
    } else {
        left
    }
}

/// The bucket before which a page ends.
pub open spec fn page_end(cursor: u64, count: nat, n: nat) -> int {
    let end = page_start(cursor, n) + page_steps(cursor, count, n) * BUCKETS_PER_STEP;
    if end < n {
        end
    } else {
        n as int
    }
}

/// The lowest rank that belongs to a bucket; 0 behind the last one.
pub open spec fn bucket_cursor(b: int, n: nat) -> u64 {
    if b >= n {
        0
    } else {
        ((b * ranks() + n - 1) / n as int) as u64
    }
}

/// Whether a rank lies in the span from one cursor to the next, where 0 as
/// the next one stands for the end.
pub open spec fn spans(cursor: u64, next: u64, rank: u64) -> bool {
    cursor <= rank && (next == 0 || rank < next)
}

proof fn lemma_bucket_cursor(b: int, n: nat)
    requires
        0 <= b < n,
        n <= ranks(),
    ensures
        0 <= (b * ranks() + n - 1) / n as int <= u64::MAX,
        bucket_cursor(b, n) as int == (b * ranks() + n - 1) / n as int,
        bucket_cursor(b, n) as int * n as int >= b * ranks(),
        (bucket_cursor(b, n) as int - 1) * (n as int) < b * ranks(),
{
    let m = n as int;
    let q = (b * ranks() + m - 1) / m;
    let x = b * ranks() + m - 1;
    assert(q * m <= x && x < q * m + m) by (nonlinear_arith)
        requires
            q == x / m,
            m > 0,
    ;
    assert(x >= 0) by (nonlinear_arith)
        requires
            x == b * 0x1_0000_0000_0000_0000 + m - 1,
            b >= 0,
            m > 0,
    ;
    assert(q >= 0) by (nonlinear_arith)
        requires
            q == x / m,
            x >= 0,
            m > 0,
    ;
    assert((q - 1) * m < b * ranks()) by (nonlinear_arith)
        requires
            q * m <= x,
            x == b * 0x1_0000_0000_0000_0000 + m - 1,
            ranks() == 0x1_0000_0000_0000_0000,
    ;
    assert(b * ranks() <= (m - 1) * ranks()) by (nonlinear_arith)
        requires
            b <= m - 1,
            ranks() == 0x1_0000_0000_0000_0000,
    ;
    assert(q <= u64::MAX) by (nonlinear_arith)
        requires
            (q - 1) * m < b * ranks(),
            b * ranks() <= (m - 1) * ranks(),
            ranks() == 0x1_0000_0000_0000_0000,
            0 < m <= 0x1_0000_0000_0000_0000,
    ;
}

/// A rank belongs to a bucket before `b` just if it is below the lowest rank
/// that belongs to `b`.
pub proof fn lemma_cursor_splits(b: int, n: nat, rank: u64)
    requires
        0 <= b < n,
        n <= ranks(),
    ensures
        crate::byte_map::bucket_of_rank(rank, n) < b <==> rank < bucket_cursor(b, n),
{
    lemma_bucket_cursor(b, n);
    let q = bucket_cursor(b, n) as int;
    let m = n as int;
    let r = rank as int;
    let h = (r * m) / ranks();
    let y = r * m;
    assert(h * ranks() <= y && y < h * ranks() + ranks()) by (nonlinear_arith)
        requires
            h == y / ranks(),
            ranks() == 0x1_0000_0000_0000_0000,
    ;
    if r < q {
        assert(y < b * ranks()) by (nonlinear_arith)
            requires
                y == r * m,
                r <= q - 1,
                (q - 1) * m < b * ranks(),
                m > 0,
        ;
        assert(h < b) by (nonlinear_arith)
            requires
                h * ranks() <= y,
                y < b * ranks(),
                ranks() == 0x1_0000_0000_0000_0000,
        ;
    } else {
        assert(y >= b * ranks()) by (nonlinear_arith)
            requires
                y == r * m,
                r >= q,
                q * m >= b * ranks(),
                m > 0,
        ;
        assert(h >= b) by (nonlinear_arith)
            requires
                y < h * ranks() + ranks(),
                y >= b * ranks(),
                ranks() == 0x1_0000_0000_0000_0000,
        ;
    }
}

/// Later ranks belong to later buckets.
proof fn lemma_rank_order(a: u64, b: u64, n: nat)
    requires
        a <= b,
        n > 0,
    ensures
        crate::byte_map::bucket_of_rank(a, n) <= crate::byte_map::bucket_of_rank(b, n),
{
    let x = a as int * n as int;
    let y = b as int * n as int;
    assert(x <= y) by (nonlinear_arith)
        requires
            x == a as int * n as int,
            y == b as int * n as int,
            a <= b,
            n > 0,
    ;
    assert(x / 0x1_0000_0000_0000_0000 <= y / 0x1_0000_0000_0000_0000) by (nonlinear_arith)
        requires
            x <= y,
    ;
}

/// A page comes on: its next cursor is the end or lies behind its own.
proof fn lemma_page_progress(cursor: u64, end: int, n: nat)
    requires
        n > 0,
        n <= ranks(),
        page_start(cursor, n) < end <= n,
    ensures
        bucket_cursor(end, n) == 0 || cursor < bucket_cursor(end, n),
{
    if end < n {
        lemma_cursor_splits(end, n, cursor);
    }
}

/// The cursor of a bucket.
fn cursor_of(b: usize, n: usize) -> (r: u64)
    requires
        b <= n,
    ensures
        r == bucket_cursor(b as int, n as nat),
{
    if b >= n {
        return 0;
    }
    proof {
        lemma_bucket_cursor(b as int, n as nat);
        assert(b as int * 0x1_0000_0000_0000_0000 + n - 1 <= u128::MAX) by (nonlinear_arith)
            requires
                b <= 0xffff_ffff_ffff_ffff,
                n <= 0xffff_ffff_ffff_ffff,
        ;
    }
    let wide: u128 = b as u128 * 0x1_0000_0000_0000_0000u128 + (n - 1) as u128;
    (wide / n as u128) as u64
}

fn lower_byte(b: u8) -> (r: u8)
    ensures
        r == lower(b),
{
    if b >= 65 && b <= 90 {
        b + 32
    } else {
        b
    }
}

/// Whether two names are the same but for the case of letters.
fn eq_ignore_case(a: &[u8], b: &[u8]) -> (r: bool)
    ensures
        r == same_name(a@, b@),
{
    if a.len() != b.len() {
        return false;
    }
    let mut i: usize = 0;
    while i < a.len()
        invariant
            i <= a@.len(),
            a@.len() == b@.len(),
            forall|j: int| 0 <= j < i ==> lower(#[trigger] a@[j]) == lower(b@[j]),
        decreases a@.len() - i,
    {
        if lower_byte(a[i]) != lower_byte(b[i]) {
            return false;
        }
        i = i + 1;
    }
    true
}

/// Whether a value's type has this name, but for the case of letters.
fn kind_is(v: &Value, name: &[u8]) -> (r: bool)
    requires
        v.wf(),
    ensures
        r == same_name(name@, kind_bytes(v@)),
{
    let own: Vec<u8> = match v {
        Value::Str(_) | Value::Int(_) | Value::ArcBulk(_) => vec![115u8, 116, 114, 105, 110, 103],
        Value::Hash(_) | Value::SegHash(_) | Value::SmallHashInline(_) | Value::PackedRow(
            _,
        ) => vec![104u8, 97, 115, 104],
        Value::List(_) | Value::SegList(_) | Value::SmallListInline(_) => vec![
            108u8,
            105,
            115,
            116,
        ],
        Value::FlatSet(_) | Value::SegSet(_) | Value::SmallSetInline(_) => vec![115u8, 101, 116],
        Value::ZSet(_) | Value::SmallZSetInline(_) => vec![122u8, 115, 101, 116],
        Value::Stream(_) => vec![115u8, 116, 114, 101, 97, 109],
        Value::Cold(c) => match c.kind {
            ColdKind::Str => vec![115u8, 116, 114, 105, 110, 103],
            ColdKind::Hash => vec![104u8, 97, 115, 104],
        },
    };
    assert(own@ =~= kind_bytes(v@));
    eq_ignore_case(name, own.as_slice())
}

impl Store {
    /// One page of keys from a cursor on: those that are live, match the
    /// pattern and hold a value of the named type, as far as these are
    /// given. `count` bounds the buckets visited, not the keys. Gives the
    /// cursor of the next page, 0 when there is none, the keys, and how many
    /// buckets were visited.
    pub fn scan_page(
        &self,
        cursor: u64,
        count: usize,
        pattern: Option<&[u8]>,
        type_filter: Option<&[u8]>,
    ) -> (r: (u64, Vec<Vec<u8>>, usize))
        requires
            self.wf(),
        ensures
            self.breadth() == 0 ==> r.0 == 0 && r.1@.len() == 0 && r.2 == 0,
            self.breadth() > 0 ==> {
                let n = self.breadth();
                let end = page_end(cursor, count as nat, n);
                &&& r.0 == bucket_cursor(end, n)
                &&& crate::bytes::deep(r.1@) == page_keys(
                    self@,
                    super::walk::pattern_of(pattern),
                    super::walk::pattern_of(type_filter),
                    self.key_order().subrange(
                        self.place(page_start(cursor, n), 0),
                        self.place(end, 0),
                    ),
                )
                &&& r.2 == page_steps(cursor, count as nat, n) * BUCKETS_PER_STEP
            },
            page_full(
                *self,
                cursor,
                super::walk::pattern_of(pattern),
                super::walk::pattern_of(type_filter),
                r.0,
                crate::bytes::deep(r.1@),
            ),
    {
        let ghost pat = super::walk::pattern_of(pattern);
        let ghost kind = super::walk::pattern_of(type_filter);
        let n: usize = self.map.bucket_count();
        let mut keys: Vec<Vec<u8>> = Vec::new();
        proof {
            self.lemma_walk_map();
        }
        if n == 0 {
            proof {
                self.map.lemma_place(0, 0);
                self.lemma_key_order();
                assert forall|k: Seq<u8>|
                    #![trigger page_wants(self@, pat, kind, k)]
                    !page_wants(self@, pat, kind, k) by {
                    if self@.slots.dom().contains(k) {
                        assert(self.key_order().to_set().contains(k));
                        assert(self.key_order().contains(k));
                    }
                }
                assert(crate::bytes::deep(keys@) =~= Seq::empty());
            }
            return (0, keys, 0);
        }
        let budget: usize = if count == 0 {
            1
        } else if count > isize::MAX as usize {
            isize::MAX as usize
        } else {
            count
        };
        let start: usize = bucket_for(cursor, n);
        let ghost order = self.key_order();
        let ghost p0 = self.map.place(start as int, 0);
        let mut end: usize = start;
        let mut visited: usize = 0;
        proof {
            self.map.lemma_place(start as int, 0);
            assert(order.subrange(p0, p0) =~= Seq::empty());
            assert(crate::bytes::deep(keys@) =~= Seq::empty());
        }
        while visited < budget && end < n
            invariant
                self.wf(),
                n == self.map.chains().len(),
                order == self.map.key_order(),
                pat == super::walk::pattern_of(pattern),
                kind == super::walk::pattern_of(type_filter),
                start <= end <= n,
                start < n,
                0 < budget <= isize::MAX,
                p0 == self.map.place(start as int, 0),
                0 <= p0 <= self.map.place(end as int, 0) <= order.len(),
                visited % BUCKETS_PER_STEP == 0,
                visited < budget + BUCKETS_PER_STEP,
                end == (if start + visited < n {
                    start + visited
                } else {
                    n as int
                }),
                visited < n - start + BUCKETS_PER_STEP,
                visited > 0 ==> visited - BUCKETS_PER_STEP < budget && start + visited
                    - BUCKETS_PER_STEP < n,
                crate::bytes::deep(keys@) == page_keys(
                    self@,
                    pat,
                    kind,
                    order.subrange(p0, self.map.place(end as int, 0)),
                ),
            decreases n - end,
        {
            let to: usize = if n - end > BUCKETS_PER_STEP {
                end + BUCKETS_PER_STEP
            } else {
                n
            };
            self.page_part(&mut keys, pattern, type_filter, end, to, Ghost(p0));
            proof {
                self.map.lemma_place(to as int, 0);
                self.map.lemma_place_order(end as int, to as int);
            }
            end = to;
            visited = visited + BUCKETS_PER_STEP;
        }
        proof {
            lemma_page_count(cursor, count as nat, n as nat, budget as int, visited as int);
            assert(end == page_end(cursor, count as nat, n as nat));
            self.lemma_page(cursor, pat, kind, end as int, crate::bytes::deep(keys@));
        }
        (cursor_of(end, n), keys, visited)
    }

    /// Adds the keys that a page wants from the buckets `from` up to `to`.
    fn page_part(
        &self,
        keys: &mut Vec<Vec<u8>>,
        pattern: Option<&[u8]>,
        type_filter: Option<&[u8]>,
        from: usize,
        to: usize,
        Ghost(p0): Ghost<int>,
    )
        requires
            self.wf(),
            from <= to <= self.map.chains().len(),
            0 <= p0 <= self.map.place(from as int, 0),
            crate::bytes::deep(old(keys)@) == page_keys(
                self@,
                super::walk::pattern_of(pattern),
                super::walk::pattern_of(type_filter),
                self.map.key_order().subrange(p0, self.map.place(from as int, 0)),
            ),
        ensures
            crate::bytes::deep(final(keys)@) == page_keys(
                self@,
                super::walk::pattern_of(pattern),
                super::walk::pattern_of(type_filter),
                self.map.key_order().subrange(p0, self.map.place(to as int, 0)),
            ),
    {
        let ghost pat = super::walk::pattern_of(pattern);
        let ghost kind = super::walk::pattern_of(type_filter);
        let ghost order = self.map.key_order();
        let mut b: usize = from;
        proof {
            self.map.lemma_place(from as int, 0);
        }
        while b < to
            invariant
                self.wf(),
                pat == super::walk::pattern_of(pattern),
                kind == super::walk::pattern_of(type_filter),
                order == self.map.key_order(),
                from <= b <= to <= self.map.chains().len(),
                0 <= p0 <= self.map.place(b as int, 0) <= order.len(),
                crate::bytes::deep(keys@) == page_keys(
                    self@,
                    pat,
                    kind,
                    order.subrange(p0, self.map.place(b as int, 0)),
                ),
            decreases to - b,
        {
            let n: usize = self.map.bucket_len(b);
            let mut i: usize = 0;
            while i < n
                invariant
                    self.wf(),
                    pat == super::walk::pattern_of(pattern),
                    kind == super::walk::pattern_of(type_filter),
                    order == self.map.key_order(),
                    b < self.map.chains().len(),
                    n == self.map.chains()[b as int].len(),
                    i <= n,
                    0 <= p0 <= self.map.place(b as int, i as int) <= order.len(),
                    crate::bytes::deep(keys@) == page_keys(
                        self@,
                        pat,
                        kind,
                        order.subrange(p0, self.map.place(b as int, i as int)),
                    ),
                decreases n - i,
            {
                let ghost p = self.map.place(b as int, i as int);
                let k = self.map.key_at(b, i);
                let e = self.map.value_at(b, i);
                let ghost before = crate::bytes::deep(keys@);
                proof {
                    self.map.lemma_place(b as int, i as int);
                    self.map.lemma_place(b as int, i + 1);
                    self.map.lemma_chains();
                    let kv = self.map.chains()[b as int][i as int].0;
                    assert(self.map@.dom().contains(kv));
                    assert(self.map@[kv].wf(kv));
                    assert(order.subrange(p0, p + 1).drop_last() =~= order.subrange(p0, p));
                    assert(order.subrange(p0, p + 1).last() == kv);
                }
                let fits: bool = !e.is_expired_at(self.now_ns()) && (match pattern {
                    Some(g) => glob_match(g, k.as_slice()),
                    None => true,
                }) && (match type_filter {
                    Some(t) => kind_is(&e.value, t),
                    None => true,
                });
                if fits {
                    keys.push(copy_bytes(k.as_slice()));
                    assert(crate::bytes::deep(keys@) =~= before.push(k@));
                }
                i = i + 1;
            }
            proof {
                self.map.lemma_place(b as int, n as int);
                self.map.lemma_place(b + 1, 0);
            }
            b = b + 1;
        }
    }

    proof fn lemma_page(
        &self,
        cursor: u64,
        pat: Option<Seq<u8>>,
        kind: Option<Seq<u8>>,
        end: int,
        keys: Seq<Seq<u8>>,
    )
        requires
            self.wf(),
            self.map.chains().len() > 0,
            self.map.chains().len() <= usize::MAX,
            page_start(cursor, self.map.chains().len()) < end <= self.map.chains().len(),
            keys == page_keys(
                self@,
                pat,
                kind,
                self.map.key_order().subrange(
                    self.map.place(page_start(cursor, self.map.chains().len()), 0),
                    self.map.place(end, 0),
                ),
            ),
        ensures
            page_full(
                *self,
                cursor,
                pat,
                kind,
                bucket_cursor(end, self.map.chains().len()),
                keys,
            ),
    {
        let n = self.map.chains().len();
        let start = page_start(cursor, n);
        let order = self.map.key_order();
        crate::byte_map::lemma_bucket_of_rank(cursor, n);
        lemma_page_progress(cursor, end, n);
        self.map.lemma_key_order();
        self.map.lemma_chains();
        self.map.lemma_place(start, 0);
        self.map.lemma_place(end, 0);
        self.map.lemma_place_order(start, end);
        let a = self.map.place(start, 0);
        let z = self.map.place(end, 0);
        let part = order.subrange(a, z);
        assert(part.no_duplicates());
        lemma_page_keys(self@, pat, kind, part);
        let next = bucket_cursor(end, n);
        assert(self@.slots.dom() =~= self.map@.dom());
        assert forall|k: Seq<u8>|
            #![trigger page_wants(self@, pat, kind, k)]
            page_wants(self@, pat, kind, k) && spans(
                cursor,
                next,
                crate::bytes::rank_of(k),
            ) implies keys.contains(k) by {
            let rank = crate::bytes::rank_of(k);
            assert(self.map@.dom().contains(k));
            let (b, i) = choose|b: int, i: int|
                0 <= b < self.map.chains().len() && 0 <= i < self.map.chains()[b].len() && (
                #[trigger] self.map.chains()[b][i]).0 == k;
            self.map.lemma_homes(b, i);
            lemma_rank_order(cursor, rank, n);
            if end < n {
                lemma_cursor_splits(end, n, rank);
                lemma_bucket_cursor(end, n);
                assert(next != 0) by {
                    if next == 0 {
                        assert(end * ranks() <= 0);
                        assert(end > 0);
                    }
                }
            }
            assert(start <= b < end);
            self.map.lemma_place(b, i);
            self.map.lemma_place(b, self.map.chains()[b].len() as int);
            self.map.lemma_place_order(start, b);
            self.map.lemma_place_order(b + 1, end);
            let p = self.map.place(b, i);
            assert(a <= p < z);
            assert(part[p - a] == k);
        }
    }
}

/// That a page is full: it holds different keys that it wants, and every key
/// that it wants whose rank lies in the span from its cursor to the next.
/// The next cursor is the end or lies behind.
pub open spec fn page_full(
    store: Store,
    cursor: u64,
    pattern: Option<Seq<u8>>,
    kind: Option<Seq<u8>>,
    next: u64,
    keys: Seq<Seq<u8>>,
) -> bool {
    &&& next == 0 || cursor < next
    &&& keys.no_duplicates()
    &&& forall|k: Seq<u8>| #[trigger] keys.contains(k) ==> page_wants(store@, pattern, kind, k)
    &&& forall|k: Seq<u8>|
        #![trigger page_wants(store@, pattern, kind, k)]
        page_wants(store@, pattern, kind, k) && spans(cursor, next, crate::bytes::rank_of(k))
            ==> keys.contains(k)
}

proof fn lemma_page_count(cursor: u64, count: nat, n: nat, budget: int, visited: int)
    requires
        n > 0,
        budget == page_budget(count),
        0 <= page_start(cursor, n) < n,
        visited > 0,
        visited % BUCKETS_PER_STEP as int == 0,
        visited - BUCKETS_PER_STEP < budget,
        page_start(cursor, n) + visited - BUCKETS_PER_STEP < n,
        visited >= budget || page_start(cursor, n) + visited >= n,
    ensures
        visited == page_steps(cursor, count, n) * BUCKETS_PER_STEP,
{
    let left = n - page_start(cursor, n);
    assert(visited == (visited / 16) * 16);
    let v = visited / 16;
    let w = (budget + 15) / 16;
    let l = (left + 15) / 16;
    assert(16 * v - 16 < budget);
    assert(v <= w);
    assert(v <= l);
}

proof fn lemma_page_keys(
    s: super::StoreModel,
    pattern: Option<Seq<u8>>,
    kind: Option<Seq<u8>>,
    keys: Seq<Seq<u8>>,
)
    requires
        keys.no_duplicates(),
    ensures
        page_keys(s, pattern, kind, keys).no_duplicates(),
        forall|k: Seq<u8>|
            #![trigger page_keys(s, pattern, kind, keys).contains(k)]
            #![trigger keys.contains(k)]
            page_keys(s, pattern, kind, keys).contains(k) <==> page_wants(s, pattern, kind, k)
                && keys.contains(k),
    decreases keys.len(),
{
    let w = page_keys(s, pattern, kind, keys);
    if keys.len() > 0 {
        let d = keys.drop_last();
        let x = keys.last();
        lemma_page_keys(s, pattern, kind, d);
        let v = page_keys(s, pattern, kind, d);
        assert(!d.contains(x)) by {
            if d.contains(x) {
                let j = choose|j: int| 0 <= j < d.len() && d[j] == x;
                assert(keys[j] == x);
            }
        }
        assert(d.push(x) =~= keys);
        assert forall|k: Seq<u8>|
            #![trigger w.contains(k)]
            #![trigger keys.contains(k)]
            w.contains(k) <==> page_wants(s, pattern, kind, k) && keys.contains(k) by {
            crate::value_set::lemma_push_contains(d, x, k);
            crate::value_set::lemma_push_contains(v, x, k);
            assert(v.contains(k) <==> page_wants(s, pattern, kind, k) && d.contains(k));
        }
        if page_wants(s, pattern, kind, x) {
            assert(!v.contains(x));
            assert forall|a: int, b: int| 0 <= a < b < w.len() implies w[a] != w[b] by {
                assert(v.contains(v[a]));
            }
        }
    }
}

/// The pages of a scan from cursor 0 to the end cover every rank, however
/// the table grew between them. So a key that is there all the time is met.
pub proof fn lemma_scan_covers(cursors: Seq<u64>, rank: u64)
    requires
        cursors.len() >= 2,
        cursors.first() == 0,
        cursors.last() == 0,
        forall|i: int|
            0 < i < cursors.len() - 1 ==> #[trigger] cursors[i] != 0 && cursors[i - 1] < cursors[i],
    ensures
        exists|i: int|
            0 <= i < cursors.len() - 1 && spans(#[trigger] cursors[i], cursors[i + 1], rank),
    decreases cursors.len(),
{
    let n = cursors.len();
    let last = cursors[n - 2];
    if last <= rank {
        assert(spans(cursors[n - 2], cursors[n - 1], rank));
    } else {
        assert(n > 2);
        let shorter = cursors.subrange(0, n - 2).push(0);
        assert forall|i: int|
            0 < i < shorter.len() - 1 implies #[trigger] shorter[i] != 0 && shorter[i - 1]
            < shorter[i] by {
            assert(cursors[i] != 0);
        }
        lemma_scan_covers(shorter, rank);
        let i = choose|i: int|
            0 <= i < shorter.len() - 1 && spans(#[trigger] shorter[i], shorter[i + 1], rank);
        assert(spans(cursors[i], cursors[i + 1], rank)) by {
            assert(shorter[i] == cursors[i]);
            if i + 1 < n - 2 {
                assert(shorter[i + 1] == cursors[i + 1]);
            } else {
                assert(cursors[i + 1] == last);
            }
        }
    }
}

} // verus!
