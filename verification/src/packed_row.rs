//! A declared table's row as one buffer: the values in column order, and
//! where each one ends.
//!
//! ```text
//! [ncol u16][present bitmap, ceil(ncol / 8)][end_1 u16] ... [end_n u16][values ...]
//! ```
//!
//! Column `i` occupies `end[i - 1] .. end[i]` of the values. An absent
//! column has its bit clear; a present, empty one has the bit set and a
//! span of width zero.
use vstd::prelude::*;
use std::sync::Arc;
use crate::bytes::bytes_eq;
use crate::le::{push_le, read_le};

verus! {

/// The largest total of value bytes that a packed row can address.
pub const PACKED_MAX: usize = 65535;

/// Bytes of the boxed inner struct that every row has beside its buffer.
pub const PACKED_INNER_BYTES: usize = 32;

/// The column names of one declared table, shared by every row in it.
pub type ColumnNames = Arc<Vec<Vec<u8>>>;

/// A declared row: its values, and its table's column names.
pub struct PackedRow(Box<PackedInner>);

/// What a [`PackedRow`] points at.
pub struct PackedInner {
    cols: ColumnNames,
    buf: Vec<u8>,
    row: Ghost<Seq<Option<Seq<u8>>>>,
}

/// The bytes of an optional value.
pub open spec fn opt_bytes(o: Option<&[u8]>) -> Option<Seq<u8>> {
    match o {
        Some(v) => Some(v@),
        None => None,
    }
}

/// The columns that a slice of optional values stands for.
pub open spec fn opt_cols(cols: Seq<Option<&[u8]>>) -> Seq<Option<Seq<u8>>> {
    Seq::new(cols.len(), |i: int| opt_bytes(cols[i]))
}

/// What a column contributes to the values: nothing when it is absent.
pub open spec fn col_value(c: Option<Seq<u8>>) -> Seq<u8> {
    match c {
        Some(v) => v,
        None => Seq::empty(),
    }
}

/// The values of a row, column by column.
pub open spec fn col_values(row: Seq<Option<Seq<u8>>>) -> Seq<Seq<u8>> {
    Seq::new(row.len(), |i: int| col_value(row[i]))
}

/// Where column `i` ends among the values; also where column `i + 1` starts.
pub open spec fn col_end(row: Seq<Option<Seq<u8>>>, i: int) -> nat {
    crate::packed::cat(col_values(row).subrange(0, i)).len()
}

/// Total bytes of a row's values.
pub open spec fn payload_len(row: Seq<Option<Seq<u8>>>) -> nat {
    crate::packed::cat(col_values(row)).len()
}

/// Number of bitmap bytes for `n` columns.
pub open spec fn bitmap_len(n: nat) -> nat {
    (n + 7) / 8
}

/// Whether column `i` is present.
pub open spec fn present(row: Seq<Option<Seq<u8>>>, i: int) -> bool {
    0 <= i < row.len() && row[i] is Some
}

/// Bit `k` of `b`.
pub open spec fn bit(b: u8, k: u8) -> bool {
    b & (1u8 << k) != 0
}

/// The first `k` bits of the bitmap byte that starts at column `base`.
pub open spec fn bitmap_bits(row: Seq<Option<Seq<u8>>>, base: int, k: nat) -> u8
    decreases k,
{
    if k == 0 {
        0
    } else {
        let low = bitmap_bits(row, base, (k - 1) as nat);
        if present(row, base + k - 1) {
            low | (1u8 << ((k - 1) as u8))
        } else {
            low
        }
    }
}

/// The bitmap of a row.
pub open spec fn bitmap(row: Seq<Option<Seq<u8>>>) -> Seq<u8> {
    Seq::new(bitmap_len(row.len()), |b: int| bitmap_bits(row, 8 * b, 8))
}

/// The end offsets of a row, each as two bytes.
pub open spec fn ends(row: Seq<Option<Seq<u8>>>) -> Seq<Seq<u8>> {
    Seq::new(row.len(), |i: int| crate::le::le_bytes(col_end(row, i + 1), 2))
}

/// The whole buffer of a row.
pub open spec fn layout(row: Seq<Option<Seq<u8>>>) -> Seq<u8> {
    crate::le::le_bytes(row.len(), 2) + bitmap(row) + crate::packed::cat(ends(row))
        + crate::packed::cat(col_values(row))
}

/// Whether a row can be packed.
pub open spec fn fits(row: Seq<Option<Seq<u8>>>) -> bool {
    row.len() <= 65535 && payload_len(row) <= PACKED_MAX
}

proof fn lemma_set_bit(b: u8, k: u8, j: u8)
    by (bit_vector)
    requires
        k < 8,
        j < 8,
    ensures
        (b | (1u8 << k)) & (1u8 << j) != 0 <==> (j == k || b & (1u8 << j) != 0),
{
}

proof fn lemma_zero_bit(j: u8)
    by (bit_vector)
    ensures
        0u8 & (1u8 << j) == 0,
{
}

proof fn lemma_bitmap_bits(row: Seq<Option<Seq<u8>>>, base: int, k: nat, j: u8)
    requires
        k <= 8,
        j < 8,
    ensures
        bit(bitmap_bits(row, base, k), j) == (j < k && present(row, base + j)),
    decreases k,
{
    if k == 0 {
        lemma_zero_bit(j);
    } else {
        lemma_bitmap_bits(row, base, (k - 1) as nat, j);
        lemma_set_bit(bitmap_bits(row, base, (k - 1) as nat), (k - 1) as u8, j);
    }
}

proof fn lemma_cat_uniform(rs: Seq<Seq<u8>>, w: nat)
    requires
        forall|i: int| 0 <= i < rs.len() ==> (#[trigger] rs[i]).len() == w,
    ensures
        crate::packed::cat(rs).len() == w * rs.len(),
    decreases rs.len(),
{
    if rs.len() > 0 {
        let p = rs.drop_last();
        lemma_cat_uniform(p, w);
        assert(w * rs.len() == w * (rs.len() - 1) + w) by (nonlinear_arith)
            requires
                rs.len() > 0,
        ;
    } else {
        assert(w * 0 == 0);
    }
}

proof fn lemma_ends_len(row: Seq<Option<Seq<u8>>>)
    ensures
        crate::packed::cat(ends(row)).len() == 2 * row.len(),
        forall|i: int| 0 <= i <= row.len() ==> crate::packed::cat(#[trigger] ends(row).subrange(0, i)).len() == 2 * i,
{
    assert forall|i: int| 0 <= i < row.len() implies (#[trigger] ends(row)[i]).len() == 2 by {
        crate::le::lemma_le_len(col_end(row, i + 1), 2);
    }
    lemma_cat_uniform(ends(row), 2);
    assert forall|i: int| 0 <= i <= row.len() implies crate::packed::cat(
        #[trigger] ends(row).subrange(0, i),
    ).len() == 2 * i by {
        lemma_cat_uniform(ends(row).subrange(0, i), 2);
    }
}

/// The buffer positions of the parts of a row.
pub proof fn lemma_layout(row: Seq<Option<Seq<u8>>>)
    requires
        fits(row),
    ensures
        layout(row).len() == 2 + bitmap_len(row.len()) + 2 * row.len() + payload_len(row),
        crate::le::le_value(layout(row).subrange(0, 2)) == row.len(),
        forall|i: int|
            0 <= i < row.len() ==> bit(#[trigger] layout(row)[2 + i / 8], (i % 8) as u8) == present(
                row,
                i,
            ),
        forall|i: int|
            #![trigger row[i]]
            0 <= i < row.len() ==> {
                let at = 2 + bitmap_len(row.len()) + 2 * i;
                crate::le::le_value(layout(row).subrange(at as int, at + 2)) == col_end(row, i + 1)
            },
        forall|i: int|
            #![trigger row[i]]
            0 <= i < row.len() ==> {
                let head = 2 + bitmap_len(row.len()) + 2 * row.len();
                &&& col_end(row, i) <= col_end(row, i + 1) <= payload_len(row)
                &&& layout(row).subrange((head + col_end(row, i)) as int, (head + col_end(row, i + 1)) as int)
                    == col_value(row[i])
            },
{
    let n = row.len();
    let bm = bitmap_len(n);
    let all = layout(row);
    let count = crate::le::le_bytes(n, 2);
    let es = crate::packed::cat(ends(row));
    let vs = crate::packed::cat(col_values(row));
    crate::le::lemma_pow256();
    crate::le::lemma_le_roundtrip(n, 2);
    lemma_ends_len(row);
    assert(all.subrange(0, 2) =~= count);
    assert forall|i: int| 0 <= i < n implies bit(#[trigger] all[2 + i / 8], (i % 8) as u8)
        == present(row, i) by {
        assert(all[2 + i / 8] == bitmap(row)[i / 8]);
        lemma_bitmap_bits(row, 8 * (i / 8), 8, (i % 8) as u8);
    }
    assert forall|i: int| #![trigger row[i]] 0 <= i < n implies {
        let at = 2 + bm + 2 * i;
        crate::le::le_value(all.subrange(at as int, at + 2)) == col_end(row, i + 1)
    } by {
        let at = 2 + bm + 2 * i;
        crate::packed::lemma_cat_split(ends(row), i);
        lemma_col_end(row, i + 1);
        crate::le::lemma_le_roundtrip(col_end(row, i + 1), 2);
        assert(all.subrange(at as int, at + 2) =~= ends(row)[i]);
    }
    assert forall|i: int| #![trigger row[i]] 0 <= i < n implies {
        let head = 2 + bm + 2 * n;
        &&& col_end(row, i) <= col_end(row, i + 1) <= payload_len(row)
        &&& all.subrange((head + col_end(row, i)) as int, (head + col_end(row, i + 1)) as int) == col_value(
            row[i],
        )
    } by {
        let head = 2 + bm + 2 * n;
        crate::packed::lemma_cat_split(col_values(row), i);
        lemma_col_end(row, i + 1);
        assert(all.subrange((head + col_end(row, i)) as int, (head + col_end(row, i + 1)) as int)
            =~= col_value(row[i]));
    }
}

proof fn lemma_col_end(row: Seq<Option<Seq<u8>>>, i: int)
    requires
        0 <= i <= row.len(),
    ensures
        col_end(row, i) <= payload_len(row),
{
    let vs = col_values(row);
    let a = vs.subrange(0, i);
    let b = vs.subrange(i, vs.len() as int);
    crate::packed::lemma_cat_add(a, b);
    assert(a + b =~= vs);
}

/// Whether column `i` is named `field`.
pub open spec fn named(names: Seq<Vec<u8>>, field: Seq<u8>, i: int) -> bool {
    0 <= i < names.len() && names[i]@ == field
}

/// Column `i` is the first one named `field`.
pub open spec fn first_named(names: Seq<Vec<u8>>, field: Seq<u8>, i: int) -> bool {
    named(names, field, i) && forall|j: int| 0 <= j < i ==> !named(names, field, j)
}

/// The value of the first column named `field`.
pub open spec fn named_value(names: Seq<Vec<u8>>, row: Seq<Option<Seq<u8>>>, field: Seq<u8>) -> Option<
    Seq<u8>,
> {
    if exists|i: int| first_named(names, field, i) {
        let i = choose|i: int| first_named(names, field, i);
        row[i]
    } else {
        None
    }
}

/// Number of present columns among the first `n`.
pub open spec fn present_count(row: Seq<Option<Seq<u8>>>, n: nat) -> nat
    decreases n,
{
    if n == 0 {
        0
    } else {
        present_count(row, (n - 1) as nat) + (if present(row, n - 1) {
            1nat
        } else {
            0nat
        })
    }
}

/// Names and values of the present columns among the first `n`.
pub open spec fn present_fields(
    names: Seq<Vec<u8>>,
    row: Seq<Option<Seq<u8>>>,
    n: nat,
) -> Seq<(Seq<u8>, Seq<u8>)>
    decreases n,
{
    if n == 0 {
        Seq::empty()
    } else {
        let before = present_fields(names, row, (n - 1) as nat);
        match row[n - 1] {
            Some(v) => before.push((names[n - 1]@, v)),
            None => before,
        }
    }
}

impl View for PackedRow {
    type V = Seq<Option<Seq<u8>>>;

    /// The row's columns, `None` where one is absent.
    closed spec fn view(&self) -> Seq<Option<Seq<u8>>> {
        self.0.row@
    }
}

impl PackedRow {
    /// The buffer is the layout of the columns, one name per column.
    pub closed spec fn wf(&self) -> bool {
        &&& fits(self.0.row@)
        &&& self.0.buf@ == layout(self.0.row@)
        &&& self.0.cols@.len() == self.0.row@.len()
    }

    /// The column names.
    pub closed spec fn col_names(&self) -> Seq<Vec<u8>> {
        self.0.cols@
    }

    /// The row's buffer.
    pub closed spec fn buffer(&self) -> Seq<u8> {
        self.0.buf@
    }

    /// A row's buffer is the documented layout of its columns.
    pub proof fn lemma_wf(&self)
        requires
            self.wf(),
        ensures
            fits(self@),
            self.buffer() == layout(self@),
            self.col_names().len() == self@.len(),
    {
    }

    /// Packs one value per declared column, `None` for an absent one. Fails
    /// exactly when the row does not fit.
    pub fn build(names: &ColumnNames, cols: &[Option<&[u8]>]) -> (r: Option<Self>)
        requires
            names@.len() == cols@.len(),
        ensures
            match r {
                Some(p) => {
                    &&& fits(opt_cols(cols@))
                    &&& p.wf()
                    &&& p@ == opt_cols(cols@)
                    &&& p.col_names() == names@
                },
                None => !fits(opt_cols(cols@)),
            },
    {
        let n: usize = cols.len();
        if n > 65535 {
            return None;
        }
        let ghost row = opt_cols(cols@);
        let ghost vals = col_values(row);
        let mut total: usize = 0;
        let mut i: usize = 0;
        assert(vals.subrange(0, 0) =~= Seq::empty());
        while i < n
            invariant
                n == cols@.len(),
                row == opt_cols(cols@),
                vals == col_values(row),
                i <= n,
                total == col_end(row, i as int),
                total <= PACKED_MAX,
            decreases n - i,
        {
            proof {
                crate::packed::lemma_cat_split(vals, i as int);
                lemma_col_end(row, i + 1);
            }
            if let Some(v) = cols[i] {
                if v.len() > PACKED_MAX - total {
                    return None;
                }
                total = total + v.len();
            }
            i = i + 1;
        }
        assert(vals.subrange(0, n as int) =~= vals);
        let mut out: Vec<u8> = Vec::new();
        push_le(&mut out, n as u64, 2);
        let bm: usize = (n + 7) / 8;
        let ghost head = out@;
        assert(head =~= crate::le::le_bytes(n as nat, 2));
        let mut b: usize = 0;
        assert(bitmap(row).subrange(0, 0) =~= Seq::empty());
        assert(out@ =~= head + bitmap(row).subrange(0, 0));
        while b < bm
            invariant
                n == cols@.len(),
                n <= 65535,
                bm == (n + 7) / 8,
                row == opt_cols(cols@),
                b <= bm,
                out@ == head + bitmap(row).subrange(0, b as int),
            decreases bm - b,
        {
            let mut byte: u8 = 0;
            let mut k: usize = 0;
            while k < 8
                invariant
                    n == cols@.len(),
                    n <= 65535,
                    b < bm,
                    bm == (n + 7) / 8,
                    row == opt_cols(cols@),
                    k <= 8,
                    byte == bitmap_bits(row, 8 * b, k as nat),
                decreases 8 - k,
            {
                let c: usize = 8 * b + k;
                if c < n && cols[c].is_some() {
                    byte = byte | (1u8 << (k as u8));
                }
                k = k + 1;
            }
            out.push(byte);
            proof {
                assert(bitmap(row).subrange(0, b + 1) =~= bitmap(row).subrange(0, b as int).push(
                    byte,
                ));
                assert(out@ =~= head + bitmap(row).subrange(0, b + 1));
            }
            b = b + 1;
        }
        assert(bitmap(row).subrange(0, bm as int) =~= bitmap(row));
        let ghost head2 = out@;
        let mut end: usize = 0;
        let mut j: usize = 0;
        assert(ends(row).subrange(0, 0) =~= Seq::empty());
        assert(out@ =~= head2 + crate::packed::cat(ends(row).subrange(0, 0)));
        while j < n
            invariant
                n == cols@.len(),
                row == opt_cols(cols@),
                vals == col_values(row),
                payload_len(row) <= PACKED_MAX,
                j <= n,
                end == col_end(row, j as int),
                out@ == head2 + crate::packed::cat(ends(row).subrange(0, j as int)),
            decreases n - j,
        {
            proof {
                crate::packed::lemma_cat_split(vals, j as int);
                lemma_col_end(row, j + 1);
                crate::packed::lemma_cat_split(ends(row), j as int);
            }
            if let Some(v) = cols[j] {
                end = end + v.len();
            }
            push_le(&mut out, end as u64, 2);
            proof {
                assert(out@ =~= head2 + crate::packed::cat(ends(row).subrange(0, j + 1)));
            }
            j = j + 1;
        }
        assert(ends(row).subrange(0, n as int) =~= ends(row));
        let ghost head3 = out@;
        let mut m: usize = 0;
        assert(out@ =~= head3 + crate::packed::cat(vals.subrange(0, 0)));
        while m < n
            invariant
                n == cols@.len(),
                row == opt_cols(cols@),
                vals == col_values(row),
                m <= n,
                out@ == head3 + crate::packed::cat(vals.subrange(0, m as int)),
            decreases n - m,
        {
            proof {
                crate::packed::lemma_cat_split(vals, m as int);
            }
            let ghost before = out@;
            if let Some(v) = cols[m] {
                out.extend_from_slice(v);
                assert(out@ =~= before + v@);
            } else {
                assert(out@ =~= before + vals[m as int]);
            }
            assert(out@ =~= head3 + crate::packed::cat(vals.subrange(0, m + 1)));
            m = m + 1;
        }
        assert(out@ =~= layout(row));
        Some(
            PackedRow(
                Box::new(
                    PackedInner { cols: crate::shared::share(names), buf: out, row: Ghost(row) },
                ),
            ),
        )
    }

    /// Declared column count.
    pub fn columns(&self) -> (r: usize)
        requires
            self.wf(),
        ensures
            r == self@.len(),
    {
        proof {
            lemma_layout(self@);
        }
        read_le(self.0.buf.as_slice(), 0, 2) as usize
    }

    /// Whether column `i` is present. Out of range reads as absent.
    pub fn has(&self, i: usize) -> (r: bool)
        requires
            self.wf(),
        ensures
            r == present(self@, i as int),
    {
        if i >= self.columns() {
            return false;
        }
        proof {
            lemma_layout(self@);
        }
        let b: u8 = self.0.buf[2 + i / 8];
        b & (1u8 << ((i % 8) as u8)) != 0
    }

    /// Column `i`'s bytes, or `None` when it is absent or out of range.
    pub fn get(&self, i: usize) -> (r: Option<&[u8]>)
        requires
            self.wf(),
        ensures
            match r {
                Some(v) => i < self@.len() && self@[i as int] == Some(v@),
                None => i < self@.len() ==> self@[i as int] is None,
            },
    {
        if !self.has(i) {
            return None;
        }
        let n: usize = self.columns();
        let bm: usize = (n + 7) / 8;
        let head: usize = 2 + bm + 2 * n;
        proof {
            lemma_layout(self@);
            assert(self@[i as int] is Some);
            if i > 0 {
                assert(i - 1 < self@.len());
                let _prev = self@[i - 1];
            } else {
                assert(col_values(self@).subrange(0, 0) =~= Seq::empty());
            }
        }
        let start: usize = if i == 0 {
            0
        } else {
            read_le(self.0.buf.as_slice(), 2 + bm + 2 * (i - 1), 2) as usize
        };
        let end: usize = read_le(self.0.buf.as_slice(), 2 + bm + 2 * i, 2) as usize;
        Some(vstd::slice::slice_subrange(self.0.buf.as_slice(), head + start, head + end))
    }

    /// The first column named `field`.
    pub fn position_named(&self, field: &[u8]) -> (r: Option<usize>)
        requires
            self.wf(),
        ensures
            match r {
                Some(i) => first_named(self.col_names(), field@, i as int),
                None => forall|i: int| !named(self.col_names(), field@, i),
            },
    {
        let names = &self.0.cols;
        let mut i: usize = 0;
        while i < names.len()
            invariant
                names@ == self.col_names(),
                i <= names@.len(),
                forall|j: int| 0 <= j < i ==> !named(names@, field@, j),
            decreases names@.len() - i,
        {
            if bytes_eq(names[i].as_slice(), field) {
                return Some(i);
            }
            i = i + 1;
        }
        None
    }

    /// The value of the column named `field`; `None` when the table has no
    /// such column or the row does not have it.
    pub fn get_named(&self, field: &[u8]) -> (r: Option<&[u8]>)
        requires
            self.wf(),
        ensures
            opt_bytes(r) == named_value(self.col_names(), self@, field@),
    {
        match self.position_named(field) {
            None => None,
            Some(i) => {
                proof {
                    lemma_first_named(self.col_names(), field@, i as int);
                }
                self.get(i)
            },
        }
    }

    /// Whether the row has a column named `field`.
    pub fn has_named(&self, field: &[u8]) -> (r: bool)
        requires
            self.wf(),
        ensures
            r == (named_value(self.col_names(), self@, field@) is Some),
    {
        match self.position_named(field) {
            None => false,
            Some(i) => {
                proof {
                    lemma_first_named(self.col_names(), field@, i as int);
                }
                self.has(i)
            },
        }
    }

    /// The row with column `i` replaced. Fails when there is no such column
    /// or the result does not fit.
    pub fn with_column(&self, i: usize, v: Option<&[u8]>) -> (r: Option<Self>)
        requires
            self.wf(),
        ensures
            match r {
                Some(p) => {
                    &&& i < self@.len()
                    &&& p.wf()
                    &&& p@ == self@.update(i as int, opt_bytes(v))
                    &&& p.col_names() == self.col_names()
                },
                None => i >= self@.len() || !fits(self@.update(i as int, opt_bytes(v))),
            },
    {
        let n: usize = self.columns();
        if i >= n {
            return None;
        }
        let mut cols: Vec<Option<&[u8]>> = Vec::new();
        let mut j: usize = 0;
        while j < n
            invariant
                self.wf(),
                n == self@.len(),
                i < n,
                j <= n,
                cols@.len() == j,
                forall|x: int|
                    0 <= x < j ==> opt_bytes(#[trigger] cols@[x]) == (if x == i {
                        opt_bytes(v)
                    } else {
                        self@[x]
                    }),
            decreases n - j,
        {
            if j == i {
                cols.push(v);
            } else {
                let c = self.get(j);
                assert(opt_bytes(c) == self@[j as int]);
                cols.push(c);
            }
            j = j + 1;
        }
        assert(opt_cols(cols@) =~= self@.update(i as int, opt_bytes(v)));
        PackedRow::build(&self.0.cols, cols.as_slice())
    }

    /// Overwrites column `i` in place. Does so, and says so, exactly when
    /// the column is present and `v` has the width of its value.
    pub fn set_same_width(&mut self, i: usize, v: &[u8]) -> (r: bool)
        requires
            old(self).wf(),
        ensures
            final(self).wf(),
            final(self).col_names() == old(self).col_names(),
            r == (present(old(self)@, i as int) && old(self)@[i as int]->0.len() == v@.len()),
            r ==> final(self)@ == old(self)@.update(i as int, Some(v@)),
            !r ==> *final(self) == *old(self),
    {
        let same: bool = match self.get(i) {
            None => false,
            Some(cur) => cur.len() == v.len(),
        };
        if !same {
            return false;
        }
        match self.with_column(i, Some(v)) {
            Some(next) => {
                *self = next;
                true
            },
            None => {
                proof {
                    lemma_same_width(self@, i as int, v@);
                    assert(false);
                }
                false
            },
        }
    }

    /// The column names of this row's table.
    pub fn names(&self) -> (r: &ColumnNames)
        ensures
            r@ == self.col_names(),
    {
        &self.0.cols
    }

    /// Name and value of every present column, in declared order.
    pub fn fields(&self) -> (r: Vec<(Vec<u8>, Vec<u8>)>)
        requires
            self.wf(),
        ensures
            crate::bytes::deep_pairs(r@) == present_fields(self.col_names(), self@, self@.len()),
    {
        let n: usize = self.columns();
        let mut out: Vec<(Vec<u8>, Vec<u8>)> = Vec::new();
        let mut i: usize = 0;
        assert(crate::bytes::deep_pairs(out@) =~= Seq::empty());
        while i < n
            invariant
                self.wf(),
                n == self@.len(),
                i <= n,
                crate::bytes::deep_pairs(out@) == present_fields(self.col_names(), self@, i as nat),
            decreases n - i,
        {
            let ghost before = crate::bytes::deep_pairs(out@);
            match self.get(i) {
                Some(v) => {
                    let name = crate::bytes::copy_bytes(self.0.cols[i].as_slice());
                    let val = crate::bytes::copy_bytes(v);
                    let ghost pair = (name@, val@);
                    out.push((name, val));
                    assert(crate::bytes::deep_pairs(out@) =~= before.push(pair));
                },
                None => {},
            }
            i = i + 1;
        }
        out
    }

    /// Heap bytes of this row; the shared column names are not charged.
    pub fn heap_bytes(&self) -> (r: usize)
        requires
            self.wf(),
        ensures
            r == 2 + bitmap_len(self@.len()) + 2 * self@.len() + payload_len(self@)
                + PACKED_INNER_BYTES,
    {
        proof {
            lemma_layout(self@);
        }
        self.0.buf.len() + PACKED_INNER_BYTES
    }

    /// Number of present columns.
    pub fn len(&self) -> (r: usize)
        requires
            self.wf(),
        ensures
            r == present_count(self@, self@.len()),
    {
        let n: usize = self.columns();
        let mut i: usize = 0;
        let mut c: usize = 0;
        while i < n
            invariant
                self.wf(),
                n == self@.len(),
                i <= n,
                c <= i,
                c == present_count(self@, i as nat),
            decreases n - i,
        {
            if self.has(i) {
                c = c + 1;
            }
            i = i + 1;
        }
        c
    }

    /// Whether no column is present.
    pub fn is_empty(&self) -> (r: bool)
        requires
            self.wf(),
        ensures
            r == (present_count(self@, self@.len()) == 0),
    {
        self.len() == 0
    }
}

/// A clone is the same row.
impl Clone for PackedRow {
    fn clone(&self) -> (r: Self)
        ensures
            r@ == self@,
            r.wf() == self.wf(),
            r.col_names() == self.col_names(),
            r.buffer() == self.buffer(),
    {
        PackedRow(
            Box::new(
                PackedInner {
                    cols: crate::shared::share(&self.0.cols),
                    buf: crate::bytes::copy_bytes(self.0.buf.as_slice()),
                    row: Ghost(self.0.row@),
                },
            ),
        )
    }
}

proof fn lemma_first_named(names: Seq<Vec<u8>>, field: Seq<u8>, i: int)
    requires
        first_named(names, field, i),
    ensures
        exists|j: int| first_named(names, field, j),
        (choose|j: int| first_named(names, field, j)) == i,
{
    let j = choose|j: int| first_named(names, field, j);
    assert(first_named(names, field, j));
    if j < i {
        assert(!named(names, field, j));
    } else if i < j {
        assert(!named(names, field, i));
    }
}

/// Replacing a value by one of the same width keeps the payload's size.
proof fn lemma_same_width(row: Seq<Option<Seq<u8>>>, i: int, v: Seq<u8>)
    requires
        present(row, i),
        row[i]->0.len() == v.len(),
    ensures
        payload_len(row.update(i, Some(v))) == payload_len(row),
{
    let a = col_values(row);
    let b = col_values(row.update(i, Some(v)));
    crate::packed::lemma_cat_split(a, i);
    crate::packed::lemma_cat_split(b, i);
    assert(a.subrange(0, i) =~= b.subrange(0, i));
    assert(a.subrange(i + 1, a.len() as int) =~= b.subrange(i + 1, b.len() as int));
}

} // verus!
