//! Declared rows: what their columns are found by, and how they are laid out.
use vstd::prelude::*;
use crate::packed_row::{
    bitmap_len, fits, layout, named_value, present_count, present_fields,
};
use crate::value::names_distinct;

verus! {

/// A field is found by the name of its column; a name that no column has is
/// not found.
pub proof fn lemma_found_by_name(
    names: Seq<Vec<u8>>,
    row: Seq<Option<Seq<u8>>>,
    i: int,
    field: Seq<u8>,
)
    requires
        names.len() == row.len(),
        names_distinct(names),
        0 <= i < row.len(),
    ensures
        named_value(names, row, names[i]@) == row[i],
        (forall|j: int| 0 <= j < names.len() ==> (#[trigger] names[j])@ != field) ==> named_value(
            names,
            row,
            field,
        ) is None,
{
    let f = names[i]@;
    assert(crate::packed_row::first_named(names, f, i)) by {
        assert forall|j: int| 0 <= j < i implies !crate::packed_row::named(names, f, j) by {
            assert(names[j]@ != names[i]@);
        }
    }
    let k = choose|k: int| crate::packed_row::first_named(names, f, k);
    assert(k == i) by {
        if k < i {
            assert(names[k]@ != names[i]@);
        } else if k > i {
            assert(names[i]@ != names[k]@);
        }
    }
}

/// The listing of a row has every column that is set, by its name and with
/// its value, and nothing else; it is as long as there are such columns.
pub proof fn lemma_listing(names: Seq<Vec<u8>>, row: Seq<Option<Seq<u8>>>, f: Seq<u8>, v: Seq<u8>)
    requires
        names.len() == row.len(),
    ensures
        present_fields(names, row, row.len()).contains((f, v)) <==> exists|i: int|
            #![trigger row[i]]
            0 <= i < row.len() && row[i] == Some(v) && names[i]@ == f,
        present_fields(names, row, row.len()).len() == present_count(row, row.len()),
        present_count(row, row.len()) <= row.len(),
        (forall|i: int| 0 <= i < row.len() ==> (#[trigger] row[i]) is Some) ==> present_count(
            row,
            row.len(),
        ) == row.len(),
        (forall|i: int| 0 <= i < row.len() ==> (#[trigger] row[i]) is None) ==> present_count(
            row,
            row.len(),
        ) == 0,
{
    lemma_listing_to(names, row, row.len(), f, v);
}

proof fn lemma_listing_to(
    names: Seq<Vec<u8>>,
    row: Seq<Option<Seq<u8>>>,
    n: nat,
    f: Seq<u8>,
    v: Seq<u8>,
)
    requires
        names.len() == row.len(),
        n <= row.len(),
    ensures
        present_fields(names, row, n).contains((f, v)) <==> exists|i: int|
            #![trigger row[i]]
            0 <= i < n && row[i] == Some(v) && names[i]@ == f,
        present_fields(names, row, n).len() == present_count(row, n),
        present_count(row, n) <= n,
        (forall|i: int| 0 <= i < n ==> (#[trigger] row[i]) is Some) ==> present_count(row, n) == n,
        (forall|i: int| 0 <= i < n ==> (#[trigger] row[i]) is None) ==> present_count(row, n) == 0,
    decreases n,
{
    if n > 0 {
        let m = (n - 1) as nat;
        lemma_listing_to(names, row, m, f, v);
        let before = present_fields(names, row, m);
        if let Some(x) = row[m as int] {
            crate::value_set::lemma_push_contains(before, (names[m as int]@, x), (f, v));
        }
        if present_fields(names, row, n).contains((f, v)) {
            if before.contains((f, v)) {
                let i = choose|i: int|
                    #![trigger row[i]]
                    0 <= i < m && row[i] == Some(v) && names[i]@ == f;
                assert(0 <= i < n && row[i] == Some(v));
            } else {
                assert(row[m as int] == Some(v));
            }
        }
        if exists|i: int| #![trigger row[i]] 0 <= i < n && row[i] == Some(v) && names[i]@ == f {
            let i = choose|i: int|
                #![trigger row[i]]
                0 <= i < n && row[i] == Some(v) && names[i]@ == f;
            if i < m {
                assert(row[i] == Some(v));
            }
        }
    }
}

/// A row that fits holds up to 65535 columns and bytes of values, and its
/// buffer starts with the number of columns.
pub proof fn lemma_row_layout(row: Seq<Option<Seq<u8>>>)
    requires
        fits(row),
    ensures
        row.len() <= 65535,
        crate::packed_row::payload_len(row) <= 65535,
        layout(row).take(2) == crate::le::le_bytes(row.len(), 2),
        8 * bitmap_len(row.len()) >= row.len(),
        8 * bitmap_len(row.len()) < row.len() + 8,
{
    crate::le::lemma_le_len(row.len(), 2);
    assert(layout(row).take(2) =~= crate::le::le_bytes(row.len(), 2));
}

/// The bytes of a column's value, none where it is not set.
pub open spec fn bytes_of(c: Option<Seq<u8>>) -> Seq<u8> {
    match c {
        Some(v) => v,
        None => Seq::empty(),
    }
}

/// How many bytes the values of the first columns have together.
pub open spec fn bytes_before(row: Seq<Option<Seq<u8>>>, i: nat) -> nat
    decreases i,
{
    if i == 0 {
        0
    } else {
        bytes_before(row, (i - 1) as nat) + bytes_of(row[i - 1]).len()
    }
}

proof fn lemma_bytes_before(row: Seq<Option<Seq<u8>>>, i: nat)
    requires
        i <= row.len(),
    ensures
        crate::packed_row::col_end(row, i as int) == bytes_before(row, i),
    decreases i,
{
    let vs = crate::packed_row::col_values(row);
    if i == 0 {
        assert(vs.subrange(0, 0) =~= Seq::empty());
    } else {
        lemma_bytes_before(row, (i - 1) as nat);
        crate::packed::lemma_cat_split(vs, i - 1);
        assert(vs[i - 1] == bytes_of(row[i - 1]));
    }
}

/// Where things stand in a packed row: behind the number of columns a bit for
/// each column, the lowest of a byte first, which tells whether it is set;
/// then for each column in two bytes where its value ends; then the values.
pub proof fn lemma_row_parts(row: Seq<Option<Seq<u8>>>, i: nat)
    requires
        fits(row),
        i < row.len(),
    ensures
        ({
            let b = layout(row);
            let ends = 2 + (row.len() + 7) / 8;
            let values = ends + 2 * row.len();
            let at = ends + 2 * i as int;
            &&& b.len() == values + bytes_before(row, row.len())
            &&& b[2 + (i as int) / 8] & (1u8 << ((i % 8) as u8)) != 0 <==> row[i as int] is Some
            &&& b[at] + 256 * b[at + 1] == bytes_before(row, i + 1)
            &&& b.subrange(
                (values + bytes_before(row, i)) as int,
                (values + bytes_before(row, i + 1)) as int,
            ) == bytes_of(row[i as int])
        }),
{
    crate::packed_row::lemma_layout(row);
    lemma_bytes_before(row, i);
    lemma_bytes_before(row, i + 1);
    lemma_bytes_before(row, row.len());
    let vs = crate::packed_row::col_values(row);
    assert(vs.subrange(0, row.len() as int) =~= vs);
    let b = layout(row);
    let x = row[i as int];
    let at = 2 + (row.len() + 7) / 8 + 2 * i as int;
    let w = b.subrange(at, at + 2);
    assert(w[0] == b[at] && w[1] == b[at + 1]);
    reveal_with_fuel(crate::le::le_value, 3);
    assert(w.subrange(1, 2)[0] == w[1]);
    assert(crate::packed_row::bit(b[2 + (i as int) / 8], ((i as int) % 8) as u8)
        == crate::packed_row::present(row, i as int));
}

} // verus!
