//! Row segments: the names of their files, and which are known.
use vstd::prelude::*;
use crate::bytes::{bytes_eq, copy_bytes, copy_part};
use crate::text::{parse_u64, push_digits};

verus! {

/// The digit for a number below 16.
pub open spec fn hex_digit(n: u8) -> u8 {
    if n < 10 {
        (48 + n) as u8
    } else {
        (87 + n) as u8
    }
}

/// A byte string in hexadecimal.
pub open spec fn hex(s: Seq<u8>) -> Seq<u8>
    decreases s.len(),
{
    if s.len() == 0 {
        Seq::empty()
    } else {
        hex(s.drop_last()) + seq![hex_digit((s.last() / 16) as u8), hex_digit(
            (s.last() % 16) as u8,
        )]
    }
}

/// A table's name as it stands in file names: in hexadecimal, as it may be
/// made of any bytes.
pub fn hex_stem(name: &[u8]) -> (r: Vec<u8>)
    ensures
        r@ == hex(name@),
{
    let mut out: Vec<u8> = Vec::new();
    let mut i: usize = 0;
    assert(name@.take(0) =~= Seq::empty());
    while i < name.len()
        invariant
            i <= name@.len(),
            out@ == hex(name@.take(i as int)),
        decreases name@.len() - i,
    {
        proof {
            assert(name@.take(i + 1).drop_last() =~= name@.take(i as int));
            assert(name@.take(i + 1).last() == name@[i as int]);
        }
        let b: u8 = name[i];
        let ghost before = out@;
        out.push(digit(b / 16));
        out.push(digit(b % 16));
        assert(out@ =~= before + seq![hex_digit((b / 16) as u8), hex_digit((b % 16) as u8)]);
        i = i + 1;
    }
    assert(name@.take(name@.len() as int) =~= name@);
    out
}

fn digit(n: u8) -> (r: u8)
    requires
        n < 16,
    ensures
        r == hex_digit(n),
{
    if n < 10 {
        48 + n
    } else {
        87 + n
    }
}

/// The name of a segment's file: `row-<table in hexadecimal>-<number>.seg`.
pub open spec fn file_of(table: Seq<u8>, seq: u32) -> Seq<u8> {
    seq![114u8, 111, 119, 45] + hex(table) + seq![45u8] + crate::text::digits(seq as nat)
        + seq![46u8, 115, 101, 103]
}

/// The name of a segment's file: `row-<table in hexadecimal>-<number>.seg`.
pub fn file_name(table: &[u8], seq: u32) -> (r: Vec<u8>)
    ensures
        r@ == file_of(table@, seq),
{
    let mut out: Vec<u8> = vec![114u8, 111, 119, 45];
    let mut stem = hex_stem(table);
    out.append(&mut stem);
    out.push(45);
    push_digits(&mut out, seq as u64);
    out.push(46);
    out.push(115);
    out.push(101);
    out.push(103);
    assert(out@ =~= file_of(table@, seq));
    out
}

/// Whether a name ends in `.seg`.
pub open spec fn is_seg_name(f: Seq<u8>) -> bool {
    f.len() >= 4 && f.subrange(f.len() - 4, f.len() as int) == seq![46u8, 115, 101, 103]
}

/// What stands behind the last dash of a name, all of it if there is none.
pub open spec fn behind_dash(s: Seq<u8>) -> Seq<u8>
    decreases s.len(),
{
    if s.len() == 0 || s.last() == 45 {
        Seq::empty()
    } else {
        behind_dash(s.drop_last()).push(s.last())
    }
}

/// The number in the name of a segment's file.
pub open spec fn seq_in(f: Seq<u8>) -> Option<u32> {
    if is_seg_name(f) {
        match crate::text::unsigned_value(behind_dash(f.take(f.len() - 4))) {
            Some(n) => if n <= u32::MAX {
                Some(n as u32)
            } else {
                None
            },
            None => None,
        }
    } else {
        None
    }
}

proof fn lemma_behind_dash(s: Seq<u8>, from: int)
    requires
        0 <= from <= s.len(),
        forall|j: int| from <= j < s.len() ==> s[j] != 45,
        from > 0 ==> s[from - 1] == 45,
    ensures
        behind_dash(s) == s.subrange(from, s.len() as int),
    decreases s.len() - from,
{
    if from == s.len() {
        assert(s.subrange(from, s.len() as int) =~= Seq::empty());
    } else {
        let d = s.drop_last();
        lemma_behind_dash(d, from);
        assert(d.subrange(from, d.len() as int).push(s.last()) =~= s.subrange(
            from,
            s.len() as int,
        ));
    }
}

/// The number in the name of a segment's file.
pub fn seq_of(file: &[u8]) -> (r: Option<u32>)
    ensures
        r == seq_in(file@),
{
    let n: usize = file.len();
    if n < 4 {
        return None;
    }
    let end: usize = n - 4;
    let ghost tail = file@.subrange(file@.len() - 4, file@.len() as int);
    proof {
        assert(tail[0] == file@[end as int]);
        assert(tail[1] == file@[end + 1]);
        assert(tail[2] == file@[end + 2]);
        assert(tail[3] == file@[end + 3]);
    }
    if file[end] != 46 || file[end + 1] != 115 || file[end + 2] != 101 || file[end + 3] != 103 {
        return None;
    }
    assert(tail =~= seq![46u8, 115, 101, 103]);
    let ghost stem = file@.take(end as int);
    let mut from: usize = end;
    while from > 0 && file[from - 1] != 45
        invariant
            from <= end < file@.len(),
            stem == file@.take(end as int),
            forall|j: int| from <= j < end ==> stem[j] != 45,
        decreases from,
    {
        from = from - 1;
    }
    proof {
        lemma_behind_dash(stem, from as int);
        assert(stem.subrange(from as int, end as int) =~= file@.subrange(from as int, end as int));
    }
    let number = copy_part(file, from, end);
    match parse_u64(number.as_slice()) {
        None => None,
        Some(q) => if q <= u32::MAX as u64 {
            Some(q as u32)
        } else {
            None
        },
    }
}

/// The number of a segment is found again in the name of its file.
pub proof fn lemma_seq_of_file(table: Seq<u8>, seq: u32)
    ensures
        seq_in(file_of(table, seq)) == Some(seq),
{
    let f = file_of(table, seq);
    let d = crate::text::digits(seq as nat);
    let head = seq![114u8, 111, 119, 45] + hex(table) + seq![45u8];
    crate::text::lemma_digits(seq as nat);
    assert(f.subrange(f.len() - 4, f.len() as int) =~= seq![46u8, 115, 101, 103]);
    let stem = f.take(f.len() - 4);
    assert(stem =~= head + d);
    let from = head.len() as int;
    assert forall|j: int| from <= j < stem.len() implies stem[j] != 45 by {
        assert(stem[j] == d[j - from]);
        assert(crate::text::is_digit(d[j - from]));
    }
    assert(stem[from - 1] == 45);
    lemma_behind_dash(stem, from);
    assert(stem.subrange(from, stem.len() as int) =~= d);
    assert(crate::text::is_digit(d[0]));
}

/// Whether one byte string comes before another, byte by byte.
pub open spec fn lex_before(a: Seq<u8>, b: Seq<u8>) -> bool
    decreases a.len(),
{
    if b.len() == 0 {
        false
    } else if a.len() == 0 {
        true
    } else if a[0] != b[0] {
        a[0] < b[0]
    } else {
        lex_before(a.subrange(1, a.len() as int), b.subrange(1, b.len() as int))
    }
}

/// Whether one byte string comes before another, byte by byte.
pub fn comes_before(a: &[u8], b: &[u8]) -> (r: bool)
    ensures
        r == lex_before(a@, b@),
{
    let mut i: usize = 0;
    assert(a@.subrange(0, a@.len() as int) =~= a@);
    assert(b@.subrange(0, b@.len() as int) =~= b@);
    while i < a.len() && i < b.len() && a[i] == b[i]
        invariant
            i <= a@.len(),
            i <= b@.len(),
            lex_before(a@, b@) == lex_before(
                a@.subrange(i as int, a@.len() as int),
                b@.subrange(i as int, b@.len() as int),
            ),
        decreases a@.len() - i,
    {
        proof {
            let x = a@.subrange(i as int, a@.len() as int);
            let y = b@.subrange(i as int, b@.len() as int);
            assert(x.subrange(1, x.len() as int) =~= a@.subrange(i + 1, a@.len() as int));
            assert(y.subrange(1, y.len() as int) =~= b@.subrange(i + 1, b@.len() as int));
        }
        i = i + 1;
    }
    let ghost x = a@.subrange(i as int, a@.len() as int);
    let ghost y = b@.subrange(i as int, b@.len() as int);
    if i == b.len() {
        assert(y.len() == 0);
        false
    } else if i == a.len() {
        assert(x.len() == 0);
        true
    } else {
        assert(x[0] == a@[i as int] && y[0] == b@[i as int]);
        a[i] < b[i]
    }
}

/// No byte string comes before itself, and of two that differ one comes
/// before the other, but not both.
pub proof fn lemma_lex_total(a: Seq<u8>, b: Seq<u8>)
    ensures
        !lex_before(a, a),
        a != b ==> lex_before(a, b) != lex_before(b, a),
    decreases a.len(),
{
    if a.len() > 0 {
        let x = a.subrange(1, a.len() as int);
        if b.len() > 0 {
            let y = b.subrange(1, b.len() as int);
            lemma_lex_total(x, y);
            if a != b && a[0] == b[0] {
                if x == y {
                    assert forall|i: int| 0 <= i < a.len() implies a[i] == b[i] by {
                        if i > 0 {
                            assert(x[i - 1] == y[i - 1]);
                        }
                    }
                    assert(a.len() == x.len() + 1 && b.len() == y.len() + 1);
                    assert(a =~= b);
                }
            }
        } else {
            lemma_lex_total(x, x);
        }
    } else {
        assert(a != b ==> b.len() > 0) by {
            if b.len() == 0 {
                assert(a =~= b);
            }
        }
    }
}

/// The order of byte strings carries over.
pub proof fn lemma_lex_chain(a: Seq<u8>, b: Seq<u8>, c: Seq<u8>)
    requires
        lex_before(a, b),
        lex_before(b, c),
    ensures
        lex_before(a, c),
    decreases a.len(),
{
    if a.len() > 0 && a[0] == b[0] && b[0] == c[0] {
        lemma_lex_chain(
            a.subrange(1, a.len() as int),
            b.subrange(1, b.len() as int),
            c.subrange(1, c.len() as int),
        );
    }
}

/// The segments that a store knows.
pub struct SegRows {
    /// Each segment's number and the name of its file.
    pub files: Vec<(u32, Vec<u8>)>,
    /// The number of the next segment.
    pub next: u32,
}

/// The segments that a store knows, mathematically.
#[verifier::ext_equal]
pub struct SegModel {
    /// Each segment's number and the name of its file.
    pub files: Seq<(u32, Seq<u8>)>,
    /// The number of the next segment.
    pub next: u32,
}

/// Segments, mathematically.
pub open spec fn deep_files(v: Seq<(u32, Vec<u8>)>) -> Seq<(u32, Seq<u8>)> {
    Seq::new(v.len(), |i: int| (v[i].0, v[i].1@))
}

impl View for SegRows {
    type V = SegModel;

    open spec fn view(&self) -> SegModel {
        SegModel { files: deep_files(self.files@), next: self.next }
    }
}

/// A batch of rows that was sealed into a segment.
pub struct SealedRows {
    /// The segment's number.
    pub seq: u32,
    /// The name of its file.
    pub file: Vec<u8>,
    /// The keys of its rows.
    pub keys: Vec<Vec<u8>>,
}

/// Why segments are refused.
pub enum SegError {
    /// The name of a file holds no number.
    NoNumber(Vec<u8>),
    /// A segment is named that is not known.
    NotListed(Vec<u8>),
    /// A record of a segment is broken.
    Broken(crate::tier_codec::CodecError),
}

/// The number behind all those of some segments, at least `from`.
pub open spec fn number_behind(files: Seq<(u32, Seq<u8>)>, from: u32) -> u32
    decreases files.len(),
{
    if files.len() == 0 {
        from
    } else {
        let before = number_behind(files.drop_last(), from);
        let q = files.last().0;
        let behind = if q < u32::MAX {
            (q + 1) as u32
        } else {
            u32::MAX
        };
        if behind > before {
            behind
        } else {
            before
        }
    }
}

/// The segments that files of these names make, if each holds a number.
pub open spec fn listed(names: Seq<Seq<u8>>) -> Seq<(u32, Seq<u8>)> {
    Seq::new(names.len(), |i: int| (seq_in(names[i])->Some_0, names[i]))
}

/// The first name of a file that holds no number.
pub open spec fn unnumbered(names: Seq<Seq<u8>>, i: int) -> bool {
    0 <= i < names.len() && seq_in(names[i]) is None && forall|j: int|
        0 <= j < i ==> seq_in(#[trigger] names[j]) is Some
}

impl SegRows {
    /// The segments that files of these names make.
    pub fn load(names: &Vec<Vec<u8>>) -> (r: Result<SegRows, SegError>)
        ensures
            match r {
                Ok(s) => {
                    let all = crate::bytes::deep(names@);
                    &&& forall|i: int| 0 <= i < all.len() ==> seq_in(#[trigger] all[i]) is Some
                    &&& s@.files == listed(all)
                    &&& s@.next == number_behind(listed(all), 0)
                },
                Err(e) => e matches SegError::NoNumber(f) && exists|i: int| #[trigger]
                    unnumbered(crate::bytes::deep(names@), i) && f@ == names@[i]@,
            },
    {
        let ghost all = crate::bytes::deep(names@);
        let mut files: Vec<(u32, Vec<u8>)> = Vec::new();
        let mut next: u32 = 0;
        let mut i: usize = 0;
        assert(listed(all).take(0) =~= Seq::empty());
        assert(deep_files(files@) =~= Seq::empty());
        while i < names.len()
            invariant
                all == crate::bytes::deep(names@),
                i <= names@.len(),
                forall|j: int| 0 <= j < i ==> seq_in(#[trigger] all[j]) is Some,
                deep_files(files@) == listed(all).take(i as int),
                next == number_behind(listed(all).take(i as int), 0),
            decreases names@.len() - i,
        {
            assert(all[i as int] == names@[i as int]@);
            match seq_of(names[i].as_slice()) {
                None => {
                    proof {
                        assert(unnumbered(all, i as int));
                    }
                    return Err(SegError::NoNumber(copy_bytes(names[i].as_slice())));
                },
                Some(q) => {
                    let ghost before = deep_files(files@);
                    files.push((q, copy_bytes(names[i].as_slice())));
                    let behind: u32 = q.saturating_add(1);
                    if behind > next {
                        next = behind;
                    }
                    proof {
                        assert(deep_files(files@) =~= before.push((q, all[i as int])));
                        assert(listed(all).take(i + 1) =~= before.push((q, all[i as int])));
                        assert(listed(all).take(i + 1).drop_last() =~= before);
                    }
                },
            }
            i = i + 1;
        }
        assert(listed(all).take(all.len() as int) =~= listed(all));
        Ok(SegRows { files, next })
    }

    /// The number of the segment with this file.
    pub fn number(&self, file: &[u8]) -> (r: Option<u32>)
        ensures
            r == number_of(self@, file@),
    {
        let mut i: usize = 0;
        while i < self.files.len()
            invariant
                i <= self.files@.len(),
                forall|j: int| 0 <= j < i ==> (#[trigger] self@.files[j]).1 != file@,
            decreases self.files@.len() - i,
        {
            assert(self@.files[i as int] == (self.files@[i as int].0, self.files@[i as int].1@));
            if bytes_eq(self.files[i].1.as_slice(), file) {
                proof {
                    assert(first_named(self@.files, file@, i as int));
                    lemma_first_named(self@.files, file@, i as int);
                }
                return Some(self.files[i].0);
            }
            i = i + 1;
        }
        proof {
            if exists|j: int| first_named(self@.files, file@, j) {
                let j = choose|j: int| first_named(self@.files, file@, j);
                assert(self@.files[j].1 == file@);
            }
        }
        None
    }
}

/// Whether a place is the first with a file of this name.
pub open spec fn first_named(files: Seq<(u32, Seq<u8>)>, file: Seq<u8>, i: int) -> bool {
    0 <= i < files.len() && files[i].1 == file && forall|j: int|
        0 <= j < i ==> (#[trigger] files[j]).1 != file
}

proof fn lemma_first_named(files: Seq<(u32, Seq<u8>)>, file: Seq<u8>, i: int)
    requires
        first_named(files, file, i),
    ensures
        (choose|j: int| first_named(files, file, j)) == i,
{
    let j = choose|j: int| first_named(files, file, j);
    assert(first_named(files, file, j));
    if j < i {
        assert(files[j].1 != file);
    } else if i < j {
        assert(files[i].1 != file);
    }
}

/// The number of the segment with this file.
pub open spec fn number_of(s: SegModel, file: Seq<u8>) -> Option<u32> {
    if exists|i: int| first_named(s.files, file, i) {
        Some(s.files[choose|i: int| first_named(s.files, file, i)].0)
    } else {
        None
    }
}

} // verus!
