//! Row segments: their files, their numbers, and the rows that move into them.
use vstd::prelude::*;
use crate::cold::Backing;
use crate::segrows::{file_of, hex, hex_digit, number_behind, seq_in};
use crate::store::segmented::{
    orphans, referenced, row_record, rows_turned, stitch_step, still_named,
};
use crate::store::tiering::stub_at;
use crate::store::{key_live, read_now, Store, StoreModel};
use crate::tier_codec::{parsed, CodecError};

verus! {

/// Names of tables are written in digits of one case, two to a byte, and can
/// be told from what is written.
pub proof fn lemma_hex(a: Seq<u8>, b: Seq<u8>)
    ensures
        hex(a).len() == 2 * a.len(),
        hex(a) == hex(b) ==> a == b,
        forall|i: int|
            0 <= i < hex(a).len() ==> 48 <= #[trigger] hex(a)[i] <= 57 || 97 <= hex(a)[i] <= 102,
    decreases a.len(),
{
    if a.len() > 0 && b.len() > 0 {
        let c = a.drop_last();
        let d = b.drop_last();
        lemma_hex(c, d);
        lemma_hex_len(b);
        lemma_hex_len(d);
        if hex(a) == hex(b) {
            let n = hex(a).len() as int;
            assert(hex(a)[n - 2] == hex_digit((a.last() / 16) as u8));
            assert(hex(a)[n - 1] == hex_digit((a.last() % 16) as u8));
            assert(hex(b)[n - 2] == hex_digit((b.last() / 16) as u8));
            assert(hex(b)[n - 1] == hex_digit((b.last() % 16) as u8));
            assert(hex(a).take(n - 2) =~= hex(c));
            assert(hex(b).take(n - 2) =~= hex(d));
            assert(a.last() == b.last());
            assert(a =~= c.push(a.last()));
            assert(b =~= d.push(b.last()));
        }
    } else if a.len() > 0 {
        lemma_hex(a.drop_last(), b);
    } else {
        lemma_hex_len(b);
        if hex(a) == hex(b) {
            assert(a =~= b);
        }
    }
}

proof fn lemma_hex_len(a: Seq<u8>)
    ensures
        hex(a).len() == 2 * a.len(),
    decreases a.len(),
{
    if a.len() > 0 {
        lemma_hex_len(a.drop_last());
    }
}

/// No two segments share a file: its name tells the table and the number.
pub proof fn lemma_own_file(a: Seq<u8>, n: u32, b: Seq<u8>, m: u32)
    ensures
        file_of(a, n) == file_of(b, m) ==> a == b && n == m,
        seq_in(file_of(a, n)) == Some(n),
{
    crate::segrows::lemma_seq_of_file(a, n);
    crate::segrows::lemma_seq_of_file(b, m);
    if file_of(a, n) == file_of(b, m) {
        lemma_hex(a, b);
        lemma_hex_len(b);
        let f = file_of(a, n);
        assert(f.subrange(4, 4 + hex(a).len() as int) =~= hex(a));
        assert(f.subrange(4, 4 + hex(b).len() as int) =~= hex(b));
    }
}

/// The next number is above those of all segments and no lower than it was,
/// and not higher than it need be.
pub proof fn lemma_next_number(files: Seq<(u32, Seq<u8>)>, from: u32, i: int)
    ensures
        number_behind(files, from) >= from,
        0 <= i < files.len() && files[i].0 < u32::MAX ==> number_behind(files, from) > files[i].0,
        number_behind(files, from) == from || number_behind(files, from) == u32::MAX || exists|j: int|

            0 <= j < files.len() && (#[trigger] files[j]).0 + 1 == number_behind(files, from),
    decreases files.len(),
{
    if files.len() > 0 {
        let d = files.drop_last();
        lemma_next_number(d, from, i);
        assert(files.last() == files[files.len() - 1]);
        if i < d.len() && 0 <= i {
            assert(d[i] == files[i]);
        }
        let n = number_behind(d, from);
        if n == number_behind(files, from) && n != from && n != u32::MAX {
            let j = choose|j: int| 0 <= j < d.len() && (#[trigger] d[j]).0 + 1 == n;
            assert(files[j].0 + 1 == n);
        }
    }
}

/// A segment stays just if some key's row lies in it; the files of the others
/// are told as orphans, so that every segment is one or the other.
pub proof fn lemma_stay_or_orphan(s: StoreModel, files: Seq<(u32, Seq<u8>)>, x: (u32, Seq<u8>))
    ensures
        still_named(s, files).contains(x) <==> files.contains(x) && exists|k: Seq<u8>|
            #![trigger stub_at(s, k)]
            stub_at(s, k) matches Some(c) && c.segmented && c.rec.file_id == x.0,
        files.contains(x) && !still_named(s, files).contains(x) ==> orphans(s, files).contains(x.1),
        orphans(s, files).contains(x.1) ==> exists|n: u32| #[trigger]
            files.contains((n, x.1)) && !referenced(s, n),
        still_named(s, files).len() + orphans(s, files).len() == files.len(),
    decreases files.len(),
{
    if exists|k: Seq<u8>|
        #![trigger stub_at(s, k)]
        stub_at(s, k) matches Some(c) && c.segmented && c.rec.file_id == x.0 {
        let k = choose|k: Seq<u8>|
            #![trigger stub_at(s, k)]
            stub_at(s, k) matches Some(c) && c.segmented && c.rec.file_id == x.0;
        assert(crate::store::segmented::names_segment(s, k, x.0));
    }
    if referenced(s, x.0) {
        let k = choose|k: Seq<u8>| #[trigger] crate::store::segmented::names_segment(s, k, x.0);
        assert(stub_at(s, k) is Some);
    }
    if files.len() > 0 {
        let d = files.drop_last();
        let l = files.last();
        lemma_stay_or_orphan(s, d, x);
        assert(files =~= d.push(l));
        crate::value_set::lemma_push_contains(d, l, x);
        crate::value_set::lemma_push_contains(still_named(s, d), l, x);
        crate::value_set::lemma_push_contains(orphans(s, d), l.1, x.1);
        if orphans(s, files).contains(x.1) {
            if orphans(s, d).contains(x.1) {
                let n = choose|n: u32| #[trigger] d.contains((n, x.1)) && !referenced(s, n);
                crate::value_set::lemma_push_contains(d, l, (n, x.1));
                assert(files.contains((n, x.1)));
            } else {
                assert(files[files.len() - 1] == (l.0, x.1));
                assert(files.contains((l.0, x.1)));
            }
        }
    }
}

/// A row with a deadline, or with deadlines of fields, never moves into a
/// segment, and neither does one that is out of memory already.
pub proof fn lemma_dated_rows_stay(s: Store, k: Seq<u8>)
    ensures
        s@.slots.dom().contains(k) && s@.slots[k].expire is Some ==> row_record(s, k) is None,
        s@.ttls.dom().contains(k) ==> row_record(s, k) is None,
        !s@.slots.dom().contains(k) ==> row_record(s, k) is None,
        s.held(k) is Cold ==> row_record(s, k) is None,
{
}

/// Rows that become stubs are among those named, keep their deadlines, and
/// leave every other key alone.
pub proof fn lemma_rows_turned(first: Store, keys: Seq<Seq<u8>>, seq: u32, k: Seq<u8>)
    requires
        first@.slots.dom().contains(k),
    ensures
        ({
            let (t, n) = rows_turned(first, keys, seq);
            &&& t.slots.dom() == first@.slots.dom()
            &&& t.slots[k].expire == first@.slots[k].expire
            &&& !keys.contains(k) || !(first@.slots[k].value is Hash) ==> t.slots[k]
                == first@.slots[k]
            &&& t.slots[k] != first@.slots[k] ==> (stub_at(t, k) matches Some(c) && c.backing()
                == Backing::Segment(seq))
            &&& n <= keys.len()
            &&& t.ttls == first@.ttls
        }),
    decreases keys.len(),
{
    if keys.len() > 0 {
        let d = keys.drop_last();
        lemma_rows_turned(first, d, seq, k);
        assert(keys =~= d.push(keys.last()));
        crate::value_set::lemma_push_contains(d, keys.last(), k);
        assert(rows_turned(first, keys, seq).0.slots.dom() =~= first@.slots.dom());
    }
}

/// A segment that is brought back gives a key that is not there a stub of its
/// own number and no deadline, and passes over one that holds something
/// else. Other keys stay.
pub proof fn lemma_stitch(
    first: Store,
    s: StoreModel,
    key: Seq<u8>,
    p: Seq<u8>,
    seq: u32,
    other: Seq<u8>,
)
    ensures
        ({
            let (r, t) = stitch_step(first, s, key, p, seq);
            &&& !key_live(s, key, read_now(s)) && parsed(p) is Ok ==> r == Ok::<bool, CodecError>(
                true,
            ) && t.slots[key].expire is None && (stub_at(t, key) matches Some(c) && c.backing()
                == Backing::Segment(seq))
            &&& !key_live(s, key, read_now(s)) && parsed(p) is Err ==> r == Err::<bool, CodecError>(
                parsed(p)->Err_0,
            ) && !t.slots.dom().contains(key)
            &&& key_live(s, key, read_now(s)) ==> r is Ok && t.slots.dom() == s.slots.dom()
                && t.slots[key].expire == s.slots[key].expire
            &&& key_live(s, key, read_now(s)) && !(s.slots[key].value is Hash) ==> r == Ok::<
                bool,
                CodecError,
            >(false) && t == s
            &&& other != key ==> t.slots.dom().contains(other) == s.slots.dom().contains(other)
                && t.slots[other] == s.slots[other]
        }),
{
    let t = stitch_step(first, s, key, p, seq).1;
    if key_live(s, key, read_now(s)) {
        assert(t.slots.dom() =~= s.slots.dom());
    }
}

} // verus!
