//! The inline encodings of tiny sets, hashes, lists and sorted sets.
use kevy_store::small_hash;
use kevy_store::small_hash::{SmallHashData, SMALL_HASH_FIELD_MAX};
use kevy_store::small_list::{PushResult, SmallListData, SMALL_LIST_ELEM_MAX};
use kevy_store::small_set;
use kevy_store::small_set::{SmallSetData, SMALL_SET_COUNT_MAX, SMALL_SET_MEMBER_MAX};
use kevy_store::small_zset;
use kevy_store::small_zset::{SmallZSetData, SMALL_ZSET_MEMBER_MAX};
use kevy_store::{value_hash, value_list, value_set};

fn set_items(s: &SmallSetData) -> Vec<Vec<u8>> {
    let mut out = Vec::new();
    let mut it = s.iter_slices();
    while let Some(m) = it.next() {
        out.push(m.to_vec());
    }
    out
}

fn hash_items(s: &SmallHashData) -> Vec<(Vec<u8>, Vec<u8>)> {
    let mut out = Vec::new();
    let mut it = s.iter();
    while let Some((f, v)) = it.next() {
        out.push((f.to_vec(), v.to_vec()));
    }
    out
}

fn list_items(l: &SmallListData) -> Vec<Vec<u8>> {
    let mut out = Vec::new();
    let mut it = l.iter();
    while let Some(e) = it.next() {
        out.push(e.to_vec());
    }
    out
}

fn score(z: &SmallZSetData, m: &[u8]) -> Option<f64> {
    z.score(m).map(f64::from_bits)
}

// ---- sets ----

#[test]
fn small_set_size_is_24_bytes() {
    assert_eq!(std::mem::size_of::<SmallSetData>(), 24);
}

#[test]
fn empty_and_with_one() {
    let s = SmallSetData::new();
    assert_eq!(s.len(), 0);
    assert!(s.is_empty());
    assert!(!s.contains(b"foo"));

    let s = SmallSetData::with_one(b"hi").unwrap();
    assert_eq!(s.len(), 1);
    assert!(s.contains(b"hi"));
    assert!(!s.contains(b"hj"));
}

#[test]
fn member_too_long_for_with_one() {
    let big = vec![b'x'; SMALL_SET_MEMBER_MAX + 1];
    assert!(SmallSetData::with_one(&big).is_none());
    let fits = vec![b'x'; SMALL_SET_MEMBER_MAX];
    assert!(SmallSetData::with_one(&fits).is_some());
}

#[test]
fn add_dedup_and_iter() {
    let mut s = SmallSetData::new();
    assert!(matches!(s.try_add(b"a"), small_set::AddResult::Added));
    assert!(matches!(s.try_add(b"b"), small_set::AddResult::Added));
    assert!(matches!(s.try_add(b"a"), small_set::AddResult::AlreadyPresent));
    assert_eq!(s.len(), 2);
    assert_eq!(set_items(&s), vec![b"a".to_vec(), b"b".to_vec()]);
}

#[test]
fn full_buffer_returns_no_room() {
    let mut s = SmallSetData::new();
    // A 20-byte member uses 21 of the 22 bytes; a second one does not fit.
    let m1 = b"element:__rand_int__";
    assert_eq!(m1.len(), 20);
    assert!(matches!(s.try_add(m1), small_set::AddResult::Added));
    assert!(matches!(s.try_add(b"x"), small_set::AddResult::NoRoom));
}

#[test]
fn member_too_long_returns_no_room() {
    let mut s = SmallSetData::new();
    let big = vec![b'x'; SMALL_SET_MEMBER_MAX + 1];
    assert!(matches!(s.try_add(&big), small_set::AddResult::NoRoom));
    assert_eq!(s.len(), 0);
}

#[test]
fn remove_middle_shifts_tail() {
    let mut s = SmallSetData::new();
    assert!(matches!(s.try_add(b"aa"), small_set::AddResult::Added));
    assert!(matches!(s.try_add(b"bbb"), small_set::AddResult::Added));
    assert!(matches!(s.try_add(b"cc"), small_set::AddResult::Added));
    assert!(s.try_remove(b"bbb"));
    assert_eq!(s.len(), 2);
    assert!(s.contains(b"aa"));
    assert!(!s.contains(b"bbb"));
    assert!(s.contains(b"cc"));
    assert_eq!(set_items(&s), vec![b"aa".to_vec(), b"cc".to_vec()]);
}

#[test]
fn remove_absent_returns_false() {
    let mut s = SmallSetData::new();
    s.try_add(b"a");
    assert!(!s.try_remove(b"zz"));
    assert_eq!(s.len(), 1);
}

#[test]
fn count_cap_returns_no_room() {
    let mut s = SmallSetData::new();
    // Eight one-byte members take 16 bytes; the ninth meets the count cap
    // before the byte cap.
    for c in b"abcdefgh" {
        assert!(matches!(s.try_add(&[*c]), small_set::AddResult::Added));
    }
    assert_eq!(s.len(), SMALL_SET_COUNT_MAX);
    assert!(matches!(s.try_add(b"i"), small_set::AddResult::NoRoom));
}

#[test]
fn promote_preserves_members() {
    let mut s = SmallSetData::new();
    s.try_add(b"a");
    s.try_add(b"bb");
    s.try_add(b"ccc");
    let promoted = value_set::promote(&s);
    assert_eq!(promoted.len(), 3);
    assert!(promoted.contains_key(b"a"));
    assert!(promoted.contains_key(b"bb"));
    assert!(promoted.contains_key(b"ccc"));
}

// ---- hashes ----

#[test]
fn small_hash_size_is_24_bytes() {
    assert_eq!(std::mem::size_of::<SmallHashData>(), 24);
}

#[test]
fn with_one_and_get() {
    let s = SmallHashData::with_one(b"name", b"alice").unwrap();
    assert_eq!(s.len(), 1);
    assert_eq!(s.get(b"name"), Some(b"alice".as_slice()));
    assert!(s.contains_key(b"name"));
    assert!(!s.contains_key(b"age"));
}

#[test]
fn with_one_too_big() {
    let big = vec![b'x'; SMALL_HASH_FIELD_MAX + 1];
    assert!(SmallHashData::with_one(&big, b"v").is_none());
}

#[test]
fn set_add_update_remove() {
    let mut s = SmallHashData::new();
    assert!(matches!(s.try_set(b"a", b"1"), small_hash::AddResult::Added));
    assert!(matches!(s.try_set(b"b", b"22"), small_hash::AddResult::Added));
    assert!(matches!(s.try_set(b"a", b"X"), small_hash::AddResult::Updated));
    assert_eq!(s.get(b"a"), Some(b"X".as_slice()));
    assert_eq!(s.get(b"b"), Some(b"22".as_slice()));
    assert!(s.try_remove(b"a"));
    assert!(!s.contains_key(b"a"));
    assert_eq!(s.get(b"b"), Some(b"22".as_slice()));
}

#[test]
fn set_no_room_overflow() {
    let mut s = SmallHashData::new();
    // An 8-byte field and a 10-byte value take 20 bytes.
    assert!(matches!(s.try_set(b"fieldnam", b"valuevalue"), small_hash::AddResult::Added));
    // The next pair does not fit.
    assert!(matches!(s.try_set(b"more", b"data"), small_hash::AddResult::NoRoom));
}

#[test]
fn update_value_grows_within_budget() {
    let mut s = SmallHashData::new();
    s.try_set(b"k", b"v");
    // From one byte to eight: within the budget.
    assert!(matches!(s.try_set(b"k", b"longerv!"), small_hash::AddResult::Updated));
    assert_eq!(s.get(b"k"), Some(b"longerv!".as_slice()));
}

#[test]
fn update_value_no_room() {
    let mut s = SmallHashData::new();
    s.try_set(b"abc", b"defghijk"); // 2 + 3 + 8 = 13
    s.try_set(b"x", b"yzwuv"); // 2 + 1 + 5 = 8, 21 in all
    // Two bytes more would need 23 of 22.
    assert!(matches!(s.try_set(b"x", b"yzwuvAB"), small_hash::AddResult::NoRoom));
    assert_eq!(s.get(b"x"), Some(b"yzwuv".as_slice()));
}

#[test]
fn iter_in_insertion_order() {
    let mut s = SmallHashData::new();
    s.try_set(b"a", b"1");
    s.try_set(b"b", b"2");
    assert_eq!(
        hash_items(&s),
        vec![(b"a".to_vec(), b"1".to_vec()), (b"b".to_vec(), b"2".to_vec())]
    );
}

#[test]
fn small_hash_promote_preserves_pairs() {
    let mut s = SmallHashData::new();
    s.try_set(b"a", b"1");
    s.try_set(b"bb", b"22");
    let h = value_hash::promote(&s);
    assert_eq!(h.len(), 2);
    assert_eq!(h.get(b"a").map(Vec::as_slice), Some(b"1".as_slice()));
    assert_eq!(h.get(b"bb").map(Vec::as_slice), Some(b"22".as_slice()));
}

// ---- lists ----

#[test]
fn small_list_size_is_24_bytes() {
    assert_eq!(std::mem::size_of::<SmallListData>(), 24);
}

#[test]
fn push_back_basic() {
    let mut l = SmallListData::new();
    assert!(matches!(l.try_push_back(b"a"), PushResult::Pushed));
    assert!(matches!(l.try_push_back(b"bb"), PushResult::Pushed));
    assert_eq!(list_items(&l), vec![b"a".to_vec(), b"bb".to_vec()]);
    assert_eq!(l.len(), 2);
}

#[test]
fn push_front_basic() {
    let mut l = SmallListData::new();
    assert!(matches!(l.try_push_front(b"a"), PushResult::Pushed));
    assert!(matches!(l.try_push_front(b"bb"), PushResult::Pushed));
    assert_eq!(list_items(&l), vec![b"bb".to_vec(), b"a".to_vec()]);
}

#[test]
fn duplicate_allowed() {
    let mut l = SmallListData::new();
    l.try_push_back(b"a");
    l.try_push_back(b"a");
    assert_eq!(l.len(), 2);
    assert_eq!(list_items(&l), vec![b"a".to_vec(), b"a".to_vec()]);
}

#[test]
fn no_room_when_full() {
    let mut l = SmallListData::new();
    let big = b"element:__rand_int__"; // 20 bytes
    assert_eq!(big.len(), 20);
    assert!(matches!(l.try_push_back(big), PushResult::Pushed));
    // 21 of the 22 bytes are used; a second such element does not fit.
    assert!(matches!(l.try_push_back(big), PushResult::NoRoom));
}

#[test]
fn elem_too_long() {
    let mut l = SmallListData::new();
    let big = vec![b'x'; SMALL_LIST_ELEM_MAX + 1];
    assert!(matches!(l.try_push_back(&big), PushResult::NoRoom));
}

#[test]
fn promote_preserves_order() {
    let mut l = SmallListData::new();
    l.try_push_back(b"a");
    l.try_push_back(b"bb");
    l.try_push_back(b"ccc");
    let d = value_list::promote(&l);
    assert_eq!(d.get(0).unwrap(), b"a");
    assert_eq!(d.get(1).unwrap(), b"bb");
    assert_eq!(d.get(2).unwrap(), b"ccc");
}

// ---- sorted sets ----

#[test]
fn small_zset_size_is_24_bytes() {
    assert_eq!(std::mem::size_of::<SmallZSetData>(), 24);
}

#[test]
fn add_and_score() {
    let mut z = SmallZSetData::new();
    assert!(matches!(z.try_set(b"a", 1.0f64.to_bits()), small_zset::AddResult::Added));
    assert!(matches!(z.try_set(b"b", 2.5f64.to_bits()), small_zset::AddResult::Added));
    assert_eq!(score(&z, b"a"), Some(1.0));
    assert_eq!(score(&z, b"b"), Some(2.5));
    assert!(z.contains(b"a"));
    assert!(!z.contains(b"c"));
}

#[test]
fn update_in_place() {
    let mut z = SmallZSetData::new();
    z.try_set(b"a", 1.0f64.to_bits());
    assert!(matches!(z.try_set(b"a", 9.5f64.to_bits()), small_zset::AddResult::Updated));
    assert_eq!(score(&z, b"a"), Some(9.5));
    assert_eq!(z.len(), 1);
}

#[test]
fn count_cap() {
    let mut z = SmallZSetData::new();
    z.try_set(b"a", 1.0f64.to_bits());
    z.try_set(b"b", 2.0f64.to_bits());
    // Two members at most.
    assert!(matches!(z.try_set(b"c", 3.0f64.to_bits()), small_zset::AddResult::NoRoom));
}

#[test]
fn member_too_long() {
    let mut z = SmallZSetData::new();
    let big = vec![b'x'; SMALL_ZSET_MEMBER_MAX + 1];
    assert!(matches!(z.try_set(&big, 1.0f64.to_bits()), small_zset::AddResult::NoRoom));
}

#[test]
fn budget_overflow() {
    let mut z = SmallZSetData::new();
    // One member of 13 bytes takes all 22.
    let m1 = vec![b'a'; SMALL_ZSET_MEMBER_MAX];
    assert!(matches!(z.try_set(&m1, 1.0f64.to_bits()), small_zset::AddResult::Added));
    // Even a one-byte member would need ten more.
    assert!(matches!(z.try_set(b"b", 2.0f64.to_bits()), small_zset::AddResult::NoRoom));
}

#[test]
fn remove_works() {
    let mut z = SmallZSetData::new();
    z.try_set(b"a", 1.0f64.to_bits());
    z.try_set(b"b", 2.0f64.to_bits());
    assert!(z.try_remove(b"a"));
    assert!(!z.contains(b"a"));
    assert_eq!(score(&z, b"b"), Some(2.0));
    assert_eq!(z.len(), 1);
}

#[test]
fn iter_order() {
    let mut z = SmallZSetData::new();
    z.try_set(b"b", 2.0f64.to_bits());
    z.try_set(b"a", 1.0f64.to_bits());
    let mut it = z.iter();
    let mut v: Vec<(Vec<u8>, f64)> = Vec::new();
    while let Some((m, s)) = it.next() {
        v.push((m.to_vec(), f64::from_bits(s)));
    }
    assert_eq!(v[0], (b"b".to_vec(), 2.0));
    assert_eq!(v[1], (b"a".to_vec(), 1.0));
}

#[test]
fn small_zset_promote_preserves_pairs() {
    let mut z = SmallZSetData::new();
    z.try_set(b"a", 1.0f64.to_bits());
    z.try_set(b"b", 2.0f64.to_bits());
    let zd = small_zset::promote(&z);
    assert_eq!(zd.len(), 2);
    assert_eq!(zd.get(b"b").map(|s| f64::from_bits(s.to_bits())), Some(2.0));
}
