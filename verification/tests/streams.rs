//! Streams and their consumer groups.
use kevy_store::{
    parse_explicit_id, parse_range_end, parse_range_start, parse_xadd_id, EntryBatch,
    GroupCreateMode, LoadedGroup, ReadGroupId, Store, StoreError, StreamId, StreamIdError,
    XAddIdSpec, XClaimOpts,
};

fn id(ms: u64, seq: u64) -> StreamId {
    StreamId { ms, seq }
}

fn fields(v: &[u8]) -> Vec<(Vec<u8>, Vec<u8>)> {
    vec![(b"f".to_vec(), v.to_vec())]
}

fn ids(b: &EntryBatch) -> Vec<StreamId> {
    b.iter().map(|(i, _)| *i).collect()
}

fn three() -> Store {
    let mut s = Store::new();
    for ms in 1..=3u64 {
        let made = s.xadd(b"s", XAddIdSpec::Explicit(id(ms, 0)), fields(b"v"), false, 0);
        assert_eq!(made, Ok(Some(id(ms, 0))));
    }
    s
}

#[test]
fn entries_come_in_the_order_of_their_ids() {
    let mut s = three();
    assert_eq!(s.xlen(b"s"), Ok(3));
    assert_eq!(s.type_of(b"s"), "stream");
    let all = s.xrange(b"s", StreamId::min(), StreamId::max(), None).unwrap();
    assert_eq!(ids(&all), vec![id(1, 0), id(2, 0), id(3, 0)]);
    assert_eq!(all[0].1, fields(b"v"));
    let back = s.xrevrange(b"s", StreamId::min(), StreamId::max(), Some(2)).unwrap();
    assert_eq!(ids(&back), vec![id(3, 0), id(2, 0)]);
    assert_eq!(ids(&s.xrange(b"s", id(2, 0), id(2, 9), None).unwrap()), vec![id(2, 0)]);
    assert!(s.xrange(b"s", id(3, 0), id(1, 0), None).unwrap().is_empty());
    assert_eq!(ids(&s.xread(b"s", id(1, 0), Some(1)).unwrap()), vec![id(2, 0)]);
    assert!(s.xread(b"s", id(3, 0), None).unwrap().is_empty());
    assert_eq!(s.xread_dollar_last_id(b"s"), Ok(id(3, 0)));
    assert_eq!(s.xread_dollar_last_id(b"none"), Ok(id(0, 0)));
    s.set(b"str", b"x".to_vec(), None, false, false);
    assert_eq!(s.xlen(b"str"), Err(StoreError::WrongType));
}

#[test]
fn ids_only_grow() {
    let mut s = three();
    let old = s.xadd(b"s", XAddIdSpec::Explicit(id(3, 0)), fields(b"v"), false, 0);
    assert_eq!(old, Err(StoreError::OutOfRange));
    let zero = s.xadd(b"n", XAddIdSpec::Explicit(id(0, 0)), fields(b"v"), false, 0);
    assert_eq!(zero, Err(StoreError::OutOfRange));
    assert_eq!(s.xadd(b"s", XAddIdSpec::AutoSeq(3), fields(b"v"), false, 0), Ok(Some(id(3, 1))));
    assert_eq!(s.xadd(b"s", XAddIdSpec::AutoAll, fields(b"v"), false, 2), Ok(Some(id(3, 2))));
    assert_eq!(s.xadd(b"s", XAddIdSpec::AutoAll, fields(b"v"), false, 9), Ok(Some(id(9, 0))));
    assert_eq!(s.xadd(b"no", XAddIdSpec::AutoAll, fields(b"v"), true, 9), Ok(None));
    assert!(!s.key_exists(b"no"));
    let top = id(9, u64::MAX);
    assert_eq!(s.xadd(b"s", XAddIdSpec::Explicit(top), fields(b"v"), false, 0), Ok(Some(top)));
    assert_eq!(
        s.xadd(b"s", XAddIdSpec::AutoSeq(9), fields(b"v"), false, 0),
        Err(StoreError::OutOfRange)
    );
}

#[test]
fn trimming_and_deleting() {
    let mut s = three();
    assert_eq!(s.xdel(b"s", &[id(2, 0), id(7, 7)]), Ok(1));
    assert_eq!(s.xlen(b"s"), Ok(2));
    let v = s.stream_view(b"s").unwrap().unwrap();
    assert_eq!((v.max_deleted_id(), v.last_id(), v.entries_added()), (id(2, 0), id(3, 0), 3));
    assert!(v.contains_entry(id(1, 0)) && !v.contains_entry(id(2, 0)));
    assert_eq!(v.first_entry().map(|e| e.0), Some(id(1, 0)));
    assert_eq!(v.last_entry().map(|e| e.0), Some(id(3, 0)));
    assert_eq!(s.xtrim_maxlen(b"s", 1), Ok(1));
    assert_eq!(s.xtrim_minid(b"s", id(3, 0)), Ok(0));
    assert_eq!(s.xtrim_minid(b"s", id(4, 0)), Ok(1));
    assert_eq!(s.xlen(b"s"), Ok(0));
    assert!(s.key_exists(b"s"), "an empty stream stays");
    assert_eq!(s.xsetid(b"s", id(8, 0), Some(11), Some(id(5, 0))), Ok(()));
    let v = s.stream_view(b"s").unwrap().unwrap();
    assert_eq!((v.last_id(), v.entries_added(), v.max_deleted_id()), (id(8, 0), 11, id(5, 0)));
    assert_eq!(s.xsetid(b"none", id(8, 0), None, None), Err(StoreError::NoSuchKey));
}

#[test]
fn a_group_delivers_each_entry_once() {
    let mut s = three();
    let at = GroupCreateMode::AtId(id(0, 0));
    assert_eq!(s.xgroup_create(b"s", b"g", at, false), Ok(true));
    assert_eq!(s.xgroup_create(b"s", b"g", GroupCreateMode::AtCurrent, false), Ok(false));
    let none = s.xgroup_create(b"none", b"g", GroupCreateMode::AtCurrent, false);
    assert_eq!(none, Err(StoreError::NoSuchKey));
    assert_eq!(s.xgroup_create(b"made", b"g", GroupCreateMode::AtCurrent, true), Ok(true));
    assert_eq!(s.xreadgroup_has_new(b"s", b"g"), Ok(true));
    let a = s.xreadgroup(b"s", b"g", b"ann", ReadGroupId::New, Some(2), false, 100).unwrap();
    assert_eq!(ids(&a), vec![id(1, 0), id(2, 0)]);
    let b = s.xreadgroup(b"s", b"g", b"bob", ReadGroupId::New, None, false, 150).unwrap();
    assert_eq!(ids(&b), vec![id(3, 0)]);
    assert_eq!(s.xreadgroup_has_new(b"s", b"g"), Ok(false));
    assert!(s.xreadgroup(b"s", b"g", b"bob", ReadGroupId::New, None, false, 150).unwrap().is_empty());

    let sum = s.xpending_summary(b"s", b"g").unwrap().unwrap();
    assert_eq!(sum.total, 3);
    assert_eq!(sum.id_range, Some((id(1, 0), id(3, 0))));
    let mut by = sum.by_consumer.clone();
    by.sort();
    assert_eq!(by, vec![(b"ann".to_vec(), 2), (b"bob".to_vec(), 1)]);

    let again = s.xreadgroup(b"s", b"g", b"ann", ReadGroupId::ReplayAfter(id(1, 0)), None, false, 170);
    assert_eq!(ids(&again.unwrap()), vec![id(2, 0)]);
    assert_eq!(s.xack(b"s", b"g", &[id(1, 0), id(1, 0), id(9, 9)]), Ok(1));
    let rest = s.xpending_extended(
        b"s", b"g", None, StreamId::min(), StreamId::max(), 10, Some(b"ann"), 300,
    );
    let rows = rest.unwrap().unwrap().rows;
    assert_eq!(rows.len(), 1);
    assert_eq!((rows[0].id, rows[0].consumer.as_slice()), (id(2, 0), &b"ann"[..]));
    let idle = s.xpending_extended(
        b"s", b"g", Some(10_000), StreamId::min(), StreamId::max(), 10, None, 300,
    );
    assert!(idle.unwrap().unwrap().rows.is_empty());
    assert_eq!(s.xgroup_del_consumer(b"s", b"g", b"ann"), Ok(1));
    assert_eq!(s.xpending_summary(b"s", b"g").unwrap().unwrap().total, 1);
    assert_eq!(s.xgroup_destroy(b"s", b"g"), Ok(true));
    assert_eq!(s.xgroup_destroy(b"s", b"g"), Ok(false));
    assert!(s.xpending_summary(b"s", b"g").unwrap().is_none());
}

#[test]
fn pending_entries_change_hands() {
    let mut s = three();
    let at = GroupCreateMode::AtId(id(0, 0));
    s.xgroup_create(b"s", b"g", at, false).unwrap();
    assert_eq!(s.xgroup_create_consumer(b"s", b"g", b"ann", 1), Ok(true));
    assert_eq!(s.xgroup_create_consumer(b"s", b"g", b"ann", 1), Ok(false));
    s.xreadgroup(b"s", b"g", b"ann", ReadGroupId::New, None, false, 100).unwrap();
    let opts = XClaimOpts {
        min_idle_ms: 50,
        idle_override_ms: None,
        time_override_ms: None,
        retrycount_override: None,
        force: false,
        justid: false,
    };
    assert!(s.xclaim(b"s", b"g", b"bob", &[id(1, 0)], &opts, 120).unwrap().is_empty(), "too fresh");
    let got = s.xclaim(b"s", b"g", b"bob", &[id(1, 0), id(8, 8)], &opts, 200).unwrap();
    assert_eq!(ids(&got), vec![id(1, 0)]);
    s.xdel(b"s", &[id(2, 0)]).unwrap();
    let (next, taken, gone) =
        s.xautoclaim(b"s", b"g", b"cat", 50, StreamId::min(), 10, false, 240).unwrap();
    assert_eq!(next, id(3, 1));
    assert_eq!(ids(&taken), vec![id(3, 0)]);
    assert_eq!(gone, vec![id(2, 0)]);
    assert_eq!(s.xgroup_setid(b"s", b"g", GroupCreateMode::AtId(id(0, 0))), Ok(true));
    assert_eq!(s.xreadgroup_has_new(b"s", b"g"), Ok(true));
    let noack = s.xreadgroup(b"s", b"g", b"dan", ReadGroupId::New, None, true, 300).unwrap();
    assert_eq!(ids(&noack), vec![id(1, 0), id(3, 0)]);
}

#[test]
fn a_loaded_stream_is_the_one_that_was_saved() {
    let mut s = three();
    s.xgroup_create(b"s", b"g", GroupCreateMode::AtId(id(0, 0)), false).unwrap();
    s.xreadgroup(b"s", b"g", b"ann", ReadGroupId::New, Some(1), false, 100).unwrap();
    let v = s.stream_view(b"s").unwrap().unwrap();
    let entries: Vec<_> = v.iter_entries().into_iter().map(|(i, f)| (i.ms, i.seq, f.clone())).collect();
    let groups: Vec<LoadedGroup> = v.export_groups();
    let (last, gone, added) = (v.last_id(), v.max_deleted_id(), v.entries_added());
    let mut t = Store::new();
    t.load_stream(
        b"s".to_vec(), entries, (last.ms, last.seq), (gone.ms, gone.seq), added, groups, None,
    );
    assert_eq!(
        t.xrange(b"s", StreamId::min(), StreamId::max(), None),
        s.xrange(b"s", StreamId::min(), StreamId::max(), None)
    );
    let sum = t.xpending_summary(b"s", b"g").unwrap().unwrap();
    assert_eq!((sum.total, sum.id_range), (1, Some((id(1, 0), id(1, 0)))));
    let rest = t.xreadgroup(b"s", b"g", b"bob", ReadGroupId::New, None, false, 200).unwrap();
    assert_eq!(ids(&rest), vec![id(2, 0), id(3, 0)]);
}

#[test]
fn ids_are_read_from_text() {
    assert!(matches!(parse_xadd_id(b"*"), Ok(XAddIdSpec::AutoAll)));
    assert!(matches!(parse_xadd_id(b"5-*"), Ok(XAddIdSpec::AutoSeq(5))));
    assert!(matches!(parse_xadd_id(b"5-6"), Ok(XAddIdSpec::Explicit(i)) if i == id(5, 6)));
    assert!(matches!(parse_xadd_id(b"x"), Err(StreamIdError::Invalid)));
    assert_eq!(parse_explicit_id(b"5", false), Ok(id(5, 0)));
    assert_eq!(parse_explicit_id(b"5", true), Ok(id(5, u64::MAX)));
    assert_eq!(parse_explicit_id(b"5-", false), Err(StreamIdError::Invalid));
    assert_eq!(parse_explicit_id(b"5-", true), Err(StreamIdError::Invalid));
    assert_eq!(parse_range_start(b"5-"), Err(StreamIdError::Invalid));
    assert_eq!(parse_range_end(b"5-"), Err(StreamIdError::Invalid));
    assert_eq!(parse_range_end(b"5"), Ok(id(5, u64::MAX)));
    assert_eq!(parse_range_start(b"-"), Ok(StreamId::min()));
    assert_eq!(parse_range_end(b"+"), Ok(StreamId::max()));
    assert_eq!(parse_range_start(b"(5-6"), Err(StreamIdError::Invalid));
    assert_eq!(id(5, 6).encode(), b"5-6".to_vec());
    assert_eq!(id(5, u64::MAX).next(), id(6, 0));
}
