//! Big hashes, sets and lists: their encodings and what snapshots share.
use kevy_store::list_seg::{SegListData, SEG_CAP, SEG_PROMOTE};
use kevy_store::seg_map::{SegMap, HS_PROMOTE};
use kevy_store::{Store, Value};
use std::collections::BTreeSet;
use std::sync::Arc;

fn hset_n(st: &mut Store, key: &[u8], n: usize) {
    for i in 0..n {
        let f = format!("field-{i:08}");
        let v = format!("value-{i:08}");
        st.hset(key, &[(f.as_bytes(), v.as_bytes())]).unwrap();
    }
}

fn sadd_n(st: &mut Store, key: &[u8], n: usize) {
    for i in 0..n {
        let m = format!("member-{i:08}");
        st.sadd(key, &[m.as_bytes()]).unwrap();
    }
}

fn rpush_n(st: &mut Store, key: &[u8], n: usize, tag: u8) {
    for i in 0..n {
        let v = format!("elem-{tag}-{i:010}");
        st.rpush(key, &[v.as_bytes()]).unwrap();
    }
}

fn is_seghash(st: &Store, key: &[u8]) -> bool {
    matches!(st.value_ref(key), Some(Value::SegHash(_)))
}

fn is_segset(st: &Store, key: &[u8]) -> bool {
    matches!(st.value_ref(key), Some(Value::SegSet(_)))
}

fn is_seglist(st: &Store, key: &[u8]) -> bool {
    matches!(st.value_ref(key), Some(Value::SegList(_)))
}

#[test]
fn hash_promotes_and_splits_stay_routable() {
    let mut st = Store::new();
    let n = 3 * HS_PROMOTE; // directory doubling and several splits
    hset_n(&mut st, b"h", n);
    assert!(is_seghash(&st, b"h"));
    assert_eq!(st.hlen(b"h").unwrap(), n);
    // Every key still routes to its bucket after all splits.
    for i in (0..n).step_by(997) {
        let f = format!("field-{i:08}");
        let v = st.hget(b"h", f.as_bytes()).unwrap().expect("present");
        assert_eq!(v, format!("value-{i:08}").as_bytes());
    }
    assert_eq!(st.hgetall(b"h").unwrap().len(), n * 2);
}

#[test]
fn set_promotes_and_membership_holds() {
    let mut st = Store::new();
    let n = HS_PROMOTE + 500;
    sadd_n(&mut st, b"s", n);
    assert!(is_segset(&st, b"s"));
    assert_eq!(st.scard(b"s").unwrap(), n);
    for i in (0..n).step_by(499) {
        let m = format!("member-{i:08}");
        assert!(st.sismember(b"s", m.as_bytes()).unwrap());
    }
    assert!(!st.sismember(b"s", b"absent").unwrap());
    assert_eq!(st.smembers(b"s").unwrap().len(), n);
}

/// A write under a pinned view clones the routed bucket only.
#[test]
fn cow_write_under_pinned_view_clones_one_bucket() {
    let mut st = Store::new();
    hset_n(&mut st, b"h", 3 * HS_PROMOTE);
    let view = st.collect_snapshot();
    st.hset(b"h", &[(b"after-pin".as_slice(), b"x".as_slice())]).unwrap();

    let Some(Value::SegHash(live)) = st.value_ref(b"h") else {
        panic!("still sharded");
    };
    let arcs = live.buckets().bucket_arcs();
    let unique = arcs.iter().filter(|a| Arc::strong_count(a) == 1).count();
    let shared = arcs.iter().filter(|a| Arc::strong_count(a) >= 2).count();
    assert_eq!(unique, 1, "exactly the routed bucket is unshared");
    assert!(shared >= 2, "untouched buckets stay view-shared");

    // The view still serves the count before the write.
    let mut view_len = 0usize;
    for (_, v, _) in view.each() {
        if matches!(v, Value::SegHash(_)) {
            view_len = v.hash_len();
        }
    }
    assert_eq!(view_len, 3 * HS_PROMOTE);
    assert_eq!(st.hlen(b"h").unwrap(), 3 * HS_PROMOTE + 1);
}

#[test]
fn sharded_hash_ops_match_semantics() {
    let mut st = Store::new();
    let n = HS_PROMOTE + 100;
    hset_n(&mut st, b"h", n);
    assert!(is_seghash(&st, b"h"));

    // An overwrite keeps the count; a new field raises it.
    st.hset(b"h", &[(b"field-00000007".as_slice(), b"rewritten".as_slice())]).unwrap();
    assert_eq!(st.hlen(b"h").unwrap(), n);
    assert_eq!(st.hget(b"h", b"field-00000007").unwrap().unwrap(), b"rewritten");

    let removed = st
        .hdel(
            b"h",
            &[b"field-00000001".as_slice(), b"field-00000002".as_slice(), b"nope".as_slice()],
        )
        .unwrap();
    assert_eq!(removed, 2);
    assert_eq!(st.hlen(b"h").unwrap(), n - 2);
    assert!(st.hget(b"h", b"field-00000001").unwrap().is_none());

    st.hset(b"h", &[(b"ctr".as_slice(), b"41".as_slice())]).unwrap();
    assert_eq!(st.hincrby(b"h", b"ctr", 1).unwrap(), 42);
    assert_eq!(st.hget(b"h", b"ctr").unwrap().unwrap(), b"42");
}

/// Counters alone take a hash over the threshold too.
#[test]
fn hincr_only_workload_promotes() {
    let mut st = Store::new();
    for i in 0..HS_PROMOTE + 2 {
        let f = format!("c{i:08}");
        st.hincrby(b"h", f.as_bytes(), 1).unwrap();
    }
    assert!(is_seghash(&st, b"h"));
    assert_eq!(st.hlen(b"h").unwrap(), HS_PROMOTE + 2);
    assert_eq!(st.hincrby(b"h", b"c00000000", 41).unwrap(), 42);
}

#[test]
fn sharded_set_ops_match_semantics() {
    let mut st = Store::new();
    let n = HS_PROMOTE + 200;
    sadd_n(&mut st, b"s", n);

    let removed = st.srem(b"s", &[b"member-00000000".as_slice(), b"gone".as_slice()]).unwrap();
    assert_eq!(removed, 1);
    assert_eq!(st.scard(b"s").unwrap(), n - 1);

    let popped = st.spop(b"s", 25).unwrap();
    assert_eq!(popped.len(), 25);
    assert_eq!(st.scard(b"s").unwrap(), n - 26);
    for m in &popped {
        assert!(!st.sismember(b"s", m).unwrap(), "popped member really removed");
    }

    let sample = st.srandmember(b"s", 10).unwrap();
    assert_eq!(sample.len(), 10);
    let unique: BTreeSet<_> = sample.iter().collect();
    assert_eq!(unique.len(), 10, "positive-count SRANDMEMBER is distinct");
    for m in &sample {
        assert!(st.sismember(b"s", m).unwrap(), "sampled member still present");
    }

    let with_rep = st.srandmember_with_repeats(b"s", 5).unwrap();
    assert_eq!(with_rep.len(), 5);
}

/// Deleting the keys brings the estimate back to where it was.
#[test]
fn accounting_round_trips_through_sharded_ops() {
    let mut st = Store::new();
    let baseline = st.used_memory();
    hset_n(&mut st, b"h", HS_PROMOTE + 300);
    st.hdel(b"h", &[b"field-00000004".as_slice()]).unwrap();
    st.hincrby(b"h", b"x", 7).unwrap();
    sadd_n(&mut st, b"s", HS_PROMOTE + 100);
    st.srem(b"s", &[b"member-00000003".as_slice()]).unwrap();
    st.spop(b"s", 10).unwrap();
    assert!(st.used_memory() > baseline);
    assert_eq!(st.del(&[b"h".as_slice(), b"s".as_slice()]), 2);
    assert_eq!(st.used_memory(), baseline);
}

#[test]
fn loads_apply_the_encoding_switch() {
    let mut st = Store::new();
    let big: Vec<(Vec<u8>, Vec<u8>)> =
        (0..HS_PROMOTE + 1).map(|i| (format!("f{i}").into_bytes(), b"v".to_vec())).collect();
    st.load_hash(b"h".to_vec(), big, None);
    assert!(is_seghash(&st, b"h"));
    assert_eq!(st.hlen(b"h").unwrap(), HS_PROMOTE + 1);

    let members: Vec<Vec<u8>> =
        (0..HS_PROMOTE + 1).map(|i| format!("m{i}").into_bytes()).collect();
    st.load_set(b"s".to_vec(), members, None);
    assert!(is_segset(&st, b"s"));
    assert_eq!(st.scard(b"s").unwrap(), HS_PROMOTE + 1);

    let small: Vec<(Vec<u8>, Vec<u8>)> =
        (0..100).map(|i| (format!("f{i}").into_bytes(), b"v".to_vec())).collect();
    st.load_hash(b"hs".to_vec(), small, None);
    assert!(!is_seghash(&st, b"hs"));
}

#[test]
fn push_promotes_at_threshold_and_preserves_order() {
    let mut st = Store::new();
    rpush_n(&mut st, b"l", SEG_PROMOTE + 5, 0);
    assert!(is_seglist(&st, b"l"), "list past SEG_PROMOTE must be segmented");
    assert_eq!(st.llen(b"l").unwrap(), SEG_PROMOTE + 5);
    assert_eq!(st.lindex(b"l", 0).unwrap().unwrap(), format!("elem-0-{:010}", 0).into_bytes());
    assert_eq!(
        st.lindex(b"l", (SEG_PROMOTE + 4) as i64).unwrap().unwrap(),
        format!("elem-0-{:010}", SEG_PROMOTE + 4).into_bytes()
    );
    assert_eq!(
        st.lindex(b"l", SEG_CAP as i64).unwrap().unwrap(),
        format!("elem-0-{:010}", SEG_CAP).into_bytes()
    );
    // A range across the segment boundary.
    let span = st.lrange(b"l", SEG_CAP as i64 - 2, SEG_CAP as i64 + 1).unwrap();
    assert_eq!(span.len(), 4);
    assert_eq!(span[2], format!("elem-0-{:010}", SEG_CAP).into_bytes());
}

#[test]
fn load_list_applies_the_encoding_switch() {
    let mut st = Store::new();
    let big: Vec<Vec<u8>> = (0..SEG_PROMOTE + 1).map(|i| format!("x{i}").into_bytes()).collect();
    st.load_list(b"big".to_vec(), big, None);
    assert!(is_seglist(&st, b"big"));
    assert_eq!(st.llen(b"big").unwrap(), SEG_PROMOTE + 1);

    let small: Vec<Vec<u8>> = (0..100).map(|i| format!("y{i}").into_bytes()).collect();
    st.load_list(b"small".to_vec(), small, None);
    assert!(!is_seglist(&st, b"small"));
    assert_eq!(st.llen(b"small").unwrap(), 100);
}

/// A write under a pinned view clones the touched segment only.
#[test]
fn cow_write_under_pinned_view_clones_only_touched_segment() {
    let mut st = Store::new();
    rpush_n(&mut st, b"l", 3 * SEG_CAP + 10, 0);
    assert!(is_seglist(&st, b"l"));

    let view = st.collect_snapshot();
    st.rpush(b"l", &[b"after-pin".as_slice()]).unwrap();

    let Some(Value::SegList(live)) = st.value_ref(b"l") else {
        panic!("still segmented");
    };
    let shared = live.segments().seg_arcs().iter().filter(|s| Arc::strong_count(s) >= 2).count();
    let unique = live.segments().seg_arcs().iter().filter(|s| Arc::strong_count(s) == 1).count();
    assert_eq!(unique, 1, "exactly the touched segment is unshared");
    assert!(shared >= 3, "untouched segments stay view-shared");

    let mut view_len = 0usize;
    for (_, v, _) in view.each() {
        if let Value::SegList(l) = v {
            view_len = l.len();
        }
    }
    assert_eq!(view_len, 3 * SEG_CAP + 10);
    assert_eq!(st.llen(b"l").unwrap(), 3 * SEG_CAP + 11);
}

#[test]
fn segged_ops_match_model_semantics() {
    let mut st = Store::new();
    let n = SEG_PROMOTE + 100;
    rpush_n(&mut st, b"l", n, 1);
    let mut model: Vec<Vec<u8>> = (0..n).map(|i| format!("elem-1-{i:010}").into_bytes()).collect();

    let at = SEG_CAP + 50;
    st.lset(b"l", at as i64, b"replaced").unwrap();
    model[at] = b"replaced".to_vec();

    let pivot = format!("elem-1-{:010}", 123);
    let r = st.linsert(b"l", true, pivot.as_bytes(), b"inserted").unwrap();
    assert_eq!(r, (n + 1) as i64);
    model.insert(123, b"inserted".to_vec());

    st.rpush(b"l", &[b"dup".as_slice(), b"dup".as_slice(), b"dup".as_slice()]).unwrap();
    model.extend([b"dup".to_vec(), b"dup".to_vec(), b"dup".to_vec()]);
    let removed = st.lrem(b"l", -2, b"dup").unwrap();
    assert_eq!(removed, 2);
    model.truncate(model.len() - 2);

    // A window across a segment boundary.
    let (s, e) = (SEG_CAP - 10, SEG_CAP + 60);
    st.ltrim(b"l", s as i64, e as i64).unwrap();
    let model: Vec<_> = model[s..=e].to_vec();

    assert_eq!(st.llen(b"l").unwrap(), model.len());
    let got = st.lrange(b"l", 0, -1).unwrap();
    assert_eq!(got, model);

    let front = st.lpop(b"l", 3).unwrap();
    assert_eq!(front, model[..3].to_vec());
    let back = st.rpop(b"l", 3).unwrap();
    let mut expect_back = model[model.len() - 3..].to_vec();
    expect_back.reverse();
    assert_eq!(back, expect_back);
}

#[test]
fn accounting_round_trips_through_segged_ops() {
    let mut st = Store::new();
    let baseline = st.used_memory();
    rpush_n(&mut st, b"l", SEG_PROMOTE + 200, 2);
    st.lset(b"l", 17, b"x").unwrap();
    st.linsert(b"l", false, b"x", b"y").unwrap();
    st.lrem(b"l", 0, b"y").unwrap();
    st.ltrim(b"l", 100, (SEG_PROMOTE - 50) as i64).unwrap();
    st.lpop(b"l", 25).unwrap();
    st.rpop(b"l", 25).unwrap();
    assert!(st.used_memory() > baseline);
    assert_eq!(st.del(&[b"l".as_slice()]), 1);
    assert_eq!(st.used_memory(), baseline);
}

#[test]
fn trim_to_nothing_deletes_key() {
    let mut st = Store::new();
    rpush_n(&mut st, b"l", SEG_PROMOTE + 10, 3);
    assert!(is_seglist(&st, b"l"));
    st.ltrim(b"l", 5, 1).unwrap(); // an inverted range empties
    assert_eq!(st.llen(b"l").unwrap(), 0);
    assert!(st.value_ref(b"l").is_none(), "emptied key is removed");
}

#[test]
fn values_come_in_the_order_of_the_keys() {
    let mut m: SegMap<Vec<u8>> = SegMap::new();
    for i in 0..50u32 {
        m.insert(format!("k{i}").into_bytes(), format!("v{i}").into_bytes());
    }
    let keys = m.keys();
    let values = m.values();
    assert_eq!((keys.len(), values.len()), (50, 50));
    for (k, v) in keys.iter().zip(values) {
        assert_eq!(m.get(k), Some(v));
        assert_eq!(k[1..], v[1..]);
    }
}

#[test]
fn what_is_pushed_is_popped_at_the_same_end() {
    let mut l = SegListData::new();
    for i in 0..SEG_CAP {
        l.push_back(i.to_string().into_bytes());
    }
    let held = |l: &SegListData| l.iter().into_iter().cloned().collect::<Vec<Vec<u8>>>();
    let before = held(&l);
    assert_eq!(l.seg_count(), 1);
    l.push_back(b"new".to_vec());
    assert_eq!(l.seg_count(), 2, "a full segment is not split");
    assert_eq!(l.pop_back(), Some(b"new".to_vec()));
    assert_eq!((held(&l), l.len()), (before.clone(), SEG_CAP));
    l.push_front(b"new".to_vec());
    assert_eq!(l.pop_front(), Some(b"new".to_vec()));
    assert_eq!(held(&l), before);
    let mut none = SegListData::new();
    assert_eq!((none.pop_back(), none.pop_front()), (None, None));
}
