//! Snapshots, deadlines of keys and deadlines of hash fields.
use kevy_store::{EvictionPolicy, ExpireStats, HExpireCond, KeyspaceEvent, SnapshotView, Store, Value};

const MS: u64 = 1_000_000;

fn view_get<'a>(view: &'a SnapshotView, key: &[u8]) -> Option<&'a Value> {
    view.each().iter().find(|(k, _, _)| k == key).map(|(_, v, _)| v)
}

#[test]
fn snapshot_view_is_point_in_time_for_strings() {
    let mut s = Store::new();
    s.set(b"a", b"old".to_vec(), None, false, false);
    s.set(b"gone", b"x".to_vec(), None, false, false);

    let view = s.collect_snapshot();
    s.set(b"a", b"new".to_vec(), None, false, false);
    s.del(&[b"gone".as_slice()]);
    s.set(b"later", b"y".to_vec(), None, false, false);

    assert_eq!(view.len(), 2);
    match view_get(&view, b"a") {
        Some(Value::Str(v)) => assert_eq!(v.as_slice(), b"old"),
        other => panic!("expected frozen Str, got {:?}", other.map(|v| v.kind_name())),
    }
    assert!(view_get(&view, b"gone").is_some(), "deleted key must stay in the view");
    assert!(view_get(&view, b"later").is_none(), "post-collect insert leaked in");
    assert_eq!(s.get(b"a").unwrap(), Some(b"new".to_vec()));
}

#[test]
fn snapshot_view_collections_are_cow() {
    let mut s = Store::new();
    s.hset(b"h", &[(b"f".as_slice(), b"v1".as_slice())]).unwrap();

    let view = s.collect_snapshot();
    s.hset(
        b"h",
        &[(b"f".as_slice(), b"v2".as_slice()), (b"g".as_slice(), b"w".as_slice())],
    )
    .unwrap();

    let frozen = view_get(&view, b"h").expect("still in the view");
    assert_eq!(frozen.hash_len(), 1, "view hash gained post-collect fields");
    assert_eq!(frozen.hash_get(b"f"), Some(b"v1".as_slice()));
    assert_eq!(s.hget(b"h", b"f").unwrap(), Some(b"v2".to_vec()));
    assert_eq!(s.hget(b"h", b"g").unwrap(), Some(b"w".to_vec()));
}

#[test]
fn snapshot_view_outlives_deletion_of_collections() {
    let mut s = Store::new();
    for i in 0..100u32 {
        let f = format!("f{i}").into_bytes();
        let v = vec![b'x'; 64];
        s.hset(b"big", &[(f.as_slice(), v.as_slice())]).unwrap();
    }
    let view = s.collect_snapshot();
    s.del(&[b"big".as_slice()]);
    drop(s);
    match view_get(&view, b"big") {
        Some(Value::Hash(h)) => assert_eq!(h.len(), 100),
        _ => panic!("view lost the deleted hash"),
    }
}

#[test]
fn snapshot_view_ttl_semantics() {
    let mut s = Store::new();
    s.set(b"t", b"v".to_vec(), Some(100_000 * MS), false, false);
    s.set(b"dead", b"v".to_vec(), Some(MS), false, false);
    s.set_clock_ns(5 * MS);

    let view = s.collect_snapshot();
    assert_eq!(view.len(), 1, "expired entry leaked into the view");
    let ttl = view.each().iter().find(|(k, _, _)| k == b"t").expect("there").2.expect("a ttl");
    assert!(ttl > 90_000 && ttl <= 100_000, "ttl {ttl} not in collect-time range");
}

#[test]
fn collecting_shares_big_collections() {
    let mut s = Store::new();
    for k in 0..10u32 {
        let pairs: Vec<(Vec<u8>, Vec<u8>)> = (0..10_000u32)
            .map(|i| (format!("f{i}").into_bytes(), b"valueval".to_vec()))
            .collect();
        let p: Vec<(&[u8], &[u8])> =
            pairs.iter().map(|(f, v)| (f.as_slice(), v.as_slice())).collect();
        s.hset(format!("big{k}").as_bytes(), &p).unwrap();
    }
    let view = s.collect_snapshot();
    assert_eq!(view.len(), 10);
    for (k, v, _) in view.each() {
        match (v, s.value_ref(k)) {
            (Value::Hash(a), Some(Value::Hash(b))) => assert!(std::sync::Arc::ptr_eq(a, b)),
            _ => panic!("a flat hash"),
        }
    }
}

#[test]
fn tick_expire_drops_past_deadline() {
    let mut s = Store::new();
    s.set(b"k1", b"v".to_vec(), Some(MS), false, false);
    s.set(b"k2", b"v".to_vec(), Some(MS), false, false);
    s.set(b"perm", b"v".to_vec(), None, false, false);
    s.set_clock_ns(20 * MS);
    let stats = s.tick_expire(20, 16);
    assert_eq!(stats.expired, 2, "both keys with a deadline should be reaped");
    assert!(stats.sampled >= 2);
    assert_eq!(s.dbsize(), 1, "perm survives");
    assert!(s.expired_keys_total() >= 2);
}

#[test]
fn rounds_of_a_sweep_start_elsewhere() {
    let mut s = Store::new();
    s.set_max_memory(1 << 30, EvictionPolicy::AllKeysLru);
    for i in 0..200u32 {
        s.set(&i.to_be_bytes(), b"v".to_vec(), Some(1_000), false, false);
    }
    s.set(b"first", b"v".to_vec(), None, false, false);
    s.set_clock_ns(2_000);
    let mut left = 200;
    for _ in 0..200 {
        let (looked, gone) = s.sample_round(1);
        assert_eq!(looked, gone);
        left -= gone as usize;
    }
    s.set(b"second", b"v".to_vec(), None, false, false);
    assert_eq!(
        s.use_mark(b"second").unwrap(),
        s.use_mark(b"first").unwrap() + 201,
        "each round moves the clock on"
    );
    assert_eq!(s.dbsize(), left + 2);
    assert!(left < 200);
}

#[test]
fn tick_expire_no_op_on_fresh_ttls() {
    let mut s = Store::new();
    s.set(b"k1", b"v".to_vec(), Some(3_600_000 * MS), false, false);
    s.set(b"k2", b"v".to_vec(), Some(3_600_000 * MS), false, false);
    let stats = s.tick_expire(20, 16);
    assert_eq!(stats.expired, 0, "no fresh deadline should expire");
    assert_eq!(s.dbsize(), 2);
}

#[test]
fn tick_expire_no_op_on_ttl_free_keyspace() {
    let mut s = Store::new();
    for i in 0..50 {
        s.set(format!("k{i}").as_bytes(), b"v".to_vec(), None, false, false);
    }
    let stats = s.tick_expire(20, 16);
    assert_eq!(stats.expired, 0);
    assert_eq!(stats.sampled, 0, "nothing with a deadline, nothing sampled");
    assert!(stats.rounds <= 3, "got {}", stats.rounds);
}

#[test]
fn tick_expire_zero_args_short_circuit() {
    let mut s = Store::new();
    s.set(b"k", b"v".to_vec(), Some(MS), false, false);
    s.set_clock_ns(5 * MS);
    assert_eq!(s.tick_expire(0, 16), ExpireStats::default());
    assert_eq!(s.tick_expire(20, 0), ExpireStats::default());
    // The expired key is still held.
    assert_eq!(s.dbsize(), 1);
}

#[test]
fn tick_expire_loops_on_heavy_batch() {
    let mut s = Store::new();
    for i in 0..40 {
        s.set(format!("k{i}").as_bytes(), b"v".to_vec(), Some(MS), false, false);
    }
    s.set(b"perm", b"v".to_vec(), None, false, false);
    s.set_clock_ns(20 * MS);
    let mut total_expired = 0u32;
    let mut any_round_ge_2 = false;
    for _ in 0..20 {
        let stats = s.tick_expire(20, 16);
        total_expired += stats.expired;
        if stats.rounds >= 2 {
            any_round_ge_2 = true;
        }
        if s.dbsize() == 1 {
            break;
        }
    }
    assert_eq!(total_expired, 40);
    assert!(any_round_ge_2, "at least one heavy-batch tick should loop");
    assert_eq!(s.dbsize(), 1);
}

fn h(s: &mut Store) {
    s.hset(b"h", &[(b"a".as_slice(), b"1".as_slice()), (b"b".as_slice(), b"2".as_slice())])
        .unwrap();
}

#[test]
fn hexpire_httl_hpersist_codes() {
    let mut s = Store::new();
    s.set_wall_clock_ms(1_000_000);
    h(&mut s);
    let far = s.now_unix_ms() + 100_000;
    let codes = s.hexpire_at(b"h", &[b"a", b"nope"], far, HExpireCond::Always).unwrap();
    assert_eq!(codes, vec![1, -2]);
    let ttls = s.hpttl(b"h", &[b"a", b"b", b"nope"]).unwrap();
    assert!(ttls[0] > 90_000 && ttls[0] <= 100_000);
    assert_eq!(&ttls[1..], &[-1, -2]);
    assert_eq!(s.hexpire_at(b"h", &[b"a"], far + 1, HExpireCond::Nx).unwrap(), vec![0]);
    assert_eq!(s.hexpire_at(b"h", &[b"b"], far, HExpireCond::Xx).unwrap(), vec![0]);
    assert_eq!(s.hexpire_at(b"h", &[b"a"], far + 500, HExpireCond::Gt).unwrap(), vec![1]);
    assert_eq!(s.hexpire_at(b"h", &[b"a"], far, HExpireCond::Gt).unwrap(), vec![0]);
    assert_eq!(s.hpersist(b"h", &[b"a", b"b", b"nope"]).unwrap(), vec![1, -1, -2]);
    assert_eq!(s.hpttl(b"h", &[b"a"]).unwrap(), vec![-1]);
}

#[test]
fn past_deadline_deletes_and_lazy_purge_enforces() {
    let mut s = Store::new();
    s.set_wall_clock_ms(1_000_000);
    h(&mut s);
    assert_eq!(s.hexpire_at(b"h", &[b"a"], 1, HExpireCond::Always).unwrap(), vec![2]);
    assert!(!s.hexists(b"h", b"a").unwrap());
    let soon = s.now_unix_ms() + 30;
    s.hexpire_at(b"h", &[b"b"], soon, HExpireCond::Always).unwrap();
    s.set_wall_clock_ms(soon + 20);
    assert!(!s.hexists(b"h", b"b").unwrap(), "lazy purge on access");
    assert_eq!(s.hlen(b"h").unwrap(), 0);
    assert!(s.hash_ttl_each().is_empty());
}

#[test]
fn overwrite_clears_ttl_and_reaper_reports() {
    let mut s = Store::new();
    s.set_wall_clock_ms(1_000_000);
    h(&mut s);
    let soon = s.now_unix_ms() + 20;
    s.hexpire_at(b"h", &[b"a", b"b"], soon, HExpireCond::Always).unwrap();
    // A field that is written again loses its deadline.
    s.hset(b"h", &[(b"a".as_slice(), b"new".as_slice())]).unwrap();
    assert_eq!(s.hpttl(b"h", &[b"a"]).unwrap(), vec![-1]);
    s.set_wall_clock_ms(soon + 20);
    let swept = s.tick_hash_ttl(100);
    assert_eq!(swept, vec![(b"h".to_vec(), vec![b"b".to_vec()])]);
    assert!(s.hexists(b"h", b"a").unwrap(), "overwritten field survived");
    let far = s.now_unix_ms() + 100_000;
    s.hexpire_at(b"h", &[b"a"], far, HExpireCond::Always).unwrap();
    s.del(&[b"h".as_slice()]);
    assert!(s.hash_ttl_each().is_empty());
}

/// What is captured, and in which order.
#[test]
fn events_are_captured_when_asked_for() {
    let mut s = Store::new();
    s.set(b"before", b"v".to_vec(), None, false, false);
    assert!(!s.has_notify_events());
    s.set_notify_capture(true, true, false);
    s.set(b"k", b"v".to_vec(), Some(MS), false, false);
    s.set_clock_ns(2 * MS);
    assert_eq!(s.get(b"k"), Ok(None));
    assert_eq!(
        s.take_notify_events(),
        vec![(KeyspaceEvent::New, b"k".to_vec()), (KeyspaceEvent::Expired, b"k".to_vec())]
    );
    assert!(!s.has_notify_events());
}

/// A watched key's version moves with its writes, an unwatched one's not.
#[test]
fn watched_versions_move() {
    let mut s = Store::new();
    assert_eq!(s.record_watch(b"k"), 0);
    s.bump_if_watched(b"k");
    s.bump_if_watched(b"other");
    assert_eq!(s.key_version(b"k"), 1);
    assert_eq!(s.key_version(b"other"), 0);
    s.bump_all_watched();
    assert_eq!(s.key_version(b"k"), 2);
}
