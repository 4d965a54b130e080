//! Commands on keys, lists, hashes, bits and the keyspace as a whole.
use kevy_store::{
    bitop_combine, BitOp, EvictionPolicy, HExpireCond, KeyspaceEvent, RenameOutcome, Store,
    StoreError, Value,
};

const MS: u64 = 1_000_000;

fn set(s: &mut Store, k: &[u8], v: &[u8]) {
    assert!(s.set(k, v.to_vec(), None, false, false));
}

#[test]
fn a_renamed_key_keeps_value_and_deadline() {
    let mut s = Store::new();
    s.set(b"a", b"1".to_vec(), Some(5000 * MS), false, false);
    set(&mut s, b"b", b"2");
    assert_eq!(s.rename(b"a", b"b", true), RenameOutcome::DstExists);
    assert_eq!(s.rename(b"none", b"b", false), RenameOutcome::NoSuchSrc);
    assert_eq!(s.rename(b"a", b"b", false), RenameOutcome::Renamed);
    assert_eq!(s.get(b"b"), Ok(Some(b"1".to_vec())));
    assert_eq!(s.pttl(b"b"), 5000);
    assert!(!s.key_exists(b"a"));
    assert_eq!(s.dbsize(), 1);
}

#[test]
fn a_value_moves_between_stores() {
    let mut s = Store::new();
    s.set_wall_clock_ms(10_000);
    s.rpush(b"l", &[b"x", b"y"]).unwrap();
    assert!(s.expire_at_unix_ms(b"l", 12_000));
    let copy = s.clone_with_ttl(b"l").unwrap().unwrap();
    assert_eq!(copy.1, Some(2000));
    assert!(matches!(copy.0, Value::SmallListInline(_)), "a copy keeps the encoding");
    let (v, ttl) = s.take_with_ttl(b"l").unwrap().unwrap();
    assert!(s.take_with_ttl(b"l").unwrap().is_none());
    let mut t = Store::new();
    t.put_with_ttl(b"m".to_vec(), v, ttl);
    assert_eq!(t.lrange(b"m", 0, -1), Ok(vec![b"x".to_vec(), b"y".to_vec()]));
    assert_eq!(t.pttl(b"m"), 2000);
    t.load_value(b"loaded", &copy.0, None);
    assert!(matches!(t.value_ref(b"loaded"), Some(Value::List(_))), "a load does not");
    assert_eq!(t.del(&[b"loaded".as_slice()]), 1);
    t.load_str(b"n".to_vec(), b"12".to_vec(), None);
    assert!(matches!(t.value_ref(b"n"), Some(Value::Int(12))));
    assert_eq!(t.exists_keys(&[b"m", b"m", b"q"]), 2);
    assert_eq!(t.prefix_stats(b"m"), (1, 1));
    assert_eq!(t.prefix_stats(b""), (2, 1));
    assert_eq!(t.ttl_pending_count(), 1);
    assert_eq!(t.snapshot_each().len(), 2);
}

#[test]
fn list_elements_move_round() {
    let mut s = Store::new();
    s.rpush(b"a", &[b"1", b"2", b"3"]).unwrap();
    assert_eq!(s.rpoplpush(b"a", b"b"), Ok(Some(b"3".to_vec())));
    assert_eq!(s.rpoplpush(b"a", b"a"), Ok(Some(b"2".to_vec())));
    assert_eq!(s.lrange(b"a", 0, -1), Ok(vec![b"2".to_vec(), b"1".to_vec()]));
    assert_eq!(s.lmove(b"a", b"b", true, false), Ok(Some(b"2".to_vec())));
    assert_eq!(s.lrange(b"b", 0, -1), Ok(vec![b"3".to_vec(), b"2".to_vec()]));
    assert_eq!(s.lmove(b"a", b"b", true, true), Ok(Some(b"1".to_vec())));
    assert!(!s.key_exists(b"a"), "an emptied list goes");
    assert_eq!(s.rpoplpush(b"a", b"b"), Ok(None));
    set(&mut s, b"s", b"x");
    assert_eq!(s.rpoplpush(b"b", b"s"), Err(StoreError::WrongType));
    assert_eq!(s.llen(b"b"), Ok(3), "a refused move takes nothing");
}

#[test]
fn places_of_list_elements() {
    let mut s = Store::new();
    s.rpush(b"l", &[b"a", b"b", b"a", b"c", b"a"]).unwrap();
    assert_eq!(s.lpos(b"l", b"a", 1, None, 0), Ok(vec![0]));
    assert_eq!(s.lpos(b"l", b"a", 2, None, 0), Ok(vec![2]));
    assert_eq!(s.lpos(b"l", b"a", -1, None, 0), Ok(vec![4]));
    assert_eq!(s.lpos(b"l", b"a", 1, Some(0), 0), Ok(vec![0, 2, 4]));
    assert_eq!(s.lpos(b"l", b"a", -1, Some(2), 0), Ok(vec![4, 2]));
    assert_eq!(s.lpos(b"l", b"a", 1, Some(0), 3), Ok(vec![0, 2]));
    assert_eq!(s.lpos(b"l", b"z", 1, Some(0), 0), Ok(vec![]));
    assert_eq!(s.lpos(b"none", b"z", 1, None, 0), Ok(vec![]));
}

#[test]
fn random_fields_are_fields() {
    let mut s = Store::new();
    for f in [b"a", b"b", b"c"] {
        s.hset(b"h", &[(&f[..], &f[..])]).unwrap();
    }
    let few = s.hrandfield(b"h", 2, true).unwrap();
    assert_eq!(few.len(), 2);
    assert!(few[0].0 != few[1].0 && few.iter().all(|(f, v)| f == v));
    assert_eq!(s.hrandfield(b"h", 9, false).unwrap().len(), 3);
    assert_eq!(s.hrandfield(b"h", -7, false).unwrap().len(), 7);
    assert_eq!(s.hrandfield(b"none", -7, false).unwrap().len(), 0);
    assert_eq!(s.hash_pairs(b"h").unwrap().unwrap().len(), 3);
    assert_eq!(s.hash_pairs(b"none"), Ok(None));
}

#[test]
fn fields_have_deadlines_of_their_own() {
    let mut s = Store::new();
    s.set_wall_clock_ms(1000);
    s.hset(b"h", &[(b"a", b"1"), (b"b", b"2")]).unwrap();
    assert_eq!(s.hexpire_at(b"h", &[b"a", b"z"], 2000, HExpireCond::Always), Ok(vec![1, -2]));
    assert_eq!(s.hexpire_at(b"h", &[b"a"], 3000, HExpireCond::Nx), Ok(vec![0]));
    assert_eq!(s.hexpire_at(b"h", &[b"a"], 3000, HExpireCond::Gt), Ok(vec![1]));
    assert_eq!(s.hexpire_at(b"h", &[b"b"], 3000, HExpireCond::Xx), Ok(vec![0]));
    assert_eq!(s.hpttl(b"h", &[b"a", b"b", b"z"]), Ok(vec![2000, -1, -2]));
    let view = s.collect_snapshot();
    assert_eq!(view.each_hash_ttl(), &vec![(b"h".to_vec(), b"a".to_vec(), 3000)]);
    s.load_hash_field_ttl(b"h", b"b", 1500);
    s.set_wall_clock_ms(1600);
    assert_eq!(s.hget(b"h", b"b"), Ok(None));
    assert_eq!(s.hpersist(b"h", &[b"a"]), Ok(vec![1]));
    assert_eq!(s.hexpire_at(b"h", &[b"a"], 10, HExpireCond::Always), Ok(vec![2]));
    assert!(!s.key_exists(b"h"), "a hash without fields goes");
}

#[test]
fn a_scan_meets_every_key() {
    let mut s = Store::new();
    for i in 0..500u32 {
        set(&mut s, format!("k:{i}").as_bytes(), b"v");
    }
    s.rpush(b"k:list", &[b"x"]).unwrap();
    let mut seen: Vec<Vec<u8>> = Vec::new();
    let mut cursor = 0;
    loop {
        let (next, keys, _) = s.scan_page(cursor, 17, Some(b"k:*"), Some(b"STRING"));
        seen.extend(keys);
        cursor = next;
        if cursor == 0 {
            break;
        }
    }
    seen.sort();
    seen.dedup();
    assert_eq!(seen.len(), 500);
    assert!(s.random_key().is_some());
    let mut many = Store::new();
    for i in 0..64u32 {
        many.set(&i.to_be_bytes(), b"v".to_vec(), None, false, false);
    }
    let mut met: Vec<Vec<u8>> = (0..64).map(|_| many.random_key().unwrap()).collect();
    met.sort();
    met.dedup();
    assert!(met.len() > 8, "the key varies from call to call");
    assert_eq!(Store::new().random_key(), None);
}

#[test]
fn bits_combine() {
    let a = vec![0b1100u8, 0xff];
    let b = vec![0b1010u8];
    let two = [a.clone(), b];
    assert_eq!(bitop_combine(BitOp::And, &two, 2), vec![0b1000, 0]);
    assert_eq!(bitop_combine(BitOp::Or, &two, 2), vec![0b1110, 0xff]);
    assert_eq!(bitop_combine(BitOp::Xor, &two, 2), vec![0b0110, 0xff]);
    assert_eq!(bitop_combine(BitOp::Not, &[a], 2), vec![0xf3, 0]);
}

#[test]
fn memory_is_made_free() {
    for policy in [EvictionPolicy::AllKeysLru, EvictionPolicy::AllKeysLfu, EvictionPolicy::AllKeysRandom] {
        let mut s = Store::new();
        s.set_notify_capture(false, false, true);
        for i in 0..100u32 {
            s.set(format!("k{i}").as_bytes(), vec![b'v'; 200], None, false, false);
        }
        let peak = s.used_memory();
        s.set_max_memory(peak / 2, policy);
        assert_eq!((s.maxmemory(), s.eviction_policy()), (peak / 2, policy));
        s.try_evict_after_write();
        assert!(s.used_memory() <= peak / 2);
        assert_eq!(s.evictions_total() as usize, 100 - s.dbsize());
        assert_eq!(s.used_memory_peak(), peak);
        let events = s.take_notify_events();
        assert!(events.iter().all(|(e, _)| matches!(e, KeyspaceEvent::Evicted)));
    }
    let mut s = Store::new();
    set(&mut s, b"k", &[b'v'; 200]);
    s.set_max_memory(10, EvictionPolicy::NoEviction);
    assert_eq!(s.precheck_for_write(), Err(StoreError::OutOfMemory));
    s.set_max_memory(10, EvictionPolicy::VolatileTtl);
    s.try_evict_after_write();
    assert_eq!(s.dbsize(), 1, "a key without a deadline is spared");
}

#[test]
fn a_text_written_in_place_keeps_the_deadline() {
    let mut s = Store::new();
    s.set(b"k", b"1.5".to_vec(), Some(100 * MS), false, false);
    assert_eq!(s.write_text(b"k", b"2.5".to_vec()), Ok(()));
    assert_eq!(s.get(b"k"), Ok(Some(b"2.5".to_vec())));
    assert_eq!(s.pttl(b"k"), 100);
    s.rpush(b"l", &[b"x"]).unwrap();
    assert_eq!(s.write_text(b"l", b"1".to_vec()), Err(StoreError::WrongType));
    s.set_clock_ns(200 * MS);
    assert_eq!(s.get(b"k"), Ok(None));
    assert_eq!(s.expired_keys_total(), 1);
    assert_eq!(s.expires_count(), 0);
}
