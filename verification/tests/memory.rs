//! The memory estimate and eviction.
use kevy_store::{EvictionPolicy, Store, StoreError};

const MS: u64 = 1_000_000;

fn s(x: &str) -> Vec<u8> {
    x.as_bytes().to_vec()
}

fn r(v: &[Vec<u8>]) -> Vec<&[u8]> {
    v.iter().map(|x| x.as_slice()).collect()
}

fn hset(st: &mut Store, key: &[u8], pairs: &[(Vec<u8>, Vec<u8>)]) -> Result<usize, StoreError> {
    let p: Vec<(&[u8], &[u8])> = pairs.iter().map(|(f, v)| (f.as_slice(), v.as_slice())).collect();
    st.hset(key, &p)
}

#[test]
fn tests_memory_used_memory_grows_on_insert_shrinks_on_delete() {
    let mut st = Store::new();
    assert_eq!(st.used_memory(), 0);
    st.set(b"k", s("hello"), None, false, false);
    let after_one = st.used_memory();
    assert!(after_one > 0, "set should bump used_memory");
    st.set(b"k2", s("world"), None, false, false);
    assert!(st.used_memory() > after_one, "second set should bump again");
    st.del(&r(&[s("k"), s("k2")]));
    assert_eq!(st.used_memory(), 0, "all dels should zero used_memory");
}

#[test]
fn tests_memory_used_memory_tracks_collection_growth() {
    let mut st = Store::new();
    hset(&mut st, b"h", &[(s("field1"), s("v"))]).unwrap();
    let after_one_field = st.used_memory();
    hset(&mut st, b"h", &[(s("field2"), s("v"))]).unwrap();
    assert!(st.used_memory() > after_one_field);
    st.hdel(b"h", &r(&[s("field2")])).unwrap();
    let after_one_remaining = st.used_memory();
    let diff = after_one_field.abs_diff(after_one_remaining);
    assert!(diff < 16, "expected close match, got {after_one_field} vs {after_one_remaining}");
}

#[test]
fn tests_memory_used_memory_zero_on_flush() {
    let mut st = Store::new();
    for i in 0..20 {
        st.set(format!("k{i}").as_bytes(), s("v"), None, false, false);
    }
    assert!(st.used_memory() > 0);
    st.flush();
    assert_eq!(st.used_memory(), 0);
}

#[test]
fn tests_memory_precheck_refuses_when_over_limit_with_no_eviction() {
    let mut st = Store::new();
    st.set_max_memory(1, EvictionPolicy::NoEviction);
    st.set(b"k", s("aaaaaaaaaaaaaaaaaaaa"), None, false, false);
    assert!(st.used_memory() > 1);
    assert_eq!(st.precheck_for_write(), Err(StoreError::OutOfMemory));
}

#[test]
fn tests_memory_precheck_zero_cost_when_unlimited() {
    let st = Store::new();
    assert_eq!(st.precheck_for_write(), Ok(()));
}

#[test]
fn tests_memory_allkeys_lru_evicts_least_recent() {
    let mut st = Store::new();
    st.set_max_memory(2_000, EvictionPolicy::AllKeysLru);
    for i in 0..50 {
        let k = format!("k{i:02}");
        st.set(k.as_bytes(), s("xxxxxxxxxxxxxxxxxxxxxxxxxxxxxx"), None, false, false);
        st.try_evict_after_write();
    }
    assert!(st.used_memory() <= 2_000, "eviction should bring us under: got {}", st.used_memory());
    // Earlier keys should be gone; later keys present.
    assert_eq!(st.get(b"k00"), Ok(None));
    assert_eq!(st.get(b"k49").map(|v| v.is_some()), Ok(true));
}

#[test]
fn a_read_stamps_its_key_and_no_other() {
    let mut st = Store::new();
    st.set_max_memory(1 << 30, EvictionPolicy::AllKeysLru);
    st.set(b"a", s("x"), None, false, false);
    st.set(b"b", s("x"), None, false, false);
    st.rpush(b"l", &[b"x".as_slice()]).unwrap();
    let (a, b) = (st.use_mark(b"a").unwrap(), st.use_mark(b"b").unwrap());
    assert!(a < b);
    st.get(b"a").unwrap();
    assert!(st.use_mark(b"a").unwrap() > st.use_mark(b"l").unwrap());
    assert_eq!(st.use_mark(b"b"), Some(b));
    st.pttl(b"b");
    assert_eq!(st.use_mark(b"b"), Some(b), "a look at the deadline is no use");
    st.llen(b"l").unwrap();
    assert!(st.use_mark(b"l").unwrap() > st.use_mark(b"a").unwrap());
}

#[test]
fn writes_use_their_key_as_often_as_they_look_it_up() {
    let mut st = Store::new();
    st.set_max_memory(1 << 30, EvictionPolicy::AllKeysLru);
    let tick = |st: &mut Store| {
        st.del(&[b"probe".as_slice()]);
        st.set(b"probe", s("x"), None, false, false);
        st.use_mark(b"probe").unwrap()
    };
    st.set(b"a", s("x"), None, false, false);
    let t0 = tick(&mut st);
    st.set(b"a", s("y"), None, false, false);
    assert_eq!(st.use_mark(b"a"), Some(t0 + 1), "an overwrite is one use");
    st.setbit(b"a", 1, 1).unwrap();
    assert_eq!(st.use_mark(b"a"), Some(t0 + 4), "two lookups and a new entry");
    st.rpush(b"l", &[b"x".as_slice(), b"y".as_slice()]).unwrap();
    assert_eq!(st.use_mark(b"l"), Some(t0 + 7), "bound, then two lookups");
    st.rpush(b"l", &[b"x".as_slice(), b"y".as_slice()]).unwrap();
    assert_eq!(st.use_mark(b"l"), Some(t0 + 11), "two lookups for each value");
    st.lset(b"l", 0, b"z").unwrap();
    assert_eq!(st.use_mark(b"l"), Some(t0 + 13));
    st.sadd(b"s", &[b"x".as_slice()]).unwrap();
    st.sadd(b"s", &[b"y".as_slice()]).unwrap();
    assert_eq!(st.use_mark(b"s"), Some(t0 + 16));
    st.hset(b"h", &[(b"f".as_slice(), b"v".as_slice())]).unwrap();
    st.hset(b"h", &[(b"f".as_slice(), b"w".as_slice())]).unwrap();
    assert_eq!(st.use_mark(b"h"), Some(t0 + 19));
    assert_eq!(st.hsetnx(b"h", b"g", b"v"), Ok(true));
    assert_eq!(st.use_mark(b"h"), Some(t0 + 22));
    assert_eq!(st.hpttl(b"h", &[b"f", b"g"]), Ok(vec![-1, -1]));
    assert_eq!(st.use_mark(b"h"), Some(t0 + 24));
    assert_eq!(tick(&mut st), t0 + 25);
    let mut none = Store::new();
    none.set_max_memory(1 << 30, EvictionPolicy::AllKeysLru);
    assert_eq!(none.sample_round(5), (0, 0));
    assert_eq!(tick(&mut none), 1, "a round over nothing is no use");
}

#[test]
fn tests_memory_allkeys_random_evicts_under_limit() {
    let mut st = Store::new();
    st.set_max_memory(1_500, EvictionPolicy::AllKeysRandom);
    for i in 0..40 {
        let k = format!("k{i:02}");
        st.set(k.as_bytes(), s("yyyyyyyyyyyyyyyyyyyyyy"), None, false, false);
        st.try_evict_after_write();
    }
    assert!(st.used_memory() <= 1_500);
    assert!(st.evictions_total() > 0);
}

#[test]
fn tests_memory_volatile_lru_skips_keys_without_ttl() {
    let mut st = Store::new();
    st.set_max_memory(1_500, EvictionPolicy::VolatileLru);
    // Permanent keys are never evicted.
    for i in 0..10 {
        let k = format!("p{i}");
        st.set(k.as_bytes(), s("xxxxxxxxxxxxxxxxxxxx"), None, false, false);
    }
    // Keys with a deadline may be.
    for i in 0..30 {
        let k = format!("v{i}");
        st.set(k.as_bytes(), s("xxxxxxxxxxxxxxxxxxxx"), Some(3_600_000 * MS), false, false);
        st.try_evict_after_write();
    }
    for i in 0..10 {
        let k = format!("p{i}");
        assert!(
            st.get(k.as_bytes()).unwrap().is_some(),
            "volatile policy must not evict permanent key {k}"
        );
    }
}

#[test]
fn tests_memory_memory_usage_reports_key_bytes() {
    let mut st = Store::new();
    st.set(b"short", s("v"), None, false, false);
    let small = st.estimate_key_bytes(b"short").unwrap();
    st.set(b"big", s(&"x".repeat(200)), None, false, false);
    let big = st.estimate_key_bytes(b"big").unwrap();
    assert!(big > small, "large value should report more bytes: {small} vs {big}");
    assert_eq!(st.estimate_key_bytes(b"missing"), None);
}
