//! Sorted sets.
use kevy_store::{Score, ScoreBound, Store, StoreError, Value};
use std::collections::BTreeMap;

fn sc(x: f64) -> Score {
    Score::from_bits(x.to_bits())
}

fn num(s: Score) -> f64 {
    f64::from_bits(s.to_bits())
}

fn bound(value: f64, exclusive: bool) -> ScoreBound {
    ScoreBound { value: sc(value), exclusive }
}

fn zadd(st: &mut Store, key: &[u8], pairs: &[(f64, &[u8])]) -> Result<usize, StoreError> {
    let scored: Vec<(Score, &[u8])> = pairs.iter().map(|(s, m)| (sc(*s), *m)).collect();
    st.zadd(key, &scored)
}

fn zscore(st: &mut Store, key: &[u8], m: &[u8]) -> Result<Option<f64>, StoreError> {
    st.zscore(key, m).map(|s| s.map(num))
}

fn plain(v: Vec<(Vec<u8>, Score)>) -> Vec<(Vec<u8>, f64)> {
    v.into_iter().map(|(m, s)| (m, num(s))).collect()
}

fn zrange(st: &mut Store, key: &[u8], a: i64, b: i64) -> Vec<(Vec<u8>, f64)> {
    plain(st.zrange(key, a, b).unwrap())
}

fn zincrby(st: &mut Store, key: &[u8], by: f64, m: &[u8]) -> Result<f64, StoreError> {
    let next = zscore(st, key, m)?.unwrap_or(0.0) + by;
    zadd(st, key, &[(next, m)])?;
    Ok(next)
}

fn names(v: Vec<(Vec<u8>, Score)>) -> Vec<Vec<u8>> {
    v.into_iter().map(|(m, _)| m).collect()
}

#[test]
fn zset_ops() {
    let mut st = Store::new();
    assert_eq!(zadd(&mut st, b"z", &[(2.0, b"b"), (1.0, b"a"), (3.0, b"c")]), Ok(3));
    assert_eq!(zadd(&mut st, b"z", &[(5.0, b"a")]), Ok(0)); // update, not new
    assert_eq!(zscore(&mut st, b"z", b"a"), Ok(Some(5.0)));
    assert_eq!(st.zcard(b"z"), Ok(3));
    assert_eq!(st.type_of(b"z"), "zset");
    // order by score now: b(2) c(3) a(5)
    assert_eq!(
        zrange(&mut st, b"z", 0, -1),
        vec![(b"b".to_vec(), 2.0), (b"c".to_vec(), 3.0), (b"a".to_vec(), 5.0)]
    );
    assert_eq!(st.zrank(b"z", b"c"), Ok(Some(1)));
    assert_eq!(st.zrank(b"z", b"missing"), Ok(None));
    assert_eq!(zincrby(&mut st, b"z", 1.0, b"b"), Ok(3.0)); // b -> 3, ties with c
    let mid = st.zrange_by_score(b"z", bound(3.0, false), bound(4.0, false)).unwrap();
    assert_eq!(mid.len(), 2); // b(3) and c(3)
    assert_eq!(
        st.zcount(b"z", bound(f64::NEG_INFINITY, false), bound(f64::INFINITY, false)),
        Ok(3)
    );
    assert_eq!(st.zrem(b"z", &[b"a", b"zzz"]), Ok(1));
    assert_eq!(st.zcard(b"z"), Ok(2));
}

#[test]
fn zset_wrong_type_and_empty_delete() {
    let mut st = Store::new();
    st.set(b"s", b"v".to_vec(), None, false, false);
    assert_eq!(zadd(&mut st, b"s", &[(1.0, b"m")]), Err(StoreError::WrongType));
    zadd(&mut st, b"z", &[(1.0, b"only")]).unwrap();
    assert_eq!(st.zrem(b"z", &[b"only"]), Ok(1));
    assert_eq!(st.type_of(b"z"), "none"); // emptied zset key deleted
}

#[test]
fn zrevrange_past_the_end_is_empty() {
    let mut s = Store::new();
    for (score, member) in [(1.0, &b"one"[..]), (2.0, b"two"), (3.0, b"three")] {
        zadd(&mut s, b"z", &[(score, member)]).unwrap();
    }
    assert_eq!(
        names(s.zrevrange(b"z", 0, -1).unwrap()),
        vec![b"three".to_vec(), b"two".to_vec(), b"one".to_vec()]
    );
    assert_eq!(names(s.zrevrange(b"z", 0, 0).unwrap()), vec![b"three".to_vec()]);
    assert_eq!(
        names(s.zrevrange(b"z", -2, -1).unwrap()),
        vec![b"two".to_vec(), b"one".to_vec()]
    );
    assert_eq!(names(s.zrevrange(b"z", 5, 10).unwrap()), Vec::<Vec<u8>>::new());
    assert_eq!(names(s.zrevrange(b"z", 3, 3).unwrap()), Vec::<Vec<u8>>::new());
    assert_eq!(names(s.zrevrange(b"z", 2, 1).unwrap()), Vec::<Vec<u8>>::new());
    assert_eq!(names(s.zrevrange(b"nosuch", 0, -1).unwrap()), Vec::<Vec<u8>>::new());
}

#[test]
fn same_score_readd_is_invisible_flat() {
    let mut st = Store::new();
    for (i, m) in [b"a", b"b", b"c", b"d", b"e"].iter().enumerate() {
        zadd(&mut st, b"k", &[(i as f64, &m[..])]).unwrap();
    }
    assert!(matches!(st.value_ref(b"k"), Some(Value::ZSet(_))), "past the inline encoding");
    let before = zrange(&mut st, b"k", 0, -1);

    let added = zadd(&mut st, b"k", &[(1.0, b"b")]).unwrap();
    assert_eq!(added, 0, "an existing member is not a new one");

    assert!(matches!(st.value_ref(b"k"), Some(Value::ZSet(_))));
    assert_eq!(zscore(&mut st, b"k", b"b").unwrap(), Some(1.0));
    assert_eq!(st.zrank(b"k", b"b").unwrap(), Some(1));
    assert_eq!(zrange(&mut st, b"k", 0, -1), before, "order moved");
}

#[test]
fn negative_zero_to_positive_zero_is_a_real_update() {
    let mut st = Store::new();
    for m in [b"f1", b"f2", b"f3"] {
        zadd(&mut st, b"k", &[(9.0, &m[..])]).unwrap();
    }
    zadd(&mut st, b"k", &[(-0.0, b"lo"), (0.0, b"hi")]).unwrap();
    assert!(matches!(st.value_ref(b"k"), Some(Value::ZSet(_))));
    assert_eq!(
        names(st.zrange(b"k", 0, 1).unwrap()),
        vec![b"lo".to_vec(), b"hi".to_vec()],
        "-0.0 must sort before 0.0",
    );
    zadd(&mut st, b"k", &[(0.0, b"lo")]).unwrap();
    assert_eq!(
        names(st.zrange(b"k", 0, 1).unwrap()),
        vec![b"hi".to_vec(), b"lo".to_vec()],
        "the -0.0 -> 0.0 update was skipped: the index still holds -0.0",
    );
}

#[test]
fn tiny_sorted_sets_are_kept_inline() {
    let mut st = Store::new();
    assert!(st.value_ref(b"k").is_none());
    zadd(&mut st, b"k", &[(1.0, b"a")]).unwrap();
    assert!(matches!(st.value_ref(b"k"), Some(Value::SmallZSetInline(_))));
    for m in [b"bb", b"cc", b"dd"] {
        zadd(&mut st, b"k", &[(1.0, &m[..])]).unwrap();
    }
    assert!(matches!(st.value_ref(b"k"), Some(Value::ZSet(_))));
}

#[test]
fn bounds_compare_numbers() {
    let mut st = Store::new();
    zadd(&mut st, b"z", &[(-0.0, b"n"), (0.0, b"p"), (1.5, b"x"), (-2.0, b"y")]).unwrap();
    let count = |st: &mut Store, min, max| st.zcount(b"z", min, max).unwrap();
    assert_eq!(count(&mut st, bound(0.0, false), bound(1.5, false)), 3, "both zeros are zero");
    assert_eq!(count(&mut st, bound(-0.0, true), bound(1.5, false)), 1);
    assert_eq!(count(&mut st, bound(-2.0, false), bound(-0.0, true)), 1);
    assert_eq!(count(&mut st, bound(-2.0, true), bound(1.5, true)), 2);
    assert_eq!(count(&mut st, bound(3.0, false), bound(2.0, false)), 0);
    assert_eq!(
        names(st.zrange_by_score(b"z", bound(-3.0, false), bound(0.0, false)).unwrap()),
        vec![b"y".to_vec(), b"n".to_vec(), b"p".to_vec()]
    );
    assert_eq!(st.zcount(b"none", bound(0.0, false), bound(0.0, false)), Ok(0));
    st.lpush(b"l", &[b"x"]).unwrap();
    assert_eq!(st.zcount(b"l", bound(0.0, false), bound(0.0, false)), Err(StoreError::WrongType));
}

#[test]
fn loaded_sorted_sets_order_themselves() {
    let mut st = Store::new();
    let pairs = (0..100u32).rev().map(|i| (format!("m{i:02}").into_bytes(), sc(f64::from(i / 2))));
    st.load_zset(b"z".to_vec(), pairs.collect(), None);
    assert_eq!(st.zcard(b"z"), Ok(100));
    assert_eq!(zscore(&mut st, b"z", b"m17"), Ok(Some(8.0)));
    let all = zrange(&mut st, b"z", 0, -1);
    for (i, (m, s)) in all.iter().enumerate() {
        assert_eq!((m.as_slice(), *s), (format!("m{i:02}").as_bytes(), f64::from(i as u32 / 2)));
    }
    st.load_zset(b"y".to_vec(), vec![(b"a".to_vec(), sc(1.0)), (b"a".to_vec(), sc(2.0))], Some(50));
    assert_eq!(zrange(&mut st, b"y", 0, -1), vec![(b"a".to_vec(), 2.0)]);
    assert!(st.pttl(b"y") > 0);

    let mut copy = Store::new();
    let view = st.collect_snapshot();
    for (k, v, _) in view.each() {
        copy.load_value(k, v, None);
    }
    assert_eq!(zrange(&mut copy, b"z", 0, -1), all);
}

#[test]
fn sorted_set_memory_comes_back() {
    let mut st = Store::new();
    let baseline = st.used_memory();
    for i in 0..300u32 {
        zadd(&mut st, b"z", &[(f64::from(i % 97), format!("member-{i:08}-{i:08}").as_bytes())])
            .unwrap();
    }
    assert_eq!(st.zpopmin(b"z", 20).unwrap().len(), 20);
    assert_eq!(st.zrem_range_by_rank(b"z", 0, 9), Ok(10));
    assert_eq!(st.zrem_range_by_rank(b"z", 500, 600), Ok(0));
    assert_eq!(st.zcard(b"z"), Ok(270));
    assert!(st.used_memory() > baseline);
    assert_eq!(st.del(&[b"z"]), 1);
    assert_eq!(st.used_memory(), baseline);
}

/// Every command against a plain map of members to scores.
#[test]
fn sorted_sets_agree_with_a_map() {
    let mut st = Store::new();
    let mut model: BTreeMap<Vec<u8>, f64> = BTreeMap::new();
    let sorted = |m: &BTreeMap<Vec<u8>, f64>| {
        let mut v: Vec<(Vec<u8>, f64)> = m.iter().map(|(k, s)| (k.clone(), *s)).collect();
        v.sort_by(|a, b| a.1.total_cmp(&b.1).then_with(|| a.0.cmp(&b.0)));
        v
    };
    let mut seed: u64 = 7;
    for _ in 0..3000 {
        seed = seed.wrapping_mul(6364136223846793005).wrapping_add(1442695040888963407);
        let r = (seed >> 33) as u32;
        let member = vec![b'a' + (r % 7) as u8; (r / 7 % 20) as usize];
        let score = f64::from((r / 200) as i16) / 8.0;
        match r % 6 {
            0 | 1 => {
                let fresh = usize::from(!model.contains_key(&member));
                model.insert(member.clone(), score);
                assert_eq!(zadd(&mut st, b"z", &[(score, &member)]), Ok(fresh));
            }
            2 => {
                let gone = usize::from(model.remove(&member).is_some());
                assert_eq!(st.zrem(b"z", &[&member]), Ok(gone));
            }
            3 => {
                let at = sorted(&model).iter().position(|(m, _)| *m == member);
                assert_eq!(st.zrank(b"z", &member), Ok(at));
            }
            4 => {
                let n = (r / 64 % 3) as usize;
                let all = sorted(&model);
                let want = all[..n.min(all.len())].to_vec();
                for (m, _) in &want {
                    model.remove(m);
                }
                assert_eq!(plain(st.zpopmin(b"z", n).unwrap()), want);
            }
            _ => {
                assert_eq!(zrange(&mut st, b"z", 0, -1), sorted(&model));
                assert_eq!(st.zcard(b"z"), Ok(model.len()));
            }
        }
    }
}
