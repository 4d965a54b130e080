//! Packed rows, the random source, use marks and scores.
use kevy_store::evict::{lfu_log_incr, splitmix32, LFU_COUNTER_MAX, LFU_INIT_VAL};
use kevy_store::packed_row::{ColumnNames, PackedRow, PACKED_INNER_BYTES, PACKED_MAX};
use kevy_store::rng::{below, Rng};
use kevy_store::score::Score;
use kevy_store::store::Store;
use kevy_store::value::Value;
use std::cmp::Ordering;

fn names(n: usize) -> ColumnNames {
    ColumnNames::new((0..n).map(|i| format!("c{i}").into_bytes()).collect())
}

#[test]
fn round_trips_every_column_including_absent_and_empty() {
    let cols: Vec<Option<&[u8]>> =
        vec![Some(&b"id7"[..]), None, Some(&b""[..]), Some(&b"a longer value"[..])];
    let r = PackedRow::build(&names(cols.len()), &cols).expect("fits");
    assert_eq!(r.columns(), 4);
    for (i, want) in cols.iter().enumerate() {
        assert_eq!(r.get(i), *want, "column {i}");
    }
    // Absent and present-but-empty are different.
    assert!(!r.has(1));
    assert!(r.has(2));
    assert_eq!(r.len(), 3);
}

#[test]
fn the_cost_scales_with_the_row_rather_than_sitting_on_a_floor() {
    let three = PackedRow::build(&names(3), &[Some(&b"x"[..]); 3]).expect("fits");
    let twelve = PackedRow::build(&names(12), &[Some(&b"x"[..]); 12]).expect("fits");
    assert!(
        twelve.heap_bytes() > three.heap_bytes(),
        "a wider row must cost more, not the same: {} vs {}",
        three.heap_bytes(),
        twelve.heap_bytes()
    );
    let inner = PACKED_INNER_BYTES;
    assert_eq!(three.heap_bytes(), (2 + 1 + 3 * 2 + 3) + inner);
    assert_eq!(twelve.heap_bytes(), (2 + 2 + 12 * 2 + 12) + inner);
}

#[test]
fn replacing_a_column_leaves_the_others_alone() {
    let r = PackedRow::build(&names(3), &[Some(&b"a"[..]), Some(&b"bb"[..]), Some(&b"ccc"[..])])
        .expect("fits");
    let r2 = r.with_column(1, Some(b"REPLACED")).expect("fits");
    assert_eq!(r2.get(0), Some(&b"a"[..]));
    assert_eq!(r2.get(1), Some(&b"REPLACED"[..]));
    assert_eq!(r2.get(2), Some(&b"ccc"[..]));
    let r3 = r.with_column(0, None).expect("fits");
    assert!(!r3.has(0));
    assert_eq!(r3.get(2), Some(&b"ccc"[..]));
}

#[test]
fn looks_a_column_up_by_the_name_the_wire_uses() {
    let n = ColumnNames::new(vec![b"id".to_vec(), b"name".to_vec(), b"dept".to_vec()]);
    let r = PackedRow::build(&n, &[Some(&b"7"[..]), None, Some(&b"eng"[..])]).expect("fits");
    assert_eq!(r.get_named(b"id"), Some(&b"7"[..]));
    assert_eq!(r.get_named(b"dept"), Some(&b"eng"[..]));
    // Declared but absent on this row, and undeclared, both read as None.
    assert_eq!(r.get_named(b"name"), None);
    assert!(!r.has_named(b"name"));
    assert_eq!(r.get_named(b"nosuch"), None);
    assert!(!r.has_named(b"nosuch"));
}

#[test]
fn refuses_a_payload_it_cannot_address() {
    let big = vec![0u8; PACKED_MAX + 1];
    assert!(PackedRow::build(&names(1), &[Some(&big[..])]).is_none());
    let just = vec![0u8; PACKED_MAX];
    assert!(PackedRow::build(&names(1), &[Some(&just[..])]).is_some());
}

#[test]
fn a_packed_row_costs_less_than_the_table_it_replaces() {
    let table_request: usize = 16 * 48 + 16 + 16; // slots + metadata
    let arc_and_map: usize = 16 + 56;
    for (ncol, vlen) in [(3usize, 400usize), (7, 400), (12, 400)] {
        let v = vec![b'x'; vlen / ncol];
        let cols: Vec<Option<&[u8]>> = (0..ncol).map(|_| Some(&v[..])).collect();
        let packed = PackedRow::build(&names(ncol), &cols).expect("fits").heap_bytes();
        let today = table_request + arc_and_map + vlen;
        assert!(
            packed * 2 < today,
            "{ncol} columns: packed {packed} B is not less than half of today's {today} B"
        );
    }
}

#[test]
fn the_cost_is_not_flat_in_the_column_count() {
    let v = [b'x'; 32];
    let w = |n: usize| {
        PackedRow::build(&names(n), &(0..n).map(|_| Some(&v[..])).collect::<Vec<_>>())
            .expect("fits")
            .heap_bytes()
    };
    let (a, b) = (w(3), w(12));
    // Nine more columns of 32 bytes each, plus nine more ends.
    assert_eq!(b - a, 9 * (32 + 2) + 1, "growth is payload + ends + bitmap byte");
}

/// Two stores holding the same row, one packed and one general.
fn both() -> (Store, Store, [&'static [u8]; 3]) {
    let cols: [&[u8]; 3] = [b"id", b"name", b"dept"];
    let vals: [Option<&[u8]>; 3] = [Some(b"7"), None, Some(b"eng")];
    let n = ColumnNames::new(cols.iter().map(|c| c.to_vec()).collect());
    let mut packed = Store::new();
    packed.load_value(b"row:1", &Value::PackedRow(PackedRow::build(&n, &vals).unwrap()), None);
    let mut general = Store::new();
    for (c, v) in cols.iter().zip(vals.iter()) {
        if let Some(v) = v {
            general.hset(b"row:1", &[(c, v)]).unwrap();
        }
    }
    (packed, general, cols)
}

#[test]
fn the_per_field_verbs_agree_with_the_general_hash() {
    let (mut p, mut g, cols) = both();
    assert_eq!(p.hlen(b"row:1").unwrap(), g.hlen(b"row:1").unwrap());
    for c in &cols {
        assert_eq!(p.hget(b"row:1", c).unwrap(), g.hget(b"row:1", c).unwrap());
        assert_eq!(p.hexists(b"row:1", c).unwrap(), g.hexists(b"row:1", c).unwrap());
    }
    assert_eq!(p.hmget(b"row:1", &cols).unwrap(), g.hmget(b"row:1", &cols).unwrap());
}

#[test]
fn the_whole_row_verbs_agree_with_the_general_hash() {
    let (mut p, mut g, _) = both();
    let sorted = |mut v: Vec<Vec<u8>>| {
        v.sort();
        v
    };
    assert_eq!(sorted(p.hkeys(b"row:1").unwrap()), sorted(g.hkeys(b"row:1").unwrap()));
    assert_eq!(sorted(p.hvals(b"row:1").unwrap()), sorted(g.hvals(b"row:1").unwrap()));
    let paired = |v: Vec<Vec<u8>>| {
        let mut q: Vec<(Vec<u8>, Vec<u8>)> =
            v.chunks(2).map(|c| (c[0].clone(), c[1].clone())).collect();
        q.sort();
        q
    };
    assert_eq!(paired(p.hgetall(b"row:1").unwrap()), paired(g.hgetall(b"row:1").unwrap()));
}

#[test]
fn the_stream_advances() {
    let mut r = Rng::new(42);
    let a = r.next_u64();
    let b = r.next_u64();
    assert_ne!(a, b, "a generator that returns the same draw twice is a constant");
}

#[test]
fn below_is_uniform_and_in_range() {
    let mut r = Rng::new(1);
    let mut seen = [0usize; 7];
    for _ in 0..7000 {
        let v = below(r.next_u64(), 7) as usize;
        assert!(v < 7);
        seen[v] += 1;
    }
    for c in seen {
        assert!(c > 800 && c < 1200, "{seen:?}");
    }
}

#[test]
fn below_0_and_1_collapse_to_0() {
    assert_eq!(below(u64::MAX, 0), 0);
    assert_eq!(below(u64::MAX, 1), 0);
}

#[test]
fn below_scales_the_draw() {
    assert_eq!(below(1u64 << 63, 10), 5);
    assert_eq!(below(u64::MAX, 10), 9);
    assert_eq!(below(0, 10), 0);
}

#[test]
fn lfu_increment_eventually_saturates() {
    let mut c = LFU_INIT_VAL;
    for clock in 0..1_000_000u32 {
        c = lfu_log_incr(c, clock);
    }
    assert!(c <= LFU_COUNTER_MAX);
    assert!(c >= LFU_INIT_VAL + 5, "expected meaningful growth, got {c}");
}

#[test]
fn lfu_increment_is_log_scaled() {
    let mut low_hits = 0u32;
    let mut high_hits = 0u32;
    for clock in 0..10_000u32 {
        if lfu_log_incr(LFU_INIT_VAL, clock) > LFU_INIT_VAL {
            low_hits += 1;
        }
        if lfu_log_incr(200, clock) > 200 {
            high_hits += 1;
        }
    }
    assert!(low_hits > 100 * high_hits, "log scaling broken: low={low_hits} high={high_hits}");
}

#[test]
fn splitmix_avalanches_neighbours() {
    let a = splitmix32(0);
    let b = splitmix32(1);
    let diff = (a ^ b).count_ones();
    assert!(diff > 10, "splitmix didn't avalanche: a={a:x} b={b:x}");
}

fn of(x: f64) -> Score {
    Score::from_bits(x.to_bits())
}

#[test]
fn eq_agrees_with_ord() {
    let interesting = [
        0.0_f64,
        -0.0,
        1.0,
        -1.0,
        f64::MIN,
        f64::MAX,
        f64::INFINITY,
        f64::NEG_INFINITY,
        1e-308,
        -1e-308,
    ];
    for &a in &interesting {
        for &b in &interesting {
            let (sa, sb) = (of(a), of(b));
            assert!(
                (sa == sb) == (sa.cmp(&sb) == Ordering::Equal),
                "Eq and Ord disagree on {a} vs {b}",
            );
            assert_eq!(sa.cmp(&sb), a.total_cmp(&b));
            assert_eq!(sa.precedes(sb), a.total_cmp(&b) == Ordering::Less);
        }
    }
}

#[test]
fn negative_zero_is_not_positive_zero() {
    assert!(of(-0.0) != of(0.0), "-0.0 must not equal 0.0");
    assert!(of(-0.0).cmp(&of(0.0)) == Ordering::Less);
    assert!(of(-0.0) == of(-0.0));
}

#[test]
fn a_score_gives_back_its_bits() {
    for x in [0.0_f64, -0.0, 1.5, -2.25, f64::MAX, f64::NEG_INFINITY] {
        assert_eq!(of(x).to_bits(), x.to_bits());
    }
}
