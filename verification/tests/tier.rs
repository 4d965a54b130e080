//! Values that move out of memory and back, with a spill log kept in memory.
use kevy_store::cold::stub_of;
use kevy_store::entry::Entry;
use kevy_store::error::{ErrorKind, KevyError};
use kevy_store::store::peeking::{read_plan, record_fields};
use kevy_store::table::HashData;
use kevy_store::tier::{compact_due, BACKOFF_CEILING_TICKS, SPILL_BATCH};
use kevy_store::tier_codec::{decode, encode, CodecError};
use kevy_store::value::ENTRY_OVERHEAD;
use kevy_store::{
    apply_segmented, Access, Backing, ColdKind, ColdRef, ColdStep, HExpireCond, LogGauges,
    PeekRow, Peeked, RecordRef, RenameOutcome, SegError, SpillRun, Store, StoreError, TierStats,
    Value,
};
use std::collections::BTreeMap;
use std::sync::Arc;

const MS: u64 = 1_000_000;
const OVERHEAD: u64 = ENTRY_OVERHEAD;

/// A store with a spill log whose files are maps from offsets to records.
struct Tiered {
    s: Store,
    files: Vec<BTreeMap<u64, Vec<u8>>>,
    end: u64,
    peek: bool,
    reads: Vec<(u32, u64)>,
}

fn tiered(budget: u64) -> Tiered {
    let mut s = Store::new();
    s.set_wall_clock_ms(1_000_000);
    s.enable_tiering(budget);
    Tiered { s, files: vec![BTreeMap::new()], end: 0, peek: false, reads: Vec::new() }
}

impl Tiered {
    fn append(&mut self, payload: Vec<u8>) -> RecordRef {
        let at = RecordRef {
            file_id: (self.files.len() - 1) as u32,
            offset: self.end,
            len: payload.len() as u32,
        };
        self.end += payload.len() as u64 + 1;
        self.files.last_mut().unwrap().insert(at.offset, payload);
        at
    }

    fn payload(&self, c: ColdRef) -> Vec<u8> {
        match c.backing() {
            Backing::Log(at) => self.files[at.file_id as usize][&at.offset].clone(),
            Backing::Segment(_) => panic!("no segments here"),
        }
    }

    fn force_demote(&mut self, key: &[u8]) -> bool {
        let Some((payload, _)) = self.s.demote_plan(key) else { return false };
        let at = self.append(payload);
        self.s.demote_in_place(key, at)
    }

    fn promote(&mut self, key: &[u8]) -> bool {
        let c = match self.s.value_ref(key) {
            Some(Value::Cold(c)) => *c,
            _ => return false,
        };
        let p = self.payload(c);
        self.s.promote_in_place(key, p).unwrap()
    }

    /// Runs a read on the store, or on a scratch store that holds the value
    /// if it is served from its record.
    fn read<R>(
        &mut self,
        key: &[u8],
        want: ColdKind,
        f: impl Fn(&mut Store) -> Result<R, StoreError>,
    ) -> Result<R, StoreError> {
        let access = if self.peek { Access::Peek } else { Access::Read };
        match self.s.cold_step(key, want, access)? {
            ColdStep::InMemory => f(&mut self.s),
            ColdStep::Serve(c) => {
                let v = decode(c.kind, self.payload(c)).unwrap();
                let mut scratch = Store::new();
                scratch.set_wall_clock_ms(self.s.now_unix_ms());
                scratch.load_value(key, &v, None);
                for (k, field, deadline_ms) in self.s.hash_ttl_each() {
                    if k == key {
                        scratch.load_hash_field_ttl(key, &field, deadline_ms);
                    }
                }
                f(&mut scratch)
            }
            ColdStep::Promote(c) => {
                let p = self.payload(c);
                self.s.promote_in_place(key, p).unwrap();
                f(&mut self.s)
            }
        }
    }

    fn write<R>(
        &mut self,
        key: &[u8],
        want: ColdKind,
        f: impl Fn(&mut Store) -> Result<R, StoreError>,
    ) -> Result<R, StoreError> {
        if let ColdStep::Promote(c) = self.s.cold_step(key, want, Access::Write)? {
            let p = self.payload(c);
            self.s.promote_in_place(key, p).unwrap();
        }
        f(&mut self.s)
    }

    fn get(&mut self, key: &[u8]) -> Result<Option<Vec<u8>>, StoreError> {
        self.read(key, ColdKind::Str, |s| s.get(key))
    }

    fn hget(&mut self, key: &[u8], f: &[u8]) -> Result<Option<Vec<u8>>, StoreError> {
        self.read(key, ColdKind::Hash, |s| s.hget(key, f))
    }

    fn hexists(&mut self, key: &[u8], f: &[u8]) -> Result<bool, StoreError> {
        self.read(key, ColdKind::Hash, |s| s.hexists(key, f))
    }

    fn batch(&mut self) -> usize {
        let mut run = SpillRun::start();
        while let Some(k) = self.s.demote_victim(run) {
            let moved = self.force_demote(&k);
            run.note(moved);
        }
        run.demoted
    }

    fn demote_step(&mut self) -> usize {
        if !self.s.tick_due() {
            return 0;
        }
        let wanted = self.s.demote_wanted();
        let n = self.batch();
        self.s.tick_done(wanted, n);
        n
    }

    fn stats(&self) -> TierStats {
        let bytes = self.files.iter().flat_map(|f| f.values()).map(|p| p.len() as u64).sum();
        let files = self.files.len() as u64;
        self.s.tier_stats(LogGauges { files, bytes, live_bytes: bytes, epoch: 0 })
    }

    /// Writes every record of a file anew, to a new one.
    fn compact(&mut self, file: u32) {
        self.files.push(BTreeMap::new());
        self.end = 0;
        for (key, c) in self.s.cold_in_file(file) {
            let Backing::Log(was) = c.backing() else { panic!("a record") };
            let p = self.payload(c);
            let is = self.append(p);
            assert!(self.s.record_moved(&key, was, is));
        }
        self.files[file as usize].clear();
    }

    fn fill(&mut self, rows: &mut [Peeked], fields: &[&[u8]]) {
        let plan: Vec<(usize, ColdRef)> = {
            let mut owned = Vec::new();
            for r in rows.iter() {
                owned.push(match r {
                    Peeked::Read(c) => Peeked::Read(*c),
                    _ => Peeked::Row(Ok(None)),
                });
            }
            read_plan(&owned)
        };
        if plan.is_empty() {
            return;
        }
        for (i, c) in &plan {
            if let Backing::Log(at) = c.backing() {
                self.reads.push((at.file_id, at.offset));
            }
            let row = record_fields(self.payload(*c), fields).unwrap();
            rows[*i] = Peeked::Row(Ok(Some(row)));
        }
        self.s.note_batch(1);
    }

    fn peek_rows(&mut self, keys: &[&[u8]], fields: &[&[u8]]) -> Vec<PeekRow> {
        let mut rows = self.s.peek_hash_rows(keys, fields);
        self.fill(&mut rows, fields);
        rows.into_iter()
            .map(|r| match r {
                Peeked::Row(row) => row,
                _ => panic!("every row was read"),
            })
            .collect()
    }

    fn peek_fields(&mut self, key: &[u8], fields: &[&[u8]]) -> PeekRow {
        match self.s.peek_hash_fields(key, fields) {
            Peeked::Row(r) => r,
            Peeked::Read(c) => Ok(Some(record_fields(self.payload(c), fields).unwrap())),
            Peeked::Promote(_) => panic!("no deadlines here"),
        }
    }
}

fn is_cold(s: &Tiered, key: &[u8]) -> bool {
    matches!(s.s.value_ref(key), Some(Value::Cold(_)))
}

fn weight(s: &Tiered, key: &[u8]) -> u64 {
    s.s.estimate_key_bytes(key).unwrap() - OVERHEAD
}

#[test]
fn codec_bulk_round_trip_incl_empty() {
    for payload in [vec![b'x'; 5000], Vec::new(), b"77".to_vec()] {
        let v = Value::ArcBulk(Arc::new(payload.clone()));
        let (enc, tag) = encode(&v).expect("bulk is spillable");
        assert_eq!(tag, ColdKind::Str);
        let back = decode(tag, enc).unwrap();
        assert!(back.is_string());
        assert_eq!(back.string_bytes(), payload);
    }
}

#[test]
fn codec_hash_round_trip_heap_inline_and_empty() {
    let mut s = Store::new();
    s.hset(
        b"h",
        &[
            (b"name".as_slice(), b"ada".as_slice()),
            (b"blob".as_slice(), &[0u8, 255, 1, 2][..]),
            (b"empty".as_slice(), b"".as_slice()),
            (b"long-field-name-over-inline-budget".as_slice(), b"v".as_slice()),
        ],
    )
    .unwrap();
    let v = s.value_ref(b"h").unwrap();
    assert!(matches!(v, Value::Hash(_)), "4 pairs must be heap-backed");
    let (enc, tag) = encode(v).unwrap();
    assert_eq!(tag, ColdKind::Hash);
    let Ok(Value::Hash(h)) = decode(tag, enc) else { panic!("hash decodes to heap hash") };
    assert_eq!(h.len(), 4);
    assert_eq!(h.get(b"name").unwrap().as_slice(), b"ada");
    assert_eq!(h.get(b"blob").unwrap().as_slice(), &[0u8, 255, 1, 2]);
    assert_eq!(h.get(b"empty").unwrap().as_slice(), b"");

    let mut s2 = Store::new();
    s2.hset(b"i", &[(b"a".as_slice(), b"1".as_slice())]).unwrap();
    let vi = s2.value_ref(b"i").unwrap();
    assert!(matches!(vi, Value::SmallHashInline(_)));
    let (enc, tag) = encode(vi).unwrap();
    assert_eq!(enc, [1, 0, 0, 0, 1, 0, 0, 0, b'a', 1, 0, 0, 0, b'1']);
    let Ok(Value::Hash(h)) = decode(tag, enc) else { panic!("inline decodes to heap hash") };
    assert_eq!(h.get(b"a").unwrap().as_slice(), b"1");

    let (enc, tag) = encode(&Value::Hash(Arc::new(HashData::new()))).unwrap();
    let Ok(Value::Hash(h)) = decode(tag, enc) else { panic!("an empty hash") };
    assert_eq!(h.len(), 0);
}

#[test]
fn broken_records_are_refused() {
    let e = |p: &[u8]| decode(ColdKind::Hash, p.to_vec()).err();
    assert_eq!(e(&[1, 0]), Some(CodecError::TruncatedLength));
    assert_eq!(e(&[1, 0, 0, 0]), Some(CodecError::TruncatedLength));
    assert_eq!(e(&[1, 0, 0, 0, 9, 0, 0, 0, b'a']), Some(CodecError::TruncatedChunk));
    assert_eq!(e(&[0, 0, 0, 0, 7]), Some(CodecError::TrailingBytes));
    assert_eq!(CodecError::TruncatedLength.message(), "tier: truncated length");
    assert_eq!(CodecError::TruncatedChunk.message(), "tier: truncated chunk");
    assert_eq!(CodecError::TrailingBytes.message(), "tier: hash payload has trailing bytes");
}

#[test]
fn demote_promote_preserves_value_ttl_lru_watch_and_fires_no_events() {
    let mut s = tiered(u64::MAX);
    s.s.set_notify_capture(true, true, true);
    let big = vec![b'z'; 4096];
    s.s.set(b"k", big.clone(), Some(600_000 * MS), false, false);
    let ttl_before = s.s.pttl(b"k");
    let lru_before = s.s.use_mark(b"k");
    let watch_v = s.s.record_watch(b"k");
    drop(s.s.take_notify_events());

    assert!(s.force_demote(b"k"));
    assert!(is_cold(&s, b"k"));
    assert_eq!(s.s.use_mark(b"k"), lru_before, "demote must preserve the use mark");
    assert_eq!(s.s.key_version(b"k"), watch_v, "demote must not bump WATCH");
    assert!(!s.s.has_notify_events(), "demote emits zero events");
    let ttl_cold = s.s.pttl(b"k");
    assert!(ttl_cold > 0 && ttl_cold <= ttl_before);

    assert!(s.promote(b"k"));
    assert!(!is_cold(&s, b"k"));
    assert_eq!(s.s.key_version(b"k"), watch_v, "promote must not bump WATCH");
    assert!(!s.s.has_notify_events(), "promote emits zero events");
    assert_eq!(s.get(b"k").unwrap().unwrap(), big);
    assert!(s.s.pttl(b"k") > 0);
    let st = s.stats();
    assert_eq!((st.demotions_total, st.promotions_total, st.cold_keys), (1, 1, 0));
    assert_eq!(s.s.evictions_total(), 0, "demotion is not eviction");
}

#[test]
fn hash_field_ttls_stay_in_ram_and_purge_on_promote() {
    let mut s = tiered(u64::MAX);
    s.s.hset(
        b"h",
        &[
            (b"keep".as_slice(), b"1".as_slice()),
            (b"drop".as_slice(), b"2".as_slice()),
            (b"pad-the-hash-to-heap".as_slice(), b"3".as_slice()),
        ],
    )
    .unwrap();
    let now = s.s.now_unix_ms();
    s.s.hexpire_at(b"h", &[b"drop"], now + 30, HExpireCond::Always).unwrap();
    s.s.hexpire_at(b"h", &[b"keep"], now + 100_000, HExpireCond::Always).unwrap();
    assert!(s.force_demote(b"h"));
    s.s.set_wall_clock_ms(now + 50);
    assert_eq!(s.s.overdue_keys(), vec![b"h".to_vec()]);
    assert!(!s.hexists(b"h", b"drop").unwrap());
    assert!(s.hexists(b"h", b"keep").unwrap());
    let ttls = s.read(b"h", ColdKind::Hash, |st| st.hpttl(b"h", &[b"keep"])).unwrap();
    assert!(ttls[0] > 0, "surviving field TTL intact: {ttls:?}");
}

#[test]
fn wrongtype_on_cold_never_reads_the_vlog() {
    let mut s = tiered(u64::MAX);
    s.s.set(b"str", vec![b'a'; 1024], None, false, false);
    s.s.hset(
        b"h",
        &[
            (b"f".as_slice(), b"v".as_slice()),
            (b"pad-to-heap-hash".as_slice(), b"v".as_slice()),
            (b"third".as_slice(), b"v".as_slice()),
        ],
    )
    .unwrap();
    assert!(s.force_demote(b"str"));
    assert!(s.force_demote(b"h"));
    let preads0 = s.stats().preads_total;

    assert_eq!(s.s.lpush(b"str", &[b"x".as_slice()]), Err(StoreError::WrongType));
    assert_eq!(s.s.sadd(b"str", &[b"x".as_slice()]), Err(StoreError::WrongType));
    assert_eq!(
        s.write(b"str", ColdKind::Hash, |st| st.hset(
            b"str",
            &[(b"f".as_slice(), b"v".as_slice())]
        )),
        Err(StoreError::WrongType)
    );
    assert_eq!(s.write(b"h", ColdKind::Str, |st| st.incr_by(b"h", 1)), Err(StoreError::WrongType));
    assert_eq!(s.get(b"h").err(), Some(StoreError::WrongType));
    assert_eq!(s.hget(b"str", b"f").err(), Some(StoreError::WrongType));

    assert_eq!(s.stats().preads_total, preads0, "WRONGTYPE must not pread");
    assert!(is_cold(&s, b"str") && is_cold(&s, b"h"), "refusals must not materialize");
    assert_eq!(s.stats().promotions_total, 0);
}

#[test]
fn first_read_serves_without_installing_second_read_promotes() {
    let mut s = tiered(u64::MAX);
    let big = vec![b'q'; 2048];
    s.s.set(b"k", big.clone(), None, false, false);
    assert!(s.force_demote(b"k"));

    assert_eq!(s.get(b"k").unwrap().unwrap(), big);
    assert!(is_cold(&s, b"k"), "first touch serves without installing");
    assert_eq!(s.stats().promotions_total, 0);

    assert_eq!(s.get(b"k").unwrap().unwrap(), big);
    assert!(!is_cold(&s, b"k"), "second touch promotes");
    assert_eq!(s.stats().promotions_total, 1);
}

#[test]
fn shared_lane_reads_never_promote_and_never_mark() {
    let mut s = tiered(u64::MAX);
    let big = vec![b'w'; 2048];
    s.s.set(b"k", big.clone(), None, false, false);
    assert!(s.force_demote(b"k"));
    for _ in 0..3 {
        // The shared lane says that the record is wanted, and the record
        // says the rest.
        assert_eq!(s.s.get_shared(b"k"), Err(StoreError::NotInMemory));
        let Some(Value::Cold(c)) = s.s.value_ref(b"k") else { panic!("cold") };
        let v = decode(c.kind, s.payload(*c)).unwrap();
        assert_eq!(v.string_bytes(), big);
    }
    assert!(is_cold(&s, b"k"));
    assert_eq!(s.stats().promotions_total, 0);
    assert_eq!(s.get(b"k").unwrap().unwrap(), big);
    assert!(is_cold(&s, b"k"), "shared reads must not have set the mark");
}

#[test]
fn demote_and_promote_accounting_is_exact() {
    let mut s = tiered(u64::MAX);
    s.s.set(b"k", vec![b'a'; 8192], None, false, false);
    let used_hot = s.s.used_memory();
    let w_hot = weight(&s, b"k");
    assert!(s.force_demote(b"k"));
    let w_cold = weight(&s, b"k");
    assert_eq!(w_cold, 0, "short key + stub owns zero heap");
    assert_eq!(s.s.used_memory(), used_hot - w_hot, "demote reclaims exactly the value weight");
    assert_eq!(s.s.estimate_key_bytes(b"k"), Some(OVERHEAD), "MEMORY USAGE is stub-actual");
    assert_eq!(s.stats().cold_bytes, w_hot);

    s.promote(b"k");
    assert_eq!(s.s.used_memory(), used_hot, "promote restores the exact weight");
    assert_eq!(weight(&s, b"k"), w_hot);
    assert_eq!(s.stats().cold_bytes, 0);
}

#[test]
fn demotion_sampler_skips_cold_and_non_spillable() {
    let mut s = tiered(1);
    s.s.set(b"int", b"42".to_vec(), None, false, false);
    s.s.set(b"small", b"tiny".to_vec(), None, false, false);
    s.s.lpush(b"list", &[&[b'x'; 200][..]]).unwrap();
    s.s.sadd(b"set", &[&[b'y'; 200][..]]).unwrap();
    assert_eq!(s.batch(), 0, "nothing spillable, no demotion");
    assert_eq!(s.stats().demotions_total, 0);

    s.s.set(b"bulk", vec![b'b'; 4096], None, false, false);
    assert_eq!(s.batch(), 1);
    assert!(is_cold(&s, b"bulk"));
    assert_eq!(s.batch(), 0, "cold keys are not candidates");
    assert_eq!(s.stats().demotions_total, 1);
}

#[test]
fn a_single_write_spills_at_most_one_batch() {
    let mut s = tiered(1);
    for i in 0..100u32 {
        let key = format!("k{i:03}").into_bytes();
        s.s.set(&key, vec![b'v'; 1024], None, false, false);
    }
    let already = s.stats().demotions_total;
    assert_eq!(already, 0);
    let demoted = s.batch();
    assert!(demoted <= 32, "one call spills at most one batch, got {demoted}");
    assert_eq!(demoted, SPILL_BATCH);
    assert_eq!(s.stats().demotions_total, already + demoted as u64);
}

#[test]
fn renamed_cold_key_survives_compaction() {
    let mut s = tiered(u64::MAX);
    let big = vec![b'r'; 3000];
    s.s.set(b"old", big.clone(), None, false, false);
    for i in 0..64u32 {
        let key = format!("churn{i}").into_bytes();
        s.s.set(&key, vec![b'c'; 5000], None, false, false);
        s.force_demote(&key);
    }
    assert!(s.force_demote(b"old"));
    assert_eq!(s.s.rename(b"old", b"new", false), RenameOutcome::Renamed);
    assert!(is_cold(&s, b"new"), "RENAME moves the stub without a read");
    for i in 0..64u32 {
        s.s.del(&[format!("churn{i}").as_bytes()]);
    }
    s.s.set(b"trigger", vec![b't'; 5000], None, false, false);
    s.force_demote(b"trigger");
    s.compact(0);
    assert_eq!(s.get(b"new").unwrap().unwrap(), big, "record must survive rename + compaction");
    assert_eq!(s.get(b"trigger").unwrap().unwrap().len(), 5000);
}

#[test]
fn flushall_clears_the_cold_tier() {
    let mut s = tiered(u64::MAX);
    s.s.set(b"k", vec![b'f'; 2048], None, false, false);
    assert!(s.force_demote(b"k"));
    assert_eq!(s.stats().cold_keys, 1);
    s.s.flushall();
    assert_eq!(s.s.dbsize(), 0);
    assert_eq!(s.stats().cold_keys, 0);
    assert_eq!(s.stats().cold_bytes, 0);
    assert_eq!(s.get(b"k").unwrap(), None);
}

#[test]
fn materialize_cold_returns_hot_twin_without_promotion() {
    let mut s = tiered(u64::MAX);
    s.s.set(b"bulk", vec![b'm'; 3000], None, false, false);
    s.s.hset(b"row", &[(b"f".as_slice(), b"v".as_slice())]).unwrap();
    assert!(s.force_demote(b"bulk"));
    assert!(s.force_demote(b"row"));

    let view = s.s.collect_snapshot();
    for (k, v, _) in view.each() {
        let c = stub_of(v).expect("the view holds stubs");
        match decode(c.kind, s.payload(c)).unwrap() {
            Value::ArcBulk(a) => {
                assert_eq!(k, b"bulk");
                assert_eq!(&a[..], &[b'm'; 3000][..]);
            }
            Value::Hash(h) => {
                assert_eq!(k, b"row");
                assert_eq!(h.get(b"f").unwrap().as_slice(), b"v");
            }
            other => panic!("unexpected variant {:?}", other.kind_name()),
        }
    }
    assert!(stub_of(&Value::Int(7)).is_none(), "a hot value is its own twin");
    assert_eq!(s.stats().promotions_total, 0);
    assert!(is_cold(&s, b"bulk") && is_cold(&s, b"row"));
}

#[test]
fn a_stub_is_told_from_a_value_of_another_type() {
    let mut s = tiered(u64::MAX);
    s.s.set(b"str", vec![b'q'; 200], None, false, false);
    s.s.hset(b"row", &[(b"f".as_slice(), b"v".as_slice())]).unwrap();
    s.s.hexpire_at(b"row", &[b"f"], 1_005_000, HExpireCond::Always).unwrap();
    assert!(s.force_demote(b"str") && s.force_demote(b"row"));
    assert_eq!(s.s.get(b"str"), Err(StoreError::NotInMemory));
    assert_eq!(s.s.incr_by(b"str", 1), Err(StoreError::NotInMemory));
    assert_eq!(s.s.get(b"row"), Err(StoreError::WrongType));
    assert_eq!(s.s.hget(b"row", b"f"), Err(StoreError::NotInMemory));
    assert_eq!(s.s.hpttl(b"row", &[b"f"]), Err(StoreError::NotInMemory));
    assert_eq!(s.s.hget(b"str", b"f"), Err(StoreError::WrongType));
    assert_eq!(s.s.llen(b"row"), Err(StoreError::WrongType));
    let left = s.read(b"row", ColdKind::Hash, |t| t.hpttl(b"row", &[b"f"])).unwrap();
    assert_eq!(left, vec![5_000], "a row that is served keeps the deadlines of its fields");
}

#[test]
fn a_tick_is_dry_if_it_was_wanted_and_moved_nothing() {
    let mut s = tiered(1);
    s.s.tick_done(false, 0);
    s.s.tick_done(true, 3);
    assert!(s.s.tick_due(), "neither counts as dry");
    s.s.tick_done(true, 0);
    assert!(!s.s.tick_due(), "the next tick pauses");
}

#[test]
fn del_and_overwrite_credit_dead_bytes() {
    let mut s = tiered(u64::MAX);
    s.s.set(b"a", vec![b'a'; 1024], None, false, false);
    s.s.set(b"b", vec![b'b'; 1024], None, false, false);
    assert!(s.force_demote(b"a"));
    assert!(s.force_demote(b"b"));
    assert_eq!(s.s.del(&[b"a".as_slice()]), 1, "DEL counts the cold key");
    s.s.set(b"b", b"hot".to_vec(), None, false, false);
    assert_eq!(s.get(b"b").unwrap().unwrap(), b"hot");
    let st = s.stats();
    assert_eq!(st.cold_keys, 0);
    assert_eq!(st.cold_bytes, 0);
    assert!(s.s.cold_in_file(0).is_empty(), "no record is needed any more");
}

#[test]
fn t5_effective_target_subtracts_reserved_and_stub() {
    let budget = 1_000_000u64;
    let mut s = tiered(budget);
    let wm = budget * 19 / 20;
    assert_eq!(s.stats().effective_target, wm, "fresh tier: no floors");
    s.s.set_tier_reserved(100_000);
    assert_eq!(s.stats().effective_target, wm - 100_000);
    s.s.set(b"k", vec![b'x'; 4096], None, false, false);
    assert!(s.force_demote(b"k"));
    let st = s.stats();
    assert_eq!(st.stub_bytes, OVERHEAD, "short key: stub = ENTRY_OVERHEAD only");
    assert_eq!(st.effective_target, wm - 100_000 - OVERHEAD);
}

#[test]
fn t5_saturated_target_is_zero_and_visible_not_silent() {
    let budget = 1_000u64;
    let mut s = tiered(budget);
    s.s.set_tier_reserved(budget);
    let st = s.stats();
    assert_eq!(st.effective_target, 0, "saturation must surface as 0 in the gauges");
    assert!(s.s.tier_index_floor_blocked(0));
    let mut plain = Store::new();
    plain.set_tier_reserved(u64::MAX);
    assert!(!plain.tier_index_floor_blocked(u64::MAX));
    assert_eq!(
        plain.tier_stats(LogGauges { files: 3, bytes: 3, live_bytes: 3, epoch: 3 }),
        TierStats::default()
    );
}

#[test]
fn t5_reserved_pressure_triggers_demotion() {
    let budget = 64 * 1024u64;
    let mut s = tiered(budget);
    for i in 0..10u32 {
        s.s.set(format!("k{i}").as_bytes(), vec![b'v'; 2048], None, false, false);
    }
    assert_eq!(s.demote_step(), 0, "under the plain watermark: nothing to do");
    s.s.set_tier_reserved(50 * 1024);
    assert!(s.demote_step() > 0, "the reserved floor must create demand");
}

#[test]
fn t5_stub_bytes_exact_across_demote_promote_del_rename_flush() {
    let mut s = tiered(u64::MAX);
    let long_key = vec![b'L'; 30];
    s.s.set(b"short", vec![b'a'; 2048], None, false, false);
    s.s.set(&long_key, vec![b'b'; 2048], None, false, false);
    assert!(s.force_demote(b"short"));
    assert!(s.force_demote(&long_key));
    let st = s.stats();
    assert_eq!(st.cold_keys, 2);
    assert_eq!(st.stub_bytes, (OVERHEAD) + (OVERHEAD + 30), "96 + key heap each");
    assert!(st.cold_bytes > 0);

    let long_dst = vec![b'D'; 40];
    assert!(matches!(s.s.rename(b"short", &long_dst, false), RenameOutcome::Renamed));
    assert_eq!(s.stats().stub_bytes, (OVERHEAD + 40) + (OVERHEAD + 30));

    assert_eq!(s.get(&long_key).unwrap().unwrap().len(), 2048);
    assert_eq!(s.get(&long_key).unwrap().unwrap().len(), 2048);
    assert!(!is_cold(&s, &long_key), "second touch promotes");
    let st = s.stats();
    assert_eq!(st.stub_bytes, OVERHEAD + 40);
    assert_eq!(st.cold_keys, 1);

    assert_eq!(s.s.del(&[long_dst.as_slice()]), 1);
    let st = s.stats();
    assert_eq!((st.stub_bytes, st.cold_keys, st.cold_bytes), (0, 0, 0));

    s.s.set(b"again", vec![b'c'; 2048], None, false, false);
    assert!(s.force_demote(b"again"));
    assert!(s.stats().stub_bytes > 0);
    s.s.flushall();
    let st = s.stats();
    assert_eq!((st.stub_bytes, st.cold_keys, st.cold_bytes), (0, 0, 0));
}

#[test]
fn t5_live_budget_update_does_not_disturb_the_vlog() {
    let mut s = tiered(u64::MAX);
    s.s.set(b"cold", vec![b'z'; 4096], None, false, false);
    assert!(s.force_demote(b"cold"));
    let before = s.stats();
    let refs = s.s.cold_in_file(0);
    s.s.set_tier_budget(123_456);
    let after = s.stats();
    assert_eq!(after.budget, 123_456);
    assert_eq!(s.s.cold_in_file(0), refs, "a budget update must not touch the records");
    assert_eq!(
        (after.vlog_files, after.vlog_bytes, after.vlog_live_bytes, after.vlog_epoch),
        (before.vlog_files, before.vlog_bytes, before.vlog_live_bytes, before.vlog_epoch),
        "a budget update must not touch the vlog"
    );
    assert_eq!((after.cold_keys, after.stub_bytes), (before.cold_keys, before.stub_bytes));
    assert_eq!(s.get(b"cold").unwrap().unwrap().len(), 4096);
}

#[test]
fn t5_stats_carry_vlog_gauges() {
    let mut s = tiered(u64::MAX);
    s.s.set(b"v", vec![b'n'; 1024], None, false, false);
    assert!(s.force_demote(b"v"));
    let st = s.s.tier_stats(LogGauges { files: 1, bytes: 1050, live_bytes: 1050, epoch: 0 });
    assert_eq!(st.vlog_files, 1);
    assert!(st.vlog_bytes > 1024, "the record is on disk");
    assert_eq!(st.vlog_live_bytes, st.vlog_bytes, "nothing dead yet");
    assert_eq!(st.vlog_epoch, 0);
}

#[test]
fn max_spill_caps_the_largest_demotable_value() {
    let mut s = tiered(1 << 30);
    s.s.set_tier_max_spill(1024);
    s.s.set(b"big", vec![b'a'; 4096], None, false, false);
    s.s.set(b"small", vec![b'b'; 300], None, false, false);
    assert!(!s.force_demote(b"big"), "over-cap value must stay hot");
    assert!(!is_cold(&s, b"big"));
    assert!(s.force_demote(b"small"), "under-cap value demotes");
    assert!(is_cold(&s, b"small"));
    s.s.set_tier_max_spill(0);
    assert!(s.force_demote(b"big"));
    assert!(is_cold(&s, b"big"));
}

#[test]
fn a_dry_tick_backs_off_exponentially_to_the_ceiling() {
    let mut s = tiered(1);
    s.s.set(b"int", b"42".to_vec(), None, false, false);
    let skip = |s: &Tiered| {
        let t = s.s.tier_state().unwrap();
        (t.tick_skip, t.tick_wait)
    };
    assert_eq!(s.demote_step(), 0, "dry batch");
    assert_eq!(skip(&s), (1, 1), "first dry tick arms a 1-tick skip");
    assert_eq!(s.demote_step(), 0, "skipped tick: decrement only");
    assert_eq!(skip(&s), (1, 0));
    assert_eq!(s.demote_step(), 0, "dry again");
    assert_eq!(skip(&s), (2, 2), "the skip doubles");
    for _ in 0..2000 {
        let _ = s.demote_step();
    }
    assert_eq!(skip(&s).0, BACKOFF_CEILING_TICKS, "the skip is capped, never unbounded");
}

#[test]
fn a_write_path_demotion_wakes_the_backed_off_tick() {
    let mut s = tiered(1);
    s.s.set(b"int", b"42".to_vec(), None, false, false);
    for _ in 0..10 {
        let _ = s.demote_step();
    }
    assert!(s.s.tier_state().unwrap().tick_skip >= 2, "backed off");
    s.s.set(b"bulk", vec![b'b'; 4096], None, false, false);
    assert_eq!(s.batch(), 1, "write path samples during the window");
    let t = s.s.tier_state().unwrap();
    assert_eq!((t.tick_skip, t.tick_wait), (0, 0), "progress resets the tick backoff");
}

#[test]
fn a_zero_effective_target_backs_off_like_any_dry_tick() {
    let mut s = tiered(1 << 20);
    s.s.set_tier_reserved(1 << 30);
    s.s.set(b"bulk", vec![b'b'; 4096], None, false, false);
    assert_eq!(s.demote_step(), 1, "the one spillable value still demotes");
    assert_eq!(s.demote_step(), 0, "then the tick runs dry");
    assert_eq!(s.s.tier_state().unwrap().tick_skip, 1, "and backs off");
}

#[test]
fn entry_overhead_stands_for_a_slot_in_a_growing_table() {
    let entry = std::mem::size_of::<Entry>();
    let key = std::mem::size_of::<Vec<u8>>();
    let slot = key + entry + 1;
    let at_full = slot as f64 / (7.0 / 8.0);
    let at_fresh = slot as f64 / (7.0 / 16.0);
    let charged = ENTRY_OVERHEAD as f64;
    assert!(charged >= at_full, "{charged} under-states even a full table ({at_full:.0}B)");
    assert!(charged <= at_fresh, "{charged} exceeds the worst case ({at_fresh:.0}B)");
}

/// A row big enough to be on the heap.
fn put_row(s: &mut Tiered, key: &[u8]) {
    let a = vec![b'a'; 40];
    let b = vec![b'b'; 40];
    s.s.hset(
        key,
        &[
            (b"a".as_slice(), a.as_slice()),
            (b"b".as_slice(), b.as_slice()),
            (b"c".as_slice(), b"tiny".as_slice()),
            (b"pad-field-name-over-inline".as_slice(), b"x".as_slice()),
        ],
    )
    .unwrap();
}

#[test]
fn peek_fields_hot_cold_missing_wrongtype() {
    let mut s = tiered(1 << 30);
    put_row(&mut s, b"hot");
    put_row(&mut s, b"cold");
    s.s.set(b"str", vec![b's'; 100], None, false, false);
    assert!(s.force_demote(b"cold"));
    assert!(s.force_demote(b"str"));

    let fields: &[&[u8]] = &[b"a", b"missing-field", b"c"];
    let hot = s.peek_fields(b"hot", fields).unwrap().unwrap();
    assert_eq!(hot[0].as_deref(), Some(&vec![b'a'; 40][..]));
    assert_eq!(hot[1], None);
    assert_eq!(hot[2].as_deref(), Some(&b"tiny"[..]));
    let before = s.stats();
    let cold = s.peek_fields(b"cold", fields).unwrap().unwrap();
    assert_eq!(cold, hot);
    let after = s.stats();
    assert_eq!(after.peek_preads_total - before.peek_preads_total, 1, "3 fields = 1 pread");
    assert!(s.peek_fields(b"nope", fields).unwrap().is_none());
    let before = s.stats();
    assert!(matches!(s.peek_fields(b"str", fields), Err(StoreError::WrongType)));
    assert_eq!(s.stats().preads_total, before.preads_total, "WRONGTYPE pays no pread");
}

#[test]
fn peek_never_promotes_and_never_advances_the_gate() {
    let mut s = tiered(1 << 30);
    put_row(&mut s, b"k");
    assert!(s.force_demote(b"k"));
    for _ in 0..5 {
        s.peek_fields(b"k", &[b"a", b"b"]).unwrap().unwrap();
    }
    assert!(is_cold(&s, b"k"), "peek must not promote");
    assert_eq!(s.stats().promotions_total, 0);
    let _ = s.hget(b"k", b"a").unwrap();
    assert!(is_cold(&s, b"k"), "peeks must not count as the first touch");
    let _ = s.hget(b"k", b"a").unwrap();
    assert!(!is_cold(&s, b"k"), "second client read promotes");
    assert_eq!(s.stats().promotions_total, 1);
}

#[test]
fn page_peek_mixed_rows_in_order_one_batch() {
    let mut s = tiered(1 << 30);
    for i in 0..6u8 {
        put_row(&mut s, format!("row:{i}").as_bytes());
    }
    s.s.set(b"strval", vec![b'v'; 100], None, false, false);
    for i in [1u8, 3, 4] {
        assert!(s.force_demote(format!("row:{i}").as_bytes()));
    }
    assert!(s.force_demote(b"strval"));

    let keys: Vec<&[u8]> =
        vec![b"row:0", b"row:1", b"row:2", b"row:3", b"missing", b"strval", b"row:4", b"row:5"];
    let fields: &[&[u8]] = &[b"a", b"c", b"nope"];
    let before = s.stats();
    let rows = s.peek_rows(&keys, fields);
    let after = s.stats();

    assert_eq!(rows.len(), keys.len());
    let expect = s.peek_fields(b"row:0", fields).unwrap().unwrap();
    for i in [0usize, 1, 2, 3, 6, 7] {
        assert_eq!(rows[i].as_ref().unwrap().as_ref().unwrap(), &expect, "row {i}");
    }
    assert!(rows[4].as_ref().unwrap().is_none(), "missing key");
    assert!(matches!(rows[5], Err(StoreError::WrongType)), "cold string");
    assert_eq!(after.peek_preads_total - before.peek_preads_total, 3);
    assert_eq!(after.batch_submissions_total - before.batch_submissions_total, 1);
    assert_eq!(after.promotions_total, 0);
    for i in [1u8, 3, 4] {
        assert!(is_cold(&s, format!("row:{i}").as_bytes()));
    }
}

#[test]
fn page_peek_all_hot_makes_no_batch() {
    let mut s = tiered(1 << 30);
    put_row(&mut s, b"h1");
    put_row(&mut s, b"h2");
    let rows = s.peek_rows(&[b"h1", b"h2"], &[b"a"]);
    assert!(rows.iter().all(|r| r.as_ref().unwrap().is_some()));
    let ts = s.stats();
    assert_eq!((ts.peek_preads_total, ts.batch_submissions_total), (0, 0));
}

#[test]
fn page_peek_plan_is_sorted_by_file_and_offset() {
    let mut s = tiered(1 << 30);
    for i in 0..5u8 {
        put_row(&mut s, format!("r{i}").as_bytes());
        assert!(s.force_demote(format!("r{i}").as_bytes()));
    }
    let keys: Vec<&[u8]> = vec![b"r3", b"r0", b"r4", b"r2", b"r1"];
    let rows = s.peek_rows(&keys, &[b"a"]);
    assert_eq!(rows.len(), 5);
    assert!(rows.iter().all(|r| r.as_ref().unwrap().is_some()));
    let mut sorted = s.reads.clone();
    sorted.sort_unstable();
    assert_eq!(s.reads, sorted, "cold batch must be (file_id, offset)-sorted");
    assert_eq!(s.reads.len(), 5);
}

#[test]
fn peek_scope_reads_cold_without_promoting_or_marking() {
    let mut s = tiered(1 << 30);
    put_row(&mut s, b"h");
    s.s.set(b"v", vec![b'z'; 200], None, false, false);
    let mut hot_hash = s.s.hgetall(b"h").unwrap();
    let hot_val = s.s.get(b"v").unwrap();
    assert!(s.force_demote(b"h"));
    assert!(s.force_demote(b"v"));

    let before = s.stats();
    s.peek = true;
    let mut cold_hash = s.read(b"h", ColdKind::Hash, |st| st.hgetall(b"h")).unwrap();
    let cold_val = s.get(b"v").unwrap();
    s.peek = false;
    cold_hash.sort();
    hot_hash.sort();
    assert_eq!(cold_hash, hot_hash, "digest-style hgetall equals the hot twin");
    assert_eq!(cold_val, hot_val);
    let after = s.stats();
    assert_eq!(after.promotions_total, 0);
    assert_eq!(after.peek_preads_total - before.peek_preads_total, 2, "one pread per row");
    assert!(is_cold(&s, b"h") && is_cold(&s, b"v"));
    let _ = s.get(b"v").unwrap();
    assert!(is_cold(&s, b"v"));
    let _ = s.get(b"v").unwrap();
    assert!(!is_cold(&s, b"v"));
}

#[test]
fn peek_scope_restores_gate_behavior_after_the_scope() {
    let mut s = tiered(1 << 30);
    put_row(&mut s, b"k");
    assert!(s.force_demote(b"k"));
    s.peek = true;
    let _ = s.hget(b"k", b"a").unwrap();
    s.peek = false;
    let _ = s.hget(b"k", b"a").unwrap(); // first touch
    let _ = s.hget(b"k", b"a").unwrap(); // second: promote
    assert!(!is_cold(&s, b"k"));
    assert_eq!(s.stats().promotions_total, 1);
}

#[test]
fn compaction_is_due_below_half() {
    assert!(compact_due(49, 100));
    assert!(!compact_due(50, 100));
    assert!(!compact_due(0, 0));
    assert!(compact_due(0, 1));
}

/// Rows move into a segment and are told by it again.
#[test]
fn rows_move_into_a_segment_and_back() {
    let mut s = Store::new();
    let none: Vec<Vec<u8>> = Vec::new();
    assert!(s.seal_rows_to_seg(b"t", &[b"r:1"]).is_none(), "no segments yet");
    assert!(s.enable_seg_rows(&none).is_ok());
    for k in [b"r:2", b"r:1", b"r:3"] {
        s.hset(k, &[(b"f".as_slice(), &k[..])]).unwrap();
    }
    s.expire(b"r:3", 1000 * MS);
    s.set(b"str", b"v".to_vec(), None, false, false);
    let keys: Vec<&[u8]> = vec![b"r:2", b"str", b"r:3", b"absent", b"r:1"];
    let (sealed, rows) = s.seal_rows_to_seg(b"t\x01", &keys).expect("two rows");
    assert_eq!(sealed.seq, 0);
    assert_eq!(sealed.file, b"row-7401-0.seg");
    assert_eq!(sealed.keys, vec![b"r:1".to_vec(), b"r:2".to_vec()], "in the order of keys");
    s.segment_sealed(&sealed);
    assert_eq!(s.row_seg_files(), vec![(0, b"row-7401-0.seg".to_vec())]);
    assert_eq!(s.commit_row_eviction(&sealed), 2);
    assert_eq!(s.type_of(b"r:1"), "hash");
    assert!(matches!(s.value_ref(b"r:1"), Some(Value::Cold(c)) if c.is_seg()));
    assert!(!s.is_cold(b"r:3"), "a row with a deadline stays");
    assert!(s.promote_in_place(b"r:1", rows[0].1.clone()).unwrap());
    assert_eq!(s.hget(b"r:1", b"f"), Ok(Some(b"r:1".to_vec())));

    // A second store learns of the rows from the segment alone.
    let mut t = Store::new();
    assert!(t.enable_seg_rows(&vec![b"row-7401-7.seg".to_vec()]).is_ok());
    t.hset(b"r:2", &[(b"f".as_slice(), b"r:2".as_slice())]).unwrap();
    assert!(matches!(apply_segmented(&mut t, b"other.seg", &rows), Err(SegError::NotListed(_))));
    assert_eq!(apply_segmented(&mut t, b"row-7401-7.seg", &rows).ok(), Some(2));
    assert!(t.is_cold(b"r:1") && t.is_cold(b"r:2"));
    assert_eq!(apply_segmented(&mut t, b"row-7401-7.seg", &rows).ok(), Some(0), "idempotent");
    let bad = vec![(b"x".to_vec(), vec![1u8])];
    assert!(matches!(
        apply_segmented(&mut t, b"row-7401-7.seg", &bad),
        Err(SegError::Broken(CodecError::TruncatedLength))
    ));
    assert!(t.sweep_orphan_row_segs().is_empty());
    t.del(&[b"r:1".as_slice(), b"r:2".as_slice()]);
    assert_eq!(t.sweep_orphan_row_segs(), vec![b"row-7401-7.seg".to_vec()]);
    assert!(t.row_seg_files().is_empty());
    let next = t.hset(b"r:9", &[(b"f".as_slice(), b"v".as_slice())]);
    assert_eq!(next, Ok(1));
    assert_eq!(t.seal_rows_to_seg(b"t", &[b"r:9"]).expect("one row").0.seq, 8);
    t.load_row_stub(b"loaded", 7, 20);
    assert_eq!(t.type_of(b"loaded"), "hash");
    let mut u = Store::new();
    assert!(matches!(
        u.enable_seg_rows(&vec![b"row-7401-x.seg".to_vec()]),
        Err(SegError::NoNumber(_))
    ));
}

/// Two rows of one segment, in stubs, and their records.
fn sealed_pair() -> (Store, Vec<(Vec<u8>, Vec<u8>)>) {
    let mut s = Store::new();
    let none: Vec<Vec<u8>> = Vec::new();
    assert!(s.enable_seg_rows(&none).is_ok());
    for k in [b"r:1", b"r:2"] {
        s.hset(k, &[(b"f".as_slice(), &k[..])]).unwrap();
    }
    let (sealed, rows) = s.seal_rows_to_seg(b"t", &[b"r:1", b"r:2"]).expect("two rows");
    s.segment_sealed(&sealed);
    assert_eq!(s.commit_row_eviction(&sealed), 2);
    (s, rows)
}

#[test]
fn a_sealed_row_is_renamed_onto_another_of_its_segment() {
    let (mut s, rows) = sealed_pair();
    assert_eq!(s.rename(b"r:1", b"r:2", false), RenameOutcome::NotInMemory);
    assert_eq!(s.rename(b"r:1", b"r:1", false), RenameOutcome::NotInMemory);
    assert!(s.is_cold(b"r:1") && s.is_cold(b"r:2"), "nothing moved");
    assert!(s.rename_step(b"none").is_none());
    assert!(s.rename_step(b"r:1").is_some_and(|c| c.is_seg()));
    assert!(s.promote_in_place(b"r:1", rows[0].1.clone()).unwrap());
    assert!(s.rename_step(b"r:1").is_none());
    assert_eq!(s.rename(b"r:1", b"r:2", true), RenameOutcome::DstExists);
    assert_eq!(s.rename(b"r:1", b"r:2", false), RenameOutcome::Renamed);
    assert_eq!(s.hget(b"r:2", b"f"), Ok(Some(b"r:1".to_vec())), "the row that was renamed");
    assert_eq!(s.hget(b"r:1", b"f"), Ok(None));
}

#[test]
fn no_stub_leaves_its_store() {
    let (mut s, rows) = sealed_pair();
    assert!(matches!(s.take_with_ttl(b"r:1"), Err(StoreError::NotInMemory)));
    assert!(matches!(s.clone_with_ttl(b"r:1"), Err(StoreError::NotInMemory)));
    assert!(s.move_step(b"r:1").is_some() && s.is_cold(b"r:1"));
    let (copy, ttl) = s.clone_from_record(b"r:1", rows[0].1.clone()).unwrap().unwrap();
    assert_eq!(ttl, None);
    assert!(s.is_cold(b"r:1"), "a copy leaves the value where it is");
    let mut t = Store::new();
    t.put_with_ttl(b"x".to_vec(), copy, ttl);
    assert_eq!(t.hget(b"x", b"f"), Ok(Some(b"r:1".to_vec())));
    assert!(s.clone_from_record(b"none", rows[0].1.clone()).unwrap().is_none());
    assert!(s.clone_from_record(b"r:1", vec![1u8]).is_err());

    let mut d = tiered(u64::MAX);
    d.s.set(b"k", vec![b'q'; 200], None, false, false);
    assert!(d.force_demote(b"k"));
    assert!(d.s.rename_step(b"k").is_none(), "a record of the log moves with its key");
    assert!(matches!(d.s.take_with_ttl(b"k"), Err(StoreError::NotInMemory)));
    assert!(d.promote(b"k"));
    assert!(d.s.take_with_ttl(b"k").unwrap().is_some());
}

#[test]
fn errors_fall_under_the_kinds_of_the_operating_system() {
    let kinds = [
        (KevyError::TimedOut, ErrorKind::TimedOut),
        (KevyError::Closed, ErrorKind::ConnectionAborted),
        (KevyError::InvalidInput("x".into()), ErrorKind::InvalidInput),
        (KevyError::NotFound("idx".into()), ErrorKind::NotFound),
        (KevyError::Unsupported("x".into()), ErrorKind::Unsupported),
        (KevyError::ReadOnly, ErrorKind::PermissionDenied),
        (KevyError::Protocol("x".into()), ErrorKind::InvalidData),
        (KevyError::of_store(StoreError::WrongType), ErrorKind::InvalidData),
        (KevyError::of_store(StoreError::OutOfMemory), ErrorKind::OutOfMemory),
    ];
    for (e, kind) in kinds {
        assert_eq!(e.kind(), kind, "{e:?}");
    }
}
