use std::collections::HashMap;

use lsm_kv_store::cache::CacheKey;
use lsm_kv_store::config::LsmConfig;
use lsm_kv_store::engine::{count, keys, search, search_prefix, LookupStep, LsmEngine};
use lsm_kv_store::error::LsmError;
use lsm_kv_store::reader::SstableReader;
use lsm_kv_store::record::LogRecord;
use lsm_kv_store::wal::{frame_record, recover_records};

/// The engine with an in-memory directory around it: the harness performs
/// exactly the byte moves the embedding shell would perform on disk.
struct Store {
    engine: LsmEngine,
    files: HashMap<String, Vec<u8>>,
    clock: u128,
}

fn open_store(
    files: HashMap<String, Vec<u8>>,
    config: LsmConfig,
) -> Result<Store, LsmError> {
    let wal_bytes = files.get("wal.log").cloned().unwrap_or_default();
    let records = recover_records(&wal_bytes)?;
    let mut readers = Vec::new();
    for (name, bytes) in files.iter() {
        if name.ends_with(".sst") {
            let file_id = CacheKey::new(name, 0).file_id;
            if let Ok(r) = SstableReader::open(bytes, config.storage.duplicate(), file_id) {
                readers.push(r);
            }
        }
    }
    let engine = LsmEngine::assemble(config, records, readers);
    Ok(Store { engine, files, clock: 1000 })
}

fn fresh_store(memtable_max_size: usize) -> Store {
    let config = LsmConfig::builder()
        .memtable_max_size(memtable_max_size)
        .build()
        .expect("config must validate");
    open_store(HashMap::new(), config).expect("empty store must open")
}

impl Store {
    fn tick(&mut self) -> u128 {
        self.clock += 1;
        self.clock
    }

    fn write(&mut self, rec: LogRecord) {
        let frame = frame_record(&rec);
        self.files
            .entry("wal.log".to_string())
            .or_insert_with(Vec::new)
            .extend_from_slice(&frame);
        if self.engine.apply_write(rec) {
            self.flush();
        }
    }

    fn set(&mut self, key: &str, value: &[u8]) {
        let ts = self.tick();
        self.write(LogRecord::new(key.as_bytes().to_vec(), value.to_vec(), ts));
    }

    fn delete(&mut self, key: &str) {
        let ts = self.tick();
        self.write(LogRecord::tombstone(key.as_bytes().to_vec(), ts));
    }

    fn flush(&mut self) {
        let now = self.tick();
        let ts = self.engine.next_sstable_timestamp(now);
        match self.engine.build_flush(ts) {
            Ok(Some(bytes)) => {
                let name = format!("{}.sst", ts);
                let file_id = CacheKey::new(&name, 0).file_id;
                let reader = SstableReader::open(
                    &bytes,
                    self.engine.config.storage.duplicate(),
                    file_id,
                )
                .expect("a built run must open");
                self.files.insert(name, bytes);
                self.engine.install_flush(reader, ts);
                // The run is durable before the log is cleared.
                self.files.insert("wal.log".to_string(), Vec::new());
            }
            Ok(None) => {}
            Err(e) => panic!("flush failed: {:?}", e),
        }
    }

    fn read_range(&self, ts: u128, offset: u64, size: u32) -> Vec<u8> {
        let name = format!("{}.sst", ts);
        let f = self.files.get(&name).expect("run file must exist");
        f[offset as usize..offset as usize + size as usize].to_vec()
    }

    fn get(&mut self, key: &str) -> Option<Vec<u8>> {
        let mut step = self.engine.lookup_start(key.as_bytes()).expect("lookup must not fail");
        loop {
            match step {
                LookupStep::Done(v) => return v,
                LookupStep::Fetch { sst_index, file_timestamp, offset, size } => {
                    let bytes = self.read_range(file_timestamp, offset, size);
                    step = self
                        .engine
                        .lookup_resume(key.as_bytes(), sst_index, &bytes)
                        .expect("resume must not fail");
                }
            }
        }
    }

    fn scan(&self) -> Vec<(Vec<u8>, Vec<u8>)> {
        let mut c = self.engine.scan_begin();
        loop {
            match self.engine.scan_step(&c) {
                None => break,
                Some((ts, off, size)) => {
                    let bytes = self.read_range(ts, off, size);
                    self.engine.scan_feed(&mut c, &bytes).expect("scan feed must not fail");
                }
            }
        }
        self.engine.scan_finish(c)
    }

    /// Applies each write in turn, counting successes; the first failure
    /// stops the batch.
    fn set_batch(&mut self, items: Vec<(&str, Vec<u8>)>) -> usize {
        let mut applied = 0;
        for (key, value) in items {
            self.set(key, &value);
            applied += 1;
        }
        applied
    }

    fn delete_batch(&mut self, batch_keys: Vec<&str>) -> usize {
        let mut applied = 0;
        for key in batch_keys {
            self.delete(key);
            applied += 1;
        }
        applied
    }

    fn close(self) -> HashMap<String, Vec<u8>> {
        self.files
    }
}

#[test]
fn test_set_and_get() {
    let mut store = fresh_store(4096);
    store.set("key1", b"value1");
    assert_eq!(store.get("key1"), Some(b"value1".to_vec()));
}

#[test]
fn test_round_trip_in_memtable() {
    let mut store = fresh_store(64 * 1024);
    store.set("hello", b"world");
    assert_eq!(store.get("hello"), Some(b"world".to_vec()));
    assert_eq!(store.get("missing"), None);
}

#[test]
fn test_memtable_flush() {
    let mut store = fresh_store(1024);
    let long_value = vec![b'v'; 1500];
    store.set("key1", &long_value);

    let sst_count = store.files.keys().filter(|n| n.ends_with(".sst")).count();
    assert!(sst_count >= 1, "a run file should have been written");
}

#[test]
fn test_flush_triggers_sstable() {
    let mut store = fresh_store(1024);
    for i in 0..20 {
        let key = format!("k{:02}", i);
        let value = format!("v{:02}", i);
        store.set(&key, value.as_bytes());
    }
    // Push the staging table over its threshold so a flush fires.
    let filler = vec![b'x'; 1200];
    store.set("zz_filler", &filler);

    let sst_count = store.files.keys().filter(|n| n.ends_with(".sst")).count();
    assert!(sst_count >= 1, "at least one run file expected");
    assert_eq!(
        store.files.get("wal.log").map(|f| f.len()).unwrap_or(0),
        0,
        "the log must be empty right after a flush"
    );

    for i in 0..20 {
        let key = format!("k{:02}", i);
        let value = format!("v{:02}", i);
        assert_eq!(store.get(&key), Some(value.into_bytes()), "key {} must survive", key);
    }
}

#[test]
fn test_delete_and_tombstone() {
    let mut store = fresh_store(4096);
    store.set("key1", b"value1");
    store.delete("key1");
    assert_eq!(store.get("key1"), None);
}

#[test]
fn restart_recovers_from_wal() {
    let config = LsmConfig::builder().memtable_max_size(1024 * 1024).build().unwrap();
    let files = {
        let mut store = open_store(HashMap::new(), config.clone()).unwrap();
        store.set("k1", b"v1");
        store.close()
    };

    let mut store = open_store(files, config).unwrap();
    assert_eq!(store.get("k1"), Some(b"v1".to_vec()));
}

#[test]
fn restart_after_flush_reads_sstable() {
    let config = LsmConfig::builder().memtable_max_size(1024).build().unwrap();
    let files = {
        let mut store = open_store(HashMap::new(), config.clone()).unwrap();
        for i in 0..50 {
            store.set(&format!("k{i}"), &vec![b'x'; 20]);
        }
        store.close()
    };
    assert!(files.keys().any(|n| n.ends_with(".sst")), "runs should exist after the writes");

    let mut store = open_store(files, config).unwrap();
    let v = store.get("k1").unwrap();
    assert!(!v.is_empty());
    assert_eq!(store.get("k0"), Some(vec![b'x'; 20]));
}

#[test]
fn tombstone_persists_across_restart() {
    let config = LsmConfig::builder().memtable_max_size(1024 * 1024).build().unwrap();
    let files = {
        let mut store = open_store(HashMap::new(), config.clone()).unwrap();
        store.set("k", b"v");
        store.delete("k");
        store.close()
    };

    let mut store = open_store(files, config).unwrap();
    assert_eq!(store.get("k"), None);
}

#[test]
fn wal_truncation_is_detected() {
    let config = LsmConfig::builder().memtable_max_size(1024 * 1024).build().unwrap();
    let mut files = {
        let mut store = open_store(HashMap::new(), config.clone()).unwrap();
        store.set("k1", b"v1");
        store.close()
    };

    let wal = files.get_mut("wal.log").unwrap();
    let len = wal.len();
    assert!(len > 1);
    wal.truncate(len - 1);

    let res = open_store(files.clone(), config.clone());
    match res {
        Err(LsmError::WalCorruption) => {}
        Err(other) => panic!("expected log corruption, got: {:?}", other),
        Ok(_) => panic!("expected log corruption, got a working store"),
    }

    // Removing the log loses its tail but lets the store open.
    files.remove("wal.log");
    let mut store = open_store(files, config).unwrap();
    assert_eq!(store.get("k1"), None);
}

#[test]
fn test_shadowing_across_sstables() {
    let config = LsmConfig::builder().memtable_max_size(1024 * 1024).build().unwrap();
    let mut store = open_store(HashMap::new(), config.clone()).unwrap();
    store.set("k", b"v1");
    store.flush();
    store.set("k", b"v2");
    store.flush();
    store.delete("k");
    store.flush();
    assert_eq!(store.get("k"), None, "the newest run's tombstone must win");

    // Drop the newest run: the previous version becomes visible again.
    let mut files = store.close();
    let newest = files
        .keys()
        .filter(|n| n.ends_with(".sst"))
        .max_by_key(|n| n.trim_end_matches(".sst").parse::<u128>().unwrap())
        .unwrap()
        .clone();
    files.remove(&newest);

    let mut store = open_store(files, config).unwrap();
    assert_eq!(store.get("k"), Some(b"v2".to_vec()));
}

#[test]
fn test_count_after_distinct_writes() {
    let mut store = fresh_store(1024 * 1024);
    for i in 0..10 {
        store.set(&format!("key_{:02}", i), b"v");
    }
    let results = store.scan();
    assert_eq!(count(&results), 10);
}

#[test]
fn test_scan_merges_and_sorts() {
    let mut store = fresh_store(1024);
    store.set("banana", b"1");
    store.set("apple", b"2");
    store.flush();
    store.set("cherry", b"3");
    store.set("apple", b"4");
    store.delete("banana");

    let results = store.scan();
    let ks: Vec<Vec<u8>> = keys(&results);
    assert_eq!(ks, vec![b"apple".to_vec(), b"cherry".to_vec()]);
    assert_eq!(results[0].1, b"4".to_vec(), "the newest value must win");
    assert_eq!(results[1].1, b"3".to_vec());
}

#[test]
fn test_search_and_prefix() {
    let mut store = fresh_store(1024 * 1024);
    store.set("user:1", b"ada");
    store.set("user:2", b"grace");
    store.set("session:9", b"tok");

    let results = store.scan();
    let users = search_prefix(&results, b"user:");
    assert_eq!(users.len(), 2);
    let hits = search(&results, b"ser");
    assert_eq!(hits.len(), 2, "substring search should find both user keys");
    let none = search(&results, b"zebra");
    assert!(none.is_empty());
}

#[test]
fn test_empty_key_accepted() {
    let mut store = fresh_store(4096);
    store.set("", b"empty");
    assert_eq!(store.get(""), Some(b"empty".to_vec()));
}

#[test]
fn test_stats_snapshot() {
    let mut store = fresh_store(1024 * 1024);
    store.set("a", b"1");
    store.set("b", b"2");
    let stats = store.engine.stats_all(2048, 64);
    assert_eq!(stats.mem_records, 2);
    assert_eq!(stats.sst_files, 0);
    assert_eq!(stats.sst_kb, 2);
    assert_eq!(stats.wal_kb, 0);
    assert_eq!(stats.total_records, 2);
    let text = store.engine.stats(2048, 64);
    assert!(text.contains("2 records"));
}

#[test]
fn test_cache_serves_repeated_reads() {
    let mut store = fresh_store(1024);
    for i in 0..50 {
        store.set(&format!("key_{:03}", i), &vec![b'x'; 30]);
    }
    store.flush();
    for _ in 0..3 {
        for i in 0..50 {
            let key = format!("key_{:03}", i);
            assert!(store.get(&key).is_some(), "key should exist");
        }
    }
}

#[test]
fn test_out_of_range_key_needs_no_block() {
    let mut store = fresh_store(1024 * 1024);
    store.set("mmm", b"middle");
    store.set("qqq", b"later");
    store.flush();

    // Keys outside the run's key range are answered without any fetch.
    let step = store.engine.lookup_start(b"aaa").unwrap();
    assert!(matches!(step, LookupStep::Done(None)));
    let step = store.engine.lookup_start(b"zzz").unwrap();
    assert!(matches!(step, LookupStep::Done(None)));

    // Keys at the exact range bounds are retrievable.
    assert_eq!(store.get("mmm"), Some(b"middle".to_vec()));
    assert_eq!(store.get("qqq"), Some(b"later".to_vec()));
}

#[test]
fn test_set_batch_and_count() {
    let mut store = fresh_store(1024 * 1024);
    let items: Vec<(String, Vec<u8>)> =
        (0..12).map(|i| (format!("batch_{:02}", i), format!("v{}", i).into_bytes())).collect();
    let borrowed: Vec<(&str, Vec<u8>)> =
        items.iter().map(|(k, v)| (k.as_str(), v.clone())).collect();

    let applied = store.set_batch(borrowed);
    assert_eq!(applied, 12);
    let results = store.scan();
    assert_eq!(count(&results), 12, "count sees exactly the distinct writes");

    let removed = store.delete_batch(vec!["batch_00", "batch_01"]);
    assert_eq!(removed, 2);
    let results = store.scan();
    assert_eq!(count(&results), 10);
}
