use lsm_kv_store::cache::{CacheKey, GlobalBlockCache};
use lsm_kv_store::codec::{decode_record, encode_record};
use lsm_kv_store::config::{CoreConfig, LsmConfig, StorageConfig};
use lsm_kv_store::error::LsmError;
use lsm_kv_store::memtable::MemTable;
use lsm_kv_store::record::LogRecord;
use lsm_kv_store::wal::{frame_record, recover_records};

#[test]
fn test_memtable_ordering() {
    let mut mt = MemTable::new(1024);
    mt.insert(LogRecord::new(b"charlie".to_vec(), b"3".to_vec(), 1));
    mt.insert(LogRecord::new(b"alice".to_vec(), b"1".to_vec(), 2));
    mt.insert(LogRecord::new(b"bob".to_vec(), b"2".to_vec(), 3));

    let keys: Vec<_> = mt.iter_ordered().into_iter().map(|(k, _)| k).collect();
    assert_eq!(keys, vec![b"alice".to_vec(), b"bob".to_vec(), b"charlie".to_vec()]);
}

#[test]
fn test_memtable_last_write_wins() {
    let mut mt = MemTable::new(1024);
    mt.insert(LogRecord::new(b"k".to_vec(), b"v1".to_vec(), 1));
    mt.insert(LogRecord::new(b"k".to_vec(), b"v2".to_vec(), 2));
    let got = mt.get(b"k").expect("key should be present");
    assert_eq!(got.value, b"v2".to_vec());
    assert_eq!(mt.iter_ordered().len(), 1);
}

#[test]
fn test_cache_key_uniqueness_different_files() {
    let key1 = CacheKey::new("/data/sst1.sst", 0);
    let key2 = CacheKey::new("/data/sst2.sst", 0);

    assert_ne!(key1, key2);
    assert_ne!(key1.file_id, key2.file_id);
}

#[test]
fn test_cache_key_same_file_different_offsets() {
    let key1 = CacheKey::new("/data/sst1.sst", 0);
    let key2 = CacheKey::new("/data/sst1.sst", 4096);

    assert_ne!(key1, key2);
    assert_eq!(key1.file_id, key2.file_id);
}

#[test]
fn test_cache_key_deterministic() {
    let key1 = CacheKey::new("/data/test.sst", 1024);
    let key2 = CacheKey::new("/data/test.sst", 1024);

    assert_eq!(key1, key2);
}

#[test]
fn test_record_codec_round_trip() {
    let rec = LogRecord::new(b"some_key".to_vec(), b"some value bytes".to_vec(), 123456789);
    let encoded = encode_record(&rec);
    let back = decode_record(&encoded).expect("encoded record must parse");
    assert_eq!(back.key, rec.key);
    assert_eq!(back.value, rec.value);
    assert_eq!(back.timestamp, rec.timestamp);
    assert_eq!(back.is_deleted, rec.is_deleted);
}

#[test]
fn test_tombstone_codec_round_trip() {
    let rec = LogRecord::tombstone(b"gone".to_vec(), 77);
    let encoded = encode_record(&rec);
    let back = decode_record(&encoded).expect("encoded tombstone must parse");
    assert!(back.is_deleted);
    assert!(back.value.is_empty());
    assert_eq!(back.key, b"gone".to_vec());
}

#[test]
fn test_record_codec_rejects_garbage() {
    assert!(decode_record(&[1, 2, 3]).is_err());
    assert!(decode_record(&[]).is_err());
}

#[test]
fn test_wal_round_trip_and_truncation() {
    let r1 = LogRecord::new(b"k1".to_vec(), b"v1".to_vec(), 1);
    let r2 = LogRecord::tombstone(b"k2".to_vec(), 2);
    let mut wal: Vec<u8> = Vec::new();
    wal.extend_from_slice(&frame_record(&r1));
    wal.extend_from_slice(&frame_record(&r2));

    let recovered = recover_records(&wal).expect("intact log must recover");
    assert_eq!(recovered.len(), 2);
    assert_eq!(recovered[0].key, b"k1".to_vec());
    assert!(recovered[1].is_deleted);

    // Cutting the last byte off must be detected as corruption.
    let cut = &wal[..wal.len() - 1];
    assert!(matches!(recover_records(cut), Err(LsmError::WalCorruption)));

    // The empty log is valid.
    assert_eq!(recover_records(&[]).unwrap().len(), 0);
}

#[test]
fn test_default_config_is_valid() {
    let config = LsmConfig::default();
    assert!(config.validate().is_ok());
}

#[test]
fn test_invalid_block_size_zero() {
    let mut config = StorageConfig::default();
    config.block_size = 0;
    let result = config.validate();
    assert!(result.is_err());
    assert!(matches!(result.unwrap_err(), LsmError::InvalidBlockSize(_)));
}

#[test]
fn test_invalid_block_size_too_large() {
    let mut config = StorageConfig::default();
    config.block_size = 2 * 1024 * 1024;
    let result = config.validate();
    assert!(result.is_err());
    assert!(matches!(result.unwrap_err(), LsmError::InvalidBlockSize(_)));
}

#[test]
fn test_invalid_cache_size_zero() {
    let mut config = StorageConfig::default();
    config.block_cache_size_mb = 0;
    let result = config.validate();
    assert!(result.is_err());
    assert!(matches!(result.unwrap_err(), LsmError::InvalidCacheSize(_)));
}

#[test]
fn test_invalid_index_interval_zero() {
    let mut config = StorageConfig::default();
    config.sparse_index_interval = 0;
    let result = config.validate();
    assert!(result.is_err());
    assert!(matches!(result.unwrap_err(), LsmError::InvalidIndexInterval(_)));
}

#[test]
fn test_invalid_bloom_rate_zero() {
    let mut config = StorageConfig::default();
    config.bloom_false_positive_rate_ppm = 0;
    let result = config.validate();
    assert!(result.is_err());
    assert!(matches!(result.unwrap_err(), LsmError::InvalidBloomRate(_)));
}

#[test]
fn test_invalid_bloom_rate_one() {
    let mut config = StorageConfig::default();
    config.bloom_false_positive_rate_ppm = 1_000_000;
    let result = config.validate();
    assert!(result.is_err());
    assert!(matches!(result.unwrap_err(), LsmError::InvalidBloomRate(_)));
}

#[test]
fn test_invalid_memtable_size_zero() {
    let mut config = CoreConfig::default();
    config.memtable_max_size = 0;
    let result = config.validate();
    assert!(result.is_err());
    assert!(matches!(result.unwrap_err(), LsmError::InvalidMemtableSize(_)));
}

#[test]
fn test_builder_with_validation() {
    let config = LsmConfig::builder()
        .dir_path("/tmp/test".to_string())
        .memtable_max_size(8 * 1024 * 1024)
        .block_size(8192)
        .block_cache_size_mb(128)
        .build();

    assert!(config.is_ok());
    let config = config.unwrap();
    assert_eq!(config.core.dir_path, "/tmp/test".to_string());
    assert_eq!(config.core.memtable_max_size, 8 * 1024 * 1024);
    assert_eq!(config.storage.block_size, 8192);
    assert_eq!(config.storage.block_cache_size_mb, 128);
}

#[test]
fn test_builder_validation_failure() {
    let result = LsmConfig::builder().block_size(0).build();

    assert!(result.is_err());
    assert!(matches!(result.unwrap_err(), LsmError::InvalidBlockSize(_)));
}

#[test]
fn test_valid_config_range() {
    let config = LsmConfig::builder()
        .block_size(256)
        .block_cache_size_mb(1)
        .sparse_index_interval(1)
        .bloom_false_positive_rate_ppm(1000)
        .build();

    assert!(config.is_ok());
}

#[test]
fn test_global_cache_basic_operations() {
    let mut cache = GlobalBlockCache::new(1, 4096);

    let key = CacheKey::new("test.sst", 0);
    let data = vec![1, 2, 3, 4, 5];

    assert!(cache.get(&key).is_none());

    cache.put(key, data.clone());
    let retrieved = cache.get(&key).unwrap();
    assert_eq!(retrieved, data);
}

#[test]
fn test_global_cache_arc_sharing() {
    let mut cache = GlobalBlockCache::new(1, 4096);

    let key = CacheKey::new("test.sst", 0);
    let data = vec![1, 2, 3, 4, 5];

    cache.put(key, data.clone());

    let ref1 = cache.get(&key).unwrap();
    let ref2 = cache.get(&key).unwrap();

    assert_eq!(ref1, ref2);
    assert_eq!(ref1, data);
}

#[test]
fn test_global_cache_capacity() {
    let cache = GlobalBlockCache::new(1, 4096);

    let stats = cache.stats();
    assert_eq!(stats.len, 0);
    assert!(stats.cap > 0);
    assert_eq!(stats.cap, (1 * 1024 * 1024) / 4096);
}

#[test]
fn test_global_cache_lru_eviction() {
    // A cache that can hold only two blocks.
    let mut cache = GlobalBlockCache::new(1, 512 * 1024);

    let key1 = CacheKey::new("test1.sst", 0);
    let key2 = CacheKey::new("test2.sst", 0);
    let key3 = CacheKey::new("test3.sst", 0);

    let data = vec![0u8; 1024];

    cache.put(key1, data.clone());
    cache.put(key2, data.clone());

    assert!(cache.get(&key1).is_some());
    assert!(cache.get(&key2).is_some());

    cache.put(key3, data.clone());

    let stats = cache.stats();
    assert!(stats.len <= stats.cap);
}

#[test]
fn test_global_cache_clear() {
    let mut cache = GlobalBlockCache::new(1, 4096);

    let key1 = CacheKey::new("test1.sst", 0);
    let key2 = CacheKey::new("test2.sst", 0);

    cache.put(key1, vec![1, 2, 3]);
    cache.put(key2, vec![4, 5, 6]);

    assert_eq!(cache.stats().len, 2);

    cache.clear();

    assert_eq!(cache.stats().len, 0);
    assert!(cache.get(&key1).is_none());
    assert!(cache.get(&key2).is_none());
}

#[test]
fn test_global_cache_update_existing_key() {
    let mut cache = GlobalBlockCache::new(1, 4096);

    let key = CacheKey::new("test.sst", 0);

    cache.put(key, vec![1, 2, 3]);
    let first = cache.get(&key).unwrap();
    assert_eq!(first, vec![1, 2, 3]);

    cache.put(key, vec![4, 5, 6]);
    let second = cache.get(&key).unwrap();
    assert_eq!(second, vec![4, 5, 6]);

    assert_eq!(cache.stats().len, 1);
}

#[test]
fn test_global_cache_multiple_files_same_offset() {
    let mut cache = GlobalBlockCache::new(1, 4096);

    let key1 = CacheKey::new("/data/file1.sst", 0);
    let key2 = CacheKey::new("/data/file2.sst", 0);

    cache.put(key1, vec![1, 1, 1]);
    cache.put(key2, vec![2, 2, 2]);

    let data1 = cache.get(&key1).unwrap();
    let data2 = cache.get(&key2).unwrap();

    assert_eq!(data1, vec![1, 1, 1]);
    assert_eq!(data2, vec![2, 2, 2]);

    assert_eq!(cache.stats().len, 2);
}
