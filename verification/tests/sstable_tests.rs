use lsm_kv_store::config::StorageConfig;
use lsm_kv_store::builder::SstableBuilder;
use lsm_kv_store::cache::CacheKey;
use lsm_kv_store::reader::SstableReader;
use lsm_kv_store::record::LogRecord;

fn create_test_record(key: &str, value: &[u8]) -> LogRecord {
    LogRecord::new(key.as_bytes().to_vec(), value.to_vec(), 1)
}

/// Builds one run file image out of ascending (key, value) pairs.
fn build_sst(config: &StorageConfig, timestamp: u128, entries: &[(&str, Vec<u8>)]) -> Vec<u8> {
    let mut b = SstableBuilder::new(config.duplicate(), timestamp);
    for (key, value) in entries {
        b.add(key.as_bytes(), &create_test_record(key, value))
            .expect("entry should fit a block");
    }
    let (bytes, _meta) = b.finish().expect("non-empty build must finish");
    bytes
}

fn open_sst(bytes: &[u8], config: &StorageConfig, name: &str) -> SstableReader {
    let file_id = CacheKey::new(name, 0).file_id;
    SstableReader::open(bytes, config.duplicate(), file_id).expect("built image must open")
}

/// A point lookup against one run, reading block ranges from the file
/// image the way the embedding shell would.
fn sst_get(reader: &SstableReader, file: &[u8], key: &str) -> Option<LogRecord> {
    let c = reader.locate(key.as_bytes())?;
    let (offset, size, _usz) = reader.block_range(c);
    let raw = &file[offset as usize..(offset + size as u64) as usize];
    let data = reader.decompress_block(c, raw).expect("block must unpack");
    reader
        .search_block(&data, key.as_bytes())
        .expect("stored records must parse")
}

/// Every record of one run, in stored order.
fn sst_scan(reader: &SstableReader, file: &[u8]) -> Vec<(Vec<u8>, LogRecord)> {
    let mut out = Vec::new();
    for i in 0..reader.block_count() {
        let (offset, size, _usz) = reader.block_range(i);
        let raw = &file[offset as usize..(offset + size as u64) as usize];
        let data = reader.decompress_block(i, raw).expect("block must unpack");
        out.extend(reader.block_records(&data).expect("stored records must parse"));
    }
    out
}

#[test]
fn test_builder_basic() {
    let config = StorageConfig::default();
    let mut builder = SstableBuilder::new(config, 123);

    builder.add(b"key1", &create_test_record("key1", b"value1")).unwrap();
    builder.add(b"key2", &create_test_record("key2", b"value2")).unwrap();
    builder.add(b"key3", &create_test_record("key3", b"value3")).unwrap();

    let (bytes, meta) = builder.finish().unwrap();
    assert!(!bytes.is_empty());
    assert_eq!(meta.record_count, 3);
    assert_eq!(meta.timestamp, 123);
    assert_eq!(meta.min_key, b"key1".to_vec());
    assert_eq!(meta.max_key, b"key3".to_vec());
}

#[test]
fn test_builder_multiple_blocks() {
    let mut config = StorageConfig::default();
    config.block_size = 256;

    let mut builder = SstableBuilder::new(config, 456);

    for i in 0..50 {
        let key = format!("key_{:03}", i);
        let value = vec![b'x'; 20];
        builder.add(key.as_bytes(), &create_test_record(&key, &value)).unwrap();
    }

    let (bytes, meta) = builder.finish().unwrap();
    assert!(!bytes.is_empty());
    assert!(meta.blocks.len() > 1, "should have sealed multiple blocks");
}

#[test]
fn test_builder_empty_fails() {
    let config = StorageConfig::default();
    let builder = SstableBuilder::new(config, 789);
    let result = builder.finish();

    assert!(result.is_err());
}

#[test]
fn test_builder_large_entry() {
    let config = StorageConfig::default();
    let mut builder = SstableBuilder::new(config, 999);

    let large_value = vec![b'x'; 1000];
    builder.add(b"large_key", &create_test_record("large_key", &large_value)).unwrap();

    let result = builder.finish();
    assert!(result.is_ok());
}

#[test]
fn test_builder_rejects_oversized_entry() {
    let mut config = StorageConfig::default();
    config.block_size = 256;
    let mut builder = SstableBuilder::new(config, 1000);

    // A value as large as a whole block cannot fit any block.
    let huge_value = vec![b'x'; 256];
    let r = builder.add(b"big", &create_test_record("big", &huge_value));
    assert!(r.is_err(), "an entry larger than a block must be rejected");
}

#[test]
fn test_sstable_v2_roundtrip_small() {
    let config = StorageConfig::default();
    let test_data: Vec<_> =
        (0..10).map(|i| (format!("key_{:04}", i), format!("value_{:04}", i))).collect();
    let entries: Vec<(&str, Vec<u8>)> =
        test_data.iter().map(|(k, v)| (k.as_str(), v.as_bytes().to_vec())).collect();

    let bytes = build_sst(&config, 123, &entries);
    let reader = open_sst(&bytes, &config, "roundtrip_small.sst");

    for (key, expected_value) in &test_data {
        let record = sst_get(&reader, &bytes, key).expect("key should exist");
        assert_eq!(record.value, expected_value.as_bytes());
    }

    assert!(sst_get(&reader, &bytes, "missing_key").is_none());
}

#[test]
fn test_sstable_v2_roundtrip_large() {
    let config = StorageConfig::default();
    let test_data: Vec<_> =
        (0..1000).map(|i| (format!("key_{:06}", i), format!("value_{:06}", i))).collect();
    let entries: Vec<(&str, Vec<u8>)> =
        test_data.iter().map(|(k, v)| (k.as_str(), v.as_bytes().to_vec())).collect();

    let bytes = build_sst(&config, 456, &entries);
    let reader = open_sst(&bytes, &config, "roundtrip_large.sst");

    for (key, expected_value) in &test_data {
        let record = sst_get(&reader, &bytes, key).expect("key should exist");
        assert_eq!(record.value, expected_value.as_bytes());
    }
}

#[test]
fn test_sstable_v2_multiple_blocks() {
    let mut config = StorageConfig::default();
    config.block_size = 512;

    let mut entries: Vec<(String, Vec<u8>)> = Vec::new();
    for i in 0..100 {
        entries.push((format!("key_{:04}", i), vec![b'x'; 50]));
    }
    let borrowed: Vec<(&str, Vec<u8>)> =
        entries.iter().map(|(k, v)| (k.as_str(), v.clone())).collect();

    let bytes = build_sst(&config, 789, &borrowed);
    let reader = open_sst(&bytes, &config, "multi_block.sst");

    assert!(reader.meta.blocks.len() > 1, "should have multiple blocks");

    for i in 0..100 {
        let key = format!("key_{:04}", i);
        assert!(sst_get(&reader, &bytes, &key).is_some(), "key {} should exist", key);
    }
}

#[test]
fn test_sstable_v2_bloom_filter_effectiveness() {
    let config = StorageConfig::default();
    let mut entries: Vec<(String, Vec<u8>)> = Vec::new();
    for i in 0..500 {
        entries.push((format!("existing_key_{:04}", i), b"value".to_vec()));
    }
    let borrowed: Vec<(&str, Vec<u8>)> =
        entries.iter().map(|(k, v)| (k.as_str(), v.clone())).collect();

    let bytes = build_sst(&config, 999, &borrowed);
    let reader = open_sst(&bytes, &config, "bloom_test.sst");

    for i in 0..500 {
        let key = format!("existing_key_{:04}", i);
        assert!(reader.might_contain(key.as_bytes()), "existing key should pass the filter");
    }

    let false_positives = (1000..1500)
        .filter(|i| reader.might_contain(format!("nonexistent_{}", i).as_bytes()))
        .count();

    assert!(false_positives < 10, "too many false positives: {}", false_positives);
}

#[test]
fn test_sstable_v2_boundary_keys() {
    let config = StorageConfig::default();
    let entries: Vec<(&str, Vec<u8>)> = vec![
        ("aaa", b"first".to_vec()),
        ("mmm", b"middle".to_vec()),
        ("zzz", b"last".to_vec()),
    ];

    let bytes = build_sst(&config, 111, &entries);
    let reader = open_sst(&bytes, &config, "boundary.sst");

    assert!(sst_get(&reader, &bytes, "aaa").is_some(), "first key should exist");
    assert!(sst_get(&reader, &bytes, "zzz").is_some(), "last key should exist");

    assert!(sst_get(&reader, &bytes, "000").is_none(), "key before first should not exist");
    assert!(sst_get(&reader, &bytes, "aa").is_none(), "key before first should not exist");

    assert!(sst_get(&reader, &bytes, "zzzz").is_none(), "key after last should not exist");

    assert!(sst_get(&reader, &bytes, "bbb").is_none(), "non-existent key should not exist");
    assert!(sst_get(&reader, &bytes, "mmm").is_some(), "middle key should exist");
}

#[test]
fn test_sstable_v2_scan() {
    let config = StorageConfig::default();
    let test_keys = vec!["apple", "banana", "cherry", "date", "elderberry"];
    let entries: Vec<(&str, Vec<u8>)> = test_keys
        .iter()
        .map(|k| (*k, format!("{}_value", k).into_bytes()))
        .collect();

    let bytes = build_sst(&config, 222, &entries);
    let reader = open_sst(&bytes, &config, "scan_test.sst");
    let records = sst_scan(&reader, &bytes);

    assert_eq!(records.len(), test_keys.len(), "should scan all records");

    for (i, key) in test_keys.iter().enumerate() {
        assert_eq!(records[i].0, key.as_bytes(), "key order should be preserved");
    }
}

#[test]
fn test_sstable_v2_large_values() {
    let mut config = StorageConfig::default();
    config.block_size = 16384;

    let large_value = vec![b'x'; 8000];
    let mut entries: Vec<(String, Vec<u8>)> = Vec::new();
    for i in 0..10 {
        entries.push((format!("key_{}", i), large_value.clone()));
    }
    let borrowed: Vec<(&str, Vec<u8>)> =
        entries.iter().map(|(k, v)| (k.as_str(), v.clone())).collect();

    let bytes = build_sst(&config, 333, &borrowed);
    let reader = open_sst(&bytes, &config, "large_values.sst");

    for i in 0..10 {
        let key = format!("key_{}", i);
        let record = sst_get(&reader, &bytes, &key).expect("key should exist");
        assert_eq!(record.value.len(), 8000, "value size should be 8 KB");
        assert_eq!(record.value, large_value, "value content should match");
    }
}

#[test]
fn test_sstable_v2_empty_key() {
    let config = StorageConfig::default();
    let entries: Vec<(&str, Vec<u8>)> =
        vec![("", b"empty_key_value".to_vec()), ("normal_key", b"normal_value".to_vec())];

    let bytes = build_sst(&config, 555, &entries);
    let reader = open_sst(&bytes, &config, "empty_key.sst");

    let record = sst_get(&reader, &bytes, "").expect("empty key should exist");
    assert_eq!(record.value, b"empty_key_value");

    let record = sst_get(&reader, &bytes, "normal_key").expect("normal key should exist");
    assert_eq!(record.value, b"normal_value");
}

#[test]
fn test_sstable_v2_unicode_keys() {
    let config = StorageConfig::default();
    let mut unicode_keys = vec!["hello", "こんにちは", "你好", "مرحبا", "привет"];
    unicode_keys.sort();

    let entries: Vec<(&str, Vec<u8>)> = unicode_keys
        .iter()
        .map(|k| (*k, format!("{}_value", k).into_bytes()))
        .collect();

    let bytes = build_sst(&config, 666, &entries);
    let reader = open_sst(&bytes, &config, "unicode.sst");

    for key in &unicode_keys {
        let record = sst_get(&reader, &bytes, key);
        assert!(record.is_some(), "unicode key '{}' should exist", key);
        if let Some(r) = record {
            let expected = format!("{}_value", key);
            assert_eq!(r.value, expected.as_bytes(), "value for '{}' should match", key);
        }
    }
}

#[test]
fn test_reader_invalid_magic() {
    let config = StorageConfig::default();
    let result = SstableReader::open(b"INVALID_MAGIC_BYTES_HERE", config, 1);
    assert!(result.is_err());
}

#[test]
fn test_reader_basic_roundtrip() {
    let config = StorageConfig::default();
    let entries: Vec<(&str, Vec<u8>)> = vec![
        ("key1", b"value1".to_vec()),
        ("key2", b"value2".to_vec()),
        ("key3", b"value3".to_vec()),
    ];
    let bytes = build_sst(&config, 123, &entries);
    let reader = open_sst(&bytes, &config, "test.sst");

    let record1 = sst_get(&reader, &bytes, "key1").unwrap();
    assert_eq!(record1.value, b"value1");

    let record2 = sst_get(&reader, &bytes, "key2").unwrap();
    assert_eq!(record2.value, b"value2");

    let record3 = sst_get(&reader, &bytes, "key3").unwrap();
    assert_eq!(record3.value, b"value3");

    assert!(sst_get(&reader, &bytes, "key4").is_none());
}

#[test]
fn test_reader_bloom_filter() {
    let config = StorageConfig::default();
    let mut entries: Vec<(String, Vec<u8>)> = Vec::new();
    for i in 0..100 {
        entries.push((format!("key_{:03}", i), b"value".to_vec()));
    }
    let borrowed: Vec<(&str, Vec<u8>)> =
        entries.iter().map(|(k, v)| (k.as_str(), v.clone())).collect();

    let bytes = build_sst(&config, 456, &borrowed);
    let reader = open_sst(&bytes, &config, "bloom_test.sst");

    assert!(reader.might_contain(b"key_000"));
    assert!(reader.might_contain(b"key_050"));
    assert!(reader.might_contain(b"key_099"));

    let false_positive_count = (1000..1100)
        .filter(|i| reader.might_contain(format!("nonexistent_{}", i).as_bytes()))
        .count();

    assert!(false_positive_count < 5, "too many false positives: {}", false_positive_count);
}

#[test]
fn test_reader_multiple_blocks() {
    let mut config = StorageConfig::default();
    config.block_size = 256;

    let mut entries: Vec<(String, Vec<u8>)> = Vec::new();
    for i in 0..50 {
        entries.push((format!("key_{:03}", i), vec![b'x'; 20]));
    }
    let borrowed: Vec<(&str, Vec<u8>)> =
        entries.iter().map(|(k, v)| (k.as_str(), v.clone())).collect();

    let bytes = build_sst(&config, 789, &borrowed);
    let reader = open_sst(&bytes, &config, "multi_block.sst");
    for i in 0..50 {
        let key = format!("key_{:03}", i);
        assert!(sst_get(&reader, &bytes, &key).is_some(), "key {} should exist", key);
    }
}

#[test]
fn test_reader_boundary_keys() {
    let config = StorageConfig::default();
    let entries: Vec<(&str, Vec<u8>)> = vec![
        ("aaa", b"first".to_vec()),
        ("mmm", b"middle".to_vec()),
        ("zzz", b"last".to_vec()),
    ];
    let bytes = build_sst(&config, 111, &entries);
    let reader = open_sst(&bytes, &config, "boundary.sst");

    assert!(sst_get(&reader, &bytes, "aaa").is_some(), "first key should exist");
    assert!(sst_get(&reader, &bytes, "zzz").is_some(), "last key should exist");
    assert!(sst_get(&reader, &bytes, "000").is_none(), "key before first should not exist");
    assert!(sst_get(&reader, &bytes, "aa").is_none(), "key before first should not exist");
    assert!(sst_get(&reader, &bytes, "zzzz").is_none(), "key after last should not exist");
    assert!(sst_get(&reader, &bytes, "bbb").is_none(), "non-existent key should not exist");
    assert!(sst_get(&reader, &bytes, "mmm").is_some(), "middle key should exist");
}

#[test]
fn test_reader_scan() {
    let config = StorageConfig::default();
    let test_keys = vec!["apple", "banana", "cherry"];
    let entries: Vec<(&str, Vec<u8>)> = test_keys
        .iter()
        .map(|k| (*k, format!("{}_value", k).into_bytes()))
        .collect();

    let bytes = build_sst(&config, 999, &entries);
    let reader = open_sst(&bytes, &config, "scan_test.sst");
    let records = sst_scan(&reader, &bytes);

    assert_eq!(records.len(), test_keys.len(), "should scan all records");
}

#[test]
fn test_sstable_create_and_open() {
    let config = StorageConfig::default();
    let mut entries: Vec<(String, Vec<u8>)> = Vec::new();
    for i in 0..100 {
        entries.push((format!("key_{:03}", i), format!("value_{}", i).into_bytes()));
    }
    let borrowed: Vec<(&str, Vec<u8>)> =
        entries.iter().map(|(k, v)| (k.as_str(), v.clone())).collect();

    let bytes = build_sst(&config, 12345, &borrowed);
    let reader = open_sst(&bytes, &config, "12345.sst");
    assert_eq!(reader.meta.record_count, 100);
    assert!(reader.meta.blocks.len() > 0);

    // Open the same image again, as a restart would.
    let reopened = open_sst(&bytes, &config, "12345.sst");
    assert_eq!(reopened.meta.record_count, 100);
    assert!(reopened.meta.blocks.len() > 0);

    let result = sst_get(&reopened, &bytes, "key_050").unwrap();
    assert_eq!(result.key, b"key_050");

    assert!(sst_get(&reopened, &bytes, "key_999").is_none());
}

#[test]
fn test_sparse_index_edge_cases() {
    let config = StorageConfig::default();
    let entries: Vec<(&str, Vec<u8>)> = vec![
        ("apple", b"a".to_vec()),
        ("banana", b"b".to_vec()),
        ("cherry", b"c".to_vec()),
    ];
    let bytes = build_sst(&config, 67890, &entries);
    let reader = open_sst(&bytes, &config, "67890.sst");

    assert!(sst_get(&reader, &bytes, "aardvark").is_none());
    assert!(sst_get(&reader, &bytes, "apple").is_some());
    assert!(sst_get(&reader, &bytes, "zebra").is_none());
    assert!(sst_get(&reader, &bytes, "banana").is_some());
}
