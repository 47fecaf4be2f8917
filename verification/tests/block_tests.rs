use lsm_kv_store::block::{Block, BLOCK_SIZE};

#[test]
fn test_new_block_is_empty() {
    let block = Block::new(BLOCK_SIZE);
    assert_eq!(block.len(), 0);
    assert!(block.is_empty());
    assert_eq!(block.data_size(), 0);
}

#[test]
fn test_add_single_entry() {
    let mut block = Block::new(BLOCK_SIZE);
    let key = b"test_key";
    let value = b"test_value";

    let success = block.add(key, value);
    assert!(success, "should successfully add entry");
    assert_eq!(block.len(), 1);
    assert!(!block.is_empty());
}

#[test]
fn test_add_multiple_entries() {
    let mut block = Block::new(BLOCK_SIZE);

    for i in 0..10 {
        let key = format!("key_{:03}", i);
        let value = format!("value_{:03}", i);
        let success = block.add(key.as_bytes(), value.as_bytes());
        assert!(success, "should add entry {}", i);
    }

    assert_eq!(block.len(), 10);
}

#[test]
fn test_add_until_full() {
    let mut block = Block::new(256);
    let mut added_count = 0;

    for i in 0..100 {
        let key = format!("k{}", i);
        let value = format!("v{}", i);
        if block.add(key.as_bytes(), value.as_bytes()) {
            added_count += 1;
        } else {
            break;
        }
    }

    assert!(added_count > 0, "should have added at least one entry");
    assert!(added_count < 100, "should not have added all entries (block is full)");

    let result = block.add(b"extra_key", b"extra_value");
    assert!(!result, "should reject entry when block is full");
}

#[test]
fn test_overflow_large_entry() {
    let mut block = Block::new(128);

    let large_key = vec![b'x'; 100];
    let large_value = vec![b'y'; 100];

    let result = block.add(&large_key, &large_value);
    assert!(!result, "should reject oversized entry");
    assert_eq!(block.len(), 0, "block should remain empty");
}

#[test]
fn test_encode_decode_empty_block() {
    let block = Block::new(BLOCK_SIZE);
    let encoded = block.encode();
    let decoded = Block::decode(&encoded);

    assert_eq!(decoded.len(), 0);
    assert!(decoded.is_empty());
}

#[test]
fn test_encode_decode_single_entry() {
    let mut block = Block::new(BLOCK_SIZE);
    block.add(b"key1", b"value1");

    let encoded = block.encode();
    let decoded = Block::decode(&encoded);

    assert_eq!(decoded.len(), 1);
    assert_eq!(decoded.data_size(), block.data_size());
    assert_eq!(decoded.offsets, block.offsets);
    assert_eq!(decoded.data, block.data);
}

#[test]
fn test_encode_decode_multiple_entries() {
    let mut block = Block::new(BLOCK_SIZE);

    let entries = vec![
        (b"apple" as &[u8], b"red" as &[u8]),
        (b"banana", b"yellow"),
        (b"cherry", b"red"),
        (b"date", b"brown"),
        (b"elderberry", b"purple"),
    ];

    for (key, value) in &entries {
        assert!(block.add(key, value));
    }

    let encoded = block.encode();
    let decoded = Block::decode(&encoded);

    assert_eq!(decoded.len(), entries.len());
    assert_eq!(decoded.data, block.data);
    assert_eq!(decoded.offsets, block.offsets);
}

#[test]
fn test_encode_decode_round_trip() {
    let mut block = Block::new(BLOCK_SIZE);

    for i in 0..20 {
        let key = format!("key_{:04}", i);
        let value = format!("value_{}_{}", i, "x".repeat(i % 10));
        block.add(key.as_bytes(), value.as_bytes());
    }

    let original_len = block.len();
    let original_data_size = block.data_size();

    let encoded = block.encode();
    let decoded = Block::decode(&encoded);

    assert_eq!(decoded.len(), original_len);
    assert_eq!(decoded.data_size(), original_data_size);
    assert_eq!(decoded.data, block.data);
    assert_eq!(decoded.offsets, block.offsets);
}

#[test]
fn test_block_size_calculation() {
    let mut block = Block::new(BLOCK_SIZE);

    let key = b"test";
    let value = b"data";

    let size_before = block.current_size();
    block.add(key, value);
    let size_after = block.current_size();

    let expected_increase = 2 + key.len() + 2 + value.len() + 2;
    assert_eq!(size_after - size_before, expected_increase);
}

#[test]
fn test_decode_malformed_empty_data() {
    let decoded = Block::decode(&[]);
    assert_eq!(decoded.len(), 0);
    assert!(decoded.is_empty());
}

#[test]
fn test_decode_malformed_single_byte() {
    let decoded = Block::decode(&[0xFF]);
    assert_eq!(decoded.len(), 0);
}

#[test]
fn test_large_block_utilization() {
    let mut block = Block::new(BLOCK_SIZE);
    let mut count = 0;

    loop {
        let key = format!("key_{:06}", count);
        let value = format!("value_{:06}_{}", count, "data".repeat(5));
        if !block.add(key.as_bytes(), value.as_bytes()) {
            break;
        }
        count += 1;
    }

    assert!(count > 10, "should fit many entries in a 4 KiB block");

    assert!(block.current_size() <= BLOCK_SIZE);

    let encoded = block.encode();
    let decoded = Block::decode(&encoded);
    assert_eq!(decoded.len(), count);
}

#[test]
fn test_block_get_finds_value() {
    let mut block = Block::new(BLOCK_SIZE);
    assert!(block.add(b"alpha", b"1"));
    assert!(block.add(b"beta", b"2"));
    assert_eq!(block.get(b"alpha"), Some(b"1".to_vec()));
    assert_eq!(block.get(b"beta"), Some(b"2".to_vec()));
    assert_eq!(block.get(b"gamma"), None);
}
