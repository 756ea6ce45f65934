use cityhall::bloom::BloomFilter;
use cityhall::sstable::{SsTableReader, SsTableWriter, DEFAULT_BLOCK_SIZE};

#[test]
fn test_sstable_write_open_get_roundtrip() {
    let mut writer = SsTableWriter::new(1, DEFAULT_BLOCK_SIZE);
    writer.add(&b"alpha".to_vec(), &b"one".to_vec(), 100).unwrap();
    writer.add(&b"beta".to_vec(), &b"two".to_vec(), 200).unwrap();
    writer.add(&b"gamma".to_vec(), &b"three".to_vec(), 300).unwrap();
    let file = writer.finish();

    let reader = SsTableReader::open(file);
    assert_eq!(reader.entry_count(), 3);
    assert_eq!(
        reader.get(&b"alpha".to_vec()).unwrap(),
        Some((b"one".to_vec(), 100))
    );
    assert_eq!(
        reader.get(&b"beta".to_vec()).unwrap(),
        Some((b"two".to_vec(), 200))
    );
    assert_eq!(
        reader.get(&b"gamma".to_vec()).unwrap(),
        Some((b"three".to_vec(), 300))
    );
    assert_eq!(reader.get(&b"missing".to_vec()).unwrap(), None);
}

#[test]
fn test_sstable_blocks_do_not_straddle_records() {
    // A tiny block target: every record crosses the threshold, so each
    // block closes right after the record that crossed it.
    let mut writer = SsTableWriter::new(2, 32);
    for i in 0..20u64 {
        let key = format!("key_{:02}", i).into_bytes();
        let value = vec![3u8; 24];
        writer.add(&key, &value, i).unwrap();
    }
    let file = writer.finish();
    assert!(file.blocks.len() >= 10, "small blocks should have closed often");

    let reader = SsTableReader::open(file);
    for i in 0..20u64 {
        let key = format!("key_{:02}", i).into_bytes();
        assert_eq!(reader.get(&key).unwrap(), Some((vec![3u8; 24], i)));
    }
}

#[test]
fn test_sstable_scan_range() {
    let mut writer = SsTableWriter::new(3, DEFAULT_BLOCK_SIZE);
    for i in 0..10u64 {
        let key = format!("k{}", i).into_bytes();
        writer.add(&key, &vec![i as u8], i).unwrap();
    }
    let reader = SsTableReader::open(writer.finish());

    let mid = reader.scan(&b"k3".to_vec(), &b"k7".to_vec()).unwrap();
    assert_eq!(mid.len(), 4);
    assert_eq!(mid[0].0, b"k3".to_vec());
    assert_eq!(mid[3].0, b"k6".to_vec());

    let empty = reader.scan(&b"k7".to_vec(), &b"k3".to_vec()).unwrap();
    assert_eq!(empty.len(), 0);
}

#[test]
fn test_sstable_large_key_and_value_roundtrip() {
    // The block format carries a key at its 65535-byte cap and a large
    // value (32-bit length field) through a write/open cycle.
    let big_key = vec![11u8; 65535];
    let big_value = vec![22u8; 1 << 20];
    let mut writer = SsTableWriter::new(4, DEFAULT_BLOCK_SIZE);
    writer.add(&big_key, &big_value, 9).unwrap();
    let reader = SsTableReader::open(writer.finish());
    assert_eq!(reader.get(&big_key).unwrap(), Some((big_value, 9)));
}

#[test]
fn test_bloom_never_misses_stored_keys() {
    let mut bloom = BloomFilter::new(1000, 10);
    for i in 0..1000u64 {
        let key = format!("stored_{}", i).into_bytes();
        bloom.insert(&key);
    }
    for i in 0..1000u64 {
        let key = format!("stored_{}", i).into_bytes();
        assert!(bloom.contains(&key), "a stored key must never read as absent");
    }
}

#[test]
fn test_bloom_false_positive_rate_within_budget() {
    // 1000 inserts at a 1% target: on an independent key set the measured
    // rate stays within twice the target.
    let mut bloom = BloomFilter::new(1000, 10);
    for i in 0..1000u64 {
        let key = format!("member_{}", i).into_bytes();
        bloom.insert(&key);
    }
    let mut false_positives = 0usize;
    let probes = 10000usize;
    for i in 0..probes {
        let key = format!("outsider_{}", i).into_bytes();
        if bloom.contains(&key) {
            false_positives += 1;
        }
    }
    // 2% of 10000 probes.
    assert!(
        false_positives <= 200,
        "false positive rate too high: {}/{}",
        false_positives,
        probes
    );
}

#[test]
fn test_sstable_bloom_covers_every_key() {
    let mut writer = SsTableWriter::new(5, DEFAULT_BLOCK_SIZE);
    for i in 0..50u64 {
        let key = format!("covered_{:02}", i).into_bytes();
        writer.add(&key, &b"x".to_vec(), i).unwrap();
    }
    let reader = SsTableReader::open(writer.finish());
    for i in 0..50u64 {
        let key = format!("covered_{:02}", i).into_bytes();
        assert!(reader.might_contain(&key));
    }
}
