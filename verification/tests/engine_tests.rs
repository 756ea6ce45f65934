use cityhall::storage_engine::{DataDir, StorageEngine};

fn fresh_engine(memtable_max_size: usize) -> StorageEngine {
    StorageEngine::new(DataDir::new(), memtable_max_size).unwrap()
}

#[test]
fn test_basic_put_and_get() {
    let mut engine = fresh_engine(1024 * 1024);

    engine.put(b"key1".to_vec(), b"value1".to_vec()).unwrap();
    engine.put(b"key2".to_vec(), b"value2".to_vec()).unwrap();
    engine.put(b"key3".to_vec(), b"value3".to_vec()).unwrap();

    assert_eq!(engine.get(&b"key1".to_vec()).unwrap(), Some(b"value1".to_vec()));
    assert_eq!(engine.get(&b"key2".to_vec()).unwrap(), Some(b"value2".to_vec()));
    assert_eq!(engine.get(&b"key3".to_vec()).unwrap(), Some(b"value3".to_vec()));
    assert_eq!(engine.get(&b"nonexistent".to_vec()).unwrap(), None);
}

#[test]
fn test_overwrite() {
    let mut engine = fresh_engine(1024 * 1024);

    engine.put(b"key".to_vec(), b"value1".to_vec()).unwrap();
    assert_eq!(engine.get(&b"key".to_vec()).unwrap(), Some(b"value1".to_vec()));

    engine.put(b"key".to_vec(), b"value2".to_vec()).unwrap();
    assert_eq!(engine.get(&b"key".to_vec()).unwrap(), Some(b"value2".to_vec()));
}

#[test]
fn test_crash_recovery() {
    let dir;
    {
        let mut engine = fresh_engine(1024 * 1024);

        engine.put(b"key1".to_vec(), b"value1".to_vec()).unwrap();
        engine.put(b"key2".to_vec(), b"value2".to_vec()).unwrap();
        engine.put(b"key3".to_vec(), b"value3".to_vec()).unwrap();

        dir = engine.close();
    }

    {
        let mut engine = StorageEngine::new(dir, 1024 * 1024).unwrap();

        assert_eq!(engine.get(&b"key1".to_vec()).unwrap(), Some(b"value1".to_vec()));
        assert_eq!(engine.get(&b"key2".to_vec()).unwrap(), Some(b"value2".to_vec()));
        assert_eq!(engine.get(&b"key3".to_vec()).unwrap(), Some(b"value3".to_vec()));
    }
}

#[test]
fn test_large_values() {
    let mut engine = fresh_engine(1024 * 1024);

    let large_value = vec![42u8; 32 * 1024];
    engine.put(b"large1".to_vec(), large_value.clone()).unwrap();
    engine.put(b"large2".to_vec(), large_value.clone()).unwrap();

    assert_eq!(engine.get(&b"large1".to_vec()).unwrap(), Some(large_value.clone()));
    assert_eq!(engine.get(&b"large2".to_vec()).unwrap(), Some(large_value));
}

#[test]
fn test_many_small_writes() {
    let mut engine = fresh_engine(1024 * 1024);

    for i in 0..1000 {
        let key = format!("key_{:04}", i);
        let value = format!("value_{:04}", i);
        engine.put(key.into_bytes(), value.into_bytes()).unwrap();
    }

    for i in 0..1000 {
        let key = format!("key_{:04}", i).into_bytes();
        let expected_value = format!("value_{:04}", i);
        assert_eq!(engine.get(&key).unwrap(), Some(expected_value.into_bytes()));
    }
}

#[test]
fn test_memtable_flush() {
    let mut engine = fresh_engine(10 * 1024);

    for i in 0..1000 {
        let key = format!("key_{:04}", i);
        let value = vec![0u8; 100];
        engine.put(key.into_bytes(), value).unwrap();
    }

    assert!(engine.sstable_count() >= 1, "overflow should have produced an SSTable");
    assert!(engine.get(&b"key_0999".to_vec()).unwrap().is_some());
    assert!(engine.get(&b"key_0000".to_vec()).unwrap().is_some());
}

#[test]
fn test_empty_database() {
    let mut engine = fresh_engine(1024 * 1024);

    assert_eq!(engine.get(&b"any_key".to_vec()).unwrap(), None);
}

#[test]
fn test_binary_keys_and_values() {
    let mut engine = fresh_engine(1024 * 1024);

    let binary_key = vec![0xFF, 0xFE, 0xFD, 0xFC];
    let binary_value = vec![0x00, 0x01, 0x02, 0x03, 0x04];

    engine.put(binary_key.clone(), binary_value.clone()).unwrap();
    assert_eq!(engine.get(&binary_key).unwrap(), Some(binary_value));
}

#[test]
fn test_sequential_time_series_workload() {
    let mut engine = fresh_engine(1024 * 1024);

    let base_time = std::time::SystemTime::now()
        .duration_since(std::time::SystemTime::UNIX_EPOCH)
        .unwrap()
        .as_secs();

    for i in 0..100 {
        let timestamp = base_time + i;
        let key = format!("sensor_123_{}", timestamp);
        let value = format!("{{\"temp\": 25.{}, \"humidity\": 60}}", i);
        engine.put(key.into_bytes(), value.into_bytes()).unwrap();
    }

    for i in 0..100 {
        let timestamp = base_time + i;
        let key = format!("sensor_123_{}", timestamp).into_bytes();
        assert!(engine.get(&key).unwrap().is_some());
    }
}

#[test]
fn test_wal_memtable_integration() {
    let dir;
    {
        let mut engine = fresh_engine(1024 * 1024);

        for i in 0..10 {
            let key = format!("metric_{}", i);
            let value = format!("value_{}", i);
            engine.put(key.into_bytes(), value.into_bytes()).unwrap();
        }
        for i in 0..10 {
            let key = format!("metric_{}", i).into_bytes();
            let expected = format!("value_{}", i);
            assert_eq!(engine.get(&key).unwrap(), Some(expected.into_bytes()));
        }
        dir = engine.close();
    }

    {
        let mut engine = StorageEngine::new(dir, 1024 * 1024).unwrap();

        for i in 0..10 {
            let key = format!("metric_{}", i).into_bytes();
            let expected = format!("value_{}", i);
            assert_eq!(engine.get(&key).unwrap(), Some(expected.into_bytes()));
        }
    }
}

#[test]
fn test_delete_reads_as_absent_and_survives_restart() {
    let mut engine = fresh_engine(1024 * 1024);

    engine.put(b"doomed".to_vec(), b"value".to_vec()).unwrap();
    assert_eq!(engine.get(&b"doomed".to_vec()).unwrap(), Some(b"value".to_vec()));

    engine.delete(b"doomed".to_vec()).unwrap();
    assert_eq!(engine.get(&b"doomed".to_vec()).unwrap(), None);

    let dir = engine.close();
    let mut reopened = StorageEngine::new(dir, 1024 * 1024).unwrap();
    assert_eq!(reopened.get(&b"doomed".to_vec()).unwrap(), None);
}

#[test]
fn test_compaction_dedup_keeps_newest() {
    let mut engine = fresh_engine(40);

    for i in 0..10 {
        engine
            .put(b"test".to_vec(), format!("version{}", i).into_bytes())
            .unwrap();
    }

    let before = engine.sstable_count();
    assert!(before >= 4, "small memtable should have produced several tables");

    engine.force_compact().unwrap();

    assert!(engine.sstable_count() < before);
    assert_eq!(engine.get(&b"test".to_vec()).unwrap(), Some(b"version9".to_vec()));
}

#[test]
fn test_empty_scan_range_returns_empty() {
    let mut engine = fresh_engine(1024 * 1024);
    engine.put(b"b".to_vec(), b"1".to_vec()).unwrap();
    engine.put(b"c".to_vec(), b"2".to_vec()).unwrap();

    let same = engine.scan(&b"b".to_vec(), &b"b".to_vec()).unwrap();
    assert_eq!(same.len(), 0);

    let inverted = engine.scan(&b"z".to_vec(), &b"a".to_vec()).unwrap();
    assert_eq!(inverted.len(), 0);
}

#[test]
fn test_scan_resolves_newest_in_order() {
    let mut engine = fresh_engine(128);

    engine.put(b"a".to_vec(), b"old".to_vec()).unwrap();
    engine.put(b"b".to_vec(), b"keep".to_vec()).unwrap();
    engine.put(b"c".to_vec(), b"drop".to_vec()).unwrap();
    engine.put(b"a".to_vec(), b"new".to_vec()).unwrap();

    let hits = engine.scan(&b"a".to_vec(), &b"c".to_vec()).unwrap();
    assert_eq!(hits.len(), 2);
    assert_eq!(hits[0].0, b"a".to_vec());
    assert_eq!(hits[0].1, b"new".to_vec());
    assert_eq!(hits[1].0, b"b".to_vec());
    assert_eq!(hits[1].1, b"keep".to_vec());
}

#[test]
fn test_wal_retention_after_flush() {
    // Flushes mark the WAL and delete closed segments below the floor:
    // what remains is never older than the flush point.
    let mut engine = fresh_engine(512);
    engine.wal.set_segment_size_limit(256);

    for i in 0..60 {
        let key = format!("key_{:03}", i);
        engine.put(key.into_bytes(), vec![0u8; 64]).unwrap();
    }

    let flushed = engine.wal.last_flushed_segment;
    assert!(flushed > 0, "the memtable budget should have forced a flush");
    let closed = engine.wal.list_closed_segments().unwrap();
    for seg in closed {
        assert!(seg >= flushed, "segments below the flush floor must be gone");
    }
}

#[test]
fn test_engine_feeds_metrics() {
    let mut engine = StorageEngine::new(DataDir::new(), 1024 * 1024).unwrap();
    engine.put(b"a".to_vec(), b"1".to_vec()).unwrap();
    engine.put(b"b".to_vec(), b"2".to_vec()).unwrap();
    assert_eq!(engine.metrics.writes_total.get(), 2);
    assert_eq!(engine.metrics.writes_bytes.get(), 4);
    assert_eq!(engine.metrics.memtable_entries.get(), 2);
    assert_eq!(engine.get(&b"a".to_vec()).unwrap(), Some(b"1".to_vec()));
    assert_eq!(engine.get(&b"missing".to_vec()).unwrap(), None);
    assert_eq!(engine.metrics.reads_total.get(), 2);
    assert_eq!(engine.metrics.reads_hits.get(), 1);
    assert_eq!(engine.metrics.reads_misses.get(), 1);
}

#[test]
fn test_flush_feeds_metrics() {
    // A tiny memtable budget: the second put crosses it and flushes.
    let mut engine = StorageEngine::new(DataDir::new(), 32).unwrap();
    engine.put(b"k1".to_vec(), b"v1".to_vec()).unwrap();
    engine.put(b"k2".to_vec(), b"v2".to_vec()).unwrap();
    assert!(engine.metrics.flushes_total.get() >= 1);
    assert_eq!(engine.metrics.sstable_count.get(), engine.sstable_count() as u64);
    assert_eq!(engine.metrics.memtable_entries.get(), 0);
}
