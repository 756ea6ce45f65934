use cityhall::wal::Wal;
use cityhall::Entry;

fn entry(key: &str, value: Vec<u8>, timestamp: u64) -> Entry {
    Entry { key: key.as_bytes().to_vec(), value, timestamp }
}

#[test]
fn test_wal_basic() {
    let mut wal = Wal::new(1024);

    let e = Entry {
        key: b"test_key".to_vec(),
        value: b"test_value".to_vec(),
        timestamp: 1234567890,
    };

    wal.append(&e).unwrap();
    wal.flush().unwrap();

    assert!(wal.size().unwrap() > 0);
}

#[test]
fn test_wal_recovery() {
    let files;
    {
        let mut wal = Wal::new(1024);

        for i in 0..100u64 {
            let e = entry(
                &format!("key_{}", i),
                format!("value_{}", i).into_bytes(),
                1000 + i,
            );
            wal.append(&e).unwrap();
        }

        wal.flush().unwrap();
        files = wal.export_files();
    }

    let entries = Wal::recover(&files);

    assert_eq!(entries.len(), 100);
    assert_eq!(entries[0].key, b"key_0");
    assert_eq!(entries[99].value, b"value_99");
}

#[test]
fn test_wal_cleanup() {
    let mut wal = Wal::new(1024);
    wal.set_segment_size_limit(50000);

    for i in 0..100u64 {
        let e = entry(&format!("key_{}", i), vec![0u8; 1000], 1000 + i);
        wal.append(&e).unwrap();
    }

    wal.flush().unwrap();

    let size_before = wal.size().unwrap();

    wal.mark_flushed().unwrap();
    wal.cleanup_old_segments(u64::MAX).unwrap();

    let size_after = wal.size().unwrap();

    assert!(
        size_after < size_before,
        "WAL should shrink after cleanup: {} >= {}",
        size_after,
        size_before
    );
}

#[test]
fn test_wal_list_closed_segments() {
    let mut wal = Wal::new(1024);
    wal.set_segment_size_limit(10000);

    let closed = wal.list_closed_segments().unwrap();
    assert_eq!(closed.len(), 0);

    for i in 0..100u64 {
        let e = entry(&format!("key_{}", i), vec![0u8; 200], 1000 + i);
        wal.append(&e).unwrap();
    }

    wal.flush().unwrap();

    let closed = wal.list_closed_segments().unwrap();
    assert!(closed.len() > 0, "Should have closed segments after rotation");

    let current = wal.current_segment_number();
    assert!(
        !closed.contains(&current),
        "Active segment should not be in closed list"
    );
}

#[test]
fn test_wal_read_specific_segment() {
    let mut wal = Wal::new(1024);
    wal.set_segment_size_limit(10000);

    for i in 0..50u64 {
        let e = entry(
            &format!("test_key_{}", i),
            format!("test_value_{}", i).into_bytes(),
            2000 + i,
        );
        wal.append(&e).unwrap();
    }

    wal.flush().unwrap();

    let closed_segments = wal.list_closed_segments().unwrap();
    if let Some(&first_segment) = closed_segments.first() {
        let entries = wal.read_segment(first_segment).unwrap();
        assert!(entries.len() > 0, "Segment should contain entries");
        assert!(entries[0].key.starts_with(b"test_key_"));
    }
}

#[test]
fn test_wal_cleanup_respects_replica_position() {
    let mut wal = Wal::new(1024);
    wal.set_segment_size_limit(3000);

    for i in 0..100u64 {
        let e = entry(&format!("key_{}", i), vec![0u8; 100], 3000 + i);
        wal.append(&e).unwrap();
    }

    wal.flush().unwrap();

    let segments_before = wal.list_closed_segments().unwrap();

    wal.mark_flushed().unwrap();

    let min_replica_segment = 3;
    wal.cleanup_old_segments(min_replica_segment).unwrap();

    let segments_after = wal.list_closed_segments().unwrap();

    assert!(
        segments_after.contains(&min_replica_segment),
        "Should keep segment {} for replica",
        min_replica_segment
    );

    for &seg in &segments_before {
        if seg < min_replica_segment {
            assert!(
                !segments_after.contains(&seg),
                "Should have deleted segment {}",
                seg
            );
        }
    }
}

#[test]
fn test_read_nonexistent_segment() {
    let wal = Wal::new(1024);

    let result = wal.read_segment(999);
    assert!(result.is_err(), "Should error on nonexistent segment");
}

#[test]
fn test_rotation_threshold_keeps_crossing_record() {
    // The record that first pushes a segment past the limit stays in the
    // old segment; the next append opens the new one.
    let mut wal = Wal::new(16);
    wal.set_segment_size_limit(64);

    let first = entry("a", vec![1u8; 64], 1);
    wal.append(&first).unwrap();
    assert_eq!(wal.current_segment_number(), 1);
    assert_eq!(wal.list_closed_segments().unwrap().len(), 0);

    let second = entry("b", vec![2u8; 4], 2);
    wal.append(&second).unwrap();
    assert_eq!(wal.current_segment_number(), 2);
    let closed = wal.list_closed_segments().unwrap();
    assert_eq!(closed, vec![1]);

    let recovered = wal.read_segment(1).unwrap();
    assert_eq!(recovered.len(), 1);
    assert_eq!(recovered[0].key, b"a");
}

#[test]
fn test_recovery_stops_at_corrupt_tail() {
    let mut wal = Wal::new(8);
    for i in 0..3u64 {
        let e = entry(&format!("k{}", i), b"v".to_vec(), i);
        wal.append(&e).unwrap();
    }
    wal.flush().unwrap();
    let mut files = wal.export_files();

    // Flip a byte in the stored checksum of the first record: replay must
    // reject the record and stop at the corruption boundary.
    let bytes = &mut files[0].1;
    bytes[0] = bytes[0].wrapping_add(1);

    let entries = Wal::recover(&files);
    assert_eq!(entries.len(), 0);
}

#[test]
fn test_wal_record_roundtrip_max_key() {
    // A key at the 65535-byte cap still fits a WAL record as long as the
    // whole payload stays under the record bound.
    let mut wal = Wal::new(1024);
    let key = vec![7u8; 65521 - 32];
    let value = vec![9u8; 32];
    let e = Entry { key: key.clone(), value: value.clone(), timestamp: 5 };
    wal.append(&e).unwrap();
    wal.flush().unwrap();

    let files = wal.export_files();
    let entries = Wal::recover(&files);
    assert_eq!(entries.len(), 1);
    assert_eq!(entries[0].key, key);
    assert_eq!(entries[0].value, value);

    // A record beyond the bound is rejected outright.
    let huge = Entry { key: vec![1u8; 60000], value: vec![1u8; 60000], timestamp: 6 };
    assert!(wal.append(&huge).is_err());
}
