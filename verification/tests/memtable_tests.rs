use cityhall::error::StorageError;
use cityhall::memtable::MemTable;
use cityhall::numfmt::fmt_u64;
use cityhall::replication::replica::estimate_size_kb;
use cityhall::Entry;
use cityhall::OpType;

#[test]
fn test_memtable_put_get_overwrite() {
    let mut table = MemTable::new(1024);

    table.put(b"a".to_vec(), b"1".to_vec(), 10).unwrap();
    table.put(b"b".to_vec(), b"2".to_vec(), 11).unwrap();
    assert_eq!(table.get(&b"a".to_vec()), Some(b"1".to_vec()));
    assert_eq!(table.get(&b"b".to_vec()), Some(b"2".to_vec()));
    assert_eq!(table.get(&b"c".to_vec()), None);
    assert_eq!(table.len(), 2);

    table.put(b"a".to_vec(), b"one".to_vec(), 12).unwrap();
    assert_eq!(table.get(&b"a".to_vec()), Some(b"one".to_vec()));
    assert_eq!(table.len(), 2);
}

#[test]
fn test_memtable_reports_full_at_budget() {
    let mut table = MemTable::new(64);
    // Each put accumulates key + value + 16 bytes.
    let full1 = table.put(b"k1".to_vec(), vec![0u8; 10], 1).unwrap();
    assert!(!full1);
    let full2 = table.put(b"k2".to_vec(), vec![0u8; 10], 2).unwrap();
    assert!(!full2);
    let full3 = table.put(b"k3".to_vec(), vec![0u8; 10], 3).unwrap();
    assert!(full3, "the third put crosses the 64-byte budget");
    assert!(table.size_bytes() >= 64);
}

#[test]
fn test_memtable_entries_sorted() {
    let mut table = MemTable::new(4096);
    table.put(b"pear".to_vec(), b"3".to_vec(), 3).unwrap();
    table.put(b"apple".to_vec(), b"1".to_vec(), 1).unwrap();
    table.put(b"mango".to_vec(), b"2".to_vec(), 2).unwrap();

    let rows = table.entries_with_timestamps();
    assert_eq!(rows.len(), 3);
    assert_eq!(rows[0].0, b"apple".to_vec());
    assert_eq!(rows[1].0, b"mango".to_vec());
    assert_eq!(rows[2].0, b"pear".to_vec());
}

#[test]
fn test_memtable_scan_range() {
    let mut table = MemTable::new(4096);
    for i in 0..10u64 {
        let key = format!("k{}", i).into_bytes();
        table.put(key, vec![i as u8], i).unwrap();
    }

    let mid = table.scan_with_timestamps(&b"k2".to_vec(), &b"k5".to_vec());
    assert_eq!(mid.len(), 3);
    assert_eq!(mid[0].0, b"k2".to_vec());
    assert_eq!(mid[2].0, b"k4".to_vec());

    let empty = table.scan_with_timestamps(&b"k5".to_vec(), &b"k5".to_vec());
    assert_eq!(empty.len(), 0);
}

#[test]
fn test_estimate_size_kb() {
    let entries = vec![
        Entry { key: vec![0u8; 100], value: vec![0u8; 900], timestamp: 1000 },
        Entry { key: vec![0u8; 100], value: vec![0u8; 900], timestamp: 2000 },
    ];

    let size_kb = estimate_size_kb(&entries);

    assert!(size_kb >= 1 && size_kb <= 3);
}

#[test]
fn test_fmt_u64_renders_decimal() {
    assert_eq!(fmt_u64(0), "0");
    assert_eq!(fmt_u64(7), "7");
    assert_eq!(fmt_u64(1048576), "1048576");
    assert_eq!(fmt_u64(u64::MAX), "18446744073709551615");
}

#[test]
fn test_op_type_codes() {
    assert_eq!(OpType::from_u8(1), Some(OpType::Put));
    assert_eq!(OpType::from_u8(2), Some(OpType::Delete));
    assert_eq!(OpType::from_u8(0), None);
    assert_eq!(OpType::from_u8(3), None);
    assert_eq!(OpType::Put.code(), 1);
    assert_eq!(OpType::Delete.code(), 2);
}

#[test]
fn test_error_messages_carry_their_kind() {
    let corruption = StorageError::Corruption("checksum mismatch".to_string());
    assert!(corruption.message().contains("Corrupted data"));

    let not_found = StorageError::NotFound("segment".to_string());
    assert!(not_found.message().contains("Resource not found"));

    let invalid = StorageError::InvalidFormat("bad record".to_string());
    assert!(invalid.message().contains("Invalid format"));

    let timeout = StorageError::Timeout("read".to_string());
    assert!(timeout.message().contains("Timeout"));
}

#[test]
fn test_error_messages_name_every_variant() {
    assert_eq!(StorageError::Io("x".to_string()).message(), "IO error: x");
    assert_eq!(
        StorageError::CorruptedData("x".to_string()).message(),
        "Corrupted data: x"
    );
    assert_eq!(StorageError::KeyNotFound.message(), "Key not found");
    assert_eq!(
        StorageError::ChannelSend("x".to_string()).message(),
        "Channel send error: x"
    );
    assert_eq!(
        StorageError::SystemTime("x".to_string()).message(),
        "System time error: x"
    );
    assert_eq!(StorageError::ConnectionClosed.message(), "Connection closed");
    assert_eq!(
        StorageError::LeaderError("x".to_string()).message(),
        "Leader error: x"
    );
    assert_eq!(StorageError::UnexpectedResponse.message(), "Unexpected response");
}
