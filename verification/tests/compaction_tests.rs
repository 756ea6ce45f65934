use cityhall::compaction::{compact_sstables, select_sstables_for_compaction};
use cityhall::sstable::{SsTableReader, SsTableWriter, DEFAULT_BLOCK_SIZE};

#[test]
fn test_select_sstables() {
    // Five tables in two size tiers: the four near 1000 bytes form the
    // largest tier; the outlier stays out.
    let tables = vec![(1u64, 1000u64), (2, 1100), (3, 980), (4, 40000), (5, 1050)];

    let selected = select_sstables_for_compaction(&tables, 2);
    assert!(selected.len() >= 2);
    assert!(selected.contains(&1));
    assert!(selected.contains(&2));
    assert!(selected.contains(&5));
    assert!(!selected.contains(&4));

    // No tier of four similar sizes here.
    let spread = vec![(1u64, 100u64), (2, 1000), (3, 10000), (4, 100000)];
    let none = select_sstables_for_compaction(&spread, 4);
    assert_eq!(none.len(), 0);
}

#[test]
fn test_compact_two_sstables() {
    let mut writer1 = SsTableWriter::new(1, DEFAULT_BLOCK_SIZE);
    writer1.add(&b"key1".to_vec(), &b"value1_old".to_vec(), 100).unwrap();
    writer1.add(&b"key3".to_vec(), &b"value3".to_vec(), 100).unwrap();
    let table1 = SsTableReader::open(writer1.finish());

    let mut writer2 = SsTableWriter::new(2, DEFAULT_BLOCK_SIZE);
    writer2.add(&b"key1".to_vec(), &b"value1_new".to_vec(), 200).unwrap();
    writer2.add(&b"key2".to_vec(), &b"value2".to_vec(), 200).unwrap();
    let table2 = SsTableReader::open(writer2.finish());

    let inputs = vec![table1, table2];
    let (merged, stats) = compact_sstables(&inputs, 3, DEFAULT_BLOCK_SIZE).unwrap();

    let reader = SsTableReader::open(merged);

    assert_eq!(
        reader.get(&b"key1".to_vec()).unwrap(),
        Some((b"value1_new".to_vec(), 200))
    );
    assert_eq!(
        reader.get(&b"key2".to_vec()).unwrap(),
        Some((b"value2".to_vec(), 200))
    );
    assert_eq!(
        reader.get(&b"key3".to_vec()).unwrap(),
        Some((b"value3".to_vec(), 100))
    );

    assert_eq!(stats.duplicates_removed, 1);
    assert_eq!(stats.entries_merged, 3);
}

#[test]
fn test_compaction_tie_goes_to_newest_table() {
    // Same key, same timestamp in two tables: the record of the younger
    // table wins.
    let mut writer1 = SsTableWriter::new(1, DEFAULT_BLOCK_SIZE);
    writer1.add(&b"tied".to_vec(), &b"older-table".to_vec(), 500).unwrap();
    let table1 = SsTableReader::open(writer1.finish());

    let mut writer2 = SsTableWriter::new(2, DEFAULT_BLOCK_SIZE);
    writer2.add(&b"tied".to_vec(), &b"newer-table".to_vec(), 500).unwrap();
    let table2 = SsTableReader::open(writer2.finish());

    let inputs = vec![table1, table2];
    let (merged, _stats) = compact_sstables(&inputs, 3, DEFAULT_BLOCK_SIZE).unwrap();
    let reader = SsTableReader::open(merged);

    assert_eq!(
        reader.get(&b"tied".to_vec()).unwrap(),
        Some((b"newer-table".to_vec(), 500))
    );
}

#[test]
fn test_compaction_covers_every_input_key() {
    let mut writer1 = SsTableWriter::new(1, DEFAULT_BLOCK_SIZE);
    for i in 0..20u64 {
        let key = format!("even_{:02}", i * 2).into_bytes();
        writer1.add(&key, &vec![1u8], i).unwrap();
    }
    let table1 = SsTableReader::open(writer1.finish());

    let mut writer2 = SsTableWriter::new(2, DEFAULT_BLOCK_SIZE);
    for i in 0..20u64 {
        let key = format!("odd_{:02}", i * 2 + 1).into_bytes();
        writer2.add(&key, &vec![2u8], i).unwrap();
    }
    let table2 = SsTableReader::open(writer2.finish());

    let inputs = vec![table1, table2];
    let (merged, stats) = compact_sstables(&inputs, 3, DEFAULT_BLOCK_SIZE).unwrap();
    assert_eq!(stats.entries_merged, 40);
    assert_eq!(stats.duplicates_removed, 0);

    let reader = SsTableReader::open(merged);
    for i in 0..20u64 {
        let even = format!("even_{:02}", i * 2).into_bytes();
        let odd = format!("odd_{:02}", i * 2 + 1).into_bytes();
        assert!(reader.get(&even).unwrap().is_some());
        assert!(reader.get(&odd).unwrap().is_some());
    }
}
