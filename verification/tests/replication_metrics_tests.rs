use cityhall::replication::metrics::ReplicationMetrics;

#[test]
fn test_connection_metrics() {
    let mut metrics = ReplicationMetrics::new();

    assert_eq!(metrics.connection_attempts(), 0);
    assert_eq!(metrics.connection_success_rate_percent(), 100);

    metrics.record_connection_attempt();
    metrics.record_connection_success();

    metrics.record_connection_attempt();
    metrics.record_connection_failure();

    metrics.record_connection_attempt();
    metrics.record_connection_success();

    assert_eq!(metrics.connection_attempts(), 3);
    assert_eq!(metrics.connection_successes(), 2);
    assert_eq!(metrics.connection_failures(), 1);
    // 2 of 3 attempts, about 67 percent.
    assert_eq!(metrics.connection_success_rate_percent(), 67);
}

#[test]
fn test_sync_metrics() {
    let mut metrics = ReplicationMetrics::new();

    assert_eq!(metrics.sync_attempts(), 0);
    assert_eq!(metrics.sync_success_rate_percent(), 100);

    metrics.record_sync_attempt();
    metrics.record_sync_success(100, 10240);

    metrics.record_sync_attempt();
    metrics.record_sync_success(200, 20480);

    metrics.record_sync_attempt();
    metrics.record_sync_failure();

    assert_eq!(metrics.sync_attempts(), 3);
    assert_eq!(metrics.sync_successes(), 2);
    assert_eq!(metrics.sync_failures(), 1);
    assert_eq!(metrics.sync_success_rate_percent(), 67);

    assert_eq!(metrics.total_segments_synced(), 2);
    assert_eq!(metrics.total_entries_synced(), 300);
    assert_eq!(metrics.total_bytes_synced(), 30720);
}

#[test]
fn test_data_metrics() {
    let mut metrics = ReplicationMetrics::new();

    metrics.record_sync_success(1000, 1048576);

    assert_eq!(metrics.total_segments_synced(), 1);
    assert_eq!(metrics.total_entries_synced(), 1000);
    assert_eq!(metrics.total_bytes_synced(), 1048576);
}

#[test]
fn test_metrics_report() {
    let mut metrics = ReplicationMetrics::new();

    metrics.record_connection_attempt();
    metrics.record_connection_success();

    metrics.record_sync_attempt();
    metrics.record_sync_success(500, 51200);

    let report = metrics.report();

    assert!(report.contains("Attempts: 1"));
    assert!(report.contains("Successes: 1"));
    assert!(report.contains("Success rate: 100%"));
    assert!(report.contains("Segments synced: 1"));
    assert!(report.contains("Entries synced: 500"));
}

#[test]
fn test_zero_attempts_success_rate() {
    let metrics = ReplicationMetrics::new();

    assert_eq!(metrics.connection_success_rate_percent(), 100);
    assert_eq!(metrics.sync_success_rate_percent(), 100);
}
