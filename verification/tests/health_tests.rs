use cityhall::error::StorageError;
use cityhall::replication::health::{HealthState, ReplicaHealth};
use std::time::{SystemTime, UNIX_EPOCH};

fn now_secs() -> u64 {
    SystemTime::now().duration_since(UNIX_EPOCH).unwrap().as_secs()
}

#[test]
fn test_initial_state() {
    let health = ReplicaHealth::new();

    assert_eq!(health.state(), HealthState::Healthy);
    assert!(health.is_healthy());
    assert!(health.is_operational());
    assert_eq!(health.consecutive_failures(), 0);
    assert_eq!(health.total_failures(), 0);
    assert_eq!(health.total_successes(), 0);
    assert_eq!(health.success_rate_percent(), 100);
    assert!(health.last_error().is_none());
}

#[test]
fn test_record_success() {
    let mut health = ReplicaHealth::new();

    health.record_success();

    assert_eq!(health.state(), HealthState::Healthy);
    assert_eq!(health.consecutive_failures(), 0);
    assert_eq!(health.total_successes(), 1);
    assert!(health.time_since_success().is_some());

    health.record_success();
    health.record_success();

    assert_eq!(health.total_successes(), 3);
    assert_eq!(health.success_rate_percent(), 100);
}

#[test]
fn test_state_transitions() {
    let mut health = ReplicaHealth::new();
    let error = StorageError::ConnectionFailed("test".to_string());

    assert_eq!(health.state(), HealthState::Healthy);

    health.record_failure(&error);
    assert_eq!(health.state(), HealthState::Degraded);
    assert_eq!(health.consecutive_failures(), 1);

    health.record_failure(&error);
    assert_eq!(health.state(), HealthState::Degraded);
    assert_eq!(health.consecutive_failures(), 2);

    health.record_failure(&error);
    assert_eq!(health.state(), HealthState::Unhealthy);
    assert_eq!(health.consecutive_failures(), 3);
    assert!(!health.is_healthy());
    assert!(!health.is_operational());

    health.record_success();
    assert_eq!(health.state(), HealthState::Healthy);
    assert_eq!(health.consecutive_failures(), 0);
}

#[test]
fn test_success_rate() {
    let mut health = ReplicaHealth::new();
    let error = StorageError::ConnectionFailed("test".to_string());

    health.record_success();
    health.record_success();
    health.record_success();
    health.record_failure(&error);

    assert_eq!(health.total_successes(), 3);
    assert_eq!(health.total_failures(), 1);
    assert_eq!(health.success_rate_percent(), 75);
}

#[test]
fn test_error_tracking() {
    let mut health = ReplicaHealth::new();
    let error = StorageError::Timeout("Connection timeout".to_string());

    assert!(health.last_error().is_none());

    health.record_failure(&error);

    assert!(health.last_error().is_some());
    assert!(health.last_error().unwrap().contains("timeout"));

    health.record_success();
    assert!(health.last_error().is_none());
}

#[test]
fn test_time_since_success() {
    let mut health = ReplicaHealth::new();

    assert!(health.time_since_success().is_none());

    health.record_success();

    let elapsed = health.time_since_success().unwrap();
    assert!(elapsed < 1);
}

#[test]
fn health_test_is_stale() {
    let mut health = ReplicaHealth::new();

    assert!(health.is_stale(60));

    health.record_success();
    assert!(!health.is_stale(60));

    health.last_success = Some(now_secs() - 120);

    assert!(health.is_stale(60));
}

#[test]
fn test_status_report() {
    let mut health = ReplicaHealth::new();
    let error = StorageError::ConnectionFailed("test".to_string());

    let report = health.status_report();
    assert!(report.contains("Healthy"));
    assert!(report.contains("never"));

    health.record_success();
    let report = health.status_report();
    assert!(report.contains("Healthy"));
    assert!(report.contains("ago"));

    health.record_failure(&error);
    health.record_failure(&error);
    health.record_failure(&error);

    let report = health.status_report();
    assert!(report.contains("Unhealthy"));
    assert!(report.contains("Consecutive failures: 3"));
}

#[test]
fn test_mixed_success_failure_pattern() {
    let mut health = ReplicaHealth::new();
    let error = StorageError::ConnectionFailed("test".to_string());

    health.record_success();
    health.record_success();
    health.record_failure(&error);
    health.record_success();
    health.record_failure(&error);
    health.record_failure(&error);
    health.record_success();

    assert_eq!(health.total_successes(), 4);
    assert_eq!(health.total_failures(), 3);
    assert_eq!(health.state(), HealthState::Healthy);
    assert_eq!(health.consecutive_failures(), 0);

    // 4 of 7 attempts, about 57 percent.
    assert_eq!(health.success_rate_percent(), 57);
}

#[test]
fn test_health_state_is_operational() {
    assert!(HealthState::Healthy.is_operational());
    assert!(HealthState::Degraded.is_operational());
    assert!(!HealthState::Unhealthy.is_operational());
}
