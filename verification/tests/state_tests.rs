use cityhall::replication::state::ReplicaState;
use std::time::{SystemTime, UNIX_EPOCH};

fn now_secs() -> u64 {
    SystemTime::now().duration_since(UNIX_EPOCH).unwrap().as_secs()
}

#[test]
fn test_state_new() {
    let state = ReplicaState::new("replica-1".to_string(), "127.0.0.1:7879".to_string());

    assert_eq!(state.replica_id, "replica-1");
    assert_eq!(state.leader_addr, "127.0.0.1:7879");
    assert_eq!(state.last_synced_segment, 0);
    assert_eq!(state.next_segment_to_sync(), 1);
}

#[test]
fn state_test_update_segment() {
    let mut state = ReplicaState::new("replica-1".to_string(), "127.0.0.1:7879".to_string());

    state.update_synced_segment(1, 50).unwrap();
    assert_eq!(state.last_synced_segment, 1);
    assert_eq!(state.total_entries_applied, 50);

    state.update_synced_segment(2, 75).unwrap();
    assert_eq!(state.last_synced_segment, 2);
    assert_eq!(state.total_entries_applied, 125);

    assert!(state.update_synced_segment(1, 10).is_err());
}

#[test]
fn state_test_is_stale() {
    let mut state = ReplicaState::new("r1".to_string(), "addr".to_string());

    assert!(!state.is_stale(60));

    state.last_sync_time = now_secs() - 120;

    assert!(state.is_stale(60));
    assert!(!state.is_stale(180));
}

#[test]
fn test_replica_state_validates_sequence() {
    let mut state = ReplicaState::new("r1".to_string(), "addr".to_string());

    assert!(state.update_synced_segment(1, 10).is_ok());
    assert!(state.update_synced_segment(2, 20).is_ok());
    assert!(state.update_synced_segment(3, 30).is_ok());

    assert!(state.update_synced_segment(2, 10).is_err());

    assert!(state.update_synced_segment(3, 10).is_err());
}

#[test]
fn test_load_or_create_prefers_saved_state() {
    let mut prior = ReplicaState::new("r1".to_string(), "addr".to_string());
    prior.update_synced_segment(3, 200).unwrap();

    let resumed = ReplicaState::load_or_create(
        Some(prior),
        "different".to_string(),
        "different".to_string(),
    );
    assert_eq!(resumed.last_synced_segment, 3);
    assert_eq!(resumed.replica_id, "r1");

    let fresh = ReplicaState::load_or_create(None, "r2".to_string(), "addr2".to_string());
    assert_eq!(fresh.last_synced_segment, 0);
    assert_eq!(fresh.replica_id, "r2");
}

#[test]
fn test_state_status_and_json() {
    let mut state = ReplicaState::new("r-status".to_string(), "10.0.0.9:7879".to_string());
    state.update_synced_segment(7, 42).unwrap();

    let status = state.status();
    assert!(status.contains("Replica: r-status"));
    assert!(status.contains("Last Synced Segment: 7"));
    assert!(status.contains("Total Entries: 42"));

    let json = state.to_json();
    assert!(json.contains("\"replica_id\": \"r-status\""));
    assert!(json.contains("\"last_synced_segment\": 7"));
    assert!(json.contains("\"total_entries_applied\": 42"));
}
