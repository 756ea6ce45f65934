use cityhall::replication::leader::ConnectionHandler;
use cityhall::replication::protocol::{SyncRequest, SyncResponse};
use cityhall::replication::registry::ReplicaRegistry;
use cityhall::replication::replica::{
    choose_target_segment, ConnectionState, ReplicationAgent, ReplicationConfig,
};
use cityhall::wal::Wal;
use cityhall::Entry;

fn config(connect: u64, read: u64, write: u64, interval: u64) -> ReplicationConfig {
    ReplicationConfig {
        connect_timeout_ms: connect,
        read_timeout_ms: read,
        write_timeout_ms: write,
        sync_interval_ms: interval,
    }
}

#[test]
fn test_replica_agent_creation_with_config() {
    let agent = ReplicationAgent::with_config(
        "127.0.0.1:7879".to_string(),
        "test-replica".to_string(),
        None,
        config(10000, 60000, 20000, 3000),
    );

    assert_eq!(agent.config.connect_timeout_ms, 10000);
    assert_eq!(agent.config.sync_interval_ms, 3000);
    assert_eq!(agent.connection_state, ConnectionState::Disconnected);
    assert_eq!(agent.consecutive_failures, 0);
}

#[test]
fn test_connection_state_tracking() {
    let mut agent = ReplicationAgent::new(
        "127.0.0.1:7879".to_string(),
        "test-replica".to_string(),
        None,
    );

    assert_eq!(agent.connection_state(), ConnectionState::Disconnected);
    assert!(agent.is_healthy());

    for i in 1..=5 {
        agent.consecutive_failures = i;
        assert!(agent.is_healthy());
    }

    agent.consecutive_failures = agent.max_consecutive_failures;
    agent.connection_state = ConnectionState::Unhealthy;
    assert!(!agent.is_healthy());
    assert_eq!(agent.connection_state(), ConnectionState::Unhealthy);
}

#[test]
fn test_backoff_reset_on_success() {
    let mut agent = ReplicationAgent::new(
        "127.0.0.1:7879".to_string(),
        "test-replica".to_string(),
        None,
    );

    agent.backoff.next();
    agent.backoff.next();
    agent.consecutive_failures = 2;

    assert!(agent.backoff_attempts() > 0);

    agent.on_sync_success();

    assert_eq!(agent.backoff_attempts(), 0);
    assert_eq!(agent.consecutive_failures, 0);
    assert_eq!(agent.connection_state, ConnectionState::Connected);
}

#[test]
fn test_default_config() {
    let config: ReplicationConfig = Default::default();

    assert_eq!(config.connect_timeout_ms, 5000);
    assert_eq!(config.read_timeout_ms, 30000);
    assert_eq!(config.write_timeout_ms, 10000);
    assert_eq!(config.sync_interval_ms, 5000);
}

#[test]
fn test_target_selection_advances_past_deleted_segments() {
    // The replica wants segment 1, but 1 and 2 were deleted: it advances
    // to the oldest available segment instead of failing.
    let available = vec![3u64, 4, 5];
    assert_eq!(choose_target_segment(0, &available), Some(3));

    // The wanted segment is available.
    assert_eq!(choose_target_segment(2, &available), Some(3));
    assert_eq!(choose_target_segment(3, &available), Some(4));

    // Ahead of the closed set: nothing to do.
    assert_eq!(choose_target_segment(5, &available), None);
    assert_eq!(choose_target_segment(9, &available), None);

    // No closed segments yet.
    assert_eq!(choose_target_segment(0, &Vec::new()), None);
}

#[test]
fn test_apply_segment_rejects_replay() {
    let mut agent = ReplicationAgent::new(
        "127.0.0.1:7879".to_string(),
        "replay-replica".to_string(),
        None,
    );
    let mut wal = Wal::new(1024);
    let entries = vec![Entry { key: b"k".to_vec(), value: b"v".to_vec(), timestamp: 1 }];

    assert!(agent.apply_segment(&mut wal, 1, &entries).is_ok());
    assert_eq!(agent.state.last_synced_segment, 1);

    // The same segment again: rejected, the floor does not regress.
    assert!(agent.apply_segment(&mut wal, 1, &entries).is_err());
    assert_eq!(agent.state.last_synced_segment, 1);
}

#[test]
fn test_tombstones_replicate_as_deletes() {
    let mut agent = ReplicationAgent::new(
        "127.0.0.1:7879".to_string(),
        "tombstone-replica".to_string(),
        None,
    );
    let mut wal = Wal::new(1024);
    let entries = vec![
        Entry { key: b"alive".to_vec(), value: b"v".to_vec(), timestamp: 1 },
        Entry { key: b"gone".to_vec(), value: Vec::new(), timestamp: 2 },
    ];

    agent.apply_segment(&mut wal, 1, &entries).unwrap();
    wal.flush().unwrap();

    let files = wal.export_files();
    let recovered = Wal::recover(&files);
    assert_eq!(recovered.len(), 2);
    assert_eq!(recovered[0].key, b"alive");
    assert_eq!(recovered[1].key, b"gone");
    assert_eq!(recovered[1].value.len(), 0);
}

#[test]
fn test_leader_handshake_discipline() {
    let wal = Wal::new(1024);
    let mut registry = ReplicaRegistry::new();
    let mut handler = ConnectionHandler::new("leader-main".to_string(), "peer:1".to_string());

    // A request before the handshake draws an error.
    let early = handler.handle_request(&wal, &mut registry, SyncRequest::ListSegments);
    assert!(matches!(early, SyncResponse::Error { .. }));

    // The handshake answers with the leader id and active segment.
    let ack = handler.handle_request(
        &wal,
        &mut registry,
        SyncRequest::Handshake { replica_id: "r1".to_string(), last_synced_segment: 0 },
    );
    match ack {
        SyncResponse::HandshakeAck { leader_id, current_segment } => {
            assert_eq!(leader_id, "leader-main");
            assert_eq!(current_segment, 1);
        }
        _ => panic!("Expected HandshakeAck"),
    }

    // A second handshake on the same connection draws an error.
    let twice = handler.handle_request(
        &wal,
        &mut registry,
        SyncRequest::Handshake { replica_id: "r1".to_string(), last_synced_segment: 0 },
    );
    assert!(matches!(twice, SyncResponse::Error { .. }));

    assert_eq!(registry.connected_count(), 1);
}

#[test]
fn test_replica_catches_up_through_leader_segments() {
    // The leader produces closed segments 1..=5 and deletes 1 and 2; a
    // fresh replica discovers 3 as the oldest, advances to it, and then
    // walks 4 and 5 until nothing is left to pull.
    let mut leader_wal = Wal::new(64);
    leader_wal.set_segment_size_limit(96);
    for i in 0..20u64 {
        let e = Entry {
            key: format!("key_{:02}", i).into_bytes(),
            value: vec![0u8; 80],
            timestamp: 100 + i,
        };
        leader_wal.append(&e).unwrap();
    }
    leader_wal.flush().unwrap();
    leader_wal.mark_flushed().unwrap();
    leader_wal.cleanup_old_segments(3).unwrap();
    let closed = leader_wal.list_closed_segments().unwrap();
    assert!(closed[0] >= 3);

    let mut registry = ReplicaRegistry::new();
    let mut handler = ConnectionHandler::new("leader-main".to_string(), "peer:2".to_string());
    let mut agent = ReplicationAgent::new(
        "127.0.0.1:7879".to_string(),
        "catchup-replica".to_string(),
        None,
    );
    let mut replica_wal = Wal::new(1024);

    let ack = handler.handle_request(
        &leader_wal,
        &mut registry,
        SyncRequest::Handshake {
            replica_id: "catchup-replica".to_string(),
            last_synced_segment: 0,
        },
    );
    match ack {
        SyncResponse::HandshakeAck { current_segment, .. } => {
            agent.on_handshake_ack(current_segment);
        }
        _ => panic!("Expected HandshakeAck"),
    }

    let mut rounds = 0;
    loop {
        let inventory =
            handler.handle_request(&leader_wal, &mut registry, SyncRequest::ListSegments);
        let segments = match inventory {
            SyncResponse::SegmentList { segments, .. } => segments,
            _ => panic!("Expected SegmentList"),
        };
        let target = match agent.next_target(&segments) {
            Some(t) => t,
            None => break,
        };
        let data = handler.handle_request(
            &leader_wal,
            &mut registry,
            SyncRequest::GetSegment { segment_number: target },
        );
        match data {
            SyncResponse::SegmentData { segment_number, entries } => {
                agent.apply_segment(&mut replica_wal, segment_number, &entries).unwrap();
                agent.on_sync_success();
            }
            _ => panic!("Expected SegmentData"),
        }
        rounds += 1;
        assert!(rounds <= 40, "catch-up should terminate");
    }

    let closed = leader_wal.list_closed_segments().unwrap();
    assert_eq!(agent.state.last_synced_segment, *closed.last().unwrap());

    // Everything the leader still served is now in the replica's WAL.
    let files = replica_wal.export_files();
    let recovered = Wal::recover(&files);
    let mut expected = 0;
    for seg in closed {
        expected += leader_wal.read_segment(seg).unwrap().len();
    }
    assert_eq!(recovered.len(), expected);
}

#[test]
fn test_mark_idle_sets_idle_state() {
    let mut registry = ReplicaRegistry::new();
    registry.register("r1".to_string(), "127.0.0.1:9".to_string(), 0);
    registry.update_segment(&"r1".to_string(), 1, 10);
    registry.mark_idle(&"r1".to_string());
    let info = registry.get(&"r1".to_string()).unwrap();
    assert_eq!(
        info.connection_state,
        cityhall::replication::registry::ConnectionState::Idle
    );
    // An offline replica stays offline.
    registry.mark_offline(&"r1".to_string());
    registry.mark_idle(&"r1".to_string());
    let info = registry.get(&"r1".to_string()).unwrap();
    assert_eq!(
        info.connection_state,
        cityhall::replication::registry::ConnectionState::Offline
    );
}
