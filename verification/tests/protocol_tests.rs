use cityhall::replication::protocol::{
    decode_request, decode_response, deframe_payload, encode_request, encode_response,
    frame_payload, SyncRequest, SyncResponse,
};
use cityhall::Entry;

#[test]
fn test_sync_request_serialization() {
    let request = SyncRequest::GetSegment { segment_number: 42 };

    let encoded = encode_request(&request).unwrap();
    assert!(encoded.len() > 0);

    let decoded = decode_request(&encoded).unwrap();
    assert_eq!(request, decoded);
}

#[test]
fn test_sync_request_list_segments() {
    let request = SyncRequest::ListSegments;

    let encoded = encode_request(&request).unwrap();
    let decoded = decode_request(&encoded).unwrap();

    assert_eq!(request, decoded);
}

#[test]
fn test_sync_request_handshake_roundtrip() {
    let request = SyncRequest::Handshake {
        replica_id: "replica-7".to_string(),
        last_synced_segment: 12,
    };
    let encoded = encode_request(&request).unwrap();
    let decoded = decode_request(&encoded).unwrap();
    assert_eq!(request, decoded);
}

#[test]
fn test_sync_response_segment_data() {
    let entries = vec![
        Entry { key: b"key1".to_vec(), value: b"value1".to_vec(), timestamp: 1000 },
        Entry { key: b"key2".to_vec(), value: b"value2".to_vec(), timestamp: 2000 },
    ];

    let response = SyncResponse::SegmentData { segment_number: 5, entries: entries.clone() };

    let encoded = encode_response(&response).unwrap();
    let decoded = decode_response(&encoded).unwrap();

    match decoded {
        SyncResponse::SegmentData { segment_number, entries: decoded_entries } => {
            assert_eq!(segment_number, 5);
            assert_eq!(decoded_entries.len(), 2);
            assert_eq!(decoded_entries[0].key, b"key1");
        }
        _ => panic!("Wrong response type"),
    }
}

#[test]
fn test_sync_response_segment_list() {
    let response = SyncResponse::SegmentList { segments: vec![1, 2, 3, 4], current_segment: 5 };

    let encoded = encode_response(&response).unwrap();
    let decoded = decode_response(&encoded).unwrap();

    match decoded {
        SyncResponse::SegmentList { segments, current_segment } => {
            assert_eq!(segments, vec![1, 2, 3, 4]);
            assert_eq!(current_segment, 5);
        }
        _ => panic!("Wrong response type"),
    }
}

#[test]
fn test_sync_response_error() {
    let response = SyncResponse::error("Test error message".to_string());

    let encoded = encode_response(&response).unwrap();
    let decoded = decode_response(&encoded).unwrap();

    match decoded {
        SyncResponse::Error { message } => {
            assert_eq!(message, "Test error message");
        }
        _ => panic!("Wrong response type"),
    }
}

#[test]
fn test_frame_roundtrip_and_cap() {
    let payload = encode_request(&SyncRequest::GetSegment { segment_number: 9 }).unwrap();
    let framed = frame_payload(payload.clone()).unwrap();
    assert_eq!(framed.len(), payload.len() + 4);

    let (out, next) = deframe_payload(&framed, 0).unwrap().unwrap();
    assert_eq!(out, payload);
    assert_eq!(next, framed.len());

    // A declared length past the cap is rejected as corruption.
    let bogus = vec![0xFF, 0xFF, 0xFF, 0xFF, 0x00];
    assert!(deframe_payload(&bogus, 0).is_err());
}

#[test]
fn test_decode_rejects_garbage() {
    let garbage = vec![9u8, 1, 2, 3];
    assert!(decode_request(&garbage).is_err());
    assert!(decode_response(&garbage).is_err());

    let truncated_handshake = vec![1u8, 200, 0];
    assert!(decode_request(&truncated_handshake).is_err());
}
