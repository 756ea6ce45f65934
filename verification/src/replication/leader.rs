//! Leader-side request handling.
//!
//! The network edge accepts connections and shuttles frames; every
//! decision — the handshake discipline, what each request is answered
//! with — is made here.  A connection is stateful: the handshake must come
//! first and must not be repeated; any other ordering draws an error
//! response.

use vstd::prelude::*;
use vstd::string::StringExecFns;
use crate::error::StorageError;
use crate::wal::{entry_models, Wal};
use super::protocol::{SyncRequest, SyncResponse};
use super::registry::ReplicaRegistry;

verus! {

/// Per-connection state of the leader's handler.
#[derive(Debug)]
pub struct ConnectionHandler {
    /// The leader's identity, echoed in the handshake acknowledgement.
    pub leader_id: String,
    /// The peer's address, recorded in the registry.
    pub remote_addr: String,
    /// Whether this connection's handshake has happened.
    pub handshake_complete: bool,
    /// The replica behind this connection, once known.
    pub replica_id: Option<String>,
}

/// How a `GetSegment` request must be answered once the handshake is
/// done: the entries of a closed, present segment; `SegmentNotFound`
/// otherwise.
pub open spec fn get_segment_answered(
    pre: ConnectionHandler,
    request: SyncRequest,
    wal: Wal,
    r: SyncResponse,
) -> bool {
    match request {
        SyncRequest::GetSegment { segment_number } => pre.handshake_complete ==> {
            &&& (wal.has_closed(segment_number) ==> (r
                matches SyncResponse::SegmentData { segment_number: s, entries } && s
                == segment_number && entries@.map_values(|e: crate::Entry| e@) == entry_models(
                wal.closed_entries(segment_number),
            )))
            &&& (!wal.has_closed(segment_number) ==> (r
                matches SyncResponse::SegmentNotFound { segment_number: s } && s
                == segment_number))
        },
        _ => true,
    }
}

/// The registry holds the replica, freshly connected, with the floor the
/// handshake named.
pub open spec fn handshake_registered(
    registry: ReplicaRegistry,
    replica_id: Seq<char>,
    last_synced_segment: u64,
) -> bool {
    exists|i: int|
        0 <= i < registry.replicas@.len() && {
            let e = #[trigger] registry.replicas@[i];
            &&& e.replica_id@ == replica_id
            &&& e.last_segment_requested == last_synced_segment
            &&& e.connection_state is Connected
        }
}

impl ConnectionHandler {
    /// A fresh handler: no handshake yet.
    pub fn new(leader_id: String, remote_addr: String) -> (h: ConnectionHandler)
        ensures
            h.leader_id@ == leader_id@,
            h.remote_addr@ == remote_addr@,
            !h.handshake_complete,
            h.replica_id is None,
    {
        ConnectionHandler { leader_id, remote_addr, handshake_complete: false, replica_id: None }
    }

    /// Answer one request.
    ///
    /// A request before the handshake, or a second handshake, draws
    /// `Error`.  A handshake registers the replica and acknowledges with
    /// the leader's identity and active segment.  `ListSegments` returns
    /// the closed inventory plus the active segment; `GetSegment` returns
    /// the segment's entries when it is closed and present, else
    /// `SegmentNotFound`.
    pub fn handle_request(
        &mut self,
        wal: &Wal,
        registry: &mut ReplicaRegistry,
        request: SyncRequest,
    ) -> (r: SyncResponse)
        requires
            wal.wf(),
            old(registry).wf(),
        ensures
            final(registry).wf(),
            !old(self).handshake_complete && !(request is Handshake) ==> r is Error && !final(self).handshake_complete,
            old(self).handshake_complete && request is Handshake ==> r is Error,
            (request matches SyncRequest::Handshake { replica_id, last_synced_segment } && !old(self).handshake_complete) ==> {
                &&& (r matches SyncResponse::HandshakeAck { leader_id, current_segment }
                    && leader_id@ == old(self).leader_id@ && current_segment
                    == wal.current.number)
                &&& final(self).handshake_complete
            },
            request matches SyncRequest::Handshake { replica_id, last_synced_segment } ==> (!old(self).handshake_complete ==> handshake_registered(
                *final(registry),
                replica_id@,
                last_synced_segment,
            )),
            get_segment_answered(*old(self), request, *wal, r),
            (request is ListSegments && old(self).handshake_complete) ==> (r
                matches SyncResponse::SegmentList { segments, current_segment } && segments@
                == wal.closed_numbers() && current_segment == wal.current.number),
    {
        match request {
            SyncRequest::Handshake { replica_id, last_synced_segment } => {
                if self.handshake_complete {
                    return SyncResponse::error(
                        String::from_str("handshake already completed on this connection"),
                    );
                }
                self.handshake_complete = true;
                self.replica_id = Some(replica_id.clone());
                registry.register(replica_id, self.remote_addr.clone(), last_synced_segment);
                SyncResponse::HandshakeAck {
                    leader_id: self.leader_id.clone(),
                    current_segment: wal.current_segment_number(),
                }
            },
            SyncRequest::GetSegment { segment_number } => {
                if !self.handshake_complete {
                    return SyncResponse::error(
                        String::from_str("request before handshake"),
                    );
                }
                if let Some(id) = &self.replica_id {
                    registry.update_segment(id, segment_number, 0);
                }
                if !wal.is_segment_available(segment_number) {
                    return SyncResponse::SegmentNotFound { segment_number };
                }
                match wal.read_segment(segment_number) {
                    Ok(entries) => SyncResponse::SegmentData { segment_number, entries },
                    Err(_) => SyncResponse::SegmentNotFound { segment_number },
                }
            },
            SyncRequest::ListSegments => {
                if !self.handshake_complete {
                    return SyncResponse::error(
                        String::from_str("request before handshake"),
                    );
                }
                match wal.list_closed_segments() {
                    Ok(segments) => SyncResponse::SegmentList {
                        segments,
                        current_segment: wal.current_segment_number(),
                    },
                    Err(e) => SyncResponse::error(e.message()),
                }
            },
        }
    }
}

} // verus!
