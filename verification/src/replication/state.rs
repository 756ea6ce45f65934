//! Replica state: how far this replica has synced.
//!
//! `last_synced_segment` only ever moves forward; an attempt to apply a
//! segment at or below it is rejected.  The state is persisted as JSON by
//! the embedding process (written to a temp file and renamed).

use vstd::prelude::*;
use vstd::string::StringExecFns;
use crate::clock::now_secs;
use crate::error::StorageError;
use crate::numfmt::{fmt_u64, spec_decimal};

verus! {

/// Persistent state of a replica node.
#[derive(Debug, Clone)]
pub struct ReplicaState {
    /// Stable identifier of this replica.
    pub replica_id: String,
    /// Address of the leader.
    pub leader_addr: String,
    /// Largest segment whose entries are fully applied locally.
    pub last_synced_segment: u64,
    /// The leader's active segment, as last learned in a handshake.
    pub leader_current_segment: u64,
    /// When the last successful sync happened (seconds since the epoch).
    pub last_sync_time: u64,
    /// Lifetime number of segments applied.
    pub total_segments_synced: u64,
    /// Lifetime number of entries applied.
    pub total_entries_applied: u64,
}

impl ReplicaState {
    /// A fresh state: nothing synced yet.
    pub fn new(replica_id: String, leader_addr: String) -> (s: ReplicaState)
        ensures
            s.replica_id@ == replica_id@,
            s.leader_addr@ == leader_addr@,
            s.last_synced_segment == 0,
            s.leader_current_segment == 0,
            s.total_segments_synced == 0,
            s.total_entries_applied == 0,
    {
        ReplicaState {
            replica_id,
            leader_addr,
            last_synced_segment: 0,
            leader_current_segment: 0,
            last_sync_time: now_secs(),
            total_segments_synced: 0,
            total_entries_applied: 0,
        }
    }

    /// Take the state read back from disk if there is one, else start
    /// fresh under the given identity.
    pub fn load_or_create(
        saved: Option<ReplicaState>,
        replica_id: String,
        leader_addr: String,
    ) -> (s: ReplicaState)
        ensures
            saved matches Some(prior) ==> s == prior,
            saved is None ==> s.last_synced_segment == 0 && s.replica_id@ == replica_id@
                && s.leader_addr@ == leader_addr@,
    {
        match saved {
            Some(prior) => prior,
            None => ReplicaState::new(replica_id, leader_addr),
        }
    }

    /// Record a successfully applied segment.  The segment number must
    /// strictly advance: applying a segment twice, or out of order, is
    /// rejected and changes nothing.  `last_synced_segment` never goes
    /// down.
    pub fn update_synced_segment(&mut self, segment_number: u64, entries_count: u64) -> (r: Result<
        (),
        StorageError,
    >)
        ensures
            r is Ok <==> segment_number > old(self).last_synced_segment,
            r is Ok ==> final(self).last_synced_segment == segment_number,
            r is Ok ==> final(self).total_segments_synced == (if old(self).total_segments_synced
                < u64::MAX {
                old(self).total_segments_synced + 1
            } else {
                u64::MAX as int
            }),
            r is Ok ==> final(self).total_entries_applied == (if old(self).total_entries_applied
                + entries_count <= u64::MAX {
                old(self).total_entries_applied + entries_count
            } else {
                u64::MAX as int
            }),
            r is Err ==> *final(self) == *old(self),
            final(self).last_synced_segment >= old(self).last_synced_segment,
            final(self).replica_id == old(self).replica_id,
            final(self).leader_addr == old(self).leader_addr,
            final(self).leader_current_segment == old(self).leader_current_segment,
    {
        if segment_number <= self.last_synced_segment {
            return Err(
                StorageError::InvalidFormat(
                    String::from_str("segment number must strictly advance"),
                ),
            );
        }
        self.last_synced_segment = segment_number;
        self.last_sync_time = now_secs();
        if self.total_segments_synced < u64::MAX {
            self.total_segments_synced = self.total_segments_synced + 1;
        }
        if self.total_entries_applied <= u64::MAX - entries_count {
            self.total_entries_applied = self.total_entries_applied + entries_count;
        } else {
            self.total_entries_applied = u64::MAX;
        }
        Ok(())
    }

    /// The next segment this replica wants.
    pub fn next_segment_to_sync(&self) -> (r: u64)
        ensures
            r == if self.last_synced_segment < u64::MAX {
                self.last_synced_segment + 1
            } else {
                u64::MAX as int
            },
    {
        if self.last_synced_segment < u64::MAX {
            self.last_synced_segment + 1
        } else {
            u64::MAX
        }
    }

    /// Stale at `now`: the last sync is older than the threshold.
    pub fn is_stale_at(&self, now: u64, threshold_seconds: u64) -> (r: bool)
        ensures
            r == (now >= self.last_sync_time && now - self.last_sync_time > threshold_seconds),
    {
        now >= self.last_sync_time && now - self.last_sync_time > threshold_seconds
    }

    /// Stale by the wall clock.
    pub fn is_stale(&self, threshold_seconds: u64) -> bool {
        self.is_stale_at(now_secs(), threshold_seconds)
    }

    /// A human-readable status of this replica.
    pub fn status(&self) -> (r: String)
        ensures
            (exists|age: int|
                0 <= age && r@ == "Replica: "@ + self.replica_id@ + "\nLeader: "@
                    + self.leader_addr@ + "\nLast Synced Segment: "@ + spec_decimal(
                    self.last_synced_segment as int,
                ) + "\nLast Sync: "@ + spec_decimal(age) + " seconds ago\nTotal Segments: "@
                    + spec_decimal(self.total_segments_synced as int) + "\nTotal Entries: "@
                    + spec_decimal(self.total_entries_applied as int)),
    {
        let now = now_secs();
        let age = if now >= self.last_sync_time {
            now - self.last_sync_time
        } else {
            0
        };
        let mut out = String::from_str("Replica: ");
        out.append(self.replica_id.as_str());
        out.append("\nLeader: ");
        out.append(self.leader_addr.as_str());
        out.append("\nLast Synced Segment: ");
        let seg = fmt_u64(self.last_synced_segment);
        out.append(seg.as_str());
        out.append("\nLast Sync: ");
        let age_s = fmt_u64(age);
        out.append(age_s.as_str());
        out.append(" seconds ago\nTotal Segments: ");
        let segs = fmt_u64(self.total_segments_synced);
        out.append(segs.as_str());
        out.append("\nTotal Entries: ");
        let entries = fmt_u64(self.total_entries_applied);
        out.append(entries.as_str());
        proof {
            assert(out@ =~= "Replica: "@ + self.replica_id@ + "\nLeader: "@ + self.leader_addr@
                + "\nLast Synced Segment: "@ + spec_decimal(self.last_synced_segment as int)
                + "\nLast Sync: "@ + spec_decimal(age as int) + " seconds ago\nTotal Segments: "@
                + spec_decimal(self.total_segments_synced as int) + "\nTotal Entries: "@
                + spec_decimal(self.total_entries_applied as int));
        }
        out
    }

    /// The state as a JSON object, in a fixed field order; the embedding
    /// process writes it to `replica_state.json` via a temp file and an
    /// atomic rename.
    pub fn to_json(&self) -> (r: String)
        ensures
            r@ == "{\n  \"replica_id\": \""@ + self.replica_id@ + "\",\n  \"leader_addr\": \""@
                + self.leader_addr@ + "\",\n  \"last_synced_segment\": "@ + spec_decimal(
                self.last_synced_segment as int,
            ) + ",\n  \"leader_current_segment\": "@ + spec_decimal(
                self.leader_current_segment as int,
            ) + ",\n  \"last_sync_time\": "@ + spec_decimal(self.last_sync_time as int)
                + ",\n  \"total_segments_synced\": "@ + spec_decimal(
                self.total_segments_synced as int,
            ) + ",\n  \"total_entries_applied\": "@ + spec_decimal(
                self.total_entries_applied as int,
            ) + "\n}\n"@,
    {
        let mut out = String::from_str("{\n  \"replica_id\": \"");
        out.append(self.replica_id.as_str());
        out.append("\",\n  \"leader_addr\": \"");
        out.append(self.leader_addr.as_str());
        out.append("\",\n  \"last_synced_segment\": ");
        let seg = fmt_u64(self.last_synced_segment);
        out.append(seg.as_str());
        out.append(",\n  \"leader_current_segment\": ");
        let cur = fmt_u64(self.leader_current_segment);
        out.append(cur.as_str());
        out.append(",\n  \"last_sync_time\": ");
        let t = fmt_u64(self.last_sync_time);
        out.append(t.as_str());
        out.append(",\n  \"total_segments_synced\": ");
        let segs = fmt_u64(self.total_segments_synced);
        out.append(segs.as_str());
        out.append(",\n  \"total_entries_applied\": ");
        let entries = fmt_u64(self.total_entries_applied);
        out.append(entries.as_str());
        out.append("\n}\n");
        proof {
            assert(out@ =~= "{\n  \"replica_id\": \""@ + self.replica_id@
                + "\",\n  \"leader_addr\": \""@ + self.leader_addr@
                + "\",\n  \"last_synced_segment\": "@ + spec_decimal(
                self.last_synced_segment as int,
            ) + ",\n  \"leader_current_segment\": "@ + spec_decimal(
                self.leader_current_segment as int,
            ) + ",\n  \"last_sync_time\": "@ + spec_decimal(self.last_sync_time as int)
                + ",\n  \"total_segments_synced\": "@ + spec_decimal(
                self.total_segments_synced as int,
            ) + ",\n  \"total_entries_applied\": "@ + spec_decimal(
                self.total_entries_applied as int,
            ) + "\n}\n"@);
        }
        out
    }
}

} // verus!
