//! Counters the replication agent keeps about its own work.

use vstd::prelude::*;
use vstd::string::StringExecFns;
use crate::clock::now_secs;
use crate::metrics::rate_percent;
use crate::numfmt::fmt_u64;

verus! {

/// Connection, sync and data counters of one replication agent.
#[derive(Debug)]
pub struct ReplicationMetrics {
    pub connection_attempts: u64,
    pub connection_successes: u64,
    pub connection_failures: u64,
    pub sync_attempts: u64,
    pub sync_successes: u64,
    pub sync_failures: u64,
    pub total_segments_synced: u64,
    pub total_entries_synced: u64,
    pub total_bytes_synced: u64,
    pub last_sync_timestamp: u64,
}

/// `a + b`, capped at `u64::MAX`.
pub open spec fn sat_add(a: int, b: int) -> int {
    if a + b <= u64::MAX {
        a + b
    } else {
        u64::MAX as int
    }
}

fn bump(v: &mut u64)
    ensures
        *final(v) == sat_add(*old(v) as int, 1),
{
    if *v < u64::MAX {
        *v = *v + 1;
    }
}

impl ReplicationMetrics {
    pub fn new() -> (m: ReplicationMetrics)
        ensures
            m.connection_attempts == 0,
            m.connection_successes == 0,
            m.connection_failures == 0,
            m.sync_attempts == 0,
            m.sync_successes == 0,
            m.sync_failures == 0,
            m.total_segments_synced == 0,
            m.total_entries_synced == 0,
            m.total_bytes_synced == 0,
            m.last_sync_timestamp == 0,
    {
        ReplicationMetrics {
            connection_attempts: 0,
            connection_successes: 0,
            connection_failures: 0,
            sync_attempts: 0,
            sync_successes: 0,
            sync_failures: 0,
            total_segments_synced: 0,
            total_entries_synced: 0,
            total_bytes_synced: 0,
            last_sync_timestamp: 0,
        }
    }

    pub fn record_connection_attempt(&mut self)
        ensures
            final(self).connection_attempts == sat_add(old(self).connection_attempts as int, 1),
            *final(self) == (ReplicationMetrics {
                connection_attempts: final(self).connection_attempts,
                ..*old(self)
            }),
    {
        bump(&mut self.connection_attempts);
    }

    pub fn record_connection_success(&mut self)
        ensures
            final(self).connection_successes == sat_add(
                old(self).connection_successes as int,
                1,
            ),
            *final(self) == (ReplicationMetrics {
                connection_successes: final(self).connection_successes,
                ..*old(self)
            }),
    {
        bump(&mut self.connection_successes);
    }

    pub fn record_connection_failure(&mut self)
        ensures
            final(self).connection_failures == sat_add(old(self).connection_failures as int, 1),
            *final(self) == (ReplicationMetrics {
                connection_failures: final(self).connection_failures,
                ..*old(self)
            }),
    {
        bump(&mut self.connection_failures);
    }

    pub fn connection_attempts(&self) -> (r: u64)
        ensures
            r == self.connection_attempts,
    {
        self.connection_attempts
    }

    pub fn connection_successes(&self) -> (r: u64)
        ensures
            r == self.connection_successes,
    {
        self.connection_successes
    }

    pub fn connection_failures(&self) -> (r: u64)
        ensures
            r == self.connection_failures,
    {
        self.connection_failures
    }

    /// Share of connection attempts that succeeded, rounded percent; 100
    /// before any attempt.
    pub fn connection_success_rate_percent(&self) -> (r: u64)
        ensures
            self.connection_attempts == 0 ==> r == 100,
            0 < self.connection_attempts && self.connection_successes
                <= self.connection_attempts ==> r == (self.connection_successes * 200
                + self.connection_attempts) / (2 * self.connection_attempts),
    {
        rate_percent(self.connection_successes, self.connection_attempts, 100)
    }

    pub fn record_sync_attempt(&mut self)
        ensures
            final(self).sync_attempts == sat_add(old(self).sync_attempts as int, 1),
            *final(self) == (ReplicationMetrics {
                sync_attempts: final(self).sync_attempts,
                ..*old(self)
            }),
    {
        bump(&mut self.sync_attempts);
    }

    /// One synced segment: `entries` entries, `bytes` bytes.
    pub fn record_sync_success(&mut self, entries: u64, bytes: u64)
        ensures
            final(self).sync_successes == sat_add(old(self).sync_successes as int, 1),
            final(self).total_segments_synced == sat_add(
                old(self).total_segments_synced as int,
                1,
            ),
            final(self).total_entries_synced == sat_add(
                old(self).total_entries_synced as int,
                entries as int,
            ),
            final(self).total_bytes_synced == sat_add(
                old(self).total_bytes_synced as int,
                bytes as int,
            ),
            final(self).sync_attempts == old(self).sync_attempts,
            final(self).sync_failures == old(self).sync_failures,
            final(self).connection_attempts == old(self).connection_attempts,
            final(self).connection_successes == old(self).connection_successes,
            final(self).connection_failures == old(self).connection_failures,
    {
        bump(&mut self.sync_successes);
        bump(&mut self.total_segments_synced);
        if self.total_entries_synced <= u64::MAX - entries {
            self.total_entries_synced = self.total_entries_synced + entries;
        } else {
            self.total_entries_synced = u64::MAX;
        }
        if self.total_bytes_synced <= u64::MAX - bytes {
            self.total_bytes_synced = self.total_bytes_synced + bytes;
        } else {
            self.total_bytes_synced = u64::MAX;
        }
        self.last_sync_timestamp = now_secs();
    }

    pub fn record_sync_failure(&mut self)
        ensures
            final(self).sync_failures == sat_add(old(self).sync_failures as int, 1),
            *final(self) == (ReplicationMetrics {
                sync_failures: final(self).sync_failures,
                ..*old(self)
            }),
    {
        bump(&mut self.sync_failures);
    }

    pub fn sync_attempts(&self) -> (r: u64)
        ensures
            r == self.sync_attempts,
    {
        self.sync_attempts
    }

    pub fn sync_successes(&self) -> (r: u64)
        ensures
            r == self.sync_successes,
    {
        self.sync_successes
    }

    pub fn sync_failures(&self) -> (r: u64)
        ensures
            r == self.sync_failures,
    {
        self.sync_failures
    }

    /// Share of sync attempts that succeeded, rounded percent; 100 before
    /// any attempt.
    pub fn sync_success_rate_percent(&self) -> (r: u64)
        ensures
            self.sync_attempts == 0 ==> r == 100,
            0 < self.sync_attempts && self.sync_successes <= self.sync_attempts ==> r == (
            self.sync_successes * 200 + self.sync_attempts) / (2 * self.sync_attempts),
    {
        rate_percent(self.sync_successes, self.sync_attempts, 100)
    }

    pub fn total_segments_synced(&self) -> (r: u64)
        ensures
            r == self.total_segments_synced,
    {
        self.total_segments_synced
    }

    pub fn total_entries_synced(&self) -> (r: u64)
        ensures
            r == self.total_entries_synced,
    {
        self.total_entries_synced
    }

    pub fn total_bytes_synced(&self) -> (r: u64)
        ensures
            r == self.total_bytes_synced,
    {
        self.total_bytes_synced
    }

    pub fn last_sync_timestamp(&self) -> (r: u64)
        ensures
            r == self.last_sync_timestamp,
    {
        self.last_sync_timestamp
    }

    /// Seconds from the last successful sync to `now`; `None` before any.
    pub fn seconds_since_last_sync_at(&self, now: u64) -> (r: Option<u64>)
        ensures
            self.last_sync_timestamp == 0 ==> r is None,
            self.last_sync_timestamp > 0 ==> r == Some(
                if now >= self.last_sync_timestamp {
                    (now - self.last_sync_timestamp) as u64
                } else {
                    0u64
                },
            ),
    {
        if self.last_sync_timestamp == 0 {
            return None;
        }
        if now >= self.last_sync_timestamp {
            Some(now - self.last_sync_timestamp)
        } else {
            Some(0)
        }
    }

    /// Seconds since the last successful sync, by the wall clock.
    pub fn seconds_since_last_sync(&self) -> (r: Option<u64>)
        ensures
            self.last_sync_timestamp == 0 ==> r is None,
            self.last_sync_timestamp > 0 ==> r is Some,
    {
        self.seconds_since_last_sync_at(now_secs())
    }

    /// A human-readable report of these counters.
    pub fn report(&self) -> (r: String)
    {
        let mut out = String::from_str("=== Replication Metrics ===\nConnections:\n  Attempts: ");
        let ca = fmt_u64(self.connection_attempts);
        out.append(ca.as_str());
        out.append("\n  Successes: ");
        let cs = fmt_u64(self.connection_successes);
        out.append(cs.as_str());
        out.append("\n  Failures: ");
        let cf = fmt_u64(self.connection_failures);
        out.append(cf.as_str());
        out.append("\n  Success rate: ");
        let cr = fmt_u64(self.connection_success_rate_percent());
        out.append(cr.as_str());
        out.append("%\n\nSyncs:\n  Attempts: ");
        let sa = fmt_u64(self.sync_attempts);
        out.append(sa.as_str());
        out.append("\n  Successes: ");
        let ss = fmt_u64(self.sync_successes);
        out.append(ss.as_str());
        out.append("\n  Failures: ");
        let sf = fmt_u64(self.sync_failures);
        out.append(sf.as_str());
        out.append("\n  Success rate: ");
        let sr = fmt_u64(self.sync_success_rate_percent());
        out.append(sr.as_str());
        out.append("%\n\nData:\n  Segments synced: ");
        let segs = fmt_u64(self.total_segments_synced);
        out.append(segs.as_str());
        out.append("\n  Entries synced: ");
        let entries = fmt_u64(self.total_entries_synced);
        out.append(entries.as_str());
        out.append("\n  Bytes synced: ");
        let bytes = fmt_u64(self.total_bytes_synced);
        out.append(bytes.as_str());
        out.append("\n  Last sync: ");
        match self.seconds_since_last_sync() {
            Some(age) => {
                let age_s = fmt_u64(age);
                out.append(age_s.as_str());
                out.append(" seconds ago");
            },
            None => {
                out.append("never");
            },
        }
        out
    }
}

} // verus!
