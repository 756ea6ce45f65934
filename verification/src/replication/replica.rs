//! The replica agent: what to pull next, how to apply it, how to back off.
//!
//! The network edge opens connections and shuttles frames; every decision
//! is made here.  Each round the agent asks for the segment inventory,
//! picks a target — the next segment if available, the oldest available
//! one if it fell behind a deletion, nothing if it is ahead — applies the
//! entries to its local WAL, and advances its persistent state.  Failures
//! grow a backoff delay and, past the limit, mark the agent unhealthy;
//! one success heals everything.

use vstd::prelude::*;
use vstd::string::StringExecFns;
use crate::error::StorageError;
use crate::wal::Wal;
use crate::{Entry, EntryModel, OpType};
use super::backoff::ExponentialBackoff;
use super::health::ReplicaHealth;
use super::metrics::ReplicationMetrics;
use super::state::ReplicaState;

verus! {

/// Timeouts and pacing of the agent, in milliseconds.
#[derive(Debug, Clone)]
pub struct ReplicationConfig {
    pub connect_timeout_ms: u64,
    pub read_timeout_ms: u64,
    pub write_timeout_ms: u64,
    pub sync_interval_ms: u64,
}

impl Default for ReplicationConfig {
    /// 5 s connect, 30 s read, 10 s write, one sync round every 5 s.
    fn default() -> (c: Self)
        ensures
            c.connect_timeout_ms == 5000,
            c.read_timeout_ms == 30000,
            c.write_timeout_ms == 10000,
            c.sync_interval_ms == 5000,
    {
        ReplicationConfig {
            connect_timeout_ms: 5000,
            read_timeout_ms: 30000,
            write_timeout_ms: 10000,
            sync_interval_ms: 5000,
        }
    }
}

/// Connection state of the agent.
#[derive(Debug, Clone, Copy, PartialEq, Eq, Structural)]
pub enum ConnectionState {
    /// Never connected yet.
    Disconnected,
    /// Connected and syncing.
    Connected,
    /// Failed recently, retrying with backoff.
    Retrying,
    /// Too many straight failures.
    Unhealthy,
}

/// What one entry of a segment turns into in the local WAL: an empty
/// value replicates as a DELETE, anything else as a PUT.
pub open spec fn spec_applied_record(e: EntryModel) -> (OpType, EntryModel) {
    if e.value.len() == 0 {
        (OpType::Delete, e)
    } else {
        (OpType::Put, e)
    }
}

/// The records a row of entries appends to the local WAL.
pub open spec fn spec_applied_records(es: Seq<EntryModel>) -> Seq<(OpType, EntryModel)> {
    es.map_values(|e: EntryModel| spec_applied_record(e))
}

/// Pick the segment to pull next, out of the leader's closed inventory
/// (ascending).  The wanted segment when present; the oldest available
/// one when the wanted one was already deleted — the replica is advanced,
/// not failed; nothing when the inventory is empty or the replica is
/// ahead of it.
pub fn choose_target_segment(last_synced: u64, available: &Vec<u64>) -> (r: Option<u64>)
    requires
        forall|i: int, j: int| 0 <= i < j < available@.len() ==> available@[i] < available@[j],
    ensures
        available@.len() == 0 ==> r is None,
        available@.len() > 0 ==> {
            let next = if last_synced < u64::MAX {
                (last_synced + 1) as u64
            } else {
                u64::MAX
            };
            &&& available@.contains(next) ==> r == Some(next)
            &&& !available@.contains(next) && next < available@[0] ==> r == Some(available@[0])
            &&& !available@.contains(next) && next >= available@[0] ==> r is None
        },
{
    if available.len() == 0 {
        return None;
    }
    let next = if last_synced < u64::MAX {
        last_synced + 1
    } else {
        u64::MAX
    };
    let n = available.len();
    let mut i: usize = 0;
    while i < n
        invariant
            n == available@.len(),
            i <= n,
            next == (if last_synced < u64::MAX {
                (last_synced + 1) as u64
            } else {
                u64::MAX
            }),
            forall|j: int| 0 <= j < i ==> available@[j] != next,
        decreases n - i,
    {
        if available[i] == next {
            proof {
                assert(available@.contains(next));
            }
            return Some(next);
        }
        i = i + 1;
    }
    proof {
        assert(!available@.contains(next));
    }
    let first = available[0];
    if next < first {
        Some(first)
    } else {
        None
    }
}

/// Law: applying a leader segment leaves every one of its entries in the
/// local WAL.  When the entries handed over are exactly the leader's
/// closed segment `n` — what the leader's handler serves — and the apply
/// appended their records, the local log now holds a record for each
/// entry of that segment: a PUT with its key, value and original
/// timestamp, or a DELETE for an empty value.
pub proof fn lemma_apply_covers_leader_segment(
    leader: Wal,
    n: u64,
    pre: Wal,
    post: Wal,
    entries: Seq<EntryModel>,
)
    requires
        leader.wf(),
        leader.has_closed(n),
        entries == crate::wal::entry_models(leader.closed_entries(n)),
        post.all_records() == pre.all_records() + spec_applied_records(entries),
    ensures
        forall|i: int|
            0 <= i < entries.len() ==> post.all_records().contains(
                spec_applied_record(#[trigger] entries[i]),
            ),
{
    assert forall|i: int|
        0 <= i < entries.len() implies post.all_records().contains(
        spec_applied_record(#[trigger] entries[i]),
    ) by {
        let at = pre.all_records().len() + i;
        assert(post.all_records()[at] == spec_applied_records(entries)[i]);
        assert(spec_applied_records(entries)[i] == spec_applied_record(entries[i]));
    }
}

/// The replica agent.
#[derive(Debug)]
pub struct ReplicationAgent {
    /// The leader's address.
    pub leader_addr: String,
    /// Persistent sync state.
    pub state: ReplicaState,
    /// Timeouts and pacing.
    pub config: ReplicationConfig,
    /// Retry backoff.
    pub backoff: ExponentialBackoff,
    /// Connection state.
    pub connection_state: ConnectionState,
    /// Straight failures so far.
    pub consecutive_failures: u32,
    /// At this many straight failures the agent turns unhealthy.
    pub max_consecutive_failures: u32,
    /// Health tracking.
    pub health: ReplicaHealth,
    /// Counters.
    pub metrics: ReplicationMetrics,
    /// Whether the current connection has completed its handshake.
    pub handshake_complete: bool,
}

impl ReplicationAgent {
    /// An agent under the default configuration.
    pub fn new(leader_addr: String, replica_id: String, saved: Option<ReplicaState>) -> (a:
        ReplicationAgent)
        ensures
            a.connection_state is Disconnected,
            a.consecutive_failures == 0,
            a.max_consecutive_failures == 10,
            a.config.connect_timeout_ms == 5000,
            a.config.sync_interval_ms == 5000,
            saved matches Some(prior) ==> a.state == prior,
    {
        Self::with_config(leader_addr, replica_id, saved, Default::default())
    }

    /// An agent under a custom configuration, resuming from the saved
    /// state when one was read back.
    pub fn with_config(
        leader_addr: String,
        replica_id: String,
        saved: Option<ReplicaState>,
        config: ReplicationConfig,
    ) -> (a: ReplicationAgent)
        ensures
            a.connection_state is Disconnected,
            a.consecutive_failures == 0,
            a.max_consecutive_failures == 10,
            a.config == config,
            saved matches Some(prior) ==> a.state == prior,
            saved is None ==> a.state.last_synced_segment == 0,
            a.backoff.current_ms == 1000,
            !a.handshake_complete,
    {
        let state = ReplicaState::load_or_create(saved, replica_id, leader_addr.clone());
        ReplicationAgent {
            leader_addr,
            state,
            config,
            backoff: ExponentialBackoff::new(),
            connection_state: ConnectionState::Disconnected,
            consecutive_failures: 0,
            max_consecutive_failures: 10,
            health: ReplicaHealth::new(),
            metrics: ReplicationMetrics::new(),
            handshake_complete: false,
        }
    }

    /// Take a handshake acknowledgement: remember the leader's active
    /// segment; the connection is up.
    pub fn on_handshake_ack(&mut self, current_segment: u64)
        ensures
            final(self).state.leader_current_segment == current_segment,
            final(self).handshake_complete,
            final(self).connection_state is Connected,
            final(self).state.last_synced_segment == old(self).state.last_synced_segment,
    {
        self.state.leader_current_segment = current_segment;
        self.handshake_complete = true;
        self.connection_state = ConnectionState::Connected;
    }

    /// Pick the segment to pull, given the leader's closed inventory.
    pub fn next_target(&self, available: &Vec<u64>) -> (r: Option<u64>)
        requires
            forall|i: int, j: int|
                0 <= i < j < available@.len() ==> available@[i] < available@[j],
        ensures
            available@.len() == 0 ==> r is None,
    {
        choose_target_segment(self.state.last_synced_segment, available)
    }

    /// Apply one fetched segment to the local WAL — a PUT per entry, a
    /// DELETE for an empty value, with the original timestamps, flushed —
    /// then advance the persistent state.  Applying a segment at or below
    /// the synced floor is rejected by the state and reported as an error;
    /// the floor never regresses.
    pub fn apply_segment(
        &mut self,
        wal: &mut Wal,
        segment_number: u64,
        entries: &Vec<Entry>,
    ) -> (r: Result<(), StorageError>)
        requires
            old(wal).wf(),
        ensures
            final(wal).wf(),
            final(self).state.last_synced_segment >= old(self).state.last_synced_segment,
            r is Ok ==> {
                &&& final(wal).all_records() == old(wal).all_records() + spec_applied_records(
                    entries@.map_values(|e: Entry| e@),
                )
                &&& final(self).state.last_synced_segment == segment_number
                &&& segment_number > old(self).state.last_synced_segment
            },
            r is Ok ==> final(wal).current.bents@.len() == 0 && final(wal).durable_records()
                == final(wal).all_records(),
            segment_number <= old(self).state.last_synced_segment ==> r is Err,
            (forall|j: int|
                0 <= j < entries@.len() ==> crate::record::record_encodable(
                    (#[trigger] entries@[j])@,
                )) && old(wal).current.number + entries@.len() < u64::MAX && segment_number > old(self).state.last_synced_segment ==> r is Ok,
    {
        let n = entries.len();
        let mut i: usize = 0;
        let ghost mapped = spec_applied_records(entries@.map_values(|e: Entry| e@));
        proof {
            assert(old(wal).all_records() + mapped.take(0) =~= old(wal).all_records());
        }
        while i < n
            invariant
                n == entries@.len(),
                wal.wf(),
                mapped == spec_applied_records(entries@.map_values(|e: Entry| e@)),
                i <= n,
                wal.all_records() == old(wal).all_records() + mapped.take(i as int),
                wal.current.number <= old(wal).current.number + i,
            decreases n - i,
        {
            let e = &entries[i];
            let ghost pre_wal = *wal;
            let ghost rec = spec_applied_record(entries@[i as int]@);
            let outcome = if e.value.len() == 0 {
                wal.append_delete(&e.key, e.timestamp)
            } else {
                wal.append(e)
            };
            match outcome {
                Ok(_) => {},
                Err(err) => {
                    return Err(err);
                },
            }
            proof {
                assert(mapped[i as int] == rec);
                if entries@[i as int]@.value.len() == 0 {
                    let tomb = EntryModel {
                        key: entries@[i as int]@.key,
                        value: Seq::empty(),
                        timestamp: entries@[i as int]@.timestamp,
                    };
                    assert(tomb =~= entries@[i as int]@);
                    crate::wal::lemma_append_extends_records(pre_wal, *wal, OpType::Delete, tomb);
                    assert(rec == (OpType::Delete, tomb));
                } else {
                    crate::wal::lemma_append_extends_records(
                        pre_wal,
                        *wal,
                        OpType::Put,
                        entries@[i as int]@,
                    );
                }
                assert(mapped.take(i as int + 1) =~= mapped.take(i as int).push(
                    mapped[i as int],
                ));
                assert(wal.all_records() =~= old(wal).all_records() + mapped.take(i as int + 1));
            }
            i = i + 1;
        }
        match wal.flush() {
            Ok(_) => {},
            Err(err) => {
                return Err(err);
            },
        }
        proof {
            assert(mapped.take(n as int) =~= mapped);
            crate::wal::lemma_wal_durable_after_flush(*wal);
        }
        let count = entries.len() as u64;
        match self.state.update_synced_segment(segment_number, count) {
            Ok(_) => {},
            Err(err) => {
                return Err(err);
            },
        }
        self.metrics.record_sync_success(count, 0);
        Ok(())
    }

    /// A successful round: backoff and failure streak reset, healthy and
    /// connected again.
    pub fn on_sync_success(&mut self)
        ensures
            final(self).backoff.current_ms == old(self).backoff.min_ms,
            final(self).backoff.attempts == 0,
            final(self).consecutive_failures == 0,
            final(self).connection_state is Connected,
            final(self).health.state is Healthy,
    {
        self.backoff.reset();
        self.consecutive_failures = 0;
        self.connection_state = ConnectionState::Connected;
        self.health.record_success();
    }

    /// A failed round: the connection is dropped, the streak grows, the
    /// state turns `Retrying` — or `Unhealthy` at the limit, though the
    /// loop keeps going — and the next backoff delay is drawn and
    /// returned, in milliseconds.
    pub fn on_sync_failure(&mut self, error: &StorageError) -> (wait_ms: u64)
        ensures
            !final(self).handshake_complete,
            final(self).consecutive_failures == (if old(self).consecutive_failures < u32::MAX {
                old(self).consecutive_failures + 1
            } else {
                u32::MAX as int
            }),
            final(self).connection_state == (if final(self).consecutive_failures >= final(self).max_consecutive_failures {
                ConnectionState::Unhealthy
            } else {
                ConnectionState::Retrying
            }),
            final(self).max_consecutive_failures == old(self).max_consecutive_failures,
            old(self).backoff.current_ms - old(self).backoff.current_ms / 4 <= wait_ms <= old(self).backoff.current_ms + old(self).backoff.current_ms / 4,
    {
        self.handshake_complete = false;
        if self.consecutive_failures < u32::MAX {
            self.consecutive_failures = self.consecutive_failures + 1;
        }
        self.health.record_failure(error);
        self.metrics.record_sync_failure();
        if self.consecutive_failures >= self.max_consecutive_failures {
            self.connection_state = ConnectionState::Unhealthy;
        } else {
            self.connection_state = ConnectionState::Retrying;
        }
        self.backoff.next()
    }

    /// The persistent state.
    pub fn state(&self) -> (r: &ReplicaState)
        ensures
            r == self.state,
    {
        &self.state
    }

    /// The connection state.
    pub fn connection_state(&self) -> (r: ConnectionState)
        ensures
            r == self.connection_state,
    {
        self.connection_state
    }

    /// Straight failures so far.
    pub fn consecutive_failures(&self) -> (r: u32)
        ensures
            r == self.consecutive_failures,
    {
        self.consecutive_failures
    }

    /// Healthy means: not yet at the failure limit.
    pub fn is_healthy(&self) -> (r: bool)
        ensures
            r == !(self.connection_state is Unhealthy),
    {
        match self.connection_state {
            ConnectionState::Unhealthy => false,
            _ => true,
        }
    }

    /// Backoff draws since the last success.
    pub fn backoff_attempts(&self) -> (r: u64)
        ensures
            r == self.backoff.attempts,
    {
        self.backoff.attempts()
    }

    /// Lower or raise the failure limit.
    pub fn set_max_consecutive_failures(&mut self, n: u32)
        ensures
            final(self).max_consecutive_failures == n,
            final(self).consecutive_failures == old(self).consecutive_failures,
            final(self).connection_state == old(self).connection_state,
    {
        self.max_consecutive_failures = n;
    }

    /// The health tracker.
    pub fn health(&self) -> (r: &ReplicaHealth)
        ensures
            r == self.health,
    {
        &self.health
    }

    /// The counters.
    pub fn metrics(&self) -> (r: &ReplicationMetrics)
        ensures
            r == self.metrics,
    {
        &self.metrics
    }

    /// A human-readable status of the agent.
    pub fn status_report(&self) -> (r: String)
    {
        let mut out = String::from_str("=== Replica Status ===\n");
        let health_report = self.health.status_report();
        out.append(health_report.as_str());
        out.append("\n\n");
        let metrics_report = self.metrics.report();
        out.append(metrics_report.as_str());
        out.append("\n\nState: ");
        out.append(match self.connection_state {
            ConnectionState::Disconnected => "Disconnected",
            ConnectionState::Connected => "Connected",
            ConnectionState::Retrying => "Retrying",
            ConnectionState::Unhealthy => "Unhealthy",
        });
        out.append("\nConsecutive failures: ");
        let fails = crate::numfmt::fmt_u64(self.consecutive_failures as u64);
        out.append(fails.as_str());
        out.append("\nBackoff attempts: ");
        let tries = crate::numfmt::fmt_u64(self.backoff.attempts);
        out.append(tries.as_str());
        out.append("\nLast synced segment: ");
        let seg = crate::numfmt::fmt_u64(self.state.last_synced_segment);
        out.append(seg.as_str());
        out
    }
}

/// Approximate wire size of a row of entries, in bytes: key, value, and
/// a timestamp of eight bytes each, the total capped at `u64::MAX`.
pub open spec fn spec_entries_bytes(es: Seq<Entry>) -> int
    decreases es.len(),
{
    if es.len() == 0 {
        0
    } else {
        let rest = spec_entries_bytes(es.drop_last());
        let more = es.last()@.key.len() + es.last()@.value.len() + 8;
        if rest + more <= u64::MAX {
            rest + more
        } else {
            u64::MAX as int
        }
    }
}

/// How many kibibytes a row of entries roughly holds.
pub fn estimate_size_kb(entries: &Vec<Entry>) -> (r: u64)
    ensures
        r == spec_entries_bytes(entries@) / 1024,
{
    let n = entries.len();
    let mut total: u64 = 0;
    let mut i: usize = 0;
    proof {
        assert(entries@.take(0) =~= Seq::<Entry>::empty());
    }
    while i < n
        invariant
            n == entries@.len(),
            i <= n,
            total == spec_entries_bytes(entries@.take(i as int)),
        decreases n - i,
    {
        let e = &entries[i];
        let klen = e.key.len() as u64;
        let vlen = e.value.len() as u64;
        let more = if klen > u64::MAX - 8 || vlen > u64::MAX - 8 - klen {
            u64::MAX
        } else {
            klen + vlen + 8
        };
        total = if total > u64::MAX - more {
            u64::MAX
        } else {
            total + more
        };
        proof {
            assert(entries@.take(i as int + 1).drop_last() =~= entries@.take(i as int));
            assert(entries@.take(i as int + 1).last() == entries@[i as int]);
        }
        i = i + 1;
    }
    proof {
        assert(entries@.take(n as int) =~= entries@);
    }
    total / 1024
}

} // verus!
