//! Replica health: state transitions driven by sync successes and
//! failures.

use vstd::prelude::*;
use vstd::string::StringExecFns;
use crate::clock::now_secs;
use crate::error::StorageError;
use crate::metrics::rate_percent;
use crate::numfmt::fmt_u64;

verus! {

/// Health of a replica: healthy after a success, degraded after one or two
/// straight failures, unhealthy from the third on.
#[derive(Debug, Clone, Copy, PartialEq, Eq, Structural)]
pub enum HealthState {
    Healthy,
    Degraded,
    Unhealthy,
}

impl HealthState {
    /// Whether the replica still serves: everything but `Unhealthy`.
    pub fn is_operational(&self) -> (r: bool)
        ensures
            r == !(self is Unhealthy),
    {
        match self {
            HealthState::Unhealthy => false,
            _ => true,
        }
    }
}

/// The health state a failure streak maps to.
pub open spec fn spec_state_for_failures(consecutive: int) -> HealthState {
    if consecutive == 0 {
        HealthState::Healthy
    } else if consecutive <= 2 {
        HealthState::Degraded
    } else {
        HealthState::Unhealthy
    }
}

/// Detailed health tracking for one replica.
#[derive(Debug)]
pub struct ReplicaHealth {
    pub state: HealthState,
    /// When the last success happened (seconds since the epoch).
    pub last_success: Option<u64>,
    pub consecutive_failures: u32,
    pub total_failures: u64,
    pub total_successes: u64,
    pub last_error: Option<String>,
}

impl ReplicaHealth {
    pub fn new() -> (h: ReplicaHealth)
        ensures
            h.state is Healthy,
            h.last_success is None,
            h.consecutive_failures == 0,
            h.total_failures == 0,
            h.total_successes == 0,
            h.last_error is None,
    {
        ReplicaHealth {
            state: HealthState::Healthy,
            last_success: None,
            consecutive_failures: 0,
            total_failures: 0,
            total_successes: 0,
            last_error: None,
        }
    }

    /// A success: back to healthy unconditionally, the failure streak
    /// cleared.
    pub fn record_success(&mut self)
        ensures
            final(self).state is Healthy,
            final(self).last_success is Some,
            final(self).consecutive_failures == 0,
            final(self).total_successes == if old(self).total_successes < u64::MAX {
                old(self).total_successes + 1
            } else {
                u64::MAX as int
            },
            final(self).total_failures == old(self).total_failures,
            final(self).last_error is None,
    {
        self.last_success = Some(now_secs());
        self.consecutive_failures = 0;
        if self.total_successes < u64::MAX {
            self.total_successes = self.total_successes + 1;
        }
        self.last_error = None;
        self.state = HealthState::Healthy;
    }

    /// A failure: the streak grows and the state degrades with it.
    pub fn record_failure(&mut self, error: &StorageError)
        ensures
            final(self).consecutive_failures == if old(self).consecutive_failures < u32::MAX {
                old(self).consecutive_failures + 1
            } else {
                u32::MAX as int
            },
            final(self).total_failures == if old(self).total_failures < u64::MAX {
                old(self).total_failures + 1
            } else {
                u64::MAX as int
            },
            final(self).state == spec_state_for_failures(
                final(self).consecutive_failures as int,
            ),
            final(self).last_error matches Some(m) && m@ == error.spec_message(),
            final(self).total_successes == old(self).total_successes,
            final(self).last_success == old(self).last_success,
    {
        if self.consecutive_failures < u32::MAX {
            self.consecutive_failures = self.consecutive_failures + 1;
        }
        if self.total_failures < u64::MAX {
            self.total_failures = self.total_failures + 1;
        }
        self.last_error = Some(error.message());
        self.state = if self.consecutive_failures <= 2 {
            HealthState::Degraded
        } else {
            HealthState::Unhealthy
        };
    }

    pub fn state(&self) -> (r: HealthState)
        ensures
            r == self.state,
    {
        self.state
    }

    pub fn is_healthy(&self) -> (r: bool)
        ensures
            r == (self.state is Healthy),
    {
        match self.state {
            HealthState::Healthy => true,
            _ => false,
        }
    }

    pub fn is_operational(&self) -> (r: bool)
        ensures
            r == !(self.state is Unhealthy),
    {
        self.state.is_operational()
    }

    pub fn consecutive_failures(&self) -> (r: u32)
        ensures
            r == self.consecutive_failures,
    {
        self.consecutive_failures
    }

    pub fn total_failures(&self) -> (r: u64)
        ensures
            r == self.total_failures,
    {
        self.total_failures
    }

    pub fn total_successes(&self) -> (r: u64)
        ensures
            r == self.total_successes,
    {
        self.total_successes
    }

    /// Lifetime success share in rounded percent; 100 before any attempt.
    pub fn success_rate_percent(&self) -> (r: u64)
        ensures
            self.total_successes + self.total_failures == 0 ==> r == 100,
            0 < self.total_successes + self.total_failures <= u64::MAX ==> r == (
            self.total_successes * 200 + (self.total_successes + self.total_failures)) / (2 * (
            self.total_successes + self.total_failures)),
    {
        if self.total_successes > u64::MAX - self.total_failures {
            return rate_percent(self.total_successes, u64::MAX, 100);
        }
        rate_percent(self.total_successes, self.total_successes + self.total_failures, 100)
    }

    /// Seconds from the last success to `now`; `None` before any success.
    pub fn time_since_success_at(&self, now: u64) -> (r: Option<u64>)
        ensures
            self.last_success is None ==> r is None,
            self.last_success matches Some(t) ==> r == Some(
                if now >= t {
                    (now - t) as u64
                } else {
                    0u64
                },
            ),
    {
        match self.last_success {
            Some(t) => Some(if now >= t {
                now - t
            } else {
                0
            }),
            None => None,
        }
    }

    /// Seconds since the last success, by the wall clock.
    pub fn time_since_success(&self) -> (r: Option<u64>)
        ensures
            self.last_success is None ==> r is None,
            self.last_success is Some ==> r is Some,
    {
        self.time_since_success_at(now_secs())
    }

    pub fn last_error(&self) -> (r: Option<&String>)
        ensures
            r is Some <==> self.last_error is Some,
            r matches Some(s) ==> self.last_error matches Some(t) && s@ == t@,
    {
        match &self.last_error {
            Some(s) => Some(s),
            None => None,
        }
    }

    /// Stale at `now`: no success yet, or the last one is older than the
    /// threshold.
    pub fn is_stale_at(&self, now: u64, threshold_seconds: u64) -> (r: bool)
        ensures
            self.last_success is None ==> r,
            self.last_success matches Some(t) ==> r == (now >= t && now - t
                > threshold_seconds),
    {
        match self.time_since_success_at(now) {
            Some(age) => age > threshold_seconds,
            None => true,
        }
    }

    /// Stale by the wall clock.
    pub fn is_stale(&self, threshold_seconds: u64) -> (r: bool)
        ensures
            self.last_success is None ==> r,
    {
        self.is_stale_at(now_secs(), threshold_seconds)
    }

    /// A human-readable report of the current health.
    pub fn status_report(&self) -> (r: String)
    {
        let mut out = String::from_str(match self.state {
            HealthState::Healthy => "Healthy",
            HealthState::Degraded => "Degraded",
            HealthState::Unhealthy => "Unhealthy",
        });
        out.append("\n  Last success: ");
        match self.time_since_success() {
            Some(age) => {
                let formatted = fmt_u64(age);
                out.append(formatted.as_str());
                out.append("s ago");
            },
            None => {
                out.append("never");
            },
        }
        out.append("\n  Consecutive failures: ");
        let streak = fmt_u64(self.consecutive_failures as u64);
        out.append(streak.as_str());
        out.append("\n  Success rate: ");
        let rate = fmt_u64(self.success_rate_percent());
        out.append(rate.as_str());
        out.append("%\n  Total: ");
        let succ = fmt_u64(self.total_successes);
        out.append(succ.as_str());
        out.append(" successes, ");
        let fails = fmt_u64(self.total_failures);
        out.append(fails.as_str());
        out.append(" failures");
        out
    }
}

} // verus!
