//! Upstream health bookkeeping.
//!
//! The collaborator that probes the upstream hands each observation — up or
//! down, the probe's latency, a timestamp and an error text — to `update`,
//! which keeps consecutive-success and consecutive-failure counts and flips
//! the healthy flag when a count crosses its threshold. The probing itself,
//! and the clock, live with the caller.

use vstd::prelude::*;

verus! {

/// Upstream health status: the healthy flag, the last observation, and the
/// consecutive counts that drive it. The timestamp is whatever
/// clock reading the caller supplies, in milliseconds.
pub struct HealthStatus {
    pub healthy: bool,
    pub last_check: Option<i64>,
    pub last_error: Option<String>,
    pub consecutive_failures: u32,
    pub consecutive_successes: u32,
    pub latency_ms: Option<u64>,
}

impl Default for HealthStatus {
    /// Assume healthy until proven otherwise, with nothing observed yet.
    fn default() -> (s: HealthStatus)
        ensures
            s.healthy,
            s.last_check is None,
            s.last_error is None,
            s.consecutive_failures == 0,
            s.consecutive_successes == 0,
            s.latency_ms is None,
    {
        HealthStatus {
            healthy: true,
            last_check: None,
            last_error: None,
            consecutive_failures: 0,
            consecutive_successes: 0,
            latency_ms: None,
        }
    }
}

/// The healthy flag after an observation: a failure streak at or over its
/// threshold marks the upstream down; otherwise a success streak at or over
/// its threshold marks it up; otherwise the old flag stands.
pub open spec fn next_health_flag(
    old_healthy: bool,
    failures: u32,
    successes: u32,
    unhealthy_threshold: u32,
    healthy_threshold: u32,
) -> bool {
    if failures >= unhealthy_threshold {
        false
    } else if successes >= healthy_threshold {
        true
    } else {
        old_healthy
    }
}

impl HealthStatus {
    /// Records one probe observation taken at `now_ms`: a success resets
    /// the failure streak and clears the last error, a failure resets the
    /// success streak and keeps the error text; then the healthy flag follows
    /// the thresholds. Streaks stop counting at the counter ceiling.
    pub fn update(
        &mut self,
        healthy: bool,
        now_ms: i64,
        latency_ms: Option<u64>,
        error: Option<String>,
        unhealthy_threshold: u32,
        healthy_threshold: u32,
    )
        ensures
            final(self).last_check == Some(now_ms),
            final(self).latency_ms == latency_ms,
            healthy ==> final(self).consecutive_successes == old(
                self,
            ).consecutive_successes.saturating_add(1) && final(self).consecutive_failures == 0
                && final(self).last_error is None,
            !healthy ==> final(self).consecutive_failures == old(
                self,
            ).consecutive_failures.saturating_add(1) && final(self).consecutive_successes == 0
                && final(self).last_error == error,
            final(self).healthy == next_health_flag(
                old(self).healthy,
                final(self).consecutive_failures,
                final(self).consecutive_successes,
                unhealthy_threshold,
                healthy_threshold,
            ),
    {
        self.last_check = Some(now_ms);
        self.latency_ms = latency_ms;
        if healthy {
            self.consecutive_successes = self.consecutive_successes.saturating_add(1);
            self.consecutive_failures = 0;
            self.last_error = None;
        } else {
            self.consecutive_failures = self.consecutive_failures.saturating_add(1);
            self.consecutive_successes = 0;
            self.last_error = error;
        }
        if self.consecutive_failures >= unhealthy_threshold {
            self.healthy = false;
        } else if self.consecutive_successes >= healthy_threshold {
            self.healthy = true;
        }
    }

    /// The fast check the data path reads.
    pub fn is_healthy(&self) -> (b: bool)
        ensures
            b == self.healthy,
    {
        self.healthy
    }
}

} // verus!
