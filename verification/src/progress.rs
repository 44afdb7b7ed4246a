//! The progress reporter's backoff policy.
//!
//! The reporter polls a completed-jobs counter on a fixed tick.  When
//! progress advanced since the last poll it reports at once and the
//! delay resets to its minimum; when nothing advanced and the delay has
//! passed since the last report, it reports again and the delay
//! doubles, up to a cap.  Frequent updates while work flows, decaying
//! updates during a stall.  The decision is here; the clock, the tick
//! and the log line stay with the caller.

use vstd::prelude::*;

verus! {

/// The delay after a report that showed progress, in milliseconds.
pub const MIN_DELAY_MS: u64 = 1000;

/// The largest delay a stall can grow to, in milliseconds.
pub const MAX_DELAY_MS: u64 = 30000;

/// The doubled, capped delay.
pub open spec fn next_delay(d: u64) -> u64 {
    if d > MAX_DELAY_MS / 2 {
        MAX_DELAY_MS
    } else {
        (d * 2) as u64
    }
}

/// What the reporter remembers between polls.
#[derive(Debug, Clone, Copy, PartialEq, Eq, Structural)]
pub struct ProgressState {
    /// The counter value at the last poll that reported.
    pub last_progress: u64,
    /// How long a stall must last before the next report.
    pub delay_ms: u64,
}

impl ProgressState {
    /// The state the reporter starts from.
    pub fn start() -> (r: ProgressState)
        ensures
            r == (ProgressState { last_progress: 0, delay_ms: MIN_DELAY_MS }),
    {
        ProgressState { last_progress: 0, delay_ms: MIN_DELAY_MS }
    }

    /// One poll: decide whether to report now.  `new_progress` is the
    /// counter value, `since_report_ms` the time since the last report
    /// (or since the start).  The caller resets its report clock
    /// exactly when this answers true.
    pub fn poll(&mut self, new_progress: u64, since_report_ms: u64) -> (report: bool)
        ensures
            new_progress != old(self).last_progress ==> report && *final(self) == (ProgressState {
                last_progress: new_progress,
                delay_ms: MIN_DELAY_MS,
            }),
            new_progress == old(self).last_progress && since_report_ms > old(self).delay_ms
                ==> report && *final(self) == (ProgressState {
                last_progress: new_progress,
                delay_ms: next_delay(old(self).delay_ms),
            }),
            new_progress == old(self).last_progress && since_report_ms <= old(self).delay_ms
                ==> !report && *final(self) == *old(self),
    {
        if new_progress != self.last_progress {
            self.last_progress = new_progress;
            self.delay_ms = MIN_DELAY_MS;
            true
        } else if since_report_ms > self.delay_ms {
            self.delay_ms = if self.delay_ms > MAX_DELAY_MS / 2 {
                MAX_DELAY_MS
            } else {
                self.delay_ms * 2
            };
            true
        } else {
            false
        }
    }
}

} // verus!
