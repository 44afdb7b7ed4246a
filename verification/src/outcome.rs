//! Job outcomes and the run summary.
//!
//! One job (one input file run through the configured command) produces
//! exactly one [`Outcome`]: a clean exit is a `Success` carrying the
//! captured streams and the elapsed wall-clock milliseconds, a non-zero
//! exit is a `Failure` carrying the captured streams, and an expired
//! wall-clock budget is a `Timeout`.  A spawn or wait error that is
//! neither of these is not an outcome at all: the caller must abort the
//! run instead of classifying it.

use vstd::prelude::*;

verus! {

/// The mathematical value of an [`Outcome`].
pub ghost enum OutcomeV {
    Success { stdout: Seq<u8>, stderr: Seq<u8>, elapsed_ms: u64 },
    Failure { stdout: Seq<u8>, stderr: Seq<u8> },
    Timeout,
}

/// The classification of one job's execution.
#[derive(Debug)]
pub enum Outcome {
    /// Exit status zero within the timeout.
    Success { stdout: Vec<u8>, stderr: Vec<u8>, elapsed_ms: u64 },
    /// Non-zero exit status within the timeout.
    Failure { stdout: Vec<u8>, stderr: Vec<u8> },
    /// The wall-clock budget elapsed before the process exited.
    Timeout,
}

impl View for Outcome {
    type V = OutcomeV;

    open spec fn view(&self) -> OutcomeV {
        match self {
            Outcome::Success { stdout, stderr, elapsed_ms } => OutcomeV::Success {
                stdout: stdout@,
                stderr: stderr@,
                elapsed_ms: *elapsed_ms,
            },
            Outcome::Failure { stdout, stderr } => OutcomeV::Failure {
                stdout: stdout@,
                stderr: stderr@,
            },
            Outcome::Timeout => OutcomeV::Timeout,
        }
    }
}

/// Classify one finished job.
///
/// `exit_ok` is `Some(true)` for a clean exit within the timeout,
/// `Some(false)` for a non-zero exit within the timeout, and `None`
/// when the timeout elapsed first.  The captured streams are kept for
/// the first two classifications and dropped on a timeout.
pub fn classify(exit_ok: Option<bool>, stdout: Vec<u8>, stderr: Vec<u8>, elapsed_ms: u64) -> (r:
    Outcome)
    ensures
        r@ == match exit_ok {
            Some(true) => OutcomeV::Success {
                stdout: stdout@,
                stderr: stderr@,
                elapsed_ms: elapsed_ms,
            },
            Some(false) => OutcomeV::Failure { stdout: stdout@, stderr: stderr@ },
            None => OutcomeV::Timeout,
        },
{
    match exit_ok {
        Some(true) => Outcome::Success { stdout, stderr, elapsed_ms },
        Some(false) => Outcome::Failure { stdout, stderr },
        None => Outcome::Timeout,
    }
}

/// The four summary counters of a run.
#[derive(Debug, Clone, Copy, PartialEq, Eq, Structural)]
pub struct Summary {
    /// Successes, previously seen or new.
    pub success: u64,
    /// Successes whose persisted text was not yet recorded for the file.
    pub new_success: u64,
    /// Non-zero exits.
    pub failure: u64,
    /// Expired time budgets.
    pub timeout: u64,
}

impl Summary {
    /// A run is clean when nothing failed and nothing timed out; new
    /// successes do not count against it.
    pub open spec fn clean(&self) -> bool {
        self.failure == 0 && self.timeout == 0
    }

    /// The all-zero summary a run starts from.
    pub fn empty() -> (r: Summary)
        ensures
            r == (Summary { success: 0, new_success: 0, failure: 0, timeout: 0 }),
    {
        Summary { success: 0, new_success: 0, failure: 0, timeout: 0 }
    }

    /// The process exit code: zero exactly when the run is clean, one
    /// otherwise, whatever the other counters hold.
    pub fn exit_code(&self) -> (r: i32)
        ensures
            r == if self.clean() {
                0int
            } else {
                1int
            },
            (r == 0) <==> (self.failure == 0 && self.timeout == 0),
    {
        if self.failure == 0 && self.timeout == 0 {
            0
        } else {
            1
        }
    }
}

} // verus!
