//! Error type and the fixed two-armed retry policy.
//!
//! Every reconciliation failure is wrapped into a single error kind carrying a
//! message, and the policy maps the outcome of a run to a fixed requeue delay:
//! a long delay after success (periodic self-healing resync) and a short one
//! after any failure (every error is treated as transient).

use vstd::prelude::*;

verus! {

/// Delay, in seconds, before a successful reconciliation is run again.
pub const SUCCESS_REQUEUE_SECONDS: u64 = 900;

/// Delay, in seconds, before a failed reconciliation is retried.
pub const FAILURE_REQUEUE_SECONDS: u64 = 10;

/// The single error kind of the library: any reconciliation-time failure,
/// carrying a human-readable message.
#[derive(Debug, Clone, PartialEq, Eq)]
pub enum CrdError {
    Any(String),
}

impl CrdError {
    /// Wraps a message into the library's error kind.
    pub fn new(message: String) -> (e: CrdError)
        ensures
            e == CrdError::Any(message),
    {
        CrdError::Any(message)
    }

    /// The human-readable message carried by the error.
    pub fn message(&self) -> (m: &String)
        ensures
            *self == CrdError::Any(*m),
    {
        match self {
            CrdError::Any(s) => s,
        }
    }
}

/// Outcome of one reconciliation run, as seen by the retry policy.
#[derive(Debug, Clone, Copy, PartialEq, Eq)]
pub enum ReconcileOutcome {
    Success,
    Failure,
}

/// The two-armed retry policy: success schedules the fixed resync delay,
/// failure the fixed short retry delay.
pub fn requeue_delay_seconds(outcome: ReconcileOutcome) -> (d: u64)
    ensures
        outcome == ReconcileOutcome::Success ==> d == SUCCESS_REQUEUE_SECONDS,
        outcome == ReconcileOutcome::Failure ==> d == FAILURE_REQUEUE_SECONDS,
{
    match outcome {
        ReconcileOutcome::Success => SUCCESS_REQUEUE_SECONDS,
        ReconcileOutcome::Failure => FAILURE_REQUEUE_SECONDS,
    }
}

/// Policy applied when a reconciliation fails: retry after the fixed short
/// delay, whatever the error was.
pub fn error_policy(_error: &CrdError) -> (d: u64)
    ensures
        d == FAILURE_REQUEUE_SECONDS,
{
    requeue_delay_seconds(ReconcileOutcome::Failure)
}

} // verus!
