//! A container's heartbeat policy: what to do after each heartbeat answer.

use vstd::prelude::*;

verus! {

/// Consecutive transport errors tolerated before giving up.
pub const MAX_RETRIES: usize = 3;

/// How one heartbeat went.
#[derive(Debug, Clone, Copy, PartialEq, Eq, Structural)]
pub enum HeartbeatOutcome {
    /// The registry answered `true`.
    Accepted,
    /// The registry answered `false`: it considers the instance dead.
    Refused,
    /// The call did not get an answer.
    TransportError,
}

/// What the heartbeat loop does next.
#[derive(Debug, Clone, Copy, PartialEq, Eq, Structural)]
pub enum HeartbeatAction {
    /// Wait for the next beat's deadline and beat again.
    Continue,
    /// Cancel the container's top-level cancellation signal and stop.
    Cancel,
}

/// The retry counter and action after a heartbeat with outcome `outcome`,
/// when `retries` transport errors came right before it.
pub open spec fn heartbeat_next(retries: usize, outcome: HeartbeatOutcome) -> (usize, HeartbeatAction) {
    match outcome {
        HeartbeatOutcome::Accepted => (0, HeartbeatAction::Continue),
        HeartbeatOutcome::Refused => (retries, HeartbeatAction::Cancel),
        HeartbeatOutcome::TransportError => if retries >= MAX_RETRIES {
            (retries, HeartbeatAction::Cancel)
        } else {
            ((retries + 1) as usize, HeartbeatAction::Continue)
        },
    }
}

pub fn heartbeat_step(retries: usize, outcome: HeartbeatOutcome) -> (r: (usize, HeartbeatAction))
    requires
        retries <= MAX_RETRIES,
    ensures
        r == heartbeat_next(retries, outcome),
        r.0 <= MAX_RETRIES,
{
    match outcome {
        HeartbeatOutcome::Accepted => (0, HeartbeatAction::Continue),
        HeartbeatOutcome::Refused => (retries, HeartbeatAction::Cancel),
        HeartbeatOutcome::TransportError => if retries >= MAX_RETRIES {
            (retries, HeartbeatAction::Cancel)
        } else {
            (retries + 1, HeartbeatAction::Continue)
        },
    }
}

} // verus!
