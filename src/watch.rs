//! The decisions of a watch session, one re-check at a time.
use vstd::prelude::*;

verus! {

/// How one check of the watched file ended.
#[derive(Clone, Copy, Debug, PartialEq, Eq, Structural)]
pub enum CheckOutcome {
    /// The check ran and found no error.
    Clean,
    /// The check ran and found errors.
    Errors,
    /// The check could not run (the file could not be read or parsed).
    Failed,
}

/// What the session does after a check.
#[derive(Clone, Copy, Debug, PartialEq, Eq, Structural)]
pub struct WatchStep {
    /// Whether the file has errors now.
    pub had_errors: bool,
    /// Whether to announce that all errors were fixed.
    pub announce_fixed: bool,
}

/// The state after the first check.
pub fn watch_start(outcome: CheckOutcome) -> (r: bool)
    ensures
        r == (outcome != CheckOutcome::Clean),
{
    match outcome {
        CheckOutcome::Clean => false,
        _ => true,
    }
}

/// The next state after a re-check: errors are remembered until a clean
/// check, which is announced when it ends a run of errors.
pub fn watch_transition(had_errors: bool, outcome: CheckOutcome) -> (r: WatchStep)
    ensures
        r.had_errors == (outcome != CheckOutcome::Clean),
        r.announce_fixed == (had_errors && outcome == CheckOutcome::Clean),
{
    match outcome {
        CheckOutcome::Clean => WatchStep { had_errors: false, announce_fixed: had_errors },
        CheckOutcome::Errors => WatchStep { had_errors: true, announce_fixed: false },
        CheckOutcome::Failed => WatchStep { had_errors: true, announce_fixed: false },
    }
}

} // verus!
