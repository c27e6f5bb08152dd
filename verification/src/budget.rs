//! The budget of a search: wall-clock time, and a flag by which the owner of
//! a background search asks it to stop.
use vstd::prelude::*;
use std::sync::Arc;
use std::sync::atomic::AtomicBool;
use std::sync::atomic::Ordering;
use std::time::Duration;
use std::time::Instant;

verus! {

/// `std::time::Instant`, a point on the monotonic clock. Nothing is known of
/// what is inside.
#[verifier::external_type_specification]
#[verifier::external_body]
pub struct ExInstant(Instant);

/// `Instant::now` reads the clock; nothing is claimed of the result.
pub assume_specification[ Instant::now ]() -> Instant;

/// `Instant::elapsed` reads the clock again; nothing is claimed of the
/// result.
pub assume_specification[ Instant::elapsed ](start: &Instant) -> Duration;

/// `Duration::as_secs` gives the whole seconds of a duration; nothing is
/// claimed of the result.
pub assume_specification[ Duration::as_secs ](d: &Duration) -> u64;

/// Whether a search whose flag reads `raised` has been asked to stop. A
/// search without a flag is never asked.
pub fn flag_asks_to_stop(raised: Option<bool>) -> (stop: bool)
    ensures
        stop == (raised == Some(true)),
{
    match raised {
        Some(value) => value,
        None => false,
    }
}

/// Whether a search that has run for `elapsed_seconds` whole seconds has used
/// up the `max_seconds` it was given.
pub fn time_is_up(elapsed_seconds: u64, max_seconds: u64) -> (late: bool)
    ensures
        late == (elapsed_seconds >= max_seconds),
{
    elapsed_seconds >= max_seconds
}

/// What bounds one search: the moment it started, the whole seconds it may
/// take, for a background search the flag that cancels it, and whether the
/// search has been told to give up.
pub struct SearchBudget {
    pub started: Instant,
    pub max_seconds: u64,
    pub stop_flag: Option<Arc<AtomicBool>>,
    /// Set once `exhausted` has found the budget used up; it stays set.
    pub spent: bool,
}

impl SearchBudget {
    /// `other` is this budget, but for what it has spent.
    pub open spec fn same_terms(&self, other: &SearchBudget) -> bool {
        &&& self.started == other.started
        &&& self.max_seconds == other.max_seconds
        &&& self.stop_flag == other.stop_flag
    }

    /// Starts the clock of a search that may take `max_seconds`.
    pub fn start(max_seconds: u64) -> (b: SearchBudget)
        ensures
            b.max_seconds == max_seconds,
            b.stop_flag is None,
            !b.spent,
    {
        SearchBudget { started: Instant::now(), max_seconds, stop_flag: None, spent: false }
    }

    /// Starts the clock of a background search that may take `max_seconds`
    /// and stops early once `stop_flag` is raised.
    pub fn start_cancellable(max_seconds: u64, stop_flag: Arc<AtomicBool>) -> (b: SearchBudget)
        ensures
            b.max_seconds == max_seconds,
            b.stop_flag == Some(stop_flag),
            !b.spent,
    {
        SearchBudget {
            started: Instant::now(),
            max_seconds,
            stop_flag: Some(stop_flag),
            spent: false,
        }
    }

    /// Whether the owner has asked this search to stop: what
    /// `flag_asks_to_stop` makes of the flag as it reads now. A search
    /// without a flag is never asked.
    pub fn cancelled(&self) -> (stop: bool)
        ensures
            self.stop_flag is None ==> !stop,
    {
        let raised = match &self.stop_flag {
            Some(flag) => Some(flag.load(Ordering::Relaxed)),
            None => None,
        };
        flag_asks_to_stop(raised)
    }

    /// Whether the time allowed has passed: what `time_is_up` makes of the
    /// seconds on the clock now. With a budget of zero seconds it has passed
    /// from the start.
    pub fn time_exceeded(&self) -> (late: bool)
        ensures
            self.max_seconds == 0 ==> late,
    {
        time_is_up(self.started.elapsed().as_secs(), self.max_seconds)
    }

    /// Whether the search must give up. It must once it has been cancelled or
    /// its time has passed, and from then on for good: the budget records
    /// that it is spent, and a spent budget is exhausted without another look
    /// at the flag or the clock.
    pub fn exhausted(&mut self) -> (stop: bool)
        ensures
            stop == final(self).spent,
            old(self).spent ==> stop,
            old(self).max_seconds == 0 ==> stop,
            final(self).same_terms(old(self)),
    {
        if self.spent {
            return true;
        }
        if self.cancelled() || self.time_exceeded() {
            self.spent = true;
            true
        } else {
            false
        }
    }
}

} // verus!
