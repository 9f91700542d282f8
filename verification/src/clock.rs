//! Reading the clock and the stop flag.
use vstd::prelude::*;
use std::sync::atomic::AtomicBool;
use std::sync::Arc;

verus! {

/// A point of time of `std::time::Instant`; nothing is known of it.
#[verifier::external_type_specification]
#[verifier::external_body]
pub struct ExInstant(std::time::Instant);

/// `std::time::Instant::now` reads the clock: nothing is claimed of the result.
pub assume_specification[ std::time::Instant::now ]() -> std::time::Instant;

/// `std::time::Instant::elapsed` reads the clock: nothing is claimed of the
/// result.
pub assume_specification[ std::time::Instant::elapsed ](i: &std::time::Instant) -> std::time::Duration;

/// `std::time::Duration::as_millis` counts whole milliseconds: nothing is
/// claimed of the result, as nothing is known of the span.
pub assume_specification[ std::time::Duration::as_millis ](d: &std::time::Duration) -> u128;

/// Another handle to the same flag by `Arc::clone`.
#[verifier::external_body]
fn share(flag: &Arc<AtomicBool>) -> (r: Arc<AtomicBool>)
    ensures
        r == *flag,
{
    Arc::clone(flag)
}

/// Whole milliseconds that have gone by use a budget up.
pub fn used_up(elapsed_ms: u128, budget_ms: u64) -> (r: bool)
    ensures
        r == (elapsed_ms >= budget_ms),
{
    elapsed_ms >= budget_ms as u128
}

/// When a timed search began and how long it may take.
pub struct Deadline {
    pub start: std::time::Instant,
    pub budget_ms: u64,
}

impl Deadline {
    /// A budget that starts to run now.
    pub fn from_now(budget_ms: u64) -> (r: Self)
        ensures
            r.budget_ms == budget_ms,
    {
        Deadline { start: std::time::Instant::now(), budget_ms }
    }

    /// The budget has been used up. The answer depends on the clock.
    pub fn passed(&self) -> bool {
        used_up(self.start.elapsed().as_millis(), self.budget_ms)
    }
}

/// The flag is raised. Other threads may raise it at any time.
pub fn is_raised(flag: &Arc<AtomicBool>) -> bool {
    flag.load(std::sync::atomic::Ordering::Relaxed)
}

/// Lowers the flag before a search.
pub fn lower(flag: &Arc<AtomicBool>) {
    flag.store(false, std::sync::atomic::Ordering::Relaxed);
}

/// Stops a running search from another thread.
pub struct StopHandle {
    pub flag: Arc<AtomicBool>,
}

impl StopHandle {
    /// A handle to the flag.
    pub fn of(flag: &Arc<AtomicBool>) -> (r: Self)
        ensures
            r.flag == *flag,
    {
        StopHandle { flag: share(flag) }
    }

    /// Asks the search to stop.
    pub fn stop(&self) {
        self.flag.store(true, std::sync::atomic::Ordering::Relaxed);
    }

    /// Whether a stop has been asked for.
    pub fn is_stopped(&self) -> bool {
        is_raised(&self.flag)
    }
}

} // verus!
