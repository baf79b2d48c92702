//! The state that the load generator's stream combinators decide on: a
//! shared trigger that ends streams, and the deadline of a stream that
//! runs for a fixed time.
use vstd::prelude::*;
use std::sync::Arc;
use std::sync::atomic::AtomicBool;
use std::sync::atomic::Ordering;
use std::time::{Duration, Instant};

verus! {

/// `std::time::Instant`, a point in time.
#[verifier::external_type_specification]
#[verifier::external_body]
pub struct ExInstant(std::time::Instant);

/// `Arc::clone`: another handle on the same flag.
#[verifier::external_body]
fn share_flag(flag: &Arc<AtomicBool>) -> Arc<AtomicBool> {
    flag.clone()
}

/// `Instant::now`: the current time.
#[verifier::external_body]
fn instant_now() -> Instant {
    Instant::now()
}

/// `Instant::elapsed`: the time since `start`. It depends on the clock, so
/// nothing is promised of it.
#[verifier::external_body]
fn elapsed_since(start: &Instant) -> Duration {
    start.elapsed()
}

/// `Duration::as_nanos`: a duration in whole nanoseconds. `Duration` has no
/// mathematical value here, so nothing is promised of the number.
#[verifier::external_body]
fn nanos_of(d: &Duration) -> u128 {
    d.as_nanos()
}

/// A trigger that ends every stream attached to it.
pub struct Interrupt(Arc<AtomicBool>);

/// A stream that ends once the trigger it is attached to is pulled.
pub struct Interruptable<S> {
    pub stream: S,
    pub trigger: Arc<AtomicBool>,
}

impl Interrupt {
    /// A trigger not yet pulled.
    pub fn new() -> Interrupt {
        Interrupt(Arc::new(AtomicBool::new(false)))
    }

    /// Attaches `stream` to this trigger.
    pub fn attach<S>(&self, stream: S) -> (s: Interruptable<S>)
        ensures
            s.stream == stream,
    {
        Interruptable { stream, trigger: share_flag(&self.0) }
    }

    /// Pulls the trigger: the attached streams end.
    pub fn now(self) {
        self.0.store(true, Ordering::Relaxed);
    }
}

impl<S> Interruptable<S> {
    /// Whether the trigger has been pulled, so that the stream ends.
    pub fn is_interrupted(&self) -> bool {
        self.trigger.load(Ordering::Relaxed)
    }
}

/// Whether a stream that may run for `duration` nanoseconds still runs
/// once `elapsed` nanoseconds have passed: it runs while less than its
/// duration has passed.
pub fn runs_at(elapsed: u128, duration: u128) -> (b: bool)
    ensures
        b == (elapsed < duration),
{
    elapsed < duration
}

/// A stream that ends after it has run for a given time.
pub struct TakeFor<S> {
    pub stream: S,
    pub now: Instant,
    /// How long the stream runs, in nanoseconds.
    pub duration: u128,
}

impl<S> TakeFor<S> {
    /// Starts `stream`'s clock now; it runs for `duration` nanoseconds.
    pub fn new(stream: S, duration: u128) -> (t: TakeFor<S>)
        ensures
            t.stream == stream,
            t.duration == duration,
    {
        TakeFor { stream, now: instant_now(), duration }
    }

    /// Reads the clock: the time the stream has run so far, in
    /// nanoseconds, and whether it still runs at that time.
    pub fn is_running(&self) -> (r: (bool, u128))
        ensures
            r.0 == (r.1 < self.duration),
    {
        let elapsed = nanos_of(&elapsed_since(&self.now));
        (runs_at(elapsed, self.duration), elapsed)
    }
}

} // verus!
