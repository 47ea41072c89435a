//! Wall-clock timing of the colouring algorithms.
use vstd::prelude::*;
use std::time::{Duration, Instant};

verus! {

/// Lets `std::time::Instant` stand in signatures; its content stays hidden.
#[verifier::external_type_specification]
#[verifier::external_body]
pub struct ExInstant(Instant);

/// `Duration::clone`: `Duration` is `Copy`, and its clone is the same value.
pub assume_specification[ <Duration as Clone>::clone ](d: &Duration) -> (r: Duration)
    ensures
        r == *d,
;

/// Calls `Instant::now`. Nothing is claimed of the result: it is the time of
/// the call.
#[verifier::external_body]
pub(crate) fn clock_now() -> Instant {
    Instant::now()
}

/// Calls `Instant::elapsed` on `start`. Nothing is claimed of the result: it
/// is the time passed since `start`, as the clock reads it.
#[verifier::external_body]
pub(crate) fn clock_elapsed(start: &Instant) -> Duration {
    start.elapsed()
}

} // verus!
