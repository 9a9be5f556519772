//! Readings of the monotonic clock, used for run budgets and timing
//! reports. Nothing is promised of the values: they depend on the wall
//! clock, and every caller is verified for every possible reading.

use vstd::prelude::*;

verus! {

/// Declares std's `Instant` so that clock readings can be carried around;
/// values of it stay opaque.
#[verifier::external_type_specification]
#[verifier::external_body]
pub struct ExInstant(std::time::Instant);

/// Relies on std's `Instant::now`: an opaque reading of the monotonic
/// clock.
#[verifier::external_body]
pub fn instant_now() -> (r: std::time::Instant) {
    std::time::Instant::now()
}

/// Relies on std's `Instant::elapsed`: the span since `start`, whatever the
/// clock read.
#[verifier::external_body]
pub fn instant_elapsed(start: &std::time::Instant) -> (r: std::time::Duration) {
    start.elapsed()
}

/// Relies on std's `Duration::as_millis`: the span in whole milliseconds.
#[verifier::external_body]
pub fn duration_as_millis(d: &std::time::Duration) -> (r: u128) {
    d.as_millis()
}

/// Milliseconds since `start`, read from the monotonic clock.
pub fn elapsed_millis(start: &std::time::Instant) -> u128 {
    let elapsed = instant_elapsed(start);
    duration_as_millis(&elapsed)
}

} // verus!
