//! The wall clock, behind trusted wrappers.
//!
//! Search budgets are wall-clock milliseconds.  Nothing is assumed about what
//! the clock returns: every caller decides correctly whatever value comes
//! back, and a deadline can only cut a search short, never corrupt it.

use vstd::prelude::*;
use std::time::Instant;

verus! {

#[verifier::external_type_specification]
#[verifier::external_body]
pub struct ExInstant(Instant);

/// Relies on `std::time::Instant::now`: an opaque reading of the monotonic
/// clock.  Nothing is promised of the value.
#[verifier::external_body]
pub fn now_instant() -> (t: Instant) {
    Instant::now()
}

/// Relies on `std::time::Instant::elapsed` and `Duration::as_millis`: the
/// whole milliseconds since `start`, saturated into a `u64`.  Nothing is
/// promised of the value.
#[verifier::external_body]
pub fn millis_since(start: &Instant) -> (ms: u64) {
    let m = start.elapsed().as_millis();
    if m > u64::MAX as u128 {
        u64::MAX
    } else {
        m as u64
    }
}

} // verus!
