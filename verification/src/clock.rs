//! The wall clock that bounds a contraction, taken on trust from `std`.

use std::time::Duration;
use std::time::Instant;
use vstd::prelude::*;

verus! {

/// `std::time::Instant`, a reading of the clock. Verus sees nothing inside.
#[verifier::external_type_specification]
#[verifier::external_body]
pub struct ExInstant(Instant);

/// `Instant::now`: the clock as it reads now. Nothing is claimed of it.
#[verifier::external_body]
pub(crate) fn start_clock() -> (start: Instant) {
    Instant::now()
}

/// `Instant::elapsed`: the time that has passed since `start`. Nothing is
/// claimed of it.
#[verifier::external_body]
pub(crate) fn elapsed_since(start: &Instant) -> (passed: Duration) {
    start.elapsed()
}

/// The order of `Duration`: whether `passed` is longer than `budget`.
/// Nothing is claimed of the answer.
#[verifier::external_body]
pub(crate) fn is_longer(passed: &Duration, budget: &Duration) -> (longer: bool) {
    passed.gt(budget)
}

} // verus!
