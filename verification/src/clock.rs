use std::time::Instant;
use vstd::prelude::*;

verus! {

/// A moment on the clock, `std::time::Instant`. Nothing is said of what it
/// holds.
#[verifier::external_type_specification]
#[verifier::external_body]
pub struct ExMoment(Instant);

/// Reads the clock with `std::time::Instant::now`. The contract claims
/// nothing of the moment that comes back.
#[verifier::external_body]
pub(crate) fn now() -> Instant {
    Instant::now()
}

/// The milliseconds that have passed since `start`, by
/// `std::time::Instant::elapsed`. The contract claims nothing of the number
/// that comes back.
#[verifier::external_body]
pub(crate) fn millis_since(start: &Instant) -> u128 {
    start.elapsed().as_millis()
}

} // verus!
