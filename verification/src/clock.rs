//! Trusted access to the monotonic clock, for timing slices and methods.
//! Nothing is promised of the readings: contracts treat every duration as
//! arbitrary, and timings never influence results.

use std::time::Duration;
use std::time::Instant;

use vstd::prelude::*;

verus! {

#[verifier::external_type_specification]
#[verifier::external_body]
pub struct ExInstant(Instant);

/// Relies on `std::time::Instant::now`: a reading of the monotonic clock.
pub assume_specification[ Instant::now ]() -> Instant;

/// Relies on `std::time::Instant::elapsed`: the time since the reading.
pub assume_specification[ Instant::elapsed ](s: &Instant) -> Duration;

/// Relies on `std::time::Duration::as_nanos`; the count is truncated to
/// 64 bits.
#[verifier::external_body]
fn duration_nanos(d: &Duration) -> u64 {
    d.as_nanos() as u64
}

/// Nanoseconds elapsed since the clock reading `start`.
pub fn elapsed_nanos(start: &Instant) -> u64 {
    let d = start.elapsed();
    duration_nanos(&d)
}

} // verus!
