//! Readings of the monotonic clock, used only for the stage timings that a
//! bootstrapping context reports.
use std::time::{Duration, Instant};
use vstd::prelude::*;

verus! {

/// `std::time::Instant`, a reading of the monotonic clock, carried through
/// opaquely.
#[verifier::external_type_specification]
#[verifier::external_body]
pub struct ExInstant(Instant);

/// `std::time::Instant::now`: the current reading of the monotonic clock.
/// Nothing is stated of the reading.
#[verifier::external_body]
pub(crate) fn instant_now() -> Instant {
    Instant::now()
}

/// `std::time::Instant::elapsed`: the time since `start`. Nothing is stated
/// of it, since it depends on the clock.
#[verifier::external_body]
pub(crate) fn instant_elapsed(start: &Instant) -> Duration {
    start.elapsed()
}

/// `std::time::Duration::as_nanos`: the whole nanoseconds of a duration.
/// Nothing is stated of it, since a duration is opaque here.
#[verifier::external_body]
pub(crate) fn duration_nanos(duration: &Duration) -> u128 {
    duration.as_nanos()
}

/// Nanoseconds elapsed since `start`, saturated to `u64`.
pub(crate) fn elapsed_nanos(start: &Instant) -> u64 {
    let nanos = duration_nanos(&instant_elapsed(start));
    if nanos > u64::MAX as u128 {
        u64::MAX
    } else {
        nanos as u64
    }
}

} // verus!
