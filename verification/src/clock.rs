//! The monotonic clock, whose readings the library carries but never inspects.
use vstd::prelude::*;
use std::time::{Duration, Instant};

verus! {

#[verifier::external_type_specification]
#[verifier::external_body]
pub struct ExInstant(std::time::Instant);

/// Calls `Instant::now`. What it returns depends on the time, so nothing is promised of
/// it.
#[verifier::external_body]
pub(crate) fn instant_now() -> Instant {
    Instant::now()
}

/// Calls `Instant::checked_add`: the instant `d` after `i`, or `None` where the clock
/// cannot represent it. Which of the two comes back depends on the platform's clock, so
/// nothing is promised of it.
#[verifier::external_body]
pub(crate) fn instant_checked_add(i: Instant, d: Duration) -> Option<Instant> {
    i.checked_add(d)
}

/// Compares two instants with `>=`. Instants are opaque here, so nothing is promised of
/// the result.
#[verifier::external_body]
pub(crate) fn instant_at_or_after(a: &Instant, b: &Instant) -> bool {
    *a >= *b
}

} // verus!

verus! {

/// Calls `Instant::elapsed`: the time since `i`. It depends on the clock, so nothing is
/// promised of it.
#[verifier::external_body]
pub(crate) fn instant_elapsed(i: &Instant) -> Duration {
    i.elapsed()
}

/// Calls `Duration::as_nanos`. A duration is opaque here, so nothing is promised of the
/// number.
#[verifier::external_body]
pub(crate) fn duration_as_nanos(d: Duration) -> u128 {
    d.as_nanos()
}

} // verus!
