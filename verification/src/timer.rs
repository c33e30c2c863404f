//! A timer that starts "ringing" once its duration has elapsed.
use vstd::prelude::*;
use std::time::{Duration, Instant};
use crate::clock::{instant_now, instant_checked_add, instant_at_or_after};

verus! {

/// A Timer with a given duration after which it will enter into a "Ringing" state. The
/// Timer can be reset at an given time, or manually set to start "Ringing" again.
pub struct Timer {
    duration: Duration,
    target: Instant,
}

/// The instant `duration` from now; where the clock cannot represent it, now.
fn deadline(duration: Duration) -> Instant {
    let now = instant_now();
    match instant_checked_add(now, duration) {
        Some(t) => t,
        None => now,
    }
}

impl Timer {
    /// The duration the timer waits for.
    pub closed spec fn spec_duration(&self) -> Duration {
        self.duration
    }

    /// Creates a new Timer with a given Duration.
    pub fn new(duration: Duration) -> (r: Self)
        ensures
            r.spec_duration() == duration,
    {
        Self { target: deadline(duration), duration }
    }

    /// Creates a new, expired Timer with a given Duration.
    pub fn new_ringing(duration: Duration) -> (r: Self)
        ensures
            r.spec_duration() == duration,
    {
        Self { target: instant_now(), duration }
    }

    /// Resets the Timer to stop ringing and wait till its duration has elapsed again.
    pub fn reset(&mut self)
        ensures
            final(self).spec_duration() == old(self).spec_duration(),
    {
        self.target = deadline(self.duration);
    }

    /// Whether the Timer is "Ringing": the duration has elapsed since the last reset.
    pub fn ringing(&self) -> bool {
        let now = instant_now();
        instant_at_or_after(&now, &self.target)
    }

    /// Manually causes the Timer to enter into a "Ringing" state.
    pub fn ring_manual(&mut self)
        ensures
            final(self).spec_duration() == old(self).spec_duration(),
    {
        self.target = instant_now();
    }

    /// Returns whether the timer is ringing, and resets it if it is; a timer that is not
    /// ringing is left as it was.
    pub fn try_reset(&mut self) -> (r: bool)
        ensures
            final(self).spec_duration() == old(self).spec_duration(),
            !r ==> *final(self) == *old(self),
    {
        if self.ringing() {
            self.reset();
            true
        } else {
            false
        }
    }
}

} // verus!
