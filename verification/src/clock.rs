//! Readings of the monotonic clock.

use vstd::prelude::*;

verus! {

/// `std::time::Instant`, which stays opaque.
#[verifier::external_type_specification]
#[verifier::external_body]
pub struct ExInstant(std::time::Instant);

/// `std::time::Instant::now`: nothing is promised of the instant.
#[verifier::external_body]
fn instant_now() -> std::time::Instant {
    std::time::Instant::now()
}

/// `std::time::Instant::elapsed`, in nanoseconds: nothing is promised of the
/// time that has passed.
#[verifier::external_body]
fn instant_elapsed(origin: &std::time::Instant) -> u64 {
    origin.elapsed().as_nanos() as u64
}

/// `std::time::SystemTime::now` and `duration_since` the Unix epoch, in
/// milliseconds: nothing is promised of the time; there is none if the system
/// clock is set before the epoch.
#[verifier::external_body]
pub(crate) fn unix_millis() -> Option<u64> {
    match std::time::SystemTime::now().duration_since(std::time::UNIX_EPOCH) {
        Ok(d) => Some(d.as_millis() as u64),
        Err(_) => None,
    }
}

/// A clock that counts from the moment it was made.
#[derive(Clone, Copy)]
pub struct Clock {
    origin: std::time::Instant,
}

impl Clock {
    /// A clock that starts now.
    pub fn start() -> Self {
        Clock { origin: instant_now() }
    }

    /// Nanoseconds since the clock was started.
    pub fn now(&self) -> u64 {
        instant_elapsed(&self.origin)
    }
}

} // verus!
