//! Time: spans, and the clocks that measure them.

use std::time::{Instant, SystemTime};
use vstd::prelude::*;

verus! {

/// Nanoseconds in a second.
pub const NANOS_PER_SEC: u64 = 1_000_000_000;

/// Nanoseconds in a millisecond.
pub const NANOS_PER_MILLI: u64 = 1_000_000;

/// A span of time.
#[derive(Debug, Clone, Copy, PartialEq, Eq, Structural)]
pub struct Duration {
    pub nanos: u128,
}

impl Duration {
    /// A span of whole seconds.
    pub fn from_secs(secs: u64) -> (r: Duration)
        ensures
            r.nanos == secs * NANOS_PER_SEC,
    {
        Duration { nanos: secs as u128 * 1_000_000_000 }
    }

    /// A span of whole milliseconds.
    pub fn from_millis(millis: u64) -> (r: Duration)
        ensures
            r.nanos == millis * NANOS_PER_MILLI,
    {
        Duration { nanos: millis as u128 * 1_000_000 }
    }
}

#[verifier::external_type_specification]
#[verifier::external_body]
pub struct ExInstant(std::time::Instant);

/// `Instant::now`: the reading of the monotonic clock. Nothing is promised of it.
#[verifier::external_body]
fn instant_now() -> Instant {
    Instant::now()
}

/// `Instant::elapsed`, in nanoseconds: how long ago the instant was. Nothing is
/// promised of it, since it depends on when it is asked.
#[verifier::external_body]
fn nanos_since(origin: &Instant) -> u64 {
    origin.elapsed().as_nanos() as u64
}

#[verifier::external_type_specification]
#[verifier::external_body]
pub struct ExSystemTime(std::time::SystemTime);

/// `SystemTime::now`: the reading of the system clock. Nothing is promised of it.
#[verifier::external_body]
fn system_now() -> SystemTime {
    SystemTime::now()
}

/// `SystemTime::duration_since` the Unix epoch, in whole seconds; nothing where the time
/// is before it. Nothing is promised of the number, since a time holds nothing that can
/// be spoken of.
#[verifier::external_body]
fn secs_since_epoch(time: &SystemTime) -> Option<u64> {
    time.duration_since(std::time::UNIX_EPOCH).ok().map(|d| d.as_secs())
}

/// The 32 bits in which signatures tell seconds since the Unix epoch; 0 for a time before
/// it.
pub fn epoch_field(secs: Option<u64>) -> (r: u32)
    ensures
        r == (match secs {
            Some(s) => s % 0x1_0000_0000,
            None => 0,
        }),
{
    match secs {
        Some(s) => (s % 0x1_0000_0000) as u32,
        None => 0,
    }
}

/// The seconds since the Unix epoch, by the system clock.
pub(crate) fn unix_seconds() -> u32 {
    epoch_field(secs_since_epoch(&system_now()))
}

/// A clock that counts the nanoseconds since it was made.
#[derive(Debug)]
pub struct Clock {
    origin: Instant,
}

impl Clock {
    /// Starts a clock.
    pub fn start() -> Clock {
        Clock { origin: instant_now() }
    }

    /// The nanoseconds since the clock was started.
    pub fn now(&self) -> u64 {
        nanos_since(&self.origin)
    }
}

} // verus!
