//! Instants as whole seconds and nanoseconds since the Unix epoch.

use std::time::SystemTime;
use std::time::SystemTimeError;
use core::time::Duration;
use vstd::prelude::*;

verus! {

/// Nanoseconds in one second.
pub const NANOS_PER_SEC: u32 = 1_000_000_000;

/// A point in time, counted from the Unix epoch.
#[derive(Clone, Copy, Debug, PartialEq, Eq, Structural)]
pub struct Timestamp {
    pub secs: u64,
    pub nanos: u32,
}

impl Timestamp {
    /// The nanosecond part is less than one second.
    pub open spec fn wf(self) -> bool {
        self.nanos < NANOS_PER_SEC
    }

    /// `self` is strictly later than `other`.
    pub open spec fn later_than(self, other: Timestamp) -> bool {
        self.secs > other.secs || (self.secs == other.secs && self.nanos > other.nanos)
    }

    /// The instant `secs` seconds and `nanos` nanoseconds after the epoch, with
    /// whole seconds in `nanos` carried over into the seconds.
    pub open spec fn carried(secs: u64, nanos: u32) -> Option<Timestamp> {
        if secs + nanos / NANOS_PER_SEC <= u64::MAX {
            Some(
                Timestamp {
                    secs: (secs + nanos / NANOS_PER_SEC) as u64,
                    nanos: nanos % NANOS_PER_SEC,
                },
            )
        } else {
            None
        }
    }

    /// Builds a timestamp, carrying whole seconds out of `nanos`. `None` when
    /// the seconds would not fit in 64 bits.
    pub fn new(secs: u64, nanos: u32) -> (res: Option<Timestamp>)
        ensures
            res == Timestamp::carried(secs, nanos),
            res is Some ==> res->0.wf(),
    {
        let carry: u64 = (nanos / NANOS_PER_SEC) as u64;
        if secs > u64::MAX - carry {
            None
        } else {
            Some(Timestamp { secs: secs + carry, nanos: nanos % NANOS_PER_SEC })
        }
    }

    /// Whether `self` is strictly later than `other`.
    pub fn is_after(&self, other: &Timestamp) -> (res: bool)
        ensures
            res == self.later_than(*other),
    {
        self.secs > other.secs || (self.secs == other.secs && self.nanos > other.nanos)
    }

    /// The current time of the system clock. `None` when the clock stands
    /// before the Unix epoch, which no timestamp can express.
    pub fn now() -> (res: Option<Timestamp>)
        ensures
            res is Some ==> res->0.wf(),
    {
        let since: Duration = match SystemTime::now().duration_since(unix_epoch()) {
            Ok(elapsed) => elapsed,
            Err(_) => {
                return None;
            },
        };
        Some(Timestamp { secs: since.as_secs(), nanos: since.subsec_nanos() })
    }
}

/// `std::time::SystemTime`, a reading of the system clock. Nothing is known
/// of what a value holds.
#[verifier::external_type_specification]
#[verifier::external_body]
pub struct ExSystemTime(SystemTime);

/// `std::time::SystemTimeError`, the error of `SystemTime::duration_since`.
/// Nothing is known of what a value holds.
#[verifier::external_type_specification]
#[verifier::external_body]
pub struct ExSystemTimeError(SystemTimeError);

/// `SystemTime::UNIX_EPOCH`, the instant that timestamps count from. Nothing
/// is claimed of the value.
#[verifier::external_body]
fn unix_epoch() -> SystemTime {
    SystemTime::UNIX_EPOCH
}

/// `SystemTime::now` reads the system clock. Nothing is claimed of the result.
pub assume_specification[ SystemTime::now ]() -> SystemTime;

/// `SystemTime::duration_since` gives the time elapsed since `earlier`, or an
/// error when `earlier` is the later of the two. Nothing is claimed of the
/// result.
pub assume_specification[ SystemTime::duration_since ](
    this: &SystemTime,
    earlier: SystemTime,
) -> Result<Duration, SystemTimeError>;

/// `Duration::as_secs` gives the whole seconds of a duration. Nothing is
/// claimed of the result.
pub assume_specification[ Duration::as_secs ](this: &Duration) -> u64;

/// `Duration::subsec_nanos` gives the fractional part of a duration in
/// nanoseconds, which std documents to be less than one second.
pub assume_specification[ Duration::subsec_nanos ](this: &Duration) -> (nanos: u32)
    ensures
        nanos < NANOS_PER_SEC,
;

} // verus!
