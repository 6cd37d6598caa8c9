//! The clock that instants are read from.
//!
//! The store and the session take the instant of each call as an argument, a
//! count of milliseconds. This clock is where a server gets that count: the
//! milliseconds that have passed since the clock was started.

use std::time::Duration;
use std::time::Instant;
use vstd::prelude::*;

verus! {

/// `std::time::Instant`: a reading of the machine's monotonic clock, of
/// which nothing is known here but that it can be handed on.
#[verifier::external_type_specification]
#[verifier::external_body]
pub struct ExInstant(Instant);

/// `Instant::now`: a reading of the machine's monotonic clock. Nothing is
/// claimed of the reading.
#[verifier::external_body]
fn read_instant() -> (reading: Instant) {
    Instant::now()
}

/// `Instant::saturating_duration_since`: the time from `earlier` to `later`,
/// or no time where `later` is the earlier one. Nothing is claimed of the
/// result.
#[verifier::external_body]
fn time_between(earlier: &Instant, later: &Instant) -> (span: Duration) {
    later.saturating_duration_since(*earlier)
}

/// `Duration::as_millis`: the whole milliseconds of a span of time. Nothing
/// is claimed of the result.
#[verifier::external_body]
fn whole_millis(span: &Duration) -> (millis: u128) {
    span.as_millis()
}

/// A clock that counts milliseconds from the moment it was started.
pub struct Clock {
    started: Instant,
}

impl Clock {
    /// Starts a clock.
    pub fn start() -> Clock {
        Clock { started: read_instant() }
    }

    /// The milliseconds since the clock was started, or the largest count
    /// where they no longer fit in 64 bits.
    pub fn now(&self) -> u64 {
        let reading = read_instant();
        let span = time_between(&self.started, &reading);
        let millis: u128 = whole_millis(&span);
        count_of(millis)
    }
}

/// The count that stands for a number of milliseconds: the number itself,
/// or the largest count where the number does not fit in 64 bits.
pub open spec fn saturated(millis: u128) -> u64 {
    if millis > u64::MAX {
        u64::MAX
    } else {
        millis as u64
    }
}

/// Cuts a number of milliseconds to a count of 64 bits. This is all that the
/// clock does to what the machine reports.
pub fn count_of(millis: u128) -> (count: u64)
    ensures
        count == saturated(millis),
{
    if millis > u64::MAX as u128 {
        u64::MAX
    } else {
        millis as u64
    }
}

} // verus!
