//! The current instant, read from the system clock.

use std::time::{Duration, SystemTime, SystemTimeError};
use vstd::prelude::*;

verus! {

/// `std::time::SystemTime`, a reading of the system clock.
#[verifier::external_type_specification]
#[verifier::external_body]
pub struct ExSystemTime(SystemTime);

/// `std::time::SystemTimeError`, the answer of `SystemTime::duration_since` when
/// the earlier instant is in truth the later one.
#[verifier::external_type_specification]
#[verifier::external_body]
pub struct ExSystemTimeError(SystemTimeError);

/// `SystemTime::now` reads the clock. Nothing is claimed of the reading: two
/// calls may differ.
pub assume_specification[ std::time::SystemTime::now ]() -> (reading: SystemTime)
;

/// What `SystemTime::duration_since` gives for a reading and the Unix epoch: the
/// span from the epoch to the reading, or as an error what tells the span from
/// the reading to the epoch. It depends on the reading alone.
pub uninterp spec fn since_epoch(reading: SystemTime) -> Result<Duration, SystemTimeError>;

/// What `SystemTimeError::duration` gives: the span by which the second instant
/// was the later one. It depends on the error alone.
pub uninterp spec fn lag_of(error: SystemTimeError) -> Duration;

/// What `Duration::as_nanos` gives: the span in whole nanoseconds. It depends on
/// the span alone.
pub uninterp spec fn nanos_of(span: Duration) -> u128;

/// `SystemTime::duration_since` with `std::time::UNIX_EPOCH` for the earlier
/// instant. The contract names the result and claims nothing else of it.
#[verifier::external_body]
fn span_since_epoch(reading: &SystemTime) -> (span: Result<Duration, SystemTimeError>)
    ensures
        span == since_epoch(*reading),
{
    reading.duration_since(std::time::UNIX_EPOCH)
}

/// `SystemTimeError::duration`. The contract names the result and claims nothing
/// else of it.
pub assume_specification[ std::time::SystemTimeError::duration ](
    error: &SystemTimeError,
) -> (span: Duration)
    ensures
        span == lag_of(*error),
;

/// `Duration::as_nanos`. The contract names the result and claims nothing else
/// of it.
pub assume_specification[ std::time::Duration::as_nanos ](span: &Duration) -> (nanos: u128)
    ensures
        nanos == nanos_of(*span),
;

/// The instant `nanos` nanoseconds after the epoch, or before it if `before`
/// holds. A span too long for an instant gives the last instant, or the first.
pub open spec fn instant_of(nanos: u128, before: bool) -> i128 {
    if before {
        if nanos > i128::MAX as u128 {
            i128::MIN
        } else {
            (-(nanos as int)) as i128
        }
    } else {
        if nanos > i128::MAX as u128 {
            i128::MAX
        } else {
            nanos as i128
        }
    }
}

/// Computes [`instant_of`].
pub fn to_instant(nanos: u128, before: bool) -> (instant: i128)
    ensures
        instant == instant_of(nanos, before),
{
    if nanos > i128::MAX as u128 {
        if before {
            i128::MIN
        } else {
            i128::MAX
        }
    } else if before {
        -(nanos as i128)
    } else {
        nanos as i128
    }
}

/// The instant of a reading of the system clock: its distance from the Unix
/// epoch in nanoseconds, negative if the reading lies before the epoch.
pub open spec fn instant_at(reading: SystemTime) -> i128 {
    match since_epoch(reading) {
        Ok(after) => instant_of(nanos_of(after), false),
        Err(error) => instant_of(nanos_of(lag_of(error)), true),
    }
}

/// Computes [`instant_at`].
pub fn instant(reading: SystemTime) -> (at: i128)
    ensures
        at == instant_at(reading),
{
    match span_since_epoch(&reading) {
        Ok(after) => to_instant(after.as_nanos(), false),
        Err(error) => to_instant(error.duration().as_nanos(), true),
    }
}

/// The current instant: the instant of a reading of the system clock taken
/// during the call. Which reading that is no contract can say.
pub fn current_instant() -> (at: i128)
    ensures
        exists|reading: SystemTime| at == #[trigger] instant_at(reading),
{
    instant(SystemTime::now())
}

} // verus!
