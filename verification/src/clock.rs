//! The system clock, read as a count since the Unix epoch.
//!
//! Nothing is claimed of what the clock says: every function that reads it
//! has a twin that takes the time as an argument and is specified exactly.

use std::time::{Duration, SystemTime, SystemTimeError, UNIX_EPOCH};
use vstd::prelude::*;

verus! {

/// `std::time::SystemTime`, carried through as an opaque value.
#[verifier::external_type_specification]
#[verifier::external_body]
pub struct ExSystemTime(SystemTime);

/// `std::time::SystemTimeError`, carried through as an opaque value.
#[verifier::external_type_specification]
#[verifier::external_body]
pub struct ExSystemTimeError(SystemTimeError);

/// Trusted: `SystemTime::now` returns; nothing is claimed of the value.
pub assume_specification[ SystemTime::now ]() -> (now: SystemTime);

/// Trusted: `SystemTime::duration_since` returns; nothing is claimed of the
/// value.
pub assume_specification[ SystemTime::duration_since ](
    time: &SystemTime,
    earlier: SystemTime,
) -> (outcome: Result<Duration, SystemTimeError>);

/// Trusted: `Duration::as_nanos` returns; nothing is claimed of the value.
pub assume_specification[ Duration::as_nanos ](span: &Duration) -> (nanos: u128);

/// Trusted: hands out the constant `std::time::UNIX_EPOCH`.
#[verifier::external_body]
pub(crate) fn unix_epoch() -> (epoch: SystemTime) {
    UNIX_EPOCH
}

/// Nanoseconds in a millisecond.
pub const NANOS_PER_MILLI: u128 = 1_000_000;

/// Nanoseconds since the Unix epoch; zero if the clock is set before it.
pub(crate) fn unix_nanos() -> (now: u128) {
    nanos_of(SystemTime::now().duration_since(unix_epoch()))
}

/// Milliseconds since the Unix epoch, as `millis_of` counts them: held at
/// `u64::MAX` should they ever exceed it, and zero if the clock is set
/// before the epoch.
///
/// Nothing is claimed of the value, which is the clock's to give.
pub(crate) fn unix_millis() -> (now: u64) {
    millis_from_nanos(unix_nanos())
}

/// The nanoseconds that a reading of the clock stands for: those of the
/// span since the epoch, and zero where the clock is set before the epoch.
pub(crate) fn nanos_of(outcome: Result<Duration, SystemTimeError>) -> (nanos: u128)
    ensures
        outcome is Err ==> nanos == 0,
{
    match outcome {
        Ok(passed) => passed.as_nanos(),
        Err(_) => 0,
    }
}

/// The whole milliseconds in a count of nanoseconds, held at `u64::MAX`
/// where they exceed it.
pub open spec fn millis_of(nanos: u128) -> u64 {
    if nanos / NANOS_PER_MILLI > u64::MAX {
        u64::MAX
    } else {
        (nanos / NANOS_PER_MILLI) as u64
    }
}

/// The whole milliseconds in a count of nanoseconds, held at `u64::MAX`
/// where they exceed it.
pub fn millis_from_nanos(nanos: u128) -> (millis: u64)
    ensures
        millis == millis_of(nanos),
{
    let millis: u128 = nanos / NANOS_PER_MILLI;
    if millis > 0xffff_ffff_ffff_ffff {
        u64::MAX
    } else {
        millis as u64
    }
}

} // verus!
