//! The system clock, read in whole seconds of Unix time.

use std::time::{Duration, SystemTime, SystemTimeError, UNIX_EPOCH};
use vstd::prelude::*;

verus! {

/// `std::time::SystemTime`, a reading of the system clock. Nothing is known
/// of what a value holds.
#[verifier::external_type_specification]
#[verifier::external_body]
pub struct ExSystemTime(SystemTime);

/// `std::time::SystemTimeError`, the error of `SystemTime::duration_since`.
/// Nothing is known of what a value holds.
#[verifier::external_type_specification]
#[verifier::external_body]
pub struct ExSystemTimeError(SystemTimeError);

/// The start of Unix time: the constant `std::time::UNIX_EPOCH`. Nothing is
/// claimed of it.
#[verifier::external_body]
fn unix_epoch() -> SystemTime {
    UNIX_EPOCH
}

/// `SystemTime::now` of std reads the clock. Nothing is claimed of the
/// reading.
pub assume_specification[ SystemTime::now ]() -> SystemTime;

/// `SystemTime::duration_since` of std gives the time from `earlier` to
/// `time`, or an error that holds how far `time` lies before `earlier`.
/// Nothing is claimed of either.
pub assume_specification[ SystemTime::duration_since ](
    time: &SystemTime,
    earlier: SystemTime,
) -> Result<Duration, SystemTimeError>;

/// `Duration::as_secs` of std gives the whole seconds of a duration. Nothing
/// is claimed of the number.
pub assume_specification[ Duration::as_secs ](duration: &Duration) -> u64;

/// `SystemTimeError::duration` of std gives how far the later of two times
/// lay before the earlier. Nothing is claimed of the duration.
pub assume_specification[ SystemTimeError::duration ](error: &SystemTimeError) -> Duration;

/// The clock's reading as a time stamp: what `to_time_stamp` makes of what the
/// clock says. The clock decides the value, so nothing is stated of it here.
pub fn unix_time() -> i64 {
    let now = SystemTime::now();
    match now.duration_since(unix_epoch()) {
        Ok(since) => {
            let secs = since.as_secs();
            to_time_stamp(false, secs)
        },
        Err(before) => {
            let secs = before.duration().as_secs();
            to_time_stamp(true, secs)
        },
    }
}

/// The time stamp of a moment that lies `secs` whole seconds from the start of
/// Unix time, after it or before it: the seconds, counted as negative before
/// the start, and held at the nearest end of the range of `i64` beyond it.
pub open spec fn time_stamp_of(before_epoch: bool, secs: u64) -> i64 {
    if secs > i64::MAX {
        if before_epoch {
            i64::MIN
        } else {
            i64::MAX
        }
    } else if before_epoch {
        (0 - secs) as i64
    } else {
        secs as i64
    }
}

/// Turns a distance from the start of Unix time into a time stamp.
pub fn to_time_stamp(before_epoch: bool, secs: u64) -> (time_stamp: i64)
    ensures
        time_stamp == time_stamp_of(before_epoch, secs),
{
    if secs > i64::MAX as u64 {
        if before_epoch {
            i64::MIN
        } else {
            i64::MAX
        }
    } else if before_epoch {
        -(secs as i64)
    } else {
        secs as i64
    }
}

} // verus!
