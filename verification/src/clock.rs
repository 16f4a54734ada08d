//! The wall clock, in whole seconds since the epoch.

use vstd::prelude::*;

verus! {

/// Reads the system's clock with `time::get_time` and hands out the seconds
/// of its `Timespec`. Nothing is claimed of the value: it is whatever the
/// clock says, and may differ from one call to the next.
#[verifier::external_body]
fn clock_seconds() -> (seconds: i64) {
    time::get_time().sec
}

/// The seconds since the epoch that a reading of the clock stands for: the
/// reading itself, unless it lies before the epoch.
pub fn since_epoch(reading: i64) -> (seconds: Option<u64>)
    ensures
        seconds == if reading >= 0 {
            Some(reading as u64)
        } else {
            None
        },
{
    if reading < 0 {
        None
    } else {
        Some(reading as u64)
    }
}

/// The present time in seconds since the epoch, or `None` where the clock
/// stands before the epoch.
pub fn epoch_seconds() -> (now: Option<u64>)
    ensures
        now matches Some(seconds) ==> seconds <= i64::MAX,
{
    since_epoch(clock_seconds())
}

} // verus!
