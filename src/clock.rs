//! The wall clock.

use vstd::prelude::*;
use std::time::{Duration, SystemTime};

verus! {

#[verifier::external_type_specification]
#[verifier::external_body]
pub struct ExSystemTime(std::time::SystemTime);

/// Relies on `std::time::SystemTime::now`: nothing is promised of the
/// reading.
#[verifier::external_body]
fn system_now() -> SystemTime {
    SystemTime::now()
}

/// Relies on `SystemTime::duration_since`, measured from the Unix epoch:
/// `None` where `t` is earlier.
#[verifier::external_body]
fn since_epoch(t: &SystemTime) -> Option<Duration> {
    match t.duration_since(std::time::UNIX_EPOCH) {
        Ok(d) => Some(d),
        Err(_) => None,
    }
}

/// Relies on `Duration::as_millis`: the whole milliseconds of `d`.
#[verifier::external_body]
fn duration_millis(d: &Duration) -> u128 {
    d.as_millis()
}

/// Milliseconds since the Unix epoch as a `u64`, from a clock reading:
/// zero where the clock reads earlier than the epoch (`None`), `u64::MAX`
/// where the count does not fit.
pub fn epoch_millis(reading: Option<u128>) -> (r: u64)
    ensures
        r == (match reading {
            None => 0,
            Some(ms) => if ms > u64::MAX {
                u64::MAX
            } else {
                ms as u64
            },
        }),
{
    match reading {
        Some(ms) => if ms > u64::MAX as u128 {
            u64::MAX
        } else {
            ms as u64
        },
        None => 0,
    }
}

/// Milliseconds since the Unix epoch by the system clock; see
/// [`epoch_millis`].
pub fn current_time_ms() -> u64 {
    let now = system_now();
    let reading = match since_epoch(&now) {
        Some(d) => Some(duration_millis(&d)),
        None => None,
    };
    epoch_millis(reading)
}

} // verus!
