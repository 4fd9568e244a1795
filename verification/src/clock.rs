//! The wall clock.

use std::time::{Duration, SystemTime, SystemTimeError};
use vstd::prelude::*;

verus! {

/// `std::time::SystemTime`: a reading of the system clock.
#[verifier::external_type_specification]
#[verifier::external_body]
pub struct ExSystemTime(std::time::SystemTime);

/// `std::time::SystemTimeError`: a reading lies before the one it is measured from.
#[verifier::external_type_specification]
#[verifier::external_body]
pub struct ExSystemTimeError(std::time::SystemTimeError);

/// `SystemTime::now`. Nothing is claimed of the reading: it is the machine's.
pub assume_specification[ std::time::SystemTime::now ]() -> (r: SystemTime)
;

/// `Duration::as_secs`. Nothing is claimed of the result: the durations here come from the clock.
pub assume_specification[ std::time::Duration::as_secs ](d: &Duration) -> (r: u64)
;

/// `SystemTime::duration_since` the unix epoch. Nothing is claimed of the result: it depends on how
/// the machine's clock is set.
#[verifier::external_body]
fn since_epoch(t: SystemTime) -> (r: Result<Duration, SystemTimeError>) {
    t.duration_since(SystemTime::UNIX_EPOCH)
}

/// Unix seconds for a clock that shows `elapsed` seconds since the epoch, or a time before it, which
/// counts as the epoch itself.
pub fn secs_from_epoch(elapsed: Option<u64>) -> (r: u64)
    ensures
        r == (match elapsed {
            Some(secs) => secs,
            None => 0,
        }),
{
    match elapsed {
        Some(secs) => secs,
        None => 0,
    }
}

/// Current unix seconds, as [`secs_from_epoch`] counts them. Every reading is possible.
pub fn now_secs() -> u64 {
    match since_epoch(SystemTime::now()) {
        Ok(d) => secs_from_epoch(Some(d.as_secs())),
        Err(_) => secs_from_epoch(None),
    }
}

} // verus!
