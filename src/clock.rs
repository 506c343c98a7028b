//! Wall-clock time in milliseconds.
use vstd::prelude::*;
use std::time::{Duration, SystemTime, SystemTimeError, UNIX_EPOCH};

verus! {

#[verifier::external_type_specification]
#[verifier::external_body]
pub struct ExSystemTime(std::time::SystemTime);

#[verifier::external_type_specification]
#[verifier::external_body]
pub struct ExSystemTimeError(std::time::SystemTimeError);

/// Relies on `SystemTime::now`: the current time of the system clock.
#[verifier::external_body]
fn system_now() -> SystemTime {
    SystemTime::now()
}

/// Relies on `SystemTime::duration_since`: the time elapsed since the Unix
/// epoch, or an error where the clock reads earlier than the epoch.
#[verifier::external_body]
fn since_epoch(t: &SystemTime) -> Result<Duration, SystemTimeError> {
    t.duration_since(UNIX_EPOCH)
}

/// Relies on `Duration::as_millis`: the whole milliseconds of a duration,
/// that is its whole seconds (at most `u64::MAX`) times 1000 plus the whole
/// milliseconds of its sub-second part (below 1000).
#[verifier::external_body]
fn whole_millis(d: &Duration) -> (r: u128)
    ensures
        r < (u64::MAX as u128 + 1) * 1000,
{
    d.as_millis()
}

/// Milliseconds since the Unix epoch, or `None` where the system clock reads
/// earlier than the epoch. Any reading fits the range of a `Duration`.
pub fn millis_since_epoch() -> (r: Option<u128>)
    ensures
        r matches Some(m) ==> m < (u64::MAX as u128 + 1) * 1000,
{
    let start = system_now();
    match since_epoch(&start) {
        Ok(d) => Some(whole_millis(&d)),
        Err(_) => None,
    }
}

} // verus!
