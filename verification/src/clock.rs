//! The wall clock, in whole seconds since the Unix epoch.

use std::time::{Duration, SystemTime, UNIX_EPOCH};
use vstd::prelude::*;

verus! {

/// `std::time::SystemTime`, a reading of the system clock; nothing is known of
/// what it holds.
#[verifier::external_type_specification]
#[verifier::external_body]
pub struct ExSystemTime(SystemTime);

/// `SystemTime::now`: the current reading of the system clock.
#[verifier::external_body]
pub(crate) fn system_now() -> SystemTime {
    SystemTime::now()
}

/// `SystemTime::duration_since` the Unix epoch: the time elapsed since the
/// epoch, or nothing if the clock reads earlier than the epoch.
#[verifier::external_body]
pub(crate) fn since_epoch(t: &SystemTime) -> Option<Duration> {
    t.duration_since(UNIX_EPOCH).ok()
}

/// `Duration::as_secs`: the whole seconds of a duration.
#[verifier::external_body]
pub(crate) fn whole_seconds(d: &Duration) -> u64 {
    d.as_secs()
}

/// Seconds since the Unix epoch; zero if the clock reads earlier.
pub fn unix_now() -> u64 {
    let t = system_now();
    match since_epoch(&t) {
        Some(d) => whole_seconds(&d),
        None => 0,
    }
}

} // verus!
