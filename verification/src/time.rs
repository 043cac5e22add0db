//! The wall clock, read as time since the Unix epoch. A clock that reads a time
//! before the epoch gives no reading.
use vstd::prelude::*;
use std::time::{Duration, SystemTime, UNIX_EPOCH};

use crate::bytes::{u64_le_bytes, u64_to_le};

verus! {

/// A point in time of the system clock (`std::time::SystemTime`), carried as is.
#[verifier::external_type_specification]
#[verifier::external_body]
pub struct ExSystemTime(SystemTime);

/// The current time of the system clock (`SystemTime::now`).
/// Trusted; nothing is promised of the value, which depends on the clock.
#[verifier::external_body]
fn system_now() -> SystemTime {
    SystemTime::now()
}

/// The time elapsed from the Unix epoch to `t` (`SystemTime::duration_since`),
/// or nothing when `t` lies before the epoch (the call's error, dropped).
/// Trusted; nothing is stated of the value.
#[verifier::external_body]
fn since_epoch(t: &SystemTime) -> Option<Duration> {
    t.duration_since(UNIX_EPOCH).ok()
}

/// The time elapsed since the Unix epoch, or nothing when the clock reads a time
/// before the epoch.
pub fn now() -> Option<Duration> {
    let t = system_now();
    since_epoch(&t)
}

/// The whole seconds of a duration (`Duration::as_secs`).
/// Trusted; nothing is stated of the value.
#[verifier::external_body]
fn secs_of(d: &Duration) -> u64 {
    d.as_secs()
}

/// The fractional part of a duration in nanoseconds (`Duration::subsec_nanos`).
/// Trusted: as its documentation says, it is less than one billion.
#[verifier::external_body]
fn subsec_nanos_of(d: &Duration) -> (r: u32)
    ensures
        r < 1_000_000_000,
{
    d.subsec_nanos()
}

/// The whole milliseconds of a duration of `secs` seconds and `nanos` nanoseconds.
pub open spec fn millis(secs: u64, nanos: u32) -> int {
    secs * 1000 + nanos / 1_000_000
}

/// Read at one clock reading, the milliseconds divided by 1000 are its seconds.
pub proof fn lemma_millis_secs(secs: u64, nanos: u32)
    requires
        nanos < 1_000_000_000,
    ensures
        millis(secs, nanos) / 1000 == secs,
        millis(secs, nanos) % 1000 == nanos / 1_000_000,
{
}

/// The whole milliseconds of a duration of `secs` seconds and `nanos` nanoseconds
/// (`nanos` below one billion), as `Duration::as_millis` counts them.
pub fn millis_of(secs: u64, nanos: u32) -> (r: u128)
    requires
        nanos < 1_000_000_000,
    ensures
        r == millis(secs, nanos),
{
    secs as u128 * 1000 + (nanos / 1_000_000) as u128
}

/// Milliseconds since the Unix epoch: `millis_of` the seconds and nanoseconds of the
/// clock reading; nothing before the epoch.
pub fn ms() -> (r: Option<u128>)
    ensures
        r matches Some(m) ==> exists|secs: u64, nanos: u32| nanos < 1_000_000_000 && m == millis(secs, nanos),
{
    match now() {
        Some(d) => {
            let secs = secs_of(&d);
            let nanos = subsec_nanos_of(&d);
            Some(millis_of(secs, nanos))
        },
        None => None,
    }
}

/// Seconds since the Unix epoch; nothing before the epoch.
pub fn sec() -> Option<u64> {
    match now() {
        Some(d) => Some(secs_of(&d)),
        None => None,
    }
}

/// Seconds since the Unix epoch, as 8 bytes, least significant first; nothing
/// before the epoch.
pub fn sec_to_bytes() -> (r: Option<[u8; 8]>)
    ensures
        r matches Some(b) ==> exists|s: u64| b@ == u64_le_bytes(s),
{
    match sec() {
        Some(s) => Some(u64_to_le(s)),
        None => None,
    }
}

} // verus!
