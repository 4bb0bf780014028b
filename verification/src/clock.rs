//! Wall-clock and monotonic time, read through std.

use std::time::{Instant, SystemTime, UNIX_EPOCH};
use vstd::prelude::*;

verus! {

#[verifier::external_type_specification]
#[verifier::external_body]
pub struct ExInstant(Instant);

/// Calls `SystemTime::now` and gives the milliseconds since the Unix epoch
/// (0 before it). Nothing is claimed of the value: it is the time.
#[verifier::external_body]
pub fn unix_ms() -> u64 {
    SystemTime::now().duration_since(UNIX_EPOCH).map(|d| d.as_millis() as u64).unwrap_or(0)
}

/// Calls `SystemTime::now` and gives the seconds since the Unix epoch (0
/// before it). Nothing is claimed of the value: it is the time.
#[verifier::external_body]
pub(crate) fn now_secs() -> u64 {
    SystemTime::now().duration_since(UNIX_EPOCH).map(|d| d.as_secs()).unwrap_or(0)
}

/// Calls `Instant::now`. Nothing is claimed: it is the time.
#[verifier::external_body]
pub(crate) fn instant_now() -> Instant {
    Instant::now()
}

/// Calls `Instant::elapsed` and gives it in milliseconds. Nothing is claimed
/// of the value: it is the time.
#[verifier::external_body]
pub(crate) fn elapsed_ms(since: &Instant) -> u64 {
    since.elapsed().as_millis() as u64
}

} // verus!
