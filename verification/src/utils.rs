//! Clock access for observation timing.

use vstd::prelude::*;

use std::time::SystemTime;
use std::time::UNIX_EPOCH;

verus! {

/// Current Unix timestamp in milliseconds.
///
/// Relies on `std::time::SystemTime::now` for the wall clock; nothing is
/// assumed of the returned instant, and a clock before the epoch reads as
/// zero.
#[verifier::external_body]
pub fn current_time_ms() -> u64 {
    SystemTime::now()
        .duration_since(UNIX_EPOCH)
        .map(|d| d.as_millis() as u64)
        .unwrap_or(0)
}

} // verus!
