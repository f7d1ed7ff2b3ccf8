//! The engine's time source.

use std::time::SystemTime;
use std::time::UNIX_EPOCH;
use vstd::prelude::*;

verus! {

/// Milliseconds since the Unix epoch, read from the system clock.
///
/// Relies on `std::time::SystemTime::now` and
/// `SystemTime::duration_since(UNIX_EPOCH)`. The clock is outside the
/// verified logic, so nothing is stated about the result; a clock set
/// before the epoch yields 0 rather than a panic.
#[verifier::external_body]
pub fn get_epoch_ms() -> i64 {
    match SystemTime::now().duration_since(UNIX_EPOCH) {
        Ok(d) => d.as_millis() as i64,
        Err(_) => 0,
    }
}

} // verus!
