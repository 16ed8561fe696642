//! Reading the monotonic clock.
use vstd::prelude::*;

verus! {

#[verifier::external_type_specification]
#[verifier::external_body]
pub struct ExInstant(std::time::Instant);

/// Relies on `Instant::now`: a reading of the monotonic clock. Nothing is
/// known of the value.
pub assume_specification[ std::time::Instant::now ]() -> std::time::Instant;

/// Relies on `Instant` being `Copy`: a clone is the same reading.
pub assume_specification[ <std::time::Instant as Clone>::clone ](this: &std::time::Instant) -> (r: std::time::Instant)
    ensures
        r == *this,
;

/// Relies on `Instant::elapsed`: the time passed since the reading. Nothing is
/// known of the value.
pub assume_specification[ std::time::Instant::elapsed ](this: &std::time::Instant) -> core::time::Duration;

/// Relies on `Duration::as_millis`: the whole milliseconds of a duration. Nothing
/// is known of the value.
pub assume_specification[ core::time::Duration::as_millis ](this: &core::time::Duration) -> u128;

/// Milliseconds passed since `origin`, saturated to the range of `u64`.
pub fn millis_since(origin: &std::time::Instant) -> (r: u64) {
    let ms: u128 = origin.elapsed().as_millis();
    if ms > u64::MAX as u128 {
        u64::MAX
    } else {
        ms as u64
    }
}

} // verus!
