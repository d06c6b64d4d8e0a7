//! The wall clock.
use vstd::prelude::*;

verus! {

/// Milliseconds since the Unix epoch, zero if the clock is before it
/// (std's `SystemTime::now`, measured from `UNIX_EPOCH`).
///
/// Trusted, and nothing is stated of the result: it depends on the time.
#[verifier::external_body]
pub(crate) fn unix_millis() -> u128 {
    std::time::SystemTime::now().duration_since(std::time::UNIX_EPOCH).unwrap_or_default().as_millis()
}

} // verus!
