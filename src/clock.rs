//! The wall clock, in milliseconds.
use vstd::prelude::*;

verus! {

/// Relies on SystemTime::now and UNIX_EPOCH: milliseconds since the epoch,
/// 0 if the clock is set before it. Nothing is promised of the value.
#[verifier::external_body]
pub(crate) fn now_millis() -> (r: u64) {
    match std::time::SystemTime::now().duration_since(std::time::UNIX_EPOCH) {
        Ok(d) => d.as_millis() as u64,
        Err(_) => 0,
    }
}

} // verus!
