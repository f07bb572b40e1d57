//! The one impure input of the store: the wall clock, read as whole seconds
//! since the Unix epoch.

use vstd::prelude::*;

verus! {

/// Relies on `std::time::SystemTime::now` and `duration_since`: the current
/// time as seconds since the Unix epoch, or 0 should the clock read before
/// the epoch. Nothing is promised of the value: the clock may move
/// arbitrarily between two calls, so every caller states what holds of
/// whatever time came back.
#[verifier::external_body]
pub fn now_seconds() -> u64 {
    match std::time::SystemTime::now().duration_since(std::time::UNIX_EPOCH) {
        Ok(d) => d.as_secs(),
        Err(_) => 0,
    }
}

} // verus!
