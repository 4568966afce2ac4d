//! The wall clock.

use chrono::Utc;
use vstd::prelude::*;

verus! {

/// `Utc::now().timestamp_millis()` of the chrono crate: the milliseconds
/// since the Unix epoch at the moment of the call. Nothing is claimed of the
/// number: two calls may differ. `Utc::now` panics where the system clock
/// stands before 1970.
#[verifier::external_body]
pub(crate) fn now_millis() -> (millis: u64) {
    Utc::now().timestamp_millis() as u64
}

} // verus!
