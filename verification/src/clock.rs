//! The wall clock. The value returned depends on the machine's clock, so
//! nothing is promised of it.

use vstd::prelude::*;

verus! {

/// Relies on chrono::Utc::now: the current time in milliseconds since the
/// epoch. The value depends on the clock; nothing is promised of it.
#[verifier::external_body]
pub(crate) fn current_time_millis() -> i64 {
    chrono::Utc::now().timestamp_millis()
}

} // verus!
