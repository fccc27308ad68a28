//! The wall clock.

use vstd::prelude::*;

verus! {

/// Relies on chrono's `Utc::now` and its text form: the current wall-clock
/// time as a string. Nothing is assumed of the value: every caller states
/// what holds whatever time comes back.
#[verifier::external_body]
pub fn current_timestamp() -> String {
    chrono::Utc::now().to_string()
}

} // verus!
