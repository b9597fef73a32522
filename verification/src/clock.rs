//! The wall clock, read once per write so that fresh entries carry a
//! creation timestamp.

use vstd::prelude::*;

verus! {

/// Relies on chrono's `Utc::now`, read as milliseconds since the Unix
/// epoch via `DateTime::timestamp_millis`. Nothing is assumed of the
/// value returned.
#[verifier::external_body]
pub fn now_millis() -> i64 {
    chrono::Utc::now().timestamp_millis()
}

} // verus!
