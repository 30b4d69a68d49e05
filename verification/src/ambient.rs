//! What the engine takes from its surroundings: the time of day and fresh
//! identifiers. Neither is a function of anything the engine holds, so the
//! functions that call these state what holds whatever they return.

use vstd::prelude::*;

verus! {

/// Calls `chrono::Utc::now` and `DateTime::timestamp_millis`: the
/// milliseconds that the system clock counts since the start of 1970. The
/// value depends on the clock, so the contract promises nothing of it.
/// `Utc::now` panics where the clock stands before 1970.
#[verifier::external_body]
pub(crate) fn now_millis() -> (now: i64) {
    chrono::Utc::now().timestamp_millis()
}

/// Calls `uuid::Uuid::new_v4` and renders the identifier with its
/// `Display`. The identifier is random, so the contract promises nothing of
/// it; in particular not that it differs from an earlier one.
/// `Uuid::new_v4` panics where the system has no random bytes to give.
#[verifier::external_body]
pub(crate) fn fresh_id() -> (id: String) {
    uuid::Uuid::new_v4().to_string()
}

} // verus!
