//! Values the lifecycle manager takes from the host: freshly generated
//! identifiers and the current time. Nothing is promised of either value;
//! every caller states what holds whatever comes back.

use vstd::prelude::*;

verus! {

/// Relies on uuid's `Uuid::new_v4`: a randomly generated 128-bit identifier.
/// Randomness promises nothing, so callers check the value for collisions.
#[verifier::external_body]
pub fn fresh_uuid() -> u128 {
    uuid::Uuid::new_v4().as_u128()
}

/// Relies on time's `OffsetDateTime::now_utc` and `unix_timestamp`: the
/// current instant, in seconds since the epoch.
#[verifier::external_body]
pub fn now_timestamp() -> i64 {
    time::OffsetDateTime::now_utc().unix_timestamp()
}

} // verus!
