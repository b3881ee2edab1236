use vstd::prelude::*;

verus! {

/// Relies on `uuid::Uuid::new_v4` (read back with `Uuid::as_u128`): one
/// freshly drawn random 128-bit identifier. The draw is random, so nothing is
/// promised of the value; callers treat identifiers as opaque.
#[verifier::external_body]
pub(crate) fn fresh_uuid() -> u128 {
    uuid::Uuid::new_v4().as_u128()
}

} // verus!
