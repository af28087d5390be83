use vstd::prelude::*;

verus! {

/// The version and variant bits of a random (version 4) UUID, taken as a
/// 128-bit value.
pub open spec fn is_v4_uuid(id: u128) -> bool {
    &&& (id >> 76u128) & 0xfu128 == 4
    &&& (id >> 62u128) & 0x3u128 == 2
}

/// `uuid::Uuid::new_v4`, taken as its 128-bit value by `Uuid::as_u128`.
/// The value is random; uuid's source sets the version field (bits 76 to 79)
/// to 4 and the two variant bits (62 and 63) to `0b10` in every outcome, and
/// that is all that is claimed of it.
#[verifier::external_body]
pub(crate) fn new_v4_id() -> (id: u128)
    ensures
        is_v4_uuid(id),
{
    uuid::Uuid::new_v4().as_u128()
}

} // verus!
