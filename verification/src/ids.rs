//! Fresh object-store ids.
//!
//! Every produced file is written under a fresh random id, chosen before the
//! write so that input deletion and output insertion form an idempotent retry
//! unit.

use vstd::prelude::*;

verus! {

/// Relies on `uuid::Uuid::new_v4`: a fresh random id whose version nibble is 4
/// and whose variant bits are `10`; nothing else can be promised of a random
/// value.
#[verifier::external_body]
pub fn fresh_object_store_id() -> (r: u128)
    ensures
        r & 0xF0000000000000000000 == 0x40000000000000000000,
        r & 0xC000000000000000 == 0x8000000000000000,
{
    uuid::Uuid::new_v4().as_u128()
}

/// Shape of the ids `fresh_object_store_id` hands out.
pub open spec fn is_v4_id(r: u128) -> bool {
    r & 0xF0000000000000000000 == 0x40000000000000000000 && r & 0xC000000000000000
        == 0x8000000000000000
}

} // verus!
