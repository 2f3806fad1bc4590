//! Identifiers of objects, users, undo events and queries.
//!
//! An identifier is the 128-bit value of a UUID, so that it can be compared
//! and hashed as a plain integer.
use vstd::prelude::*;

verus! {

/// The identifier of an object: the 128-bit value of its UUID.
pub type RefID = u128;

/// The identifier of a user.
pub type UserID = u128;

/// The identifier of an undo event.
pub type UndoEventID = u128;

/// The identifier of a read query.
pub type QueryID = u128;

/// The value of the nil UUID, which no object carries.
pub open spec fn nil_id() -> RefID {
    0
}

/// The 128-bit value of `uuid::Uuid::nil()`.
///
/// Trusted: `Uuid::nil()` is `Uuid::from_bytes([0; 16])`, and `as_u128` reads
/// those sixteen zero bytes as a big-endian integer, which is zero.
#[verifier::external_body]
pub(crate) fn nil() -> (r: RefID)
    ensures
        r == nil_id(),
{
    uuid::Uuid::nil().as_u128()
}

/// The 128-bit value of a fresh random UUID, `uuid::Uuid::new_v4()`.
///
/// Trusted: the value is drawn from the operating system's random source,
/// so nothing is stated of it but that it is not the nil value: `new_v4`
/// sets the version bits (byte 6 holds `0x4` in its high half), so the
/// UUID is never all zeros. The call panics if the random source fails.
#[verifier::external_body]
pub(crate) fn new_v4() -> (r: RefID)
    ensures
        r != nil_id(),
{
    uuid::Uuid::new_v4().as_u128()
}

} // verus!
