//! Fresh 128-bit identifiers.

use vstd::prelude::*;

verus! {

/// The bits of an identifier that hold its version and its variant.
pub const FORMAT_MASK: u128 = 0x0000_0000_0000_f000_c000_0000_0000_0000;

/// What the format bits hold in a randomly drawn identifier: version 4,
/// variant RFC 4122.
pub const FORMAT_RANDOM: u128 = 0x0000_0000_0000_4000_8000_0000_0000_0000;

/// Whether `token` has the format of a randomly drawn identifier.
pub open spec fn is_random_token(token: u128) -> bool {
    token & FORMAT_MASK == FORMAT_RANDOM
}

/// Draws an identifier with `uuid::Uuid::new_v4` and hands it out as the
/// number that `Uuid::as_u128` reads from it.
///
/// Trusted: of the random value only the format bits are known, which
/// `new_v4` sets to version 4 and variant RFC 4122. The call fails only where
/// the operating system cannot supply random bytes.
#[verifier::external_body]
pub(crate) fn fresh_token() -> (token: u128)
    ensures
        is_random_token(token),
{
    uuid::Uuid::new_v4().as_u128()
}

} // verus!
