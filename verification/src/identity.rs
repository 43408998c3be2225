//! Identities of markers and clusters.
//!
//! An identity pairs a serial number, which the source counts up and which
//! therefore differs between any two identities of one source, with a random
//! token that names the item outside the process.

use vstd::prelude::*;

verus! {

/// The bits of a token that a version-4 UUID fixes: the version and the variant.
pub const TOKEN_FIXED_BITS: u128 = 0x0000_0000_0000_F000_C000_0000_0000_0000;

/// What those bits hold: version 4, variant 1.
pub const TOKEN_FIXED_VALUE: u128 = 0x0000_0000_0000_4000_8000_0000_0000_0000;

/// What tells one marker or cluster from another. Two identities are the same
/// when both parts agree; coordinates play no part.
#[derive(Clone, Copy, Debug, PartialEq, Eq, Structural)]
pub struct Identity {
    pub serial: u64,
    pub token: u128,
}

/// Calls `uuid::Uuid::new_v4` and returns the UUID as the number that
/// `Uuid::as_u128` packs its sixteen bytes into. The number is random; all
/// that is claimed of it is what `new_v4` sets by hand: the version nibble
/// is 4 and the two variant bits are `10`. Nothing here is proved, and
/// `new_v4` panics where the system has no random bytes to give.
#[verifier::external_body]
fn random_token() -> (token: u128)
    ensures
        token & TOKEN_FIXED_BITS == TOKEN_FIXED_VALUE,
{
    uuid::Uuid::new_v4().as_u128()
}

/// Hands out identities, each with the next serial number.
#[derive(Debug)]
pub struct IdentitySource {
    next: u64,
}

impl IdentitySource {
    /// How many identities the source has handed out; also the serial number
    /// of the next one.
    pub closed spec fn issued(&self) -> nat {
        self.next as nat
    }

    pub fn new() -> (source: IdentitySource)
        ensures
            source.issued() == 0,
    {
        IdentitySource { next: 0 }
    }

    /// How many identities the source can still hand out.
    pub fn remaining(&self) -> (left: u64)
        ensures
            left == u64::MAX - self.issued(),
    {
        u64::MAX - self.next
    }

    /// A new identity, whose serial number no earlier identity of this source has.
    pub fn issue(&mut self) -> (identity: Identity)
        requires
            old(self).issued() < u64::MAX,
        ensures
            identity.serial == old(self).issued(),
            identity.token & TOKEN_FIXED_BITS == TOKEN_FIXED_VALUE,
            final(self).issued() == old(self).issued() + 1,
    {
        let serial: u64 = self.next;
        self.next = self.next + 1;
        Identity { serial, token: random_token() }
    }
}

} // verus!
