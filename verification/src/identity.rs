//! Identity: private user identifiers and the derived public identifiers.
//!
//! A user is keyed by a private 256-bit identifier that must never leave the
//! store. Read views carry a public identifier instead: a one-way,
//! domain-separated hash of the private identifier, so the same private user
//! always maps to the same public identifier and the private identifier
//! cannot be recovered from it.

use vstd::prelude::*;

verus! {

/// A 256-bit identifier, held as four 64-bit words (least significant first).
#[derive(Clone, Copy, Debug, PartialEq, Eq, Structural)]
pub struct UserId {
    pub w0: u64,
    pub w1: u64,
    pub w2: u64,
    pub w3: u64,
}

/// The words of the digest that `U256::hash_domain_parts` returns for the
/// domain tag "user" and the 32 bytes of the given identifier words (each
/// word laid out in little-endian order). The digest is a function of the
/// identifier alone, so it gets a name rather than a definition.
pub uninterp spec fn public_id_of(w0: u64, w1: u64, w2: u64, w3: u64) -> (u64, u64, u64, u64);

/// The public identifier derived from a private identifier.
pub open spec fn spec_public_id(id: UserId) -> UserId {
    let t = public_id_of(id.w0, id.w1, id.w2, id.w3);
    UserId { w0: t.0, w1: t.1, w2: t.2, w3: t.3 }
}

/// Relies on flarch's `U256::hash_domain_parts`: a SHA-256 digest over the
/// domain tag "user" and the identifier's 32 bytes, a pure function of its
/// arguments with no side effects.
#[verifier::external_body]
pub(crate) fn hash_user_domain(id: &UserId) -> (r: UserId)
    ensures
        (r.w0, r.w1, r.w2, r.w3) == public_id_of(id.w0, id.w1, id.w2, id.w3),
{
    let mut bytes = [0u8; 32];
    bytes[0..8].copy_from_slice(&id.w0.to_le_bytes());
    bytes[8..16].copy_from_slice(&id.w1.to_le_bytes());
    bytes[16..24].copy_from_slice(&id.w2.to_le_bytes());
    bytes[24..32].copy_from_slice(&id.w3.to_le_bytes());
    let h = flarch::nodeids::U256::hash_domain_parts("user", &[&bytes]).to_bytes();
    UserId {
        w0: u64::from_le_bytes(h[0..8].try_into().unwrap()),
        w1: u64::from_le_bytes(h[8..16].try_into().unwrap()),
        w2: u64::from_le_bytes(h[16..24].try_into().unwrap()),
        w3: u64::from_le_bytes(h[24..32].try_into().unwrap()),
    }
}

/// The public identifier is a function of the private identifier alone: two
/// equal private identifiers always derive the same public identifier.
pub proof fn lemma_public_id_deterministic(a: UserId, b: UserId)
    requires
        a == b,
    ensures
        spec_public_id(a) == spec_public_id(b),
{
}

} // verus!
