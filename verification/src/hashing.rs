//! The hash primitive of perfect-hash maps.
//!
//! The hash itself is computed by the `phf_shared` crate; this module gives
//! its result a name and states the displacement formula.

use vstd::prelude::*;
use vstd::string::StringSliceAdditionalSpecFns;

verus! {

/// The three hash values of a key under a seed.
#[derive(Copy, Clone, PartialEq, Eq, Debug, Structural)]
pub struct Hashes {
    /// Selects the bucket.
    pub g: u32,
    /// First input of the displacement.
    pub f1: u32,
    /// Second input of the displacement.
    pub f2: u32,
}

/// The hash values that `phf_shared::hash` gives to a key under a seed.
pub uninterp spec fn phf_hash(key: Seq<u8>, seed: u64) -> Hashes;

/// `d2 + f1 * d1 + f2`, wrapping at 32 bits.
pub open spec fn displace(f1: u32, f2: u32, d1: u32, d2: u32) -> u32 {
    ((d2 as int + (f1 as int) * (d1 as int) + f2 as int) % 0x1_0000_0000) as u32
}

/// The slot that hash values are displaced to in a table of `count` slots.
pub open spec fn slot_of(h: Hashes, d: (u32, u32), count: int) -> int {
    (displace(h.f1, h.f2, d.0, d.1) as int) % count
}

/// Calls `phf_shared::hash` on the bytes of a key. The result is a function
/// of the key's bytes and the seed alone (SipHash 1-3 keyed by the seed);
/// that function is what `phf_hash` names.
#[verifier::external_body]
pub(crate) fn hash_key(key: &[u8], seed: u64) -> (h: Hashes)
    ensures
        h == phf_hash(key@, seed),
{
    let h = phf_shared::hash(key, &seed);
    Hashes { g: h.g, f1: h.f1, f2: h.f2 }
}

/// Calls `phf_shared::displace`, which computes `d2 + f1 * d1 + f2` in
/// wrapping 32-bit arithmetic.
#[verifier::external_body]
pub(crate) fn displace_hashes(f1: u32, f2: u32, d1: u32, d2: u32) -> (r: u32)
    ensures
        r == displace(f1, f2, d1, d2),
{
    phf_shared::displace(f1, f2, d1, d2)
}

/// The hash values of a key under a seed.
pub fn hash(key: &str, seed: u64) -> (h: Hashes)
    ensures
        h == phf_hash(key.spec_bytes(), seed),
{
    hash_key(key.as_bytes(), seed)
}

} // verus!
