//! A commutative-encryption card protocol ("mental poker"): players jointly
//! shuffle and deal a deck without a trusted dealer, so that no player can
//! predict or control the assignment and each player learns only its own hand.
use vstd::prelude::*;

pub mod bignum;
pub mod cards;
pub mod codec;
pub mod crypt;
pub mod proto;
pub mod shuffle;

verus! {

/// The bit length of each of the two secret primes in the reference
/// configuration; the shared modulus is their 512-bit product.
pub const P_BITS: u32 = 256;

/// The failures the protocol can surface.
///
/// A stalled peer is observed only by the caller's own timeout and is not
/// detected inside the library, so it has no variant here.
#[derive(Clone, Copy, Debug, PartialEq, Eq, Structural)]
pub enum Error {
    /// The modulus handed to key construction is unusable (even, or too small).
    InvalidModulus,
    /// A plaintext or ciphertext lies outside the range the codec and cipher accept.
    EncodingOutOfRange,
    /// A reveal request asked for slots the requester does not own.
    AccessDenied,
    /// The deck holds fewer cards than the players' hands require.
    DeckExhausted,
}

} // verus!
