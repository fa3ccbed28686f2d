//! Draws from the thread-local generator of the `rand` crate. Nothing is
//! promised of what is drawn but its range: callers are verified for every
//! outcome.

use chacha20poly1305::{AeadCore, ChaCha8Poly1305};
use rand::{Rng, RngCore};
use vstd::prelude::*;

verus! {

/// `AeadCore::generate_nonce` of `ChaCha8Poly1305` on `rand::thread_rng()`:
/// twelve bytes, of which nothing is claimed.
#[verifier::external_body]
pub(crate) fn random_nonce() -> [u8; 12] {
    ChaCha8Poly1305::generate_nonce(&mut rand::thread_rng()).into()
}

/// `RngCore::fill_bytes` of `rand::thread_rng()` on the first `n` bytes of a
/// zeroed array. Nothing is claimed of the bytes that come back.
#[verifier::external_body]
pub(crate) fn random_fill(n: usize) -> [u8; 255]
    requires
        n <= 255,
{
    let mut out = [0u8; 255];
    rand::thread_rng().fill_bytes(&mut out[..n]);
    out
}

/// `RngCore::next_u32` of `rand::thread_rng()`: any 32-bit integer.
#[verifier::external_body]
pub(crate) fn random_u32() -> u32 {
    rand::thread_rng().next_u32()
}

/// `Rng::gen_range` of `rand::thread_rng()` on the half-open range from zero
/// to `bound`: some integer below `bound`.
#[verifier::external_body]
pub(crate) fn random_below(bound: u32) -> (r: u32)
    requires
        bound > 0,
    ensures
        r < bound,
{
    rand::thread_rng().gen_range(0..bound)
}

} // verus!
