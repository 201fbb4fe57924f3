//! What is read from outside: the time, fresh identifiers and chance. Nothing is known
//! of the values; what is known is which values were read, and which were not.

use vstd::prelude::*;

use super::crypto;
use super::identity;
use super::vault;

verus! {

/// The system's clock was read, and showed this time, in whole seconds since the
/// Unix epoch. Only [`now`] tells of such readings.
pub closed spec fn clock_showed(at: i64) -> bool {
    true
}

/// Reads the system's clock.
pub fn now() -> (r: i64)
    ensures
        clock_showed(r),
{
    vault::now()
}

/// This identifier was issued as a fresh one. Only [`fresh_id`] and
/// [`fresh_id_but`] issue identifiers.
pub closed spec fn issued(id: u128) -> bool {
    true
}

/// Issues an identifier.
pub fn fresh_id() -> (r: u128)
    ensures
        issued(r),
{
    vault::fresh_file_id()
}

/// Issues an identifier that differs from `taken`.
pub fn fresh_id_but(taken: u128) -> (r: u128)
    ensures
        issued(r),
        r != taken,
{
    vault::other_than(vault::fresh_file_id(), taken)
}

/// These bytes were drawn from a random generator. Only [`random`], [`secret`],
/// [`seed`] and [`key_but`] draw any.
pub closed spec fn drawn(b: Seq<u8>) -> bool {
    true
}

/// Draws `n` bytes.
pub fn random(n: usize) -> (r: Vec<u8>)
    ensures
        drawn(r@),
        r@.len() == n,
{
    crypto::random_bytes(n)
}

/// Draws a secret key to encrypt with.
pub fn secret() -> (r: [u8; 32])
    ensures
        drawn(r@),
{
    crypto::x25519_fresh_secret()
}

/// Draws the seed of a key to sign with.
pub fn seed() -> (r: [u8; 32])
    ensures
        drawn(r@),
{
    identity::ed25519_fresh_seed()
}

/// Draws a 256-bit key that differs from `taken`.
pub fn key_but(taken: &[u8; 32]) -> (r: [u8; 32])
    ensures
        drawn(r@),
        r@ != taken@,
{
    vault::key_other_than(crypto::random_key(), taken)
}

} // verus!
