//! Three small cryptographic building blocks with verified contracts:
//! textbook RSA over small primes, public-key derivation on BLS12-381, and
//! Shamir secret sharing over the prime field of order 17.
//!
//! The number theory that the contracts rest on is proved in the crate:
//! Bezout's identity, Euclid's lemma, Fermat's little theorem, and the bound
//! on the roots of a polynomial modulo a prime.

pub mod divisibility;
pub mod primes;
pub mod factorization;
pub mod fermat;
pub mod polynomial;

pub mod goldilocks;
mod random;

pub mod rsa;
pub mod curve;
pub mod shamir;
