//! Offline (preprocessing) phase of a SPDZ-style multi-party computation
//! protocol: a BGV-like somewhat-homomorphic encryption layer over the ring
//! Z_q[X]/(X^n + 1), plaintext packing by evaluation at roots of unity, a
//! zero-knowledge proof of plaintext knowledge, and the Reshare / PAngle /
//! PBracket combinators that distribute authenticated shares.
//!
//! Standing limitation: field elements are plain `u128` residues, so both
//! moduli must stay below 2^127 (`arith::modulus_bound`).  The named curve
//! constants of the full-size instantiation (a 253-bit plaintext modulus
//! and a 753-bit coefficient modulus) cannot be held in this
//! representation; every property is proved parametrically in the moduli,
//! and the tests instantiate representable primes of the same shape.

pub mod arith;
pub mod ciphertext;
pub mod error;
pub mod plaintext;
pub mod preprocessing;
pub mod ring;
pub mod rng;
pub mod share;
pub mod she;
pub mod zkpopk;
