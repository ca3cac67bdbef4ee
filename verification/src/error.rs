//! Failure kinds of the preprocessing phase.
//!
//! Cryptographic failures abort the batch and are never caught internally;
//! parameter problems are detected at startup.

use vstd::prelude::*;

verus! {

/// Which of the two proof norms was out of bounds.
#[derive(Clone, Copy, Debug, PartialEq, Eq, Structural)]
pub enum NormKind {
    Z,
    T,
}

#[derive(Clone, Copy, Debug, PartialEq, Eq, Structural)]
pub enum MpcError {
    /// The scheme parameters are unusable: the slot count is not a power of
    /// two, the plaintext modulus has no suitable root of unity, or the
    /// coefficient modulus is too small for the noise budget.
    ParameterInvalid,
    /// Interpolation is infeasible (duplicate evaluation points or a wrong
    /// length).
    EncodingFailure,
    /// Decryption produced a coefficient whose balanced lift reaches half the
    /// coefficient modulus.
    NoiseOverflow,
    /// An attempt to multiply a ciphertext that already carries a product.
    DepthExceeded,
    /// The proof-of-plaintext-knowledge equation fails at the given row.
    ProofMismatch { index: usize },
    /// A proof norm check fails at the given row.
    NormBound { kind: NormKind, index: usize },
    /// Opening a MAC-authenticated share did not verify.
    MacCheckFailure,
    /// A peer failed a round.
    TransportAborted { party: usize },
}

} // verus!
