use vstd::prelude::*;

verus! {

/// The ways in which an operation of this library can refuse its input.
#[derive(Debug, Clone, Copy, PartialEq, Eq, Structural)]
pub enum CryptoError {
    /// A zero divisor or modulus, a negative exponent, or a list that is
    /// too short.
    InvalidArgument,
    /// No public exponent could be found during RSA key generation.
    NoValidKey,
    /// The inputs of a key generation break its preconditions (equal RSA
    /// primes, an ElGamal modulus that is not a safe prime).
    Precondition,
}

} // verus!
