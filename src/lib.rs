//! A small number-theoretic engine: Euclidean division with a non-negative
//! remainder, greatest common divisors and Bezout coefficients, plain and
//! modular exponentiation, and the Caesar, RSA and ElGamal cryptosystems
//! built on top of them.
use vstd::prelude::*;

pub mod builtin;
pub mod error;

verus! {

} // verus!
