use vstd::prelude::*;

pub mod basic_arithmetics;
pub mod builtins;
pub mod ciphers;
pub mod generate_primes;
pub mod power;
pub mod prime_list;
pub mod test_primes;

verus! {

} // verus!
