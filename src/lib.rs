//! Counting primes below a bound with a fixed-capacity Sieve of Eratosthenes,
//! proved against a mathematical definition of primality.

pub mod arith;
pub mod sieve;

pub use arith::{is_prime, lemma_prime_count_monotone, prime_count};
pub use sieve::{run_rounds, sieve_primes, SieveError, CAPACITY};
