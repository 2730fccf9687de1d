//! The block search engine: candidate generation for the twelve prime forms,
//! modular sieving, and primality testing.
pub mod montgomery;
pub mod primes;
pub mod primality;
pub mod palindrome;
pub mod sieve;
pub mod fermat;
pub mod forms;
pub mod block;
pub mod complete;
