//! Counting the integers `m` in `[1, k]` whose number of divisors equals that of
//! `m + 1`, by trial division and by two prime-multiple sieves.

pub mod arith;
pub mod block_sieve;
pub mod naive;
pub mod sieve;
pub mod smooth;
