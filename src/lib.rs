//! Prime tables below a bound: a bit-packed flag array, the classic sieve of
//! Eratosthenes, a segmented sieve that bootstraps its own base of small
//! primes (on packed flags, and on one `bool` per number), and memoised trial
//! division.

pub mod bool_segmented;
pub mod packed_bits;
pub mod primality;
pub mod segmented;
pub mod sieve;
pub mod sliced;
pub mod trial;
