//! Search for families of primes related by a positional digit pattern.
//!
//! A pattern marks a subset of digit positions of fixed-width numbers.
//! Substituting every digit 0-9 simultaneously into the marked positions of a
//! base number yields up to ten candidates; those that are prime form a
//! family.  The library builds the prime set for a range with a sieve,
//! enumerates the patterns, and searches for a family of a requested size.

pub mod arith;
pub mod combination;
pub mod digits;
pub mod primes;
pub mod search;
