//! Z-primitive roots of primes.
//!
//! A primitive root modulo a prime `p` is an integer whose multiplicative
//! order modulo `p` is `p - 1`. It is a *z-primitive root* of `p` when it
//! is not a primitive root modulo `p * p`. This library searches for one
//! primitive root of a prime, derives the others from it, and tells which
//! of them fail to lift to `p * p`.
pub mod arith;
pub mod divisor_lists;
pub mod euclid;
pub mod existence;
pub mod fermat;
pub mod orders;
pub mod polynomials;
pub mod primes;
pub mod producer;
pub mod report;
pub mod root_laws;
pub mod roots;
pub mod worker;
