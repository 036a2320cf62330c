//! Non-interactive Schnorr proofs of knowledge of a discrete logarithm.
//!
//! The group is the multiplicative group modulo a safe prime. Primality is
//! tested with Miller-Rabin, the challenge comes from SHA-256 (Fiat-Shamir),
//! and the big-integer arithmetic, the hash and the random source are those of
//! `num-bigint`, `sha2` and `rand`.

pub mod hashing;
pub mod natural;
pub mod number_theory;
pub mod primality;
pub mod random;
pub mod schnorr;
