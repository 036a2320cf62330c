//! Random natural numbers from the thread-local generator of `rand`.
//!
//! The generator is seeded by the system and cannot be replayed: two draws
//! with the same arguments differ. Where the system fails to seed it, `rand`
//! ends the process; nothing here recovers from that.

use crate::natural::BigNat;
use num_bigint::BigUint;
use num_bigint::RandBigInt;
use rand::thread_rng;
use vstd::arithmetic::power2::pow2;
use vstd::prelude::*;

verus! {

/// `RandBigInt::gen_biguint` on `rand::thread_rng()`: a random number of at
/// most `bits` bits. Which one is not known; only the bound is.
#[verifier::external_body]
pub(crate) fn random_bits(bits: usize) -> (n: BigNat)
    ensures
        n@ < pow2(bits as nat),
{
    BigNat { digits: thread_rng().gen_biguint(bits as u64).to_u32_digits() }
}

/// `RandBigInt::gen_biguint_range` on `rand::thread_rng()`: a random number
/// that is at least `low` and less than `high`. It panics on an empty range,
/// so `low` must be less than `high`.
#[verifier::external_body]
pub(crate) fn random_in_range(low: &BigNat, high: &BigNat) -> (n: BigNat)
    requires
        low@ < high@,
    ensures
        low@ <= n@ < high@,
{
    let low = BigUint::new(low.digits.clone());
    let high = BigUint::new(high.digits.clone());
    BigNat { digits: thread_rng().gen_biguint_range(&low, &high).to_u32_digits() }
}

} // verus!
