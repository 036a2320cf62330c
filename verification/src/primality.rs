//! The Miller-Rabin test and the search for safe primes.

use crate::natural::{mod_exp, mod_pow, BigNat};
use crate::number_theory::{
    divides, is_prime_number, lemma_fermat_little, lemma_square_root_of_one,
};
use crate::random::{random_bits, random_in_range};
use vstd::arithmetic::div_mod::{lemma_mod_bound, lemma_small_mod};
use vstd::arithmetic::power::{lemma_pow_mod_noop, lemma_pow_multiplies, lemma_square_is_pow2, pow};
use vstd::arithmetic::power2::{lemma2_to64, lemma_pow2_unfold, pow2};
use vstd::prelude::*;

verus! {

/// The number of random bases that a number must pass to count as prime.
pub const WITNESS_ROUNDS: usize = 20;

/// The largest odd divisor of a positive number.
pub open spec fn odd_part(m: nat) -> nat
    decreases m,
{
    if m == 0 || m % 2 == 1 {
        m
    } else {
        odd_part(m / 2)
    }
}

/// How many times 2 divides a positive number.
pub open spec fn two_exponent(m: nat) -> nat
    decreases m,
{
    if m == 0 || m % 2 == 1 {
        0
    } else {
        1 + two_exponent(m / 2)
    }
}

/// With `n - 1` written as `2^r * d`, `d` odd: the base `a` to the power
/// `2^j * d`, modulo `n`.
pub open spec fn squared_residue(n: nat, a: nat, j: nat) -> nat {
    mod_pow(a, odd_part((n - 1) as nat) * pow2(j), n)
}

/// Whether the odd number `n` passes one round of Miller-Rabin with base `a`:
/// with `n - 1` written as `2^r * d`, `d` odd, either `a^d` is 1 modulo `n`, or
/// one of `a^d`, `a^(2d)`, ..., `a^(2^(r-1) d)` is `n - 1` modulo `n`.
pub open spec fn strong_probable_prime(n: nat, a: nat) -> bool {
    ||| squared_residue(n, a, 0) == 1
    ||| exists|j: nat|
        j < two_exponent((n - 1) as nat) && #[trigger] squared_residue(n, a, j) == n - 1
}

/// Whether every one of `bases` lies between 2 and `n - 2` and `n` passes a
/// round with it.
pub open spec fn passes_rounds(n: nat, bases: Seq<nat>) -> bool {
    forall|i: int|
        0 <= i < bases.len() ==> 2 <= #[trigger] bases[i] <= n - 2 && strong_probable_prime(
            n,
            bases[i],
        )
}

/// What a number accepted after `rounds` rounds is known to be: 2, 3, or an
/// odd number above 3 that passed `rounds` rounds with bases between 2 and
/// `n - 2`.
pub open spec fn passes_miller_rabin(n: nat, rounds: nat) -> bool {
    ||| n == 2
    ||| n == 3
    ||| n > 3 && n % 2 == 1 && exists|bases: Seq<nat>|
        bases.len() == rounds && #[trigger] passes_rounds(n, bases)
}

/// What a number accepted by `is_prime` is known to be.
pub open spec fn is_probable_prime(n: nat) -> bool {
    passes_miller_rabin(n, WITNESS_ROUNDS as nat)
}

/// A number below 2^k is divisible by 2 fewer than k times.
pub proof fn lemma_two_exponent_bound(m: nat, k: nat)
    requires
        0 < m < pow2(k),
    ensures
        two_exponent(m) < k,
    decreases m,
{
    if k == 0 {
        lemma2_to64();
    } else {
        lemma_pow2_unfold(k);
        if m % 2 == 0 {
            lemma_two_exponent_bound(m / 2, (k - 1) as nat);
        }
    }
}

/// Squaring a power residue doubles the exponent.
pub proof fn lemma_square_residue(a: nat, e: nat, n: nat)
    requires
        n > 0,
    ensures
        mod_pow(mod_pow(a, e, n), 2, n) == mod_pow(a, e * 2, n),
{
    lemma_pow_mod_noop(pow(a as int, e), 2, n as int);
    lemma_pow_multiplies(a as int, e, 2);
}

/// A positive number is its odd part times the power of 2 in it.
pub proof fn lemma_split_twos(m: nat)
    requires
        m > 0,
    ensures
        m == odd_part(m) * pow2(two_exponent(m)),
        odd_part(m) % 2 == 1,
    decreases m,
{
    if m % 2 == 1 {
        lemma2_to64();
        assert(m * 1 == m);
    } else {
        let half = m / 2;
        lemma_split_twos(half);
        lemma_pow2_unfold(two_exponent(m));
        assert(odd_part(half) * (2 * pow2(two_exponent(half))) == 2 * half) by (nonlinear_arith)
            requires
                half == odd_part(half) * pow2(two_exponent(half)),
        ;
    }
}

proof fn lemma_descend_to_witness(n: nat, a: nat, j: nat)
    requires
        is_prime_number(n),
        n >= 3,
        j <= two_exponent((n - 1) as nat),
        squared_residue(n, a, j) == 1,
    ensures
        strong_probable_prime(n, a),
    decreases j,
{
    if j > 0 {
        let i = (j - 1) as nat;
        let d = odd_part((n - 1) as nat);
        let x = squared_residue(n, a, i);
        lemma_mod_bound(pow(a as int, d * pow2(i)), n as int);
        lemma_square_residue(a, d * pow2(i), n);
        lemma_pow2_unfold(j);
        assert(d * pow2(i) * 2 == d * pow2(j)) by (nonlinear_arith)
            requires
                pow2(j) == 2 * pow2(i),
        ;
        lemma_square_is_pow2(x as int);
        assert(mod_pow(x, 2, n) == 1);
        lemma_square_root_of_one(n, x);
        if x == 1 {
            lemma_descend_to_witness(n, a, i);
        }
    }
}

/// An odd prime passes the round of every base that it does not divide.
pub proof fn lemma_prime_passes_round(n: nat, a: nat)
    requires
        is_prime_number(n),
        n >= 3,
        a % n != 0,
    ensures
        strong_probable_prime(n, a),
{
    let m = (n - 1) as nat;
    lemma_split_twos(m);
    lemma_fermat_little(n, a as int);
    lemma_descend_to_witness(n, a, two_exponent(m));
}

/// Writes a positive number as `2^r * d` with `d` odd, and returns `d` and `r`.
pub fn split_twos(m: &BigNat) -> (parts: (BigNat, u128))
    requires
        m@ > 0,
    ensures
        parts.0@ == odd_part(m@),
        parts.1 == two_exponent(m@),
        parts.0@ % 2 == 1,
        m@ == parts.0@ * pow2(parts.1 as nat),
{
    let mut d = m.clone();
    let mut r: u128 = 0;
    proof {
        lemma_split_twos(m@);
        m.lemma_bounded();
        lemma_two_exponent_bound(m@, 32 * usize::MAX as nat);
    }
    while d.is_even()
        invariant
            d@ > 0,
            odd_part(d@) == odd_part(m@),
            two_exponent(d@) + r == two_exponent(m@),
            two_exponent(m@) < 32 * usize::MAX,
        decreases d@,
    {
        d = d.halved();
        r += 1;
    }
    (d, r)
}

/// One round of Miller-Rabin for the odd number `n` with base `a`, where
/// `n - 1` is `2^r * d` with `d` odd.
pub fn witness_round(n: &BigNat, d: &BigNat, r: u128, a: &BigNat) -> (pass: bool)
    requires
        n@ >= 3,
        n@ % 2 == 1,
        d@ == odd_part((n@ - 1) as nat),
        r == two_exponent((n@ - 1) as nat),
    ensures
        pass == strong_probable_prime(n@, a@),
{
    let one = BigNat::one();
    let two = BigNat::from_u32(2);
    let n_minus_1 = n.minus(&one);
    let mut x = mod_exp(a, d, n);
    proof {
        lemma2_to64();
        assert(d@ * pow2(0) == d@);
        assert(two_exponent((n@ - 1) as nat) >= 1);
    }
    if x.equals(&one) || x.equals(&n_minus_1) {
        return true;
    }
    let mut j: u128 = 1;
    while j < r
        invariant
            1 <= j <= r,
            n@ >= 3,
            two@ == 2,
            n_minus_1@ == n@ - 1,
            d@ == odd_part((n@ - 1) as nat),
            r == two_exponent((n@ - 1) as nat),
            x@ == squared_residue(n@, a@, (j - 1) as nat),
            squared_residue(n@, a@, 0) != 1,
            forall|i: nat| i < j ==> squared_residue(n@, a@, i) != n@ - 1,
        decreases r - j,
    {
        proof {
            lemma_square_residue(a@, d@ * pow2((j - 1) as nat), n@);
            lemma_pow2_unfold(j as nat);
            assert(d@ * pow2((j - 1) as nat) * 2 == d@ * pow2(j as nat)) by (nonlinear_arith)
                requires
                    pow2(j as nat) == 2 * pow2((j - 1) as nat),
            ;
        }
        x = mod_exp(&x, &two, n);
        assert(x@ == squared_residue(n@, a@, j as nat));
        if x.equals(&n_minus_1) {
            return true;
        }
        j += 1;
    }
    false
}

/// The Miller-Rabin test with `rounds` random bases.
///
/// Numbers below 2 and even numbers above 2 are rejected, 2 and 3 are
/// accepted. An odd number above 3 is accepted when it passes every round;
/// the bases are drawn between 2 and `n - 2`. A prime is always accepted; a
/// composite number may be, when every base drawn happens to be one that it
/// passes.
pub fn is_prime_with_rounds(n: &BigNat, rounds: usize) -> (accepted: bool)
    ensures
        n@ < 2 ==> !accepted,
        n@ == 2 || n@ == 3 ==> accepted,
        n@ > 3 && n@ % 2 == 0 ==> !accepted,
        n@ > 3 && n@ % 2 == 1 && rounds == 0 ==> accepted,
        accepted ==> passes_miller_rabin(n@, rounds as nat),
        is_prime_number(n@) ==> accepted,
{
    let one = BigNat::one();
    let two = BigNat::from_u32(2);
    let three = BigNat::from_u32(3);
    if n.at_most(&one) {
        return false;
    }
    if n.at_most(&three) {
        return n.equals(&two) || n.equals(&three);
    }
    if n.is_even() {
        assert(divides(2, n@));
        return false;
    }
    let n_minus_1 = n.minus(&one);
    let (d, r) = split_twos(&n_minus_1);
    let ghost mut bases: Seq<nat> = Seq::empty();
    let mut round: usize = 0;
    while round < rounds
        invariant
            round <= rounds,
            n@ >= 5,
            n@ % 2 == 1,
            two@ == 2,
            n_minus_1@ == n@ - 1,
            d@ == odd_part((n@ - 1) as nat),
            r == two_exponent((n@ - 1) as nat),
            bases.len() == round,
            passes_rounds(n@, bases),
        decreases rounds - round,
    {
        let a = random_in_range(&two, &n_minus_1);
        if !witness_round(n, &d, r, &a) {
            proof {
                if is_prime_number(n@) {
                    lemma_small_mod(a@, n@);
                    lemma_prime_passes_round(n@, a@);
                }
            }
            return false;
        }
        proof {
            bases = bases.push(a@);
        }
        round += 1;
    }
    true
}

/// The Miller-Rabin test with `WITNESS_ROUNDS` random bases.
///
/// Numbers below 2 and even numbers above 2 are rejected, 2 and 3 are
/// accepted. An odd number above 3 is accepted when it passes every round.
/// A prime is always accepted.
pub fn is_prime(n: &BigNat) -> (accepted: bool)
    ensures
        n@ < 2 ==> !accepted,
        n@ == 2 || n@ == 3 ==> accepted,
        n@ > 3 && n@ % 2 == 0 ==> !accepted,
        accepted ==> is_probable_prime(n@),
        is_prime_number(n@) ==> accepted,
{
    is_prime_with_rounds(n, WITNESS_ROUNDS)
}

/// Draws random numbers of at most `bits` bits until one passes `is_prime`,
/// and gives up after `max_attempts` draws. Below 2 bits no draw can pass.
pub fn generate_large_prime(bits: usize, max_attempts: usize) -> (found: Option<BigNat>)
    ensures
        max_attempts == 0 || bits <= 1 ==> found is None,
        found matches Some(q) ==> 2 <= q@ < pow2(bits as nat) && is_probable_prime(q@),
{
    let mut attempt: usize = 0;
    while attempt < max_attempts
        invariant
            attempt <= max_attempts,
        decreases max_attempts - attempt,
    {
        let candidate = random_bits(bits);
        if is_prime(&candidate) {
            proof {
                // An accepted number is at least 2, so `bits` is.
                lemma2_to64();
            }
            return Some(candidate);
        }
        attempt += 1;
    }
    None
}

/// Searches for a safe prime `p = 2q + 1` of at most `bits` bits: draws a
/// prime `q` of at most `bits - 1` bits and tests `2q + 1`, until that is
/// accepted too. Each of the two searches gives up after `max_attempts`
/// draws. Below 3 bits there is no prime `q` to draw, and the search fails.
///
/// Whether a search of more bits succeeds lies with the numbers drawn: the
/// first `q` whose `2q + 1` is accepted as well ends it, as `safe_prime_from`
/// says for each `q`.
pub fn generate_safe_prime(bits: usize, max_attempts: usize) -> (found: Option<BigNat>)
    requires
        bits >= 1,
    ensures
        max_attempts == 0 || bits <= 2 ==> found is None,
        found matches Some(p) ==> 5 <= p@ < pow2(bits as nat) && is_probable_safe_prime(p@),
{
    let mut attempt: usize = 0;
    while attempt < max_attempts
        invariant
            attempt <= max_attempts,
            bits >= 1,
        decreases max_attempts - attempt,
    {
        match generate_large_prime(bits - 1, max_attempts) {
            Some(q) => {
                match safe_prime_from(&q) {
                    Some(p) => {
                        proof {
                            // `q` is below 2^(bits - 1), so `2q + 1` is
                            // below 2^bits.
                            lemma_pow2_unfold(bits as nat);
                        }
                        return Some(p);
                    },
                    None => {},
                }
            },
            None => {},
        }
        attempt += 1;
    }
    None
}

/// What a generated safe prime is known to be: both `p` and `(p - 1) / 2`
/// were accepted by the primality test, and `p` is odd.
pub open spec fn is_probable_safe_prime(p: nat) -> bool {
    &&& p % 2 == 1
    &&& is_probable_prime(p)
    &&& is_probable_prime(((p - 1) / 2) as nat)
}

/// The number `2q + 1`, if the primality test accepts it: always when it is
/// prime, never when `q` is 0.
pub fn safe_prime_from(q: &BigNat) -> (found: Option<BigNat>)
    ensures
        found matches Some(p) ==> p@ == 2 * q@ + 1 && is_probable_prime(p@),
        q@ == 0 ==> found is None,
        is_prime_number(2 * q@ + 1) ==> found is Some,
{
    let one = BigNat::one();
    let two = BigNat::from_u32(2);
    let p = q.times(&two).plus(&one);
    if is_prime(&p) {
        Some(p)
    } else {
        None
    }
}

} // verus!
