//! Key pairs, and proofs that the holder of a key pair knows its private
//! exponent.

use crate::hashing::{challenge, challenge_for};
use crate::natural::{mod_exp, mod_pow, BigNat};
use crate::number_theory::{
    is_prime_number, lemma_euclid, lemma_exponent_mod, lemma_power_not_divisible,
};
use crate::random::random_in_range;
use vstd::arithmetic::div_mod::{
    lemma_mod_bound, lemma_mod_equivalence, lemma_mul_mod_noop_general, lemma_mul_mod_noop_left,
    lemma_small_mod, lemma_sub_mod_noop,
};
use vstd::arithmetic::power::{lemma_pow_adds, lemma_pow_mod_noop, lemma_pow_multiplies, pow};
use vstd::prelude::*;

verus! {

/// A modulus `p`, a base `g`, a private exponent `x` and the public key
/// `y = g^x mod p`. The fields cannot be changed, so the public key belongs
/// to the private exponent as long as the key pair lives.
#[derive(Debug)]
pub struct KeyPair {
    p: BigNat,
    g: BigNat,
    x: BigNat,
    y: BigNat,
}

/// The numbers that a key pair holds.
pub struct KeyPairView {
    pub p: nat,
    pub g: nat,
    pub x: nat,
    pub y: nat,
}

/// A proof of knowledge: the commitment `r` and the response `s`.
#[derive(Debug)]
pub struct Proof {
    pub r: BigNat,
    pub s: BigNat,
}

impl KeyPairView {
    /// The public key belongs to the private exponent.
    pub open spec fn is_consistent(self) -> bool {
        self.y == mod_pow(self.g, self.x, self.p)
    }
}

impl View for KeyPair {
    type V = KeyPairView;

    closed spec fn view(&self) -> KeyPairView {
        KeyPairView { p: self.p@, g: self.g@, x: self.x@, y: self.y@ }
    }
}

impl KeyPair {
    #[verifier::type_invariant]
    closed spec fn well_formed(&self) -> bool {
        self@.is_consistent()
    }

    /// The modulus.
    pub fn p(&self) -> (p: &BigNat)
        ensures
            p@ == self@.p,
    {
        &self.p
    }

    /// The base.
    pub fn g(&self) -> (g: &BigNat)
        ensures
            g@ == self@.g,
    {
        &self.g
    }

    /// The private exponent.
    pub fn x(&self) -> (x: &BigNat)
        ensures
            x@ == self@.x,
    {
        &self.x
    }

    /// The public key, which is `g^x mod p` in every key pair.
    pub fn y(&self) -> (y: &BigNat)
        ensures
            y@ == self@.y,
            y@ == mod_pow(self@.g, self@.x, self@.p),
    {
        proof {
            use_type_invariant(self);
        }
        &self.y
    }
}

/// The response to the challenge `e`, for the private exponent `x` and the
/// nonce `k`: `k + x * e`, reduced modulo `p - 1`.
pub open spec fn response(p: nat, x: nat, k: nat, e: nat) -> nat {
    (((k + x * e) as int) % (p - 1)) as nat
}

/// Whether `(r, s)` is the proof that the nonce `k` gives for the private
/// exponent `x`.
pub open spec fn is_proof_with_nonce(p: nat, g: nat, x: nat, k: nat, r: nat, s: nat) -> bool {
    &&& r == mod_pow(g, k, p)
    &&& s == response(p, x, k, challenge(r))
}

/// The equation that the verifier checks for the challenge `e`:
/// `g^s = r * y^e` modulo `p`.
pub open spec fn accepts(p: nat, g: nat, y: nat, r: nat, s: nat, e: nat) -> bool {
    mod_pow(g, s, p) == (r * mod_pow(y, e, p)) % p
}

/// The key pair of the base `g` and the private exponent `x`.
pub fn derive_keys(p: &BigNat, g: BigNat, x: BigNat) -> (keys: KeyPair)
    requires
        p@ >= 1,
    ensures
        keys@.p == p@,
        keys@.g == g@,
        keys@.x == x@,
        keys@.y < p@,
        keys@.is_consistent(),
{
    let y = mod_exp(&g, &x, p);
    KeyPair { p: p.clone(), g, x, y }
}

/// A key pair for the modulus `p`, with a random base between 2 and `p - 1`
/// and a random private exponent between 2 and `p - 3`.
pub fn generate_keys(p: &BigNat) -> (keys: KeyPair)
    requires
        p@ >= 5,
    ensures
        keys@.p == p@,
        2 <= keys@.g < p@,
        2 <= keys@.x < p@ - 2,
        keys@.y < p@,
        keys@.is_consistent(),
{
    let two = BigNat::from_u32(2);
    let g = random_in_range(&two, p);
    let x = random_in_range(&two, &p.minus(&two));
    derive_keys(p, g, x)
}

/// The response to the challenge `e`.
pub fn respond(p: &BigNat, x: &BigNat, k: &BigNat, e: &BigNat) -> (s: BigNat)
    requires
        p@ >= 2,
    ensures
        s@ == response(p@, x@, k@, e@),
        s@ < p@ - 1,
{
    proof {
        lemma_mod_bound((k@ + x@ * e@) as int, p@ - 1);
    }
    let one = BigNat::one();
    k.plus(&x.times(e)).modulo(&p.minus(&one))
}

/// The proof that the nonce `k` gives. A nonce must never serve twice for
/// one private exponent.
pub fn prove_with_nonce(p: &BigNat, g: &BigNat, x: &BigNat, k: &BigNat) -> (proof: Proof)
    requires
        p@ >= 2,
    ensures
        is_proof_with_nonce(p@, g@, x@, k@, proof.r@, proof.s@),
        proof.r@ < p@,
        proof.s@ < p@ - 1,
{
    let r = mod_exp(g, k, p);
    let e = challenge_for(&r);
    let s = respond(p, x, k, &e);
    Proof { r, s }
}

/// Proves knowledge of the private exponent `x`, with a fresh random nonce
/// between 2 and `p - 3`.
pub fn prove_discrete_log(p: &BigNat, g: &BigNat, x: &BigNat) -> (proof: Proof)
    requires
        p@ >= 5,
    ensures
        exists|k: nat|
            2 <= k < p@ - 2 && #[trigger] is_proof_with_nonce(p@, g@, x@, k, proof.r@, proof.s@),
        proof.r@ < p@,
        proof.s@ < p@ - 1,
{
    let two = BigNat::from_u32(2);
    let k = random_in_range(&two, &p.minus(&two));
    prove_with_nonce(p, g, x, &k)
}

/// Checks the verifier's equation for the challenge `e`.
pub fn check_equation(
    p: &BigNat,
    g: &BigNat,
    y: &BigNat,
    r: &BigNat,
    s: &BigNat,
    e: &BigNat,
) -> (ok: bool)
    requires
        p@ >= 1,
    ensures
        ok == accepts(p@, g@, y@, r@, s@, e@),
{
    let left = mod_exp(g, s, p);
    let right = r.times(&mod_exp(y, e, p)).modulo(p);
    left.equals(&right)
}

/// Verifies a proof against the public key `y`. Neither `r` nor `s` is
/// checked for its range: a proof that does not fit the key is rejected.
pub fn verify_discrete_log(p: &BigNat, g: &BigNat, y: &BigNat, proof: &Proof) -> (ok: bool)
    requires
        p@ >= 1,
    ensures
        ok == accepts(p@, g@, y@, proof.r@, proof.s@, challenge(proof.r@)),
{
    let e = challenge_for(&proof.r);
    check_equation(p, g, y, &proof.r, &proof.s, &e)
}

/// For a prime modulus `p` and a base that `p` does not divide, the response
/// to any challenge `e` is accepted for the public key `g^x mod p`, whatever
/// the nonce `k` and the private exponent `x` are.
pub proof fn lemma_response_accepted(p: nat, g: nat, x: nat, k: nat, e: nat)
    requires
        is_prime_number(p),
        g % p != 0,
    ensures
        accepts(p, g, mod_pow(g, x, p), mod_pow(g, k, p), response(p, x, k, e), e),
{
    let pi = p as int;
    let gi = g as int;
    let y = mod_pow(g, x, p);
    lemma_mod_bound(pow(gi, x), pi);
    lemma_mod_bound(pow(gi, k), pi);
    lemma_mod_bound((k + x * e) as int, pi - 1);
    lemma_exponent_mod(p, gi, k + x * e);
    lemma_pow_mod_noop(pow(gi, x), e, pi);
    lemma_pow_multiplies(gi, x, e);
    lemma_mod_bound(pow(gi, x * e), pi);
    assert(mod_pow(y, e, p) == pow(gi, x * e) % pi);
    lemma_mul_mod_noop_general(pow(gi, k), pow(gi, x * e), pi);
    lemma_pow_adds(gi, k, x * e);
}

/// Completeness: for a prime modulus `p` and a base that `p` does not
/// divide, the proof that any nonce gives for the private exponent `x` is
/// accepted by the verifier for the public key `g^x mod p`.
pub proof fn lemma_round_trip(p: nat, g: nat, x: nat, k: nat, r: nat, s: nat)
    requires
        is_prime_number(p),
        g % p != 0,
        is_proof_with_nonce(p, g, x, k, r, s),
    ensures
        accepts(p, g, mod_pow(g, x, p), r, s, challenge(r)),
{
    lemma_response_accepted(p, g, x, k, challenge(r));
}

/// Once one response is accepted for a commitment and a challenge, another
/// is accepted exactly when it gives the same power of the base.
pub proof fn lemma_accepted_responses_agree(
    p: nat,
    g: nat,
    y: nat,
    r: nat,
    s: nat,
    other: nat,
    e: nat,
)
    requires
        accepts(p, g, y, r, s, e),
    ensures
        accepts(p, g, y, r, other, e) <==> mod_pow(g, other, p) == mod_pow(g, s, p),
{
}

/// Why a nonce must never serve twice: the responses to two challenges with
/// one nonce differ by the private exponent times the difference of the
/// challenges, modulo `p - 1`.
pub proof fn lemma_shared_nonce_relation(p: nat, x: nat, k: nat, e1: nat, e2: nat)
    requires
        p >= 2,
    ensures
        (response(p, x, k, e1) - response(p, x, k, e2)) % (p - 1) == (x * (e1 - e2)) % (p - 1),
{
    let m = p - 1;
    lemma_mod_bound((k + x * e1) as int, m);
    lemma_mod_bound((k + x * e2) as int, m);
    lemma_sub_mod_noop((k + x * e1) as int, (k + x * e2) as int, m);
    assert((k + x * e1) - (k + x * e2) == x * (e1 - e2)) by (nonlinear_arith);
}

/// Soundness against a shifted response: for a prime modulus `p` and a base
/// between 2 and `p - 1`, a proof that is accepted is rejected once 1 is
/// added to its response modulo `p - 1`.
pub proof fn lemma_shifted_response_rejected(p: nat, g: nat, y: nat, r: nat, s: nat, e: nat)
    requires
        is_prime_number(p),
        2 <= g < p,
        accepts(p, g, y, r, s, e),
    ensures
        !accepts(p, g, y, r, ((s + 1) as int % (p - 1)) as nat, e),
{
    reveal(pow);
    let pi = p as int;
    let gi = g as int;
    let shifted = ((s + 1) as int % (p - 1)) as nat;
    let left = pow(gi, s) % pi;
    lemma_small_mod(g, p);
    lemma_mod_bound((s + 1) as int, pi - 1);
    lemma_mod_bound(pow(gi, s), pi);
    lemma_exponent_mod(p, gi, s + 1);
    assert(pow(gi, s + 1) == gi * pow(gi, s));
    assert(gi * pow(gi, s) == pow(gi, s) * gi) by (nonlinear_arith);
    lemma_mul_mod_noop_left(pow(gi, s), gi, pi);
    assert(pow(gi, shifted) % pi == (left * gi) % pi);
    if accepts(p, g, y, r, shifted, e) {
        lemma_mod_bound(pow(gi, shifted), pi);
        lemma_small_mod(left as nat, p);
        lemma_mod_equivalence(left * gi, left, pi);
        assert(left * gi - left == left * (gi - 1)) by (nonlinear_arith);
        lemma_euclid(p, left, gi - 1);
        lemma_power_not_divisible(p, gi, s);
        lemma_small_mod((g - 1) as nat, p);
    }
}

} // verus!
