//! Arbitrary-precision natural numbers, computed by `num-bigint`.

use num_bigint::BigUint;
use num_integer::Integer;
use num_traits::One;
use std::cmp::Ordering;
use vstd::arithmetic::div_mod::lemma_mod_bound;
use vstd::arithmetic::power::pow;
use vstd::arithmetic::power2::{lemma2_to64, lemma_pow2_adds, lemma_pow2_strictly_increases, pow2};
use vstd::prelude::*;
use vstd::std_specs::cmp::{PartialEqSpecImpl, PartialOrdSpecImpl};

verus! {

/// The number that a sequence of base-2^32 digits stands for, least
/// significant digit first.
pub open spec fn digits_value(digits: Seq<u32>) -> nat
    decreases digits.len(),
{
    if digits.len() == 0 {
        0
    } else {
        digits[0] as nat + 0x1_0000_0000 * digits_value(digits.drop_first())
    }
}

/// The number that a sequence of bytes stands for, most significant byte
/// first.
pub open spec fn be_bytes_value(bytes: Seq<u8>) -> nat
    decreases bytes.len(),
{
    if bytes.len() == 0 {
        0
    } else {
        256 * be_bytes_value(bytes.drop_last()) + bytes.last() as nat
    }
}

/// The character that stands for a decimal digit.
pub open spec fn decimal_digit(digit: nat) -> char {
    seq!['0', '1', '2', '3', '4', '5', '6', '7', '8', '9'][digit as int]
}

/// A number written in decimal, without leading zeros; zero is "0".
pub open spec fn decimal_digits(n: nat) -> Seq<char>
    decreases n,
{
    if n < 10 {
        seq![decimal_digit(n)]
    } else {
        decimal_digits(n / 10).push(decimal_digit(n % 10))
    }
}

/// `base` to the power `exp`, reduced modulo `modulus`.
pub open spec fn mod_pow(base: nat, exp: nat, modulus: nat) -> nat {
    (pow(base as int, exp) % (modulus as int)) as nat
}

/// A sequence of digits stands for a number below 2^(32 * length).
pub proof fn lemma_digits_value_bound(digits: Seq<u32>)
    ensures
        digits_value(digits) < pow2(32 * digits.len()),
    decreases digits.len(),
{
    lemma2_to64();
    if digits.len() > 0 {
        let rest = digits.drop_first();
        lemma_digits_value_bound(rest);
        lemma_pow2_adds(32, 32 * rest.len());
        assert(32 * digits.len() == 32 + 32 * rest.len());
        let high = digits_value(rest);
        let bound = pow2(32 * rest.len());
        assert(0x1_0000_0000 * high + 0x1_0000_0000 <= 0x1_0000_0000 * bound) by (nonlinear_arith)
            requires
                high < bound,
        ;
    }
}

/// A natural number of any size, held as base-2^32 digits, least significant
/// first. Every digit vector is a valid number; leading zero digits are
/// allowed and do not change the value.
///
/// The arithmetic is that of `num-bigint`: each operation hands the digits
/// over with `BigUint::new` and takes the result back with
/// `BigUint::to_u32_digits`, which read digits as `digits_value` does.
#[derive(Debug)]
pub struct BigNat {
    pub(crate) digits: Vec<u32>,
}

impl View for BigNat {
    type V = nat;

    closed spec fn view(&self) -> nat {
        digits_value(self.digits@)
    }
}

impl Clone for BigNat {
    fn clone(&self) -> (copy: Self)
        ensures
            copy@ == self@,
    {
        BigNat { digits: self.digits.clone() }
    }
}

impl PartialEq for BigNat {
    /// Two numbers are equal when their values are, whatever their digits.
    fn eq(&self, other: &Self) -> (same: bool) {
        self.equals(other)
    }
}

impl PartialEqSpecImpl for BigNat {
    open spec fn obeys_eq_spec() -> bool {
        true
    }

    open spec fn eq_spec(&self, other: &Self) -> bool {
        self@ == other@
    }
}

impl PartialOrd for BigNat {
    /// Numbers are ordered by their values.
    fn partial_cmp(&self, other: &Self) -> (order: Option<Ordering>) {
        if self.equals(other) {
            Some(Ordering::Equal)
        } else if self.at_most(other) {
            Some(Ordering::Less)
        } else {
            Some(Ordering::Greater)
        }
    }
}

impl PartialOrdSpecImpl for BigNat {
    open spec fn obeys_partial_cmp_spec() -> bool {
        true
    }

    open spec fn partial_cmp_spec(&self, other: &Self) -> Option<Ordering> {
        if self@ == other@ {
            Some(Ordering::Equal)
        } else if self@ < other@ {
            Some(Ordering::Less)
        } else {
            Some(Ordering::Greater)
        }
    }
}

impl BigNat {
    /// No number that fits in memory needs more than 32 bits for each digit
    /// that a vector can hold.
    pub proof fn lemma_bounded(&self)
        ensures
            self@ < pow2(32 * usize::MAX as nat),
    {
        lemma_digits_value_bound(self.digits@);
        assert(self.digits@.len() == self.digits.len());
        if self.digits@.len() < usize::MAX {
            lemma_pow2_strictly_increases(32 * self.digits@.len(), 32 * usize::MAX as nat);
        }
    }

    /// The number with the given digits, least significant first.
    pub fn from_u32_digits(digits: Vec<u32>) -> (n: Self)
        ensures
            n@ == digits_value(digits@),
    {
        BigNat { digits }
    }

    /// The number `value`.
    pub fn from_u32(value: u32) -> (n: Self)
        ensures
            n@ == value,
    {
        let digits: Vec<u32> = vec![value];
        proof {
            assert(digits@.drop_first() =~= Seq::<u32>::empty());
            reveal_with_fuel(digits_value, 2);
        }
        BigNat { digits }
    }

    /// The number `value`.
    pub fn from_u64(value: u64) -> (n: Self)
        ensures
            n@ == value,
    {
        let low: u32 = (value & 0xffff_ffff) as u32;
        let high: u32 = (value >> 32) as u32;
        let digits: Vec<u32> = vec![low, high];
        proof {
            assert(value == (value & 0xffff_ffff) + 0x1_0000_0000 * (value >> 32)) by (bit_vector);
            assert((value & 0xffff_ffff) < 0x1_0000_0000) by (bit_vector);
            assert((value >> 32) < 0x1_0000_0000) by (bit_vector);
            let rest = digits@.drop_first();
            assert(rest.len() == 1 && rest[0] == high);
            assert(rest.drop_first() =~= Seq::<u32>::empty());
            reveal_with_fuel(digits_value, 3);
        }
        BigNat { digits }
    }

    /// The number written in decimal.
    pub fn to_decimal_string(&self) -> (text: String)
        ensures
            text@ == decimal_digits(self@),
    {
        self.to_str_radix10()
    }

    /// `BigUint::from_bytes_be`: the number that the bytes stand for, most
    /// significant byte first; no bytes stand for zero.
    #[verifier::external_body]
    pub(crate) fn from_bytes_be(bytes: &Vec<u8>) -> (n: BigNat)
        ensures
            n@ == be_bytes_value(bytes@),
    {
        BigNat { digits: BigUint::from_bytes_be(bytes).to_u32_digits() }
    }

    /// `BigUint::to_str_radix` with radix 10: the number in decimal, in ASCII
    /// digits, most significant first.
    #[verifier::external_body]
    pub(crate) fn to_str_radix10(&self) -> (text: String)
        ensures
            text@ == decimal_digits(self@),
    {
        BigUint::new(self.digits.clone()).to_str_radix(10)
    }

    /// `num_traits::One::one` for `BigUint`: the number 1.
    #[verifier::external_body]
    pub(crate) fn one() -> (n: BigNat)
        ensures
            n@ == 1,
    {
        BigNat { digits: <BigUint as One>::one().to_u32_digits() }
    }

    /// `num_integer::Integer::is_even` for `BigUint`: whether 2 divides the
    /// number.
    #[verifier::external_body]
    pub(crate) fn is_even(&self) -> (even: bool)
        ensures
            even == (self@ % 2 == 0),
    {
        BigUint::new(self.digits.clone()).is_even()
    }

    /// `==` of `BigUint`: whether two numbers have the same value.
    #[verifier::external_body]
    pub(crate) fn equals(&self, other: &BigNat) -> (same: bool)
        ensures
            same == (self@ == other@),
    {
        BigUint::new(self.digits.clone()) == BigUint::new(other.digits.clone())
    }

    /// `<=` of `BigUint`: whether the number is at most `other`.
    #[verifier::external_body]
    pub(crate) fn at_most(&self, other: &BigNat) -> (le: bool)
        ensures
            le == (self@ <= other@),
    {
        BigUint::new(self.digits.clone()) <= BigUint::new(other.digits.clone())
    }

    /// `+` of `BigUint`: the sum, which never overflows.
    #[verifier::external_body]
    pub(crate) fn plus(&self, other: &BigNat) -> (sum: BigNat)
        ensures
            sum@ == self@ + other@,
    {
        let sum = BigUint::new(self.digits.clone()) + BigUint::new(other.digits.clone());
        BigNat { digits: sum.to_u32_digits() }
    }

    /// `-` of `BigUint`: the difference. `BigUint` panics when the result
    /// would be negative, so `other` may not exceed the number.
    #[verifier::external_body]
    pub(crate) fn minus(&self, other: &BigNat) -> (difference: BigNat)
        requires
            other@ <= self@,
        ensures
            difference@ == self@ - other@,
    {
        let difference = BigUint::new(self.digits.clone()) - BigUint::new(other.digits.clone());
        BigNat { digits: difference.to_u32_digits() }
    }

    /// `*` of `BigUint`: the product, which never overflows.
    #[verifier::external_body]
    pub(crate) fn times(&self, other: &BigNat) -> (product: BigNat)
        ensures
            product@ == self@ * other@,
    {
        let product = BigUint::new(self.digits.clone()) * BigUint::new(other.digits.clone());
        BigNat { digits: product.to_u32_digits() }
    }

    /// `%` of `BigUint`: the remainder of the division by `modulus`.
    /// `BigUint` panics on a zero divisor.
    #[verifier::external_body]
    pub(crate) fn modulo(&self, modulus: &BigNat) -> (remainder: BigNat)
        requires
            modulus@ > 0,
        ensures
            remainder@ == self@ % modulus@,
    {
        let remainder = BigUint::new(self.digits.clone()) % BigUint::new(modulus.digits.clone());
        BigNat { digits: remainder.to_u32_digits() }
    }

    /// `>>` of `BigUint` by one bit: the number halved, rounded down.
    #[verifier::external_body]
    pub(crate) fn halved(&self) -> (half: BigNat)
        ensures
            half@ == self@ / 2,
    {
        let half = BigUint::new(self.digits.clone()) >> 1u32;
        BigNat { digits: half.to_u32_digits() }
    }

    /// `BigUint::modpow`: the number to the power `exp`, reduced modulo
    /// `modulus`. `BigUint` panics on a zero modulus.
    #[verifier::external_body]
    pub(crate) fn modpow(&self, exp: &BigNat, modulus: &BigNat) -> (power: BigNat)
        requires
            modulus@ > 0,
        ensures
            power@ == mod_pow(self@, exp@, modulus@),
    {
        let base = BigUint::new(self.digits.clone());
        let exp = BigUint::new(exp.digits.clone());
        let modulus = BigUint::new(modulus.digits.clone());
        BigNat { digits: base.modpow(&exp, &modulus).to_u32_digits() }
    }
}

/// `base` to the power `exp`, reduced modulo `modulus`. Zero to the power
/// zero is one.
pub fn mod_exp(base: &BigNat, exp: &BigNat, modulus: &BigNat) -> (power: BigNat)
    requires
        modulus@ >= 1,
    ensures
        power@ == mod_pow(base@, exp@, modulus@),
        power@ < modulus@,
{
    proof {
        lemma_mod_bound(pow(base@ as int, exp@), modulus@ as int);
    }
    base.modpow(exp, modulus)
}

} // verus!
