//! Primes and powers modulo a prime: Euclid's lemma and Fermat's little
//! theorem, which the laws of the protocol rest on.

use vstd::arithmetic::div_mod::{
    lemma_fundamental_div_mod, lemma_mod_bound, lemma_mod_equivalence, lemma_mod_multiples_basic,
    lemma_mul_mod_noop_left, lemma_mul_mod_noop_right, lemma_small_mod, lemma_sub_mod_noop,
};
use vstd::arithmetic::power::{
    lemma1_pow, lemma_pow0, lemma_pow_adds, lemma_pow_mod_noop, lemma_pow_multiplies, pow,
};
use vstd::prelude::*;
use vstd::set_lib::{lemma_int_range, lemma_len_subset, set_int_range};

verus! {

/// Whether the positive number `d` divides `n`.
pub open spec fn divides(d: nat, n: nat) -> bool {
    d > 0 && n % d == 0
}

/// Whether `p` is a prime number: at least 2, with no divisor between 1 and
/// itself.
pub open spec fn is_prime_number(p: nat) -> bool {
    p >= 2 && forall|d: nat| 1 < d < p ==> !#[trigger] divides(d, p)
}

/// The product of the numbers from 1 to `n`.
pub open spec fn factorial(n: nat) -> nat
    decreases n,
{
    if n == 0 {
        1
    } else {
        n * factorial((n - 1) as nat)
    }
}

/// The product of the numbers in a sequence.
pub open spec fn product(s: Seq<int>) -> int
    decreases s.len(),
{
    if s.len() == 0 {
        1
    } else {
        product(s.drop_last()) * s.last()
    }
}

/// The residues of `a`, `2a`, ..., `na` modulo `p`.
pub open spec fn multiples(a: int, p: int, n: nat) -> Seq<int> {
    Seq::new(n, |i: int| (a * (i + 1)) % p)
}

proof fn lemma_multiple_of_multiple(x: int, k: int, m: int)
    requires
        m > 0,
        x % m == 0,
    ensures
        (k * x) % m == 0,
{
    lemma_fundamental_div_mod(x, m);
    let t = x / m;
    assert(k * x == (k * t) * m) by (nonlinear_arith)
        requires
            x == m * t,
    ;
    lemma_mod_multiples_basic(k * t, m);
}

proof fn lemma_difference_of_multiples(x: int, y: int, m: int)
    requires
        m > 0,
        x % m == 0,
        y % m == 0,
    ensures
        (x - y) % m == 0,
{
    lemma_sub_mod_noop(x, y, m);
    lemma_small_mod(0, m as nat);
}

/// Euclid's lemma for a factor below the prime: a prime that divides `a * b`
/// with `0 < a < p` divides `b`.
pub proof fn lemma_prime_divides_other_factor(p: nat, a: nat, b: int)
    requires
        is_prime_number(p),
        0 < a < p,
        (a * b) % (p as int) == 0,
    ensures
        b % (p as int) == 0,
    decreases a,
{
    if a == 1 {
        assert(1 * b == b);
    } else {
        let q = (p / a) as int;
        let r = (p % a) as int;
        lemma_fundamental_div_mod(p as int, a as int);
        lemma_mod_bound(p as int, a as int);
        assert(!divides(a, p));
        assert(r * b == p * b - q * (a * b)) by (nonlinear_arith)
            requires
                p == a * q + r,
        ;
        lemma_mod_multiples_basic(b, p as int);
        assert(p * b == b * p) by (nonlinear_arith);
        lemma_multiple_of_multiple(a * b, q, p as int);
        lemma_difference_of_multiples(p * b, q * (a * b), p as int);
        lemma_prime_divides_other_factor(p, r as nat, b);
    }
}

/// Euclid's lemma: a prime that divides a product divides one of the
/// factors.
pub proof fn lemma_euclid(p: nat, a: int, b: int)
    requires
        is_prime_number(p),
        (a * b) % (p as int) == 0,
    ensures
        a % (p as int) == 0 || b % (p as int) == 0,
{
    let a0 = a % (p as int);
    lemma_mod_bound(a, p as int);
    if a0 != 0 {
        lemma_mul_mod_noop_left(a, b, p as int);
        lemma_prime_divides_other_factor(p, a0 as nat, b);
    }
}

proof fn lemma_product_of_multiples(a: int, p: int, n: nat)
    requires
        p > 0,
    ensures
        product(multiples(a, p, n)) % p == (pow(a, n) * factorial(n)) % p,
    decreases n,
{
    reveal(pow);
    if n == 0 {
        assert(pow(a, 0) * factorial(0) == 1) by {
            lemma_pow0(a);
        }
    } else {
        let s = multiples(a, p, n);
        let m = (n - 1) as nat;
        let prev = multiples(a, p, m);
        assert(s.drop_last() =~= prev);
        assert(s.last() == (a * n) % p);
        lemma_product_of_multiples(a, p, m);
        let pp = product(prev);
        let t = pow(a, m) * factorial(m);
        assert(product(s) == pp * ((a * n) % p));
        lemma_mul_mod_noop_right(pp, a * n, p);
        lemma_mul_mod_noop_left(pp, a * n, p);
        lemma_mul_mod_noop_left(t, a * n, p);
        assert(pow(a, n) == a * pow(a, m));
        assert(factorial(n) == n * factorial(m));
        assert(t * (a * n) == pow(a, n) * factorial(n)) by (nonlinear_arith)
            requires
                t == pow(a, m) * factorial(m),
                pow(a, n) == a * pow(a, m),
                factorial(n) == n * factorial(m),
        ;
    }
}

proof fn lemma_product_remove(s: Seq<int>, j: int)
    requires
        0 <= j < s.len(),
    ensures
        product(s) == s[j] * product(s.remove(j)),
    decreases s.len(),
{
    let t = s.remove(j);
    s.remove_ensures(j);
    if j == s.len() - 1 {
        assert(t =~= s.drop_last());
        assert(product(s.drop_last()) * s.last() == s.last() * product(s.drop_last()))
            by (nonlinear_arith);
    } else {
        let front = s.drop_last();
        lemma_product_remove(front, j);
        front.remove_ensures(j);
        assert(t.drop_last() =~= front.remove(j));
        assert(t.last() == s.last());
        let rest = product(front.remove(j));
        assert((s[j] * rest) * s.last() == s[j] * (rest * s.last())) by (nonlinear_arith);
    }
}

proof fn lemma_distinct_in_range_len(s: Seq<int>, m: nat)
    requires
        s.no_duplicates(),
        forall|i: int| 0 <= i < s.len() ==> 1 <= #[trigger] s[i] <= m,
    ensures
        s.len() <= m,
{
    s.unique_seq_to_set();
    lemma_int_range(1, m as int + 1);
    assert(s.to_set().subset_of(set_int_range(1, m as int + 1)));
    lemma_len_subset(s.to_set(), set_int_range(1, m as int + 1));
}

/// A sequence that holds each of the numbers from 1 to `n` once has the
/// product `n!`.
proof fn lemma_product_of_permutation(s: Seq<int>, n: nat)
    requires
        s.len() == n,
        s.no_duplicates(),
        forall|i: int| 0 <= i < s.len() ==> 1 <= #[trigger] s[i] <= n,
    ensures
        product(s) == factorial(n),
    decreases n,
{
    if n > 0 {
        if exists|j: int| 0 <= j < s.len() && s[j] == n {
            let j = choose|j: int| 0 <= j < s.len() && s[j] == n;
            let t = s.remove(j);
            s.remove_ensures(j);
            assert forall|i: int| 0 <= i < t.len() implies 1 <= #[trigger] t[i] <= n - 1 by {
                if i < j {
                    assert(t[i] == s[i]);
                } else {
                    assert(t[i] == s[i + 1]);
                }
            }
            assert forall|i: int, k: int|
                0 <= i < t.len() && 0 <= k < t.len() && i != k implies t[i] != t[k] by {
                let si = if i < j { i } else { i + 1 };
                let sk = if k < j { k } else { k + 1 };
                assert(t[i] == s[si]);
                assert(t[k] == s[sk]);
            }
            lemma_product_of_permutation(t, (n - 1) as nat);
            lemma_product_remove(s, j);
        } else {
            assert forall|i: int| 0 <= i < s.len() implies 1 <= #[trigger] s[i] <= n - 1 by {}
            lemma_distinct_in_range_len(s, (n - 1) as nat);
        }
    }
}

proof fn lemma_factorial_cancels(p: nat, n: nat, c: int)
    requires
        is_prime_number(p),
        n < p,
        (factorial(n) * c) % (p as int) == 0,
    ensures
        c % (p as int) == 0,
    decreases n,
{
    if n == 0 {
        assert(factorial(0) == 1);
        assert(factorial(0) * c == c) by (nonlinear_arith)
            requires
                factorial(0) == 1,
        ;
    } else {
        let m = (n - 1) as nat;
        assert(factorial(n) * c == n * (factorial(m) * c)) by (nonlinear_arith)
            requires
                factorial(n) == n * factorial(m),
        ;
        lemma_prime_divides_other_factor(p, n, factorial(m) * c);
        lemma_factorial_cancels(p, m, c);
    }
}

/// Fermat's little theorem: for a prime `p` and a number `a` that `p` does
/// not divide, `a^(p-1)` is 1 modulo `p`.
pub proof fn lemma_fermat_little(p: nat, a: int)
    requires
        is_prime_number(p),
        a % (p as int) != 0,
    ensures
        pow(a, (p - 1) as nat) % (p as int) == 1,
{
    let n = (p - 1) as nat;
    let pi = p as int;
    // The residues of a, 2a, ..., (p-1)a are the numbers 1, ..., p-1 in some
    // order: none is 0, and no two are equal.
    let s = multiples(a, pi, n);
    assert forall|i: int| 0 <= i < s.len() implies 1 <= #[trigger] s[i] <= n by {
        lemma_mod_bound(a * (i + 1), pi);
        if s[i] == 0 {
            lemma_euclid(p, a, i + 1);
            lemma_small_mod((i + 1) as nat, p);
        }
    }
    assert forall|i: int, j: int|
        0 <= i < s.len() && 0 <= j < s.len() && i != j implies s[i] != s[j] by {
        if s[i] == s[j] {
            let lo = if i < j { i } else { j };
            let hi = if i < j { j } else { i };
            lemma_mod_equivalence(a * (hi + 1), a * (lo + 1), pi);
            assert(a * (hi + 1) - a * (lo + 1) == a * (hi - lo)) by (nonlinear_arith);
            lemma_euclid(p, a, hi - lo);
            lemma_small_mod((hi - lo) as nat, p);
        }
    }
    // So their product is (p-1)!, and it is a^(p-1) * (p-1)! modulo p as well.
    lemma_product_of_permutation(s, n);
    lemma_product_of_multiples(a, pi, n);
    // p divides (a^(p-1) - 1) * (p-1)! and not (p-1)!.
    let f = factorial(n) as int;
    let x = pow(a, n);
    lemma_mod_equivalence(x * f, f, pi);
    assert(x * f - f == f * (x - 1)) by (nonlinear_arith);
    lemma_factorial_cancels(p, n, x - 1);
    lemma_mod_equivalence(x, 1, pi);
    lemma_small_mod(1, p);
}

/// A prime that does not divide `g` divides no power of `g`.
pub proof fn lemma_power_not_divisible(p: nat, g: int, e: nat)
    requires
        is_prime_number(p),
        g % (p as int) != 0,
    ensures
        pow(g, e) % (p as int) != 0,
    decreases e,
{
    reveal(pow);
    if e == 0 {
        lemma_small_mod(1, p);
    } else {
        lemma_power_not_divisible(p, g, (e - 1) as nat);
        if pow(g, e) % (p as int) == 0 {
            lemma_euclid(p, g, pow(g, (e - 1) as nat));
        }
    }
}

/// Modulo a prime `p` that does not divide `g`, a power of `g` depends only
/// on the exponent modulo `p - 1`.
pub proof fn lemma_exponent_mod(p: nat, g: int, e: nat)
    requires
        is_prime_number(p),
        g % (p as int) != 0,
    ensures
        pow(g, e) % (p as int) == pow(g, (e as int % (p - 1)) as nat) % (p as int),
{
    let pi = p as int;
    let m = (p - 1) as nat;
    let q = (e as int / (m as int)) as nat;
    let s = (e as int % (m as int)) as nat;
    lemma_fundamental_div_mod(e as int, m as int);
    lemma_mod_bound(e as int, m as int);
    assert(q >= 0 && e == m * q + s) by (nonlinear_arith)
        requires
            e == (m as int) * (e as int / (m as int)) + s,
            q == e as int / (m as int),
            m > 0,
            0 <= s < m,
            e >= 0,
    ;
    lemma_pow_adds(g, m * q, s);
    lemma_pow_multiplies(g, m, q);
    lemma_fermat_little(p, g);
    lemma_pow_mod_noop(pow(g, m), q, pi);
    lemma1_pow(q);
    lemma_small_mod(1, p);
    lemma_mul_mod_noop_left(pow(g, m * q), pow(g, s), pi);
    assert(1 * pow(g, s) == pow(g, s));
}

/// Modulo a prime, only 1 and -1 have the square 1.
pub proof fn lemma_square_root_of_one(p: nat, x: nat)
    requires
        is_prime_number(p),
        x < p,
        (x * x) % p == 1,
    ensures
        x == 1 || x == p - 1,
{
    let pi = p as int;
    if x == 0 {
        assert(x * x == 0);
        lemma_small_mod(0, p);
    } else if x >= 2 {
        lemma_small_mod(1, p);
        lemma_mod_equivalence((x * x) as int, 1, pi);
        assert((x - 1) * (x + 1) == x * x - 1) by (nonlinear_arith);
        lemma_prime_divides_other_factor(p, (x - 1) as nat, (x + 1) as int);
        if x + 1 < p {
            lemma_small_mod(x + 1, p);
        }
    }
}

} // verus!
