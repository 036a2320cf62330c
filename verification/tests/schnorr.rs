use schnorr_zkp::hashing::{challenge_for, hash_message};
use schnorr_zkp::natural::{mod_exp, BigNat};
use schnorr_zkp::primality::generate_safe_prime;
use schnorr_zkp::schnorr::{
    check_equation, derive_keys, generate_keys, prove_discrete_log, prove_with_nonce, respond,
    verify_discrete_log, Proof,
};

fn num(value: u64) -> BigNat {
    BigNat::from_u64(value)
}

fn to_u64(n: &BigNat) -> u64 {
    n.to_decimal_string().parse().unwrap()
}

const SAFE_PRIME: u64 = 9223372036854778487;

#[test]
fn hash_message_reads_the_digest_most_significant_byte_first() {
    assert_eq!(
        hash_message("abc").to_decimal_string(),
        "84342368487090800366523834928142263660104883695016514377462985829716817089965"
    );
    assert_eq!(
        hash_message("").to_decimal_string(),
        "102987336249554097029535212322581322789799900648198034993379397001115665086549"
    );
}

#[test]
fn challenge_hashes_the_decimal_digits() {
    assert_eq!(
        challenge_for(&num(10)).to_decimal_string(),
        "33592815351635838866227505544683417564162321228075154218315436012476449103317"
    );
    assert_eq!(challenge_for(&num(10)), hash_message("10"));
    assert_eq!(
        challenge_for(&num(0)).to_decimal_string(),
        "43388321209941149759420236104888244958223766953174235657296806338137402595305"
    );
}

#[test]
fn derive_keys_small_modulus() {
    let keys = derive_keys(&num(23), num(5), num(6));
    assert_eq!(*keys.p(), num(23));
    assert_eq!(*keys.g(), num(5));
    assert_eq!(*keys.x(), num(6));
    assert_eq!(*keys.y(), num(8));
}

#[test]
fn respond_small_modulus() {
    assert_eq!(respond(&num(23), &num(6), &num(3), &num(4)), num(5));
}

#[test]
fn respond_reduces_modulo_p_minus_one() {
    assert_eq!(respond(&num(23), &num(0), &num(22), &num(9)), num(0));
    assert_eq!(respond(&num(23), &num(1), &num(21), &num(2)), num(1));
    assert_eq!(respond(&num(2), &num(5), &num(7), &num(11)), num(0));
}

#[test]
fn check_equation_small_modulus() {
    // left = 5^5 mod 23 = 20, right = 10 * (8^4 mod 23) mod 23 = 10 * 2 mod 23 = 20.
    assert_eq!(mod_exp(&num(5), &num(5), &num(23)), num(20));
    assert!(check_equation(&num(23), &num(5), &num(8), &num(10), &num(5), &num(4)));
}

#[test]
fn check_equation_rejects_a_changed_response() {
    assert!(!check_equation(&num(23), &num(5), &num(8), &num(10), &num(6), &num(4)));
    assert!(!check_equation(&num(23), &num(5), &num(8), &num(10), &num(4), &num(4)));
}

#[test]
fn check_equation_rejects_a_changed_commitment() {
    assert!(!check_equation(&num(23), &num(5), &num(8), &num(11), &num(5), &num(4)));
}

#[test]
fn check_equation_takes_values_out_of_range() {
    // r = 10 + 23 and s = 5 + 22 stand for the same residues.
    assert!(check_equation(&num(23), &num(5), &num(8), &num(33), &num(27), &num(4)));
    assert!(!check_equation(&num(23), &num(5), &num(8), &num(0), &num(5), &num(4)));
}

#[test]
fn prove_with_nonce_small_modulus() {
    let proof = prove_with_nonce(&num(23), &num(5), &num(6), &num(3));
    assert_eq!(proof.r, num(10));
    assert_eq!(proof.s, num(13));
    assert!(verify_discrete_log(&num(23), &num(5), &num(8), &proof));
}

#[test]
fn prove_with_nonce_64_bit_modulus() {
    let p = num(SAFE_PRIME);
    let g = num(1234567);
    let x = num(987654321987);
    let keys = derive_keys(&p, g, x);
    assert_eq!(*keys.y(), num(2995423727367574951));
    let proof = prove_with_nonce(keys.p(), keys.g(), keys.x(), &num(555555555555));
    assert_eq!(proof.r, num(2280807267728861317));
    assert_eq!(proof.s, num(851438429331347898));
    assert!(verify_discrete_log(keys.p(), keys.g(), keys.y(), &proof));
}

#[test]
fn verify_rejects_the_response_plus_one() {
    let p = num(SAFE_PRIME);
    let proof = Proof { r: num(2280807267728861317), s: num(851438429331347899) };
    assert!(!verify_discrete_log(&p, &num(1234567), &num(2995423727367574951), &proof));
}

#[test]
fn verify_rejects_another_public_key() {
    let p = num(SAFE_PRIME);
    let proof = Proof { r: num(2280807267728861317), s: num(851438429331347898) };
    assert!(!verify_discrete_log(&p, &num(1234567), &num(2995423727367574952), &proof));
}

#[test]
fn generate_keys_gives_a_consistent_pair() {
    let p = num(SAFE_PRIME);
    let keys = generate_keys(&p);
    assert_eq!(*keys.p(), p);
    assert_eq!(*keys.y(), mod_exp(keys.g(), keys.x(), keys.p()));
    let g = to_u64(keys.g());
    let x = to_u64(keys.x());
    assert!(2 <= g && g < SAFE_PRIME);
    assert!(2 <= x && x < SAFE_PRIME - 2);
    assert!(num(2) <= *keys.g() && *keys.g() < p);
}

#[test]
fn generate_keys_smallest_modulus() {
    let keys = generate_keys(&num(5));
    let g = to_u64(keys.g());
    assert!(2 <= g && g < 5);
    assert_eq!(*keys.x(), num(2));
    assert_eq!(to_u64(keys.y()), (g * g) % 5);
}

#[test]
fn proofs_verify() {
    let p = num(SAFE_PRIME);
    let mut round: u32 = 0;
    while round < 20 {
        let keys = generate_keys(&p);
        let proof = prove_discrete_log(keys.p(), keys.g(), keys.x());
        assert!(verify_discrete_log(keys.p(), keys.g(), keys.y(), &proof));
        round += 1;
    }
}

#[test]
fn proofs_with_a_changed_response_do_not_verify() {
    let p = num(SAFE_PRIME);
    let mut round: u32 = 0;
    while round < 20 {
        let keys = generate_keys(&p);
        let proof = prove_discrete_log(keys.p(), keys.g(), keys.x());
        let s = to_u64(&proof.s);
        let changed = Proof { r: proof.r, s: num((s + 1) % (SAFE_PRIME - 1)) };
        assert!(!verify_discrete_log(keys.p(), keys.g(), keys.y(), &changed));
        round += 1;
    }
}

#[test]
fn fresh_nonces_give_different_proofs() {
    let p = num(SAFE_PRIME);
    let keys = generate_keys(&p);
    let first = prove_discrete_log(keys.p(), keys.g(), keys.x());
    let second = prove_discrete_log(keys.p(), keys.g(), keys.x());
    assert_ne!(first.r, second.r);
}

#[test]
fn whole_run_with_a_generated_safe_prime() {
    let p = generate_safe_prime(48, 1000000).unwrap();
    let keys = generate_keys(&p);
    let proof = prove_discrete_log(keys.p(), keys.g(), keys.x());
    assert!(verify_discrete_log(keys.p(), keys.g(), keys.y(), &proof));
}

#[test]
fn nonce_stays_in_its_range() {
    // With p = 5 the only nonce is 2, so r = g^2 mod 5.
    let mut round: u32 = 0;
    while round < 10 {
        let proof = prove_discrete_log(&num(5), &num(3), &num(2));
        assert_eq!(proof.r, num(4));
        round += 1;
    }
}

#[test]
fn verify_with_modulus_one_accepts_everything() {
    // Every residue modulo 1 is 0.
    let proof = Proof { r: num(7), s: num(9) };
    assert!(verify_discrete_log(&num(1), &num(3), &num(4), &proof));
}

#[test]
fn responses_with_one_nonce_differ_by_the_exponent_times_the_challenges() {
    // s1 - s2 = x * (e1 - e2) modulo p - 1: (3 + 6 * 9) - (3 + 6 * 4) = 30 = 8 mod 22.
    let s1 = respond(&num(23), &num(6), &num(3), &num(9));
    let s2 = respond(&num(23), &num(6), &num(3), &num(4));
    assert_eq!(s1, num(13));
    assert_eq!(s2, num(5));
    assert_eq!((13 - 5) % 22, (6 * (9 - 4)) % 22);
}

#[test]
fn a_base_of_order_two_accepts_the_response_plus_two() {
    // g = 22 = -1 modulo 23 has order 2, so s and s + 2 give the same power.
    let keys = derive_keys(&num(23), num(22), num(6));
    let proof = prove_with_nonce(keys.p(), keys.g(), keys.x(), &num(3));
    assert!(verify_discrete_log(keys.p(), keys.g(), keys.y(), &proof));
    let s = to_u64(&proof.s);
    let plus_one = Proof { r: num(to_u64(&proof.r)), s: num((s + 1) % 22) };
    let plus_two = Proof { r: num(to_u64(&proof.r)), s: num((s + 2) % 22) };
    assert!(!verify_discrete_log(keys.p(), keys.g(), keys.y(), &plus_one));
    assert!(verify_discrete_log(keys.p(), keys.g(), keys.y(), &plus_two));
}

#[test]
fn proofs_stay_below_the_moduli() {
    let p = num(SAFE_PRIME);
    let mut round: u32 = 0;
    while round < 20 {
        let keys = generate_keys(&p);
        let proof = prove_discrete_log(keys.p(), keys.g(), keys.x());
        assert!(*keys.y() < p);
        assert!(proof.r < p);
        assert!(proof.s < num(SAFE_PRIME - 1));
        round += 1;
    }
}

#[test]
fn small_modulus_with_a_fixed_challenge() {
    let p = num(23);
    let keys = derive_keys(&p, num(5), num(6));
    assert_eq!(*keys.y(), num(8));
    let k = num(3);
    let r = mod_exp(keys.g(), &k, &p);
    assert_eq!(r, num(10));
    assert_eq!(r.to_decimal_string(), "10");
    let e = num(4);
    let s = respond(&p, keys.x(), &k, &e);
    assert_eq!(s, num(5));
    assert_eq!(mod_exp(keys.g(), &s, &p), num(20));
    assert_eq!(mod_exp(keys.y(), &e, &p), num(2));
    assert!(check_equation(&p, keys.g(), keys.y(), &r, &s, &e));
}
