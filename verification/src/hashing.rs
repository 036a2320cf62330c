//! The hash that turns a commitment into a challenge.

use crate::natural::{be_bytes_value, decimal_digits, BigNat};
use sha2::{Digest, Sha256};
use vstd::prelude::*;
use vstd::utf8::encode_utf8;

verus! {

/// The SHA-256 digest of a message.
pub uninterp spec fn sha256(message: Seq<u8>) -> Seq<u8>;

/// The digest of a text's UTF-8 bytes, read as a number, most significant
/// byte first.
pub open spec fn digest_value(text: Seq<char>) -> nat {
    be_bytes_value(sha256(encode_utf8(text)))
}

/// The challenge that belongs to a commitment: the digest of the
/// commitment's decimal digits.
pub open spec fn challenge(commitment: nat) -> nat {
    digest_value(decimal_digits(commitment))
}

/// `sha2::Sha256::digest`: the SHA-256 digest of the bytes. The digest is
/// not spelled out here; it is only given the name `sha256`.
#[verifier::external_body]
fn sha256_digest(message: &[u8]) -> (digest: Vec<u8>)
    ensures
        digest@ == sha256(message@),
{
    Sha256::digest(message).to_vec()
}

/// Hashes a text and reads the digest as a number.
pub fn hash_message(message: &str) -> (e: BigNat)
    ensures
        e@ == digest_value(message@),
{
    let digest = sha256_digest(message.as_bytes());
    BigNat::from_bytes_be(&digest)
}

/// The challenge for a commitment.
pub fn challenge_for(commitment: &BigNat) -> (e: BigNat)
    ensures
        e@ == challenge(commitment@),
{
    let text = commitment.to_decimal_string();
    hash_message(text.as_str())
}

} // verus!
