//! Hashing, text encodings and signatures, as the crates that implement them give them.
//!
//! The functions marked `external_body` make the outside calls. Their contracts
//! are what the rest of the library assumes of those crates.

use crate::base58::{
    encoded, lemma_digits_are_ascii, lemma_payload_of_encoded, payload, well_formed,
};
use sha2::Digest;
use vstd::prelude::*;
use vstd::utf8::is_ascii_chars;

verus! {

/// The hexadecimal digit for a value below sixteen, in lower case.
pub open spec fn hex_digit(d: int) -> char {
    seq!['0', '1', '2', '3', '4', '5', '6', '7', '8', '9', 'a', 'b', 'c', 'd', 'e', 'f'][d]
}

/// The value of a lower-case hexadecimal digit.
pub open spec fn hex_digit_value(c: char) -> int {
    if c == '0' {
        0
    } else if c == '1' {
        1
    } else if c == '2' {
        2
    } else if c == '3' {
        3
    } else if c == '4' {
        4
    } else if c == '5' {
        5
    } else if c == '6' {
        6
    } else if c == '7' {
        7
    } else if c == '8' {
        8
    } else if c == '9' {
        9
    } else if c == 'a' {
        10
    } else if c == 'b' {
        11
    } else if c == 'c' {
        12
    } else if c == 'd' {
        13
    } else if c == 'e' {
        14
    } else {
        15
    }
}

/// Bytes as lower-case hexadecimal text: two digits for each byte, the high
/// half first.
pub open spec fn hex_lower(bytes: Seq<u8>) -> Seq<char> {
    Seq::new(
        2 * bytes.len(),
        |i: int|
            hex_digit(
                if i % 2 == 0 {
                    bytes[i / 2] as int / 16
                } else {
                    bytes[i / 2] as int % 16
                },
            ),
    )
}

/// Different byte strings have different hexadecimal text.
pub proof fn lemma_hex_lower_injective(a: Seq<u8>, b: Seq<u8>)
    requires
        hex_lower(a) == hex_lower(b),
    ensures
        a == b,
{
    assert(hex_lower(a).len() == 2 * a.len());
    assert(hex_lower(b).len() == 2 * b.len());
    assert forall|k: int| 0 <= k < a.len() implies a[k] == b[k] by {
        let hi_a = a[k] as int / 16;
        let lo_a = a[k] as int % 16;
        let hi_b = b[k] as int / 16;
        let lo_b = b[k] as int % 16;
        assert(hex_lower(a)[2 * k] == hex_digit(hi_a));
        assert(hex_lower(b)[2 * k] == hex_digit(hi_b));
        assert(hex_lower(a)[2 * k + 1] == hex_digit(lo_a));
        assert(hex_lower(b)[2 * k + 1] == hex_digit(lo_b));
        assert(hex_digit_value(hex_digit(hi_a)) == hi_a);
        assert(hex_digit_value(hex_digit(hi_b)) == hi_b);
        assert(hex_digit_value(hex_digit(lo_a)) == lo_a);
        assert(hex_digit_value(hex_digit(lo_b)) == lo_b);
    }
    assert(a =~= b);
}

/// The SHA-256 digest of a byte string.
pub uninterp spec fn sha256(data: Seq<u8>) -> Seq<u8>;

/// The RIPEMD-160 digest of a byte string.
pub uninterp spec fn ripemd160(data: Seq<u8>) -> Seq<u8>;

/// The public key that belongs to a private key document.
pub uninterp spec fn ecdsa_public_key(pkcs8: Seq<u8>) -> Seq<u8>;

/// Whether `signature` is a valid ECDSA P-256 / SHA-256 signature of `message`
/// under `public_key`.
pub uninterp spec fn ecdsa_signature_valid(
    public_key: Seq<u8>,
    signature: Seq<u8>,
    message: Seq<u8>,
) -> bool;

/// Bytes below 128 as the characters that they stand for.
pub open spec fn ascii_text(bytes: Seq<u8>) -> Seq<char> {
    Seq::new(bytes.len(), |i: int| bytes[i] as char)
}

/// The characters of a text as bytes, one for one.
pub open spec fn ascii_bytes(text: Seq<char>) -> Seq<u8> {
    Seq::new(text.len(), |i: int| text[i] as u8)
}

/// The Base58 text that stands for a byte string.
pub open spec fn base58_text(data: Seq<u8>) -> Seq<char> {
    ascii_text(encoded(data))
}

/// The bytes behind a Base58 text, where every character of the text is a
/// digit of the alphabet.
pub open spec fn base58_payload(text: Seq<char>) -> Option<Seq<u8>> {
    if is_ascii_chars(text) && well_formed(ascii_bytes(text)) {
        Some(payload(ascii_bytes(text)))
    } else {
        None
    }
}

/// The text of a byte string decodes to the byte string.
pub proof fn lemma_base58_roundtrip(data: Seq<u8>)
    ensures
        base58_payload(base58_text(data)) == Some(data),
{
    let digits = encoded(data);
    let text = base58_text(data);
    lemma_payload_of_encoded(data);
    lemma_digits_are_ascii(digits);
    assert(ascii_bytes(text) =~= digits) by {
        assert forall|i: int| 0 <= i < digits.len() implies (digits[i] as char) as u8
            == digits[i] by {
            assert(digits[i] < 128);
        }
    }
    assert(is_ascii_chars(text)) by {
        assert forall|i: int| 0 <= i < text.len() implies '\0' <= #[trigger] text[i]
            <= '\u{7f}' by {
            assert(digits[i] < 128);
        }
    }
}

/// The bytes that a Base58 text decodes to, and no bytes for a text that does
/// not decode.
pub open spec fn base58_bytes(text: Seq<char>) -> Seq<u8> {
    match base58_payload(text) {
        Some(data) => data,
        None => Seq::empty(),
    }
}

/// The hash that locks an output to a public key: RIPEMD-160 of SHA-256.
pub open spec fn pub_key_hash_of(pub_key: Seq<u8>) -> Seq<u8> {
    ripemd160(sha256(pub_key))
}

/// Encodes bytes as lower-case hexadecimal text.
///
/// Calls `hex::encode`, which writes each byte as two lower-case digits.
#[verifier::external_body]
pub fn hex_string(bytes: &[u8]) -> (text: String)
    ensures
        text@ == hex_lower(bytes@),
{
    hex::encode(bytes)
}

/// Calls `data_encoding::HEXLOWER.encode`: base 16 with the symbols
/// `0123456789abcdef` and no padding.
#[verifier::external_body]
pub(crate) fn hexlower_encode(bytes: &[u8]) -> (text: String)
    ensures
        text@ == hex_lower(bytes@),
{
    data_encoding::HEXLOWER.encode(bytes)
}

/// Calls `data_encoding::HEXLOWER.decode`. The encoding is canonical: a text
/// decodes exactly when it is the encoding of some bytes, and then to those.
#[verifier::external_body]
pub(crate) fn hexlower_decode(text: &str) -> (bytes: Option<Vec<u8>>)
    ensures
        match bytes {
            Some(b) => hex_lower(b@) == text@,
            None => forall|b: Seq<u8>| hex_lower(b) != text@,
        },
{
    match data_encoding::HEXLOWER.decode(text.as_bytes()) {
        Ok(bytes) => Some(bytes),
        Err(_) => None,
    }
}

/// Computes the SHA-256 digest of `data`.
///
/// Calls `sha2::Sha256::digest`. The digest is named, and it is 32 bytes long.
#[verifier::external_body]
pub fn compute_sha256(data: &[u8]) -> (digest: Vec<u8>)
    ensures
        digest@ == sha256(data@),
        digest@.len() == 32,
{
    sha2::Sha256::digest(data).as_slice().to_vec()
}

/// Computes the RIPEMD-160 digest of `data`.
///
/// Calls `ripemd::Ripemd160::digest`. The digest is named, and it is 20 bytes
/// long.
#[verifier::external_body]
pub fn compute_ripemd160(data: &[u8]) -> (digest: Vec<u8>)
    ensures
        digest@ == ripemd160(data@),
        digest@.len() == 20,
{
    ripemd::Ripemd160::digest(data).to_vec()
}

/// Encodes bytes as Base58 text.
///
/// Calls `bs58::encode(..).into_string()`, with the alphabet that `bs58` takes
/// where none is given, which is the one of this library. The text is claimed
/// to be a first digit for each zero byte at the front, and then the digits of
/// the number that the bytes stand for, most significant first.
#[verifier::external_body]
pub fn base58_encode(data: &[u8]) -> (text: String)
    ensures
        text@ == base58_text(data@),
{
    bs58::encode(data).into_string()
}

/// Decodes Base58 text; a text that does not decode gives no bytes.
///
/// Calls `bs58::decode(..).into_vec()` and maps its error to the empty vector.
/// The call is claimed to fail exactly on a text with a character that is no
/// digit of the alphabet, and else to give a zero byte for each first digit at
/// the front and then the bytes of the number that the digits stand for, with
/// no byte for zero.
#[verifier::external_body]
pub fn base58_decode(text: &str) -> (data: Vec<u8>)
    ensures
        data@ == base58_bytes(text@),
{
    match bs58::decode(text).into_vec() {
        Ok(data) => data,
        Err(_) => Vec::new(),
    }
}

/// Generates a fresh ECDSA P-256 private key as a PKCS#8 document, or nothing
/// where the generator fails.
///
/// Calls `ring::signature::EcdsaKeyPair::generate_pkcs8` with the system's
/// random source. The key is random, so nothing is stated of it.
#[verifier::external_body]
pub fn generate_key_pair() -> (pkcs8: Option<Vec<u8>>) {
    let rng = ring::rand::SystemRandom::new();
    let alg = &ring::signature::ECDSA_P256_SHA256_FIXED_SIGNING;
    match ring::signature::EcdsaKeyPair::generate_pkcs8(alg, &rng) {
        Ok(document) => Some(document.as_ref().to_vec()),
        Err(_) => None,
    }
}

/// The public key held in a private key document, or nothing where the
/// document is rejected.
///
/// Calls `EcdsaKeyPair::from_pkcs8` and `KeyPair::public_key` of `ring`. The
/// key that comes back depends on the document alone, and is named.
#[verifier::external_body]
pub(crate) fn derive_public_key(pkcs8: &[u8]) -> (public_key: Option<Vec<u8>>)
    ensures
        public_key matches Some(key) ==> key@ == ecdsa_public_key(pkcs8@),
{
    let rng = ring::rand::SystemRandom::new();
    let alg = &ring::signature::ECDSA_P256_SHA256_FIXED_SIGNING;
    match ring::signature::EcdsaKeyPair::from_pkcs8(alg, pkcs8, &rng) {
        Ok(pair) => Some(ring::signature::KeyPair::public_key(&pair).as_ref().to_vec()),
        Err(_) => None,
    }
}

/// Signs `message` with the private key in `pkcs8`, or gives nothing where the
/// key is rejected or signing fails.
///
/// Calls `EcdsaKeyPair::from_pkcs8` and `EcdsaKeyPair::sign` of `ring`. The
/// signature depends on a random nonce; what holds of each one is that it is
/// valid for the message under the document's public key.
#[verifier::external_body]
pub fn ecdsa_p256_sha256_sign(pkcs8: &[u8], message: &[u8]) -> (signature: Option<Vec<u8>>)
    ensures
        signature matches Some(s) ==> ecdsa_signature_valid(
            ecdsa_public_key(pkcs8@),
            s@,
            message@,
        ),
{
    let rng = ring::rand::SystemRandom::new();
    let alg = &ring::signature::ECDSA_P256_SHA256_FIXED_SIGNING;
    match ring::signature::EcdsaKeyPair::from_pkcs8(alg, pkcs8, &rng) {
        Ok(pair) => match pair.sign(&rng, message) {
            Ok(signature) => Some(signature.as_ref().to_vec()),
            Err(_) => None,
        },
        Err(_) => None,
    }
}

/// Whether `signature` is a valid signature of `message` under `public_key`.
///
/// Calls `ring::signature::UnparsedPublicKey::verify` for ECDSA P-256 with
/// SHA-256 and fixed-length signatures. The answer depends on the three byte
/// strings alone, and is named.
#[verifier::external_body]
pub fn ecdsa_p256_sha256_sign_verify(public_key: &[u8], signature: &[u8], message: &[u8]) -> (valid:
    bool)
    ensures
        valid == ecdsa_signature_valid(public_key@, signature@, message@),
{
    let alg = &ring::signature::ECDSA_P256_SHA256_FIXED;
    ring::signature::UnparsedPublicKey::new(alg, public_key).verify(message, signature).is_ok()
}

/// The hash that outputs are locked to: RIPEMD-160 of the SHA-256 of a public key.
pub fn hash_pub_key(pub_key: &[u8]) -> (hash: Vec<u8>)
    ensures
        hash@ == pub_key_hash_of(pub_key@),
        hash@.len() == 20,
{
    let pub_key_sha256 = compute_sha256(pub_key);
    compute_ripemd160(pub_key_sha256.as_slice())
}

} // verus!
