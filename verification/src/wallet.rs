//! Wallets and addresses. An address is the Base58 text of a version byte, the
//! hash of a public key, and a checksum over the two.

use crate::codec::{append_bytes, bytes_eq, copy_bytes};
use crate::error::ChainError;
use crate::utils::{
    base58_bytes, base58_decode, base58_encode, base58_text, compute_sha256, derive_public_key,
    ecdsa_public_key, generate_key_pair, hash_pub_key, lemma_base58_roundtrip, pub_key_hash_of,
    sha256,
};
use vstd::prelude::*;
use vstd::slice::slice_subrange;

verus! {

/// The version byte that every address starts with.
pub const VERSION: u8 = 0x00;

/// The number of checksum bytes at the end of an address.
pub const CHECKSUM_LENGTH: usize = 4;

/// The checksum of a payload: the first four bytes of its double SHA-256.
pub open spec fn checksum_of(payload: Seq<u8>) -> Seq<u8> {
    sha256(sha256(payload)).take(CHECKSUM_LENGTH as int)
}

/// The bytes of an address: version, public key hash, checksum.
pub open spec fn address_payload(pub_key_hash: Seq<u8>) -> Seq<u8> {
    seq![VERSION] + pub_key_hash + checksum_of(seq![VERSION] + pub_key_hash)
}

/// The address of a public key hash.
pub open spec fn address_of(pub_key_hash: Seq<u8>) -> Seq<char> {
    base58_text(address_payload(pub_key_hash))
}

/// Whether a text decodes to bytes that can hold a version byte and a
/// checksum.
pub open spec fn address_decodes(text: Seq<char>) -> bool {
    base58_bytes(text).len() > CHECKSUM_LENGTH
}

/// Whether a text is an address: it decodes, and its last four bytes are the
/// checksum of the bytes before them.
pub open spec fn address_valid(text: Seq<char>) -> bool {
    let payload = base58_bytes(text);
    let cut = payload.len() - CHECKSUM_LENGTH;
    &&& address_decodes(text)
    &&& payload.skip(cut) == checksum_of(payload.take(cut))
}

/// The public key hash that an address carries: what stands between the
/// version byte and the checksum.
pub open spec fn address_pub_key_hash(text: Seq<char>) -> Seq<u8> {
    let payload = base58_bytes(text);
    payload.subrange(1, payload.len() - CHECKSUM_LENGTH)
}

/// A key pair: a private key document and the public key that belongs to it.
#[derive(Clone, Debug, PartialEq, Eq)]
pub struct Wallet {
    pub private_key: Vec<u8>,
    pub public_key: Vec<u8>,
}

impl Wallet {
    /// Whether the public key is the one that belongs to the private key.
    pub open spec fn consistent(&self) -> bool {
        self.public_key@ == ecdsa_public_key(self.private_key@)
    }

    /// The hash that outputs for this wallet are locked to.
    pub open spec fn pub_key_hash(&self) -> Seq<u8> {
        pub_key_hash_of(self.public_key@)
    }

    /// A wallet with a freshly generated key pair.
    pub fn new() -> (r: Result<Wallet, ChainError>)
        ensures
            match r {
                Ok(wallet) => wallet.consistent(),
                Err(e) => e == ChainError::CryptoFailure,
            },
    {
        let pkcs8 = match generate_key_pair() {
            Some(document) => document,
            None => { return Err(ChainError::CryptoFailure); },
        };
        let public_key = match derive_public_key(pkcs8.as_slice()) {
            Some(key) => key,
            None => { return Err(ChainError::CryptoFailure); },
        };
        Ok(Wallet { private_key: pkcs8, public_key })
    }

    /// The wallet's address. It passes validation and carries the hash of the
    /// wallet's public key.
    pub fn address(&self) -> (text: String)
        ensures
            text@ == address_of(self.pub_key_hash()),
            address_valid(text@),
            address_pub_key_hash(text@) == self.pub_key_hash(),
    {
        let pub_key_hash = hash_pub_key(self.public_key.as_slice());
        calc_address(pub_key_hash.as_slice())
    }

    /// A copy of the public key.
    pub fn get_public_key(&self) -> (key: Vec<u8>)
        ensures
            key@ == self.public_key@,
    {
        copy_bytes(self.public_key.as_slice())
    }

    /// A copy of the private key document.
    pub fn get_private_key(&self) -> (key: Vec<u8>)
        ensures
            key@ == self.private_key@,
    {
        copy_bytes(self.private_key.as_slice())
    }
}

/// The checksum of a payload.
pub fn checksum(payload: &[u8]) -> (sum: Vec<u8>)
    ensures
        sum@ == checksum_of(payload@),
        sum@.len() == CHECKSUM_LENGTH,
{
    let first_sha256 = compute_sha256(payload);
    let second_sha256 = compute_sha256(first_sha256.as_slice());
    copy_bytes(slice_subrange(second_sha256.as_slice(), 0, CHECKSUM_LENGTH))
}

/// Whether `address` is a well-formed address: it decodes, and it ends in the
/// checksum of what comes before.
pub fn validate_address(address: &str) -> (valid: bool)
    ensures
        valid == address_valid(address@),
{
    let payload = base58_decode(address);
    if payload.len() <= CHECKSUM_LENGTH {
        return false;
    }
    let cut = payload.len() - CHECKSUM_LENGTH;
    let actual_checksum = slice_subrange(payload.as_slice(), cut, payload.len());
    let target = slice_subrange(payload.as_slice(), 0, cut);
    let target_checksum = checksum(target);
    bytes_eq(actual_checksum, target_checksum.as_slice())
}

/// The address of a public key hash. It passes validation and carries the
/// hash.
pub fn calc_address(pub_hash_key: &[u8]) -> (text: String)
    ensures
        text@ == address_of(pub_hash_key@),
        address_valid(text@),
        address_pub_key_hash(text@) == pub_hash_key@,
{
    let mut payload: Vec<u8> = Vec::new();
    payload.push(VERSION);
    append_bytes(&mut payload, pub_hash_key);
    let ghost target = payload@;
    let sum = checksum(payload.as_slice());
    append_bytes(&mut payload, sum.as_slice());
    let text = base58_encode(payload.as_slice());
    proof {
        assert(target =~= seq![VERSION] + pub_hash_key@);
        assert(payload@ =~= address_payload(pub_hash_key@));
        lemma_base58_roundtrip(payload@);
        assert(base58_bytes(text@) == payload@);
        let cut = payload@.len() - CHECKSUM_LENGTH;
        assert(payload@.take(cut) =~= target);
        assert(payload@.skip(cut) =~= sum@);
        assert(payload@.subrange(1, cut) =~= pub_hash_key@);
    }
    text
}

} // verus!
