use sha2::{Digest, Sha256};
use utxo_chain::error::ChainError;
use utxo_chain::utils::{
    base58_decode, base58_encode, compute_ripemd160, compute_sha256, ecdsa_p256_sha256_sign,
    ecdsa_p256_sha256_sign_verify, generate_key_pair, hash_pub_key, hex_string,
};
use utxo_chain::wallet::{
    calc_address, checksum, validate_address, Wallet, CHECKSUM_LENGTH, VERSION,
};
use utxo_chain::wallets::Wallets;

const ALPHABET: &str = "123456789ABCDEFGHJKLMNPQRSTUVWXYZabcdefghijkmnopqrstuvwxyz";

#[test]
fn hex_string_is_lower_case_two_digits_a_byte() {
    assert_eq!(hex_string(&[]), "");
    assert_eq!(hex_string(&[0x00, 0x0f, 0xa0, 0xff]), "000fa0ff");
    assert_eq!(hex_string(b"Hello world!"), "48656c6c6f20776f726c6421");
}

#[test]
fn digests_match_known_values() {
    assert_eq!(
        hex_string(&compute_sha256(b"abc")),
        "ba7816bf8f01cfea414140de5dae2223b00361a396177a9cb410ff61f20015ad"
    );
    assert_eq!(
        hex_string(&compute_sha256(b"")),
        "e3b0c44298fc1c149afbf4c8996fb92427ae41e4649b934ca495991b7852b855"
    );
    assert_eq!(
        hex_string(&compute_ripemd160(b"abc")),
        "8eb208f7e05d987a9b044a8e98c6b087f15a0bfc"
    );
    assert_eq!(
        hex_string(&compute_ripemd160(b"Hello world!")),
        "7f772647d88750add82d8e1a7a3e5c0902a346a3"
    );
    assert_eq!(
        hash_pub_key(b"abc"),
        compute_ripemd160(&compute_sha256(b"abc"))
    );
    assert_eq!(hash_pub_key(b"abc").len(), 20);
}

#[test]
fn base58_matches_known_values() {
    let input = [0x04, 0x30, 0x5e, 0x2b, 0x24, 0x73, 0xf0, 0x58];
    assert_eq!(base58_encode(&input), "he11owor1d");
    assert_eq!(base58_decode("he11owor1d"), input.to_vec());
    assert_eq!(base58_encode(&[0, 0, 1]), "112");
    assert_eq!(base58_decode("112"), vec![0, 0, 1]);
    // A text that does not decode gives no bytes.
    assert_eq!(base58_decode("0OIl"), Vec::<u8>::new());
    assert_eq!(base58_decode(""), Vec::<u8>::new());
}

#[test]
fn the_text_decoder_gives_no_byte_for_the_number_zero() {
    assert_eq!(base58_decode("1"), vec![0]);
    assert_eq!(base58_decode("111"), vec![0, 0, 0]);
    assert_eq!(base58_encode(&[0, 0, 0]), "111");
    assert_eq!(base58_decode("1z"), vec![0, 57]);
    assert_eq!(base58_decode("21"), vec![58]);
}

#[test]
fn a_text_with_a_character_beyond_the_alphabet_does_not_decode() {
    // U+0131 has the low byte of the digit `1`.
    assert_eq!(base58_decode("\u{131}12"), Vec::<u8>::new());
    assert_eq!(base58_decode("he11o wor1d"), Vec::<u8>::new());
    assert!(!validate_address("\u{131}1111111111111111111111111"));
}

#[test]
fn checksum_is_the_front_of_the_double_digest() {
    let payload = [0u8, 1, 2, 3];
    let twice = Sha256::digest(Sha256::digest(payload));
    assert_eq!(CHECKSUM_LENGTH, 4);
    assert_eq!(checksum(&payload), twice[..4].to_vec());
}

#[test]
fn address_of_the_zero_hash_is_the_known_one() {
    assert_eq!(VERSION, 0);
    assert_eq!(calc_address(&[0u8; 20]), "1111111111111111111114oLvT2");
    assert!(validate_address("1111111111111111111114oLvT2"));
    assert!(validate_address("1A1zP1eP5QGefi2DMPTfTL5SLmv7DivfNa"));
}

#[test]
fn address_carries_version_hash_and_checksum() {
    let wallet = Wallet::new().unwrap();
    let address = wallet.address();
    let payload = base58_decode(&address);
    assert_eq!(payload.len(), 25);
    assert_eq!(payload[0], VERSION);
    assert_eq!(&payload[1..21], hash_pub_key(&wallet.public_key).as_slice());
    assert_eq!(&payload[21..], checksum(&payload[..21]).as_slice());
    assert_eq!(address, calc_address(&hash_pub_key(&wallet.public_key)));
}

#[test]
fn fresh_wallet_addresses_validate() {
    for _ in 0..20 {
        let wallet = Wallet::new().unwrap();
        assert!(validate_address(&wallet.address()));
    }
}

#[test]
fn a_changed_character_invalidates_an_address() {
    let wallet = Wallet::new().unwrap();
    let address = wallet.address();
    let chars: Vec<char> = address.chars().collect();
    for at in 0..chars.len() {
        for replacement in ALPHABET.chars() {
            if replacement == chars[at] {
                continue;
            }
            let mut changed = chars.clone();
            changed[at] = replacement;
            let changed: String = changed.into_iter().collect();
            assert!(!validate_address(&changed), "{} passed", changed);
        }
    }
}

#[test]
fn malformed_addresses_do_not_validate() {
    assert!(!validate_address(""));
    assert!(!validate_address("1"));
    assert!(!validate_address("1111"));
    assert!(!validate_address("not base58 at all: 0OIl"));
    // Four bytes: a checksum and nothing before it.
    assert!(!validate_address(&base58_encode(&[1, 2, 3, 4])));
    // Five bytes with the right checksum: a version byte and an empty hash.
    let mut payload = vec![0u8];
    payload.extend_from_slice(&checksum(&[0u8]));
    assert!(validate_address(&base58_encode(&payload)));
}

#[test]
fn wallet_keys_belong_together() {
    let wallet = Wallet::new().unwrap();
    // An uncompressed point of the curve: a marker byte and two coordinates.
    assert_eq!(wallet.public_key.len(), 65);
    assert_eq!(wallet.public_key[0], 4);
    assert_ne!(wallet.public_key, wallet.private_key);
    // The document holds the public key at its end.
    assert!(wallet.private_key.ends_with(&wallet.public_key));
    assert_eq!(wallet.get_public_key(), wallet.public_key);
    assert_eq!(wallet.get_private_key(), wallet.private_key);
    let other = generate_key_pair().unwrap();
    assert_ne!(other, wallet.private_key);
}

#[test]
fn signatures_verify_under_the_public_key_only() {
    let wallet = Wallet::new().unwrap();
    let other = Wallet::new().unwrap();
    let signature = ecdsa_p256_sha256_sign(&wallet.private_key, b"message").unwrap();
    assert!(ecdsa_p256_sha256_sign_verify(&wallet.public_key, &signature, b"message"));
    assert!(!ecdsa_p256_sha256_sign_verify(&wallet.public_key, &signature, b"massage"));
    assert!(!ecdsa_p256_sha256_sign_verify(&other.public_key, &signature, b"message"));
    assert!(!ecdsa_p256_sha256_sign_verify(&wallet.public_key, b"message", &signature));
    assert_eq!(ecdsa_p256_sha256_sign(&[9, 9, 9], b"message"), None);
}

#[test]
fn wallets_keep_each_wallet_under_its_address() {
    let mut wallets = Wallets::new();
    assert!(wallets.get_addresses().is_empty());
    assert!(wallets.get_wallet("nobody").is_none());
    let first = wallets.create_wallet().unwrap();
    let second = wallets.create_wallet().unwrap();
    assert_ne!(first, second);
    assert_eq!(wallets.get_addresses(), vec![first.clone(), second.clone()]);
    let wallet = wallets.get_wallet(&first).unwrap();
    assert_eq!(wallet.address(), first);
    assert_eq!(wallets.get_wallet(&second).unwrap().address(), second);
    assert!(wallets.get_wallet("nobody").is_none());
}

#[test]
fn insert_replaces_the_wallet_under_an_address() {
    let mut wallets = Wallets::new();
    let a = Wallet::new().unwrap();
    let b = Wallet::new().unwrap();
    wallets.insert("shared".to_string(), a.clone());
    wallets.insert("other".to_string(), a.clone());
    wallets.insert("shared".to_string(), b.clone());
    assert_eq!(wallets.get_wallet("shared"), Some(&b));
    assert_eq!(wallets.get_wallet("other"), Some(&a));
    assert_eq!(wallets.get_addresses(), vec!["shared".to_string(), "other".to_string()]);
    // A wallet is found exactly for the listed addresses.
    for address in wallets.get_addresses() {
        assert!(wallets.get_wallet(&address).is_some());
    }
    assert!(wallets.get_wallet("shared ").is_none());
}

#[test]
fn crypto_failure_is_an_error_of_its_own() {
    assert_ne!(ChainError::CryptoFailure, ChainError::WalletNotFound);
}
