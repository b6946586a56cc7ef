use sha2::{Digest, Sha256};
use utxo_chain::error::ChainError;
use utxo_chain::transaction::{
    new_coinbase_tx, TXInput, TXOutput, Transaction, COINBASE_VOUT, SUBSIDY,
};
use utxo_chain::utils::hash_pub_key;
use utxo_chain::wallet::Wallet;

/// A reward for `owner` and a payment of it, unsigned, with the owner's key.
fn reward_and_payment(owner: &Wallet, to: &Wallet, amount: i32) -> (Transaction, Transaction) {
    let reward = new_coinbase_tx(&owner.address());
    let mut payment = Transaction {
        id: vec![],
        vin: vec![TXInput {
            txid: reward.id.clone(),
            vout: 0,
            signature: vec![],
            pub_key: owner.public_key.clone(),
        }],
        vout: vec![TXOutput::new(amount, &to.address())],
    };
    payment.id = payment.hash();
    (reward, payment)
}

#[test]
fn coinbase_has_one_marker_input_and_the_subsidy() {
    let wallet = Wallet::new().unwrap();
    let tx = new_coinbase_tx(&wallet.address());
    assert_eq!(SUBSIDY, 10);
    assert_eq!(COINBASE_VOUT, -1);
    assert_eq!(tx.vin, vec![TXInput { txid: vec![], vout: -1, signature: vec![], pub_key: vec![] }]);
    assert_eq!(
        tx.vout,
        vec![TXOutput { value: 10, pub_key_hash: hash_pub_key(&wallet.public_key) }]
    );
    assert!(tx.is_coinbase());
    assert_eq!(tx.id, tx.hash());
    assert_eq!(tx.id.len(), 32);
}

#[test]
fn is_coinbase_needs_all_three_marks() {
    let marker = TXInput { txid: vec![], vout: -1, signature: vec![], pub_key: vec![] };
    let with = |vin: Vec<TXInput>| Transaction { id: vec![], vin, vout: vec![] };
    assert!(with(vec![marker.clone()]).is_coinbase());
    assert!(!with(vec![]).is_coinbase());
    assert!(!with(vec![marker.clone(), marker.clone()]).is_coinbase());
    assert!(!with(vec![TXInput { vout: 0, ..marker.clone() }]).is_coinbase());
    assert!(!with(vec![TXInput { txid: vec![1], ..marker.clone() }]).is_coinbase());
    // Signature and key play no part.
    assert!(with(vec![TXInput { signature: vec![1], pub_key: vec![2], ..marker }]).is_coinbase());
}

#[test]
fn id_is_the_digest_of_the_bytes_with_an_empty_id() {
    let tx = Transaction {
        id: vec![1, 2, 3],
        vin: vec![TXInput { txid: vec![4], vout: 5, signature: vec![6], pub_key: vec![7] }],
        vout: vec![TXOutput { value: 8, pub_key_hash: vec![9] }],
    };
    let blank = Transaction { id: vec![], ..tx.clone() };
    let mut bytes = Vec::new();
    blank.write(&mut bytes);
    assert_eq!(tx.hash(), Sha256::digest(&bytes).to_vec());
    assert_eq!(tx.hash(), blank.hash());
}

#[test]
fn trimmed_copy_clears_signatures_and_keys_only() {
    let tx = Transaction {
        id: vec![1],
        vin: vec![
            TXInput { txid: vec![4], vout: 5, signature: vec![6], pub_key: vec![7] },
            TXInput { txid: vec![8], vout: 0, signature: vec![], pub_key: vec![9] },
        ],
        vout: vec![TXOutput { value: 8, pub_key_hash: vec![9] }],
    };
    let copy = tx.trimmed_copy();
    assert_eq!(copy.id, tx.id);
    assert_eq!(copy.vout, tx.vout);
    assert_eq!(
        copy.vin,
        vec![
            TXInput { txid: vec![4], vout: 5, signature: vec![], pub_key: vec![] },
            TXInput { txid: vec![8], vout: 0, signature: vec![], pub_key: vec![] },
        ]
    );
}

#[test]
fn getters_copy_the_fields() {
    let input = TXInput { txid: vec![4], vout: 5, signature: vec![6], pub_key: vec![7] };
    assert_eq!(input.get_txid(), vec![4]);
    assert_eq!(input.get_vout(), 5);
    assert_eq!(input.get_pub_key(), vec![7]);
    let output = TXOutput { value: 8, pub_key_hash: vec![9] };
    assert_eq!(output.get_value(), 8);
    assert_eq!(output.get_pub_key_hash(), vec![9]);
    assert!(output.is_locked_with_key(&[9]));
    assert!(!output.is_locked_with_key(&[9, 9]));
    let tx = Transaction { id: vec![1], vin: vec![input.clone()], vout: vec![output.clone()] };
    assert_eq!(tx.get_id(), vec![1]);
    assert_eq!(tx.get_vin(), vec![input]);
    assert_eq!(tx.get_vout(), vec![output]);
    assert_eq!(tx.duplicate(), tx);
}

#[test]
fn uses_key_compares_the_hash_of_the_public_key() {
    let wallet = Wallet::new().unwrap();
    let input =
        TXInput { txid: vec![], vout: 0, signature: vec![], pub_key: wallet.public_key.clone() };
    assert!(input.uses_key(&hash_pub_key(&wallet.public_key)));
    assert!(!input.uses_key(&wallet.public_key));
    assert!(!input.uses_key(&[0u8; 20]));
}

#[test]
fn lock_takes_the_hash_out_of_the_address() {
    let wallet = Wallet::new().unwrap();
    let mut output = TXOutput { value: 3, pub_key_hash: vec![] };
    output.lock(&wallet.address());
    assert_eq!(output.value, 3);
    assert_eq!(output.pub_key_hash, hash_pub_key(&wallet.public_key));
    assert_eq!(TXOutput::new(3, &wallet.address()), output);
}

#[test]
fn signed_transaction_verifies() {
    let owner = Wallet::new().unwrap();
    let to = Wallet::new().unwrap();
    let (reward, mut payment) = reward_and_payment(&owner, &to, 10);
    let prev = vec![reward];
    let unsigned = payment.clone();
    assert_eq!(payment.sign(&owner.private_key, &prev), Ok(()));
    assert_eq!(payment.id, unsigned.id);
    assert_eq!(payment.vout, unsigned.vout);
    assert_eq!(payment.vin[0].txid, unsigned.vin[0].txid);
    assert_eq!(payment.vin[0].pub_key, unsigned.vin[0].pub_key);
    assert_eq!(payment.vin[0].signature.len(), 64);
    assert_eq!(payment.verify(&prev), Ok(true));
    assert_eq!(unsigned.verify(&prev), Ok(false));
}

#[test]
fn any_flipped_signature_bit_fails_verification() {
    let owner = Wallet::new().unwrap();
    let to = Wallet::new().unwrap();
    let (reward, mut payment) = reward_and_payment(&owner, &to, 10);
    let prev = vec![reward];
    payment.sign(&owner.private_key, &prev).unwrap();
    for byte in 0..payment.vin[0].signature.len() {
        for bit in 0..8 {
            let mut forged = payment.clone();
            forged.vin[0].signature[byte] ^= 1 << bit;
            assert_eq!(forged.verify(&prev), Ok(false));
        }
    }
}

#[test]
fn a_changed_amount_or_recipient_fails_verification() {
    let owner = Wallet::new().unwrap();
    let to = Wallet::new().unwrap();
    let (reward, mut payment) = reward_and_payment(&owner, &to, 10);
    let prev = vec![reward.clone()];
    payment.sign(&owner.private_key, &prev).unwrap();
    assert_eq!(payment.verify(&prev), Ok(true));

    for bit in 0..32 {
        let mut forged = payment.clone();
        forged.vout[0].value ^= 1 << bit;
        assert_eq!(forged.verify(&prev), Ok(false));
    }
    for byte in 0..20 {
        for bit in 0..8 {
            let mut forged = payment.clone();
            forged.vout[0].pub_key_hash[byte] ^= 1 << bit;
            assert_eq!(forged.verify(&prev), Ok(false));
        }
    }
    // The hash that locks the output that the input names is signed too.
    let mut relocked = reward;
    relocked.vout[0].pub_key_hash[0] ^= 1;
    assert_eq!(payment.verify(&vec![relocked]), Ok(false));
}

#[test]
fn another_key_does_not_verify() {
    let owner = Wallet::new().unwrap();
    let thief = Wallet::new().unwrap();
    let (reward, mut payment) = reward_and_payment(&owner, &thief, 10);
    let prev = vec![reward];
    payment.sign(&thief.private_key, &prev).unwrap();
    assert_eq!(payment.verify(&prev), Ok(false));
}

#[test]
fn a_key_that_does_not_lock_the_output_does_not_verify() {
    let owner = Wallet::new().unwrap();
    let thief = Wallet::new().unwrap();
    let (reward, mut payment) = reward_and_payment(&owner, &thief, 10);
    let prev = vec![reward];
    // The input carries the thief's key, and the signature is valid under it.
    payment.vin[0].pub_key = thief.public_key.clone();
    payment.id = payment.hash();
    payment.sign(&thief.private_key, &prev).unwrap();
    assert_eq!(payment.verify(&prev), Ok(false));
}

#[test]
fn coinbase_verifies_and_is_left_unsigned() {
    let wallet = Wallet::new().unwrap();
    let mut reward = new_coinbase_tx(&wallet.address());
    let before = reward.clone();
    assert_eq!(reward.verify(&vec![]), Ok(true));
    assert_eq!(reward.sign(&wallet.private_key, &vec![]), Ok(()));
    assert_eq!(reward, before);
}

#[test]
fn missing_prior_transaction_is_an_error() {
    let owner = Wallet::new().unwrap();
    let to = Wallet::new().unwrap();
    let (reward, mut payment) = reward_and_payment(&owner, &to, 10);
    let before = payment.clone();
    assert_eq!(payment.verify(&vec![]), Err(ChainError::MissingPriorTransaction));
    assert_eq!(
        payment.sign(&owner.private_key, &vec![]),
        Err(ChainError::MissingPriorTransaction)
    );
    assert_eq!(payment, before);
    // An index beyond the outputs of the prior transaction names nothing.
    payment.vin[0].vout = 1;
    assert_eq!(payment.verify(&vec![reward.clone()]), Err(ChainError::MissingPriorTransaction));
    payment.vin[0].vout = -2;
    assert_eq!(payment.verify(&vec![reward]), Err(ChainError::MissingPriorTransaction));
}

#[test]
fn a_rejected_key_is_a_crypto_failure() {
    let owner = Wallet::new().unwrap();
    let to = Wallet::new().unwrap();
    let (reward, mut payment) = reward_and_payment(&owner, &to, 10);
    let before = payment.clone();
    assert_eq!(payment.sign(&[1, 2, 3], &vec![reward]), Err(ChainError::CryptoFailure));
    assert_eq!(payment, before);
}

#[test]
fn transaction_without_inputs_verifies() {
    let tx = Transaction { id: vec![], vin: vec![], vout: vec![] };
    assert!(!tx.is_coinbase());
    assert_eq!(tx.verify(&vec![]), Ok(true));
}

#[test]
fn resolve_locks_lists_the_locks_of_the_named_outputs() {
    let owner = Wallet::new().unwrap();
    let to = Wallet::new().unwrap();
    let (reward, payment) = reward_and_payment(&owner, &to, 10);
    assert_eq!(
        payment.resolve_locks(&vec![reward]),
        Some(vec![hash_pub_key(&owner.public_key)])
    );
    assert_eq!(payment.resolve_locks(&vec![]), None);
}

#[test]
fn patched_hash_leaves_the_transaction_as_it_was() {
    let owner = Wallet::new().unwrap();
    let to = Wallet::new().unwrap();
    let (_, mut payment) = reward_and_payment(&owner, &to, 10);
    let before = payment.clone();
    let digest = payment.patched_hash(0, &[1, 2, 3]);
    assert_eq!(payment, before);
    let mut patched = before.clone();
    patched.vin[0].pub_key = vec![1, 2, 3];
    assert_eq!(digest, patched.hash());
    assert_ne!(digest, before.hash());
}
