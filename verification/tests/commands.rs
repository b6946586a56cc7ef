use utxo_chain::base58::{decode, encode};
use utxo_chain::bcdb::BlockchainDb;
use utxo_chain::cli::CLI;
use utxo_chain::error::ChainError;
use utxo_chain::utils::{base58_decode, base58_encode};
use utxo_chain::wallets::Wallets;

fn two_wallets() -> (Wallets, String, String) {
    let mut wallets = Wallets::new();
    let a = CLI.create_wallet(&mut wallets).unwrap();
    let b = CLI.create_wallet(&mut wallets).unwrap();
    (wallets, a, b)
}

#[test]
fn create_wallet_and_list_addresses() {
    let (wallets, a, b) = two_wallets();
    assert_eq!(CLI.list_addresses(&wallets), vec![a, b]);
}

#[test]
fn create_blockchain_checks_the_address_first() {
    let (_, a, _) = two_wallets();
    let refused = CLI.create_blockchain("nonsense", BlockchainDb::new(8));
    assert_eq!(refused.err(), Some(ChainError::InvalidAddress));
    let chain = CLI.create_blockchain(&a, BlockchainDb::new(8)).unwrap();
    assert_eq!(chain.db.len(), 2);
    assert_eq!(CLI.get_balance(&a, chain.db), Ok(10));
}

#[test]
fn get_balance_adds_up_the_unspent_outputs() {
    let (wallets, a, b) = two_wallets();
    assert_eq!(CLI.get_balance("nonsense", BlockchainDb::new(8)), Err(ChainError::InvalidAddress));
    // A store without a chain gets one that rewards the address.
    assert_eq!(CLI.get_balance(&a, BlockchainDb::new(8)), Ok(10));
    assert_eq!(CLI.get_balance(&a, BlockchainDb::new(1)), Err(ChainError::PersistenceFailure));

    let chain = CLI.create_blockchain(&a, BlockchainDb::new(8)).unwrap();
    let chain = CLI.send(&a, &b, 3, chain.db, &wallets).unwrap();
    let chain = CLI.send(&a, &b, 2, chain.db, &wallets).unwrap();
    let chain = CLI.send(&b, &a, 4, chain.db, &wallets).unwrap();
    assert_eq!(chain.db.len(), 5);
    let tip = chain.tip.clone();
    let reopened = CLI.create_blockchain(&b, chain.db).unwrap();
    assert_eq!(reopened.tip, tip);
    let a_chain = CLI.create_blockchain(&a, reopened.db).unwrap();
    assert_eq!(CLI.print_chain(BlockchainDb::new(8)).err(), Some(ChainError::MissingChain));
    let reports = CLI.print_chain(a_chain.db).unwrap();
    assert_eq!(reports.len(), 4);
}

#[test]
fn balances_follow_the_payments() {
    let (wallets, a, b) = two_wallets();
    let chain = CLI.create_blockchain(&a, BlockchainDb::new(8)).unwrap();
    let chain = CLI.send(&a, &b, 3, chain.db, &wallets).unwrap();
    let tip = chain.tip.clone();
    let copy = |db: &BlockchainDb| {
        let mut other = BlockchainDb::new(8);
        let block = db.read(&tip).unwrap();
        let first =
            utxo_chain::block::Block::deserialize(&block).unwrap().prev_block_hash;
        other.write(&first, &db.read(&first).unwrap()).unwrap();
        other.write(&tip, &block).unwrap();
        other.write(b"1", &tip).unwrap();
        other
    };
    assert_eq!(CLI.get_balance(&a, copy(&chain.db)), Ok(7));
    assert_eq!(CLI.get_balance(&b, copy(&chain.db)), Ok(3));
}

#[test]
fn send_is_refused_for_the_first_thing_that_is_wrong() {
    let (wallets, a, b) = two_wallets();
    let db = || BlockchainDb::new(8);
    assert_eq!(CLI.send("bad", &b, 1, db(), &wallets).err(), Some(ChainError::InvalidAddress));
    assert_eq!(CLI.send(&a, "bad", 1, db(), &wallets).err(), Some(ChainError::InvalidAddress));
    assert_eq!(CLI.send(&a, &b, 0, db(), &wallets).err(), Some(ChainError::InvalidAmount));
    assert_eq!(CLI.send(&a, &b, 11, db(), &wallets).err(), Some(ChainError::InsufficientFunds));
    assert_eq!(
        CLI.send(&a, &b, 1, BlockchainDb::new(2), &wallets).err(),
        Some(ChainError::PersistenceFailure)
    );
    assert_eq!(
        CLI.send(&a, &b, 1, db(), &Wallets::new()).err(),
        Some(ChainError::WalletNotFound)
    );
    assert!(CLI.send(&a, &b, 1, db(), &wallets).is_ok());
}

#[test]
fn base58_encode_matches_known_values() {
    assert_eq!(encode(&[]), b"".to_vec());
    assert_eq!(encode(&[0]), b"1".to_vec());
    assert_eq!(encode(&[0, 0, 1]), b"112".to_vec());
    assert_eq!(encode(&[57]), b"z".to_vec());
    assert_eq!(encode(&[58]), b"21".to_vec());
    assert_eq!(encode(&[0x04, 0x30, 0x5e, 0x2b, 0x24, 0x73, 0xf0, 0x58]), b"he11owor1d".to_vec());
    assert_eq!(encode(b"Hello World!"), b"2NEpo7TZRRrLZSi2U".to_vec());
}

#[test]
fn base58_encode_agrees_with_the_text_encoder() {
    let mut input: Vec<u8> = Vec::new();
    for round in 0..60u32 {
        input.push((round.wrapping_mul(2_654_435_761) >> 13) as u8);
        assert_eq!(encode(&input), base58_encode(&input).into_bytes());
        let mut padded = vec![0u8; (round % 3) as usize];
        padded.extend_from_slice(&input);
        assert_eq!(encode(&padded), base58_encode(&padded).into_bytes());
    }
}

#[test]
fn base58_decode_matches_known_values() {
    assert_eq!(decode(b"he11owor1d"), vec![0x04, 0x30, 0x5e, 0x2b, 0x24, 0x73, 0xf0, 0x58]);
    assert_eq!(decode(b"2NEpo7TZRRrLZSi2U"), b"Hello World!".to_vec());
    assert_eq!(decode(b"z"), vec![57]);
    assert_eq!(decode(b"21"), vec![58]);
    assert_eq!(decode(b"112"), vec![0, 0, 1]);
}

#[test]
fn base58_decode_gives_a_zero_byte_for_the_number_zero() {
    // The number behind no digits is zero, and its shortest form is one zero byte.
    assert_eq!(decode(b""), vec![0]);
    assert_eq!(decode(b"1"), vec![0, 0]);
    assert_eq!(decode(b"11"), vec![0, 0, 0]);
}

#[test]
fn base58_decode_agrees_with_the_text_decoder_but_on_first_digits_alone() {
    for text in ["2", "z", "21", "112", "he11owor1d", "1111z", "2NEpo7TZRRrLZSi2U"] {
        assert_eq!(decode(text.as_bytes()), base58_decode(text));
    }
    for text in ["1", "11", "1111"] {
        let mut longer = base58_decode(text);
        longer.push(0);
        assert_eq!(decode(text.as_bytes()), longer);
    }
}

#[test]
fn base58_decode_inverts_encode_on_numbers_above_zero() {
    let mut input: Vec<u8> = vec![1];
    for round in 0..40u32 {
        input.push((round.wrapping_mul(40_503) >> 3) as u8);
        assert_eq!(decode(&encode(&input)), input);
        assert_eq!(decode(&encode(&input)), base58_decode(&base58_encode(&input)));
    }
}
