use sha2::{Digest, Sha256};
use utxo_chain::block::Block;
use utxo_chain::clock::{to_time_stamp, unix_time};
use utxo_chain::error::ChainError;
use utxo_chain::proofofwork::{ProofOfWork, MAX_NONCE, TARGET_BITS};
use utxo_chain::transaction::{TXInput, TXOutput, Transaction};

fn sample_transaction(tag: u8) -> Transaction {
    let mut tx = Transaction {
        id: vec![],
        vin: vec![TXInput { txid: vec![], vout: -1, signature: vec![], pub_key: vec![] }],
        vout: vec![TXOutput { value: 10, pub_key_hash: vec![tag; 20] }],
    };
    tx.id = tx.hash();
    tx
}

#[test]
fn test() {
    let bytes: &[u8] = &[0x78, 0x56, 0x12, 0x44];
    println!("len value: {}", bytes.len());
    println!("byte val: {:?}", bytes);

    let last_four = &bytes[bytes.len() - 4..];
    println!("{:?}", last_four);
}

#[test]
fn difficulty_is_sixteen_bits_over_the_whole_nonce_space() {
    assert_eq!(TARGET_BITS, 16);
    assert_eq!(MAX_NONCE, u32::MAX);
}

#[test]
fn mined_block_validates_and_hash_is_under_target() {
    let block = Block::mine(1_700_000_000, vec![sample_transaction(1)], vec![]).unwrap();
    assert_eq!(block.time_stamp, 1_700_000_000);
    assert_eq!(block.hash.len(), 32);
    // Under 2^240: the first sixteen bits are zero.
    assert_eq!(&block.hash[..2], &[0u8, 0u8]);
    assert!(ProofOfWork::new(&block).validate());
}

#[test]
fn run_finds_the_first_nonce_and_its_hash() {
    let block = Block::mine(42, vec![sample_transaction(2)], vec![7u8; 32]).unwrap();
    let pow = ProofOfWork::new(&block);
    let (nonce, hash) = pow.run();
    assert_eq!(nonce, block.nonce);
    assert_eq!(hash, block.hash);
    // No smaller nonce solves the block.
    for smaller in 0..nonce {
        let digest = Sha256::digest(pow.prepare_data(smaller));
        assert!(digest[0] != 0 || digest[1] != 0);
    }
    let digest = Sha256::digest(pow.prepare_data(nonce));
    assert_eq!(digest.as_slice(), hash.as_slice());
}

#[test]
fn prepare_data_lays_out_the_fields() {
    let tx = sample_transaction(3);
    let block = Block {
        time_stamp: 0x0102_0304_0506_0708,
        transactions: vec![tx.clone()],
        prev_block_hash: vec![0xAA, 0xBB],
        hash: vec![],
        nonce: 0,
    };
    let data = ProofOfWork::new(&block).prepare_data(0x1122_3344);
    let mut expected = vec![0x08, 0x07, 0x06, 0x05, 0x04, 0x03, 0x02, 0x01];
    expected.extend_from_slice(Sha256::digest(&tx.id).as_slice());
    expected.extend_from_slice(&[0xAA, 0xBB]);
    expected.extend_from_slice(&[16, 0]);
    expected.extend_from_slice(&[0x11, 0x22, 0x33, 0x44]);
    assert_eq!(data, expected);
}

#[test]
fn prepare_data_writes_a_negative_time_stamp_in_twos_complement() {
    let block = Block {
        time_stamp: -2,
        transactions: vec![],
        prev_block_hash: vec![],
        hash: vec![],
        nonce: 0,
    };
    let data = ProofOfWork::new(&block).prepare_data(1);
    assert_eq!(&data[..8], &(-2i64).to_le_bytes());
    assert_eq!(&data[data.len() - 6..], &[16, 0, 0, 0, 0, 1]);
}

#[test]
fn validate_rejects_a_nonce_that_does_not_solve() {
    let mut block = Block::mine(7, vec![sample_transaction(4)], vec![]).unwrap();
    assert!(ProofOfWork::new(&block).validate());
    // The first solving nonce is the stored one, so the one before it fails.
    if block.nonce > 0 {
        block.nonce -= 1;
        assert!(!ProofOfWork::new(&block).validate());
    }
}

#[test]
fn validate_ignores_the_stored_hash() {
    let mut block = Block::mine(8, vec![sample_transaction(5)], vec![]).unwrap();
    block.hash = vec![0xFF; 32];
    assert!(ProofOfWork::new(&block).validate());
}

#[test]
fn hash_transaction_is_the_digest_of_the_ids_in_order() {
    let a = sample_transaction(6);
    let b = sample_transaction(7);
    let block = Block {
        time_stamp: 0,
        transactions: vec![a.clone(), b.clone()],
        prev_block_hash: vec![],
        hash: vec![],
        nonce: 0,
    };
    let mut ids = a.id.clone();
    ids.extend_from_slice(&b.id);
    assert_eq!(block.hash_transaction(), Sha256::digest(&ids).to_vec());
    let swapped = Block { transactions: vec![b, a], ..block.clone() };
    assert_ne!(swapped.hash_transaction(), block.hash_transaction());
}

#[test]
fn new_stamps_the_clock_and_mines() {
    let block = Block::new(vec![sample_transaction(8)], vec![1, 2, 3]).unwrap();
    assert!(block.time_stamp > 1_600_000_000);
    assert_eq!(block.prev_block_hash, vec![1, 2, 3]);
    assert!(ProofOfWork::new(&block).validate());
    let genesis = Block::new_genesis_block(vec![sample_transaction(9)]).unwrap();
    assert!(genesis.prev_block_hash.is_empty());
    assert!(ProofOfWork::new(&genesis).validate());
}

#[test]
fn exhaustion_is_an_error_of_its_own() {
    assert_ne!(ChainError::ProofOfWorkExhausted, ChainError::PersistenceFailure);
}

#[test]
fn time_stamps_count_seconds_from_the_epoch() {
    assert_eq!(to_time_stamp(false, 0), 0);
    assert_eq!(to_time_stamp(true, 0), 0);
    assert_eq!(to_time_stamp(false, 1_700_000_000), 1_700_000_000);
    assert_eq!(to_time_stamp(true, 86_400), -86_400);
    assert_eq!(to_time_stamp(false, i64::MAX as u64), i64::MAX);
    assert_eq!(to_time_stamp(true, i64::MAX as u64), -i64::MAX);
}

#[test]
fn time_stamps_stay_within_range() {
    assert_eq!(to_time_stamp(false, i64::MAX as u64 + 1), i64::MAX);
    assert_eq!(to_time_stamp(false, u64::MAX), i64::MAX);
    assert_eq!(to_time_stamp(true, i64::MAX as u64 + 1), i64::MIN);
    assert_eq!(to_time_stamp(true, u64::MAX), i64::MIN);
}

#[test]
fn the_clock_reads_a_time_of_this_age() {
    let first = unix_time();
    let second = unix_time();
    assert!(first > 1_600_000_000);
    assert!(second >= first);
    assert!(second - first < 60);
}
