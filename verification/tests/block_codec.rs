use utxo_chain::block::Block;
use utxo_chain::codec::{
    bytes_eq, read_bytes, read_i32, read_i64, read_u32, read_u64, write_bytes, write_i32,
    write_i64, write_u32, write_u64,
};
use utxo_chain::transaction::{TXInput, TXOutput, Transaction};

fn payment() -> Transaction {
    Transaction {
        id: vec![9, 8, 7],
        vin: vec![
            TXInput { txid: vec![1, 2], vout: 3, signature: vec![4], pub_key: vec![5, 6] },
            TXInput { txid: vec![], vout: -1, signature: vec![], pub_key: vec![] },
        ],
        vout: vec![
            TXOutput { value: 4, pub_key_hash: vec![0xAB; 20] },
            TXOutput { value: -6, pub_key_hash: vec![] },
        ],
    }
}

#[test]
fn integers_are_little_endian() {
    let mut out = Vec::new();
    write_u64(&mut out, 0x0102_0304_0506_0708);
    write_u32(&mut out, 0x0A0B_0C0D);
    write_i64(&mut out, -1);
    write_i32(&mut out, -2);
    write_i32(&mut out, i32::MIN);
    let mut expected = vec![8, 7, 6, 5, 4, 3, 2, 1, 0x0D, 0x0C, 0x0B, 0x0A];
    expected.extend_from_slice(&[0xFF; 8]);
    expected.extend_from_slice(&[0xFE, 0xFF, 0xFF, 0xFF]);
    expected.extend_from_slice(&[0, 0, 0, 0x80]);
    assert_eq!(out, expected);

    let (a, rest) = read_u64(&out).unwrap();
    let (b, rest) = read_u32(rest).unwrap();
    let (c, rest) = read_i64(rest).unwrap();
    let (d, rest) = read_i32(rest).unwrap();
    let (e, rest) = read_i32(rest).unwrap();
    assert_eq!((a, b, c, d, e), (0x0102_0304_0506_0708, 0x0A0B_0C0D, -1, -2, i32::MIN));
    assert!(rest.is_empty());
    assert!(read_u32(rest).is_none());
}

#[test]
fn byte_strings_carry_their_length() {
    let mut out = Vec::new();
    write_bytes(&mut out, &[0xCA, 0xFE]);
    assert_eq!(out, vec![2, 0, 0, 0, 0, 0, 0, 0, 0xCA, 0xFE]);
    let (bytes, rest) = read_bytes(&out).unwrap();
    assert_eq!(bytes, vec![0xCA, 0xFE]);
    assert!(rest.is_empty());
    // A length that the input cannot meet.
    assert!(read_bytes(&[3, 0, 0, 0, 0, 0, 0, 0, 1, 2]).is_none());
    assert!(read_bytes(&[3, 0, 0]).is_none());
    assert!(bytes_eq(&[1, 2], &[1, 2]));
    assert!(!bytes_eq(&[1, 2], &[1, 3]));
    assert!(!bytes_eq(&[1, 2], &[1]));
}

#[test]
fn transaction_bytes_are_exact() {
    let tx = Transaction {
        id: vec![7],
        vin: vec![TXInput { txid: vec![1], vout: -1, signature: vec![], pub_key: vec![2, 3] }],
        vout: vec![TXOutput { value: 10, pub_key_hash: vec![4] }],
    };
    let mut out = Vec::new();
    tx.write(&mut out);
    let expected: Vec<u8> = vec![
        1, 0, 0, 0, 0, 0, 0, 0, 7, // id
        1, 0, 0, 0, 0, 0, 0, 0, // one input
        1, 0, 0, 0, 0, 0, 0, 0, 1, // txid
        0xFF, 0xFF, 0xFF, 0xFF, // vout -1
        0, 0, 0, 0, 0, 0, 0, 0, // signature
        2, 0, 0, 0, 0, 0, 0, 0, 2, 3, // pub_key
        1, 0, 0, 0, 0, 0, 0, 0, // one output
        10, 0, 0, 0, // value
        1, 0, 0, 0, 0, 0, 0, 0, 4, // pub_key_hash
    ];
    assert_eq!(out, expected);
    let (back, rest) = Transaction::read(&out).unwrap();
    assert_eq!(back, tx);
    assert!(rest.is_empty());
}

#[test]
fn block_round_trips_field_for_field() {
    let block = Block {
        time_stamp: -1_234_567,
        transactions: vec![payment(), payment()],
        prev_block_hash: vec![1; 32],
        hash: vec![2; 32],
        nonce: 0xDEAD_BEEF,
    };
    let bytes = block.serialize();
    let back = Block::deserialize(&bytes).unwrap();
    assert_eq!(back.time_stamp, block.time_stamp);
    assert_eq!(back.transactions, block.transactions);
    assert_eq!(back.prev_block_hash, block.prev_block_hash);
    assert_eq!(back.hash, block.hash);
    assert_eq!(back.nonce, block.nonce);
    assert_eq!(back, block);
    assert_eq!(back.serialize(), bytes);
}

#[test]
fn genesis_block_round_trips() {
    let mut coinbase = Transaction {
        id: vec![],
        vin: vec![TXInput { txid: vec![], vout: -1, signature: vec![], pub_key: vec![] }],
        vout: vec![TXOutput { value: 10, pub_key_hash: vec![3; 20] }],
    };
    coinbase.id = coinbase.hash();
    let genesis = Block::mine(1_700_000_000, vec![coinbase], vec![]).unwrap();
    assert!(genesis.prev_block_hash.is_empty());
    assert_eq!(Block::deserialize(&genesis.serialize()), Some(genesis));
}

#[test]
fn empty_block_bytes_are_exact() {
    let block = Block {
        time_stamp: 1,
        transactions: vec![],
        prev_block_hash: vec![],
        hash: vec![0xEE],
        nonce: 2,
    };
    let expected: Vec<u8> = vec![
        1, 0, 0, 0, 0, 0, 0, 0, // time stamp
        0, 0, 0, 0, 0, 0, 0, 0, // no transactions
        0, 0, 0, 0, 0, 0, 0, 0, // no link
        1, 0, 0, 0, 0, 0, 0, 0, 0xEE, // hash
        2, 0, 0, 0, // nonce
    ];
    assert_eq!(block.serialize(), expected);
}

#[test]
fn deserialize_refuses_what_is_not_exactly_a_block() {
    let block = Block {
        time_stamp: 5,
        transactions: vec![payment()],
        prev_block_hash: vec![1],
        hash: vec![2],
        nonce: 3,
    };
    let bytes = block.serialize();
    assert!(Block::deserialize(&bytes[..bytes.len() - 1]).is_none());
    let mut longer = bytes.clone();
    longer.push(0);
    assert!(Block::deserialize(&longer).is_none());
    assert!(Block::deserialize(&[]).is_none());
    // A count of transactions that the input cannot meet.
    let mut short = vec![0u8; 8];
    short.extend_from_slice(&[0xFF; 8]);
    assert!(Block::deserialize(&short).is_none());
}

#[test]
fn block_getters_copy_the_fields() {
    let block = Block {
        time_stamp: 5,
        transactions: vec![payment()],
        prev_block_hash: vec![0x00, 0xAB],
        hash: vec![0x0F, 0xF0, 0x10],
        nonce: 3,
    };
    assert_eq!(block.get_transactions(), vec![payment()]);
    assert_eq!(block.get_pre_block_hash(), "00ab");
    assert_eq!(block.get_hash(), "0ff010");
}
