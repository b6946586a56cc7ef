use utxo_chain::bcdb::{from_u8, BlockchainDb};
use utxo_chain::error::ChainError;

#[test]
fn store_reads_what_was_written() {
    let mut db = BlockchainDb::new(4);
    assert_eq!(db.len(), 0);
    assert_eq!(db.capacity(), 4);
    assert_eq!(db.read(b"a"), None);
    assert_eq!(db.write(b"a", b"one"), Ok(()));
    assert_eq!(db.write(b"", b"empty key"), Ok(()));
    assert_eq!(db.read(b"a"), Some(b"one".to_vec()));
    assert_eq!(db.read(b""), Some(b"empty key".to_vec()));
    assert_eq!(db.read(b"b"), None);
    assert_eq!(db.len(), 2);
}

#[test]
fn a_second_write_replaces_the_value() {
    let mut db = BlockchainDb::new(1);
    assert_eq!(db.write(b"a", b"one"), Ok(()));
    assert_eq!(db.write(b"a", b"two"), Ok(()));
    assert_eq!(db.read(b"a"), Some(b"two".to_vec()));
    assert_eq!(db.len(), 1);
}

#[test]
fn a_full_store_refuses_a_new_key_and_stays_as_it_was() {
    let mut db = BlockchainDb::new(2);
    assert_eq!(db.write(b"a", b"1"), Ok(()));
    assert_eq!(db.write(b"b", b"2"), Ok(()));
    assert_eq!(db.write(b"c", b"3"), Err(ChainError::PersistenceFailure));
    assert_eq!(db.read(b"c"), None);
    assert_eq!(db.read(b"a"), Some(b"1".to_vec()));
    assert_eq!(db.len(), 2);
    // A key that is there can still be written.
    assert_eq!(db.write(b"b", b"4"), Ok(()));
    assert_eq!(db.read(b"b"), Some(b"4".to_vec()));
    let mut none = BlockchainDb::new(0);
    assert_eq!(none.write(b"a", b"1"), Err(ChainError::PersistenceFailure));
}

#[test]
fn disk_key_is_the_last_four_bytes_little_endian() {
    assert_eq!(from_u8(b"1"), 0x3100_0000);
    assert_eq!(from_u8(&[]), 0);
    assert_eq!(from_u8(&[1, 2]), 0x0201_0000);
    assert_eq!(from_u8(&[1, 2, 3, 4]), 0x0403_0201);
    assert_eq!(from_u8(&[9, 1, 2, 3, 4]), 0x0403_0201);
    assert_eq!(from_u8(&[0xFF, 0xFF, 0xFF, 0xFF]), -1);
    assert_eq!(from_u8(&[0, 0, 0, 0x80]), i32::MIN);
}
