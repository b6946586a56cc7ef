use utxo_chain::bcdb::BlockchainDb;
use utxo_chain::block::Block;
use utxo_chain::blockchain::{next_to_load, tip_key_bytes, Blockchain};
use utxo_chain::cli::CLI;
use utxo_chain::report::{BlockReport, ReportLine};
use utxo_chain::utxo::{
    find_in, gather_outputs, scan_unspent, set_aside, table_has, table_insert, UnspentOutput,
};
use utxo_chain::error::ChainError;
use utxo_chain::proofofwork::ProofOfWork;
use utxo_chain::transaction::{
    new_coinbase_tx, new_utxo_transaction, TXInput, TXOutput, Transaction, SUBSIDY,
};
use utxo_chain::utils::{hash_pub_key, hex_string};
use utxo_chain::wallets::Wallets;

fn key_hash(wallets: &Wallets, address: &str) -> Vec<u8> {
    hash_pub_key(&wallets.get_wallet(address).unwrap().public_key)
}

fn values(chain: &Blockchain, pub_key_hash: Vec<u8>) -> Vec<i32> {
    chain.find_utxo(pub_key_hash).unwrap().iter().map(|o| o.value).collect()
}

fn two_wallets() -> (Wallets, String, String) {
    let mut wallets = Wallets::new();
    let a = wallets.create_wallet().unwrap();
    let b = wallets.create_wallet().unwrap();
    (wallets, a, b)
}

fn fresh_chain(address: &str) -> Blockchain {
    Blockchain::new_at(address, BlockchainDb::new(16), 1_700_000_000).unwrap()
}

#[test]
fn genesis_then_payment_with_change() {
    let (wallets, a1, a2) = two_wallets();
    let mut chain = fresh_chain(&a1);
    let tx = new_utxo_transaction(&a1, &a2, 4, &chain, &wallets).unwrap();
    assert_eq!(chain.mine_block_at(vec![tx], 1_700_000_060), Ok(()));

    assert_eq!(values(&chain, key_hash(&wallets, &a1)), vec![6]);
    assert_eq!(values(&chain, key_hash(&wallets, &a2)), vec![4]);

    let mut it = chain.iterator();
    let newest = it.next().unwrap().unwrap();
    let genesis = it.next().unwrap().unwrap();
    assert_eq!(it.next(), Ok(None));
    assert_eq!(it.next(), Ok(None));
    assert_eq!(newest.hash, chain.tip);
    assert_eq!(newest.prev_block_hash, genesis.hash);
    assert!(genesis.prev_block_hash.is_empty());
    assert_eq!(newest.time_stamp, 1_700_000_060);
    assert_eq!(genesis.time_stamp, 1_700_000_000);
    assert!(ProofOfWork::new(&newest).validate());
    assert!(ProofOfWork::new(&genesis).validate());
}

#[test]
fn fresh_chain_holds_the_reward_for_its_address_only() {
    let (wallets, a, b) = two_wallets();
    let chain = fresh_chain(&a);
    assert_eq!(values(&chain, key_hash(&wallets, &a)), vec![SUBSIDY]);
    assert_eq!(values(&chain, key_hash(&wallets, &b)), Vec::<i32>::new());
    assert_eq!(values(&chain, vec![0u8; 20]), Vec::<i32>::new());
    // The store holds the block under its hash and the hash under the tip key.
    assert_eq!(chain.db.len(), 2);
    assert_eq!(chain.db.read(&tip_key_bytes()), Some(chain.tip.clone()));
    assert_eq!(tip_key_bytes(), b"1".to_vec());
    let genesis = Block::deserialize(&chain.db.read(&chain.tip).unwrap()).unwrap();
    assert_eq!(genesis.hash, chain.tip);
    assert_eq!(genesis.transactions, vec![new_coinbase_tx(&a)]);
}

#[test]
fn spending_the_whole_reward_leaves_nothing_behind() {
    let (wallets, a, b) = two_wallets();
    let mut chain = fresh_chain(&a);
    let tx = new_utxo_transaction(&a, &b, SUBSIDY, &chain, &wallets).unwrap();
    assert_eq!(tx.vout.len(), 1);
    assert_eq!(chain.mine_block_at(vec![tx], 1_700_000_060), Ok(()));
    assert_eq!(values(&chain, key_hash(&wallets, &a)), Vec::<i32>::new());
    assert_eq!(values(&chain, key_hash(&wallets, &b)), vec![SUBSIDY]);
    for amount in [1, 5, 10, 11] {
        assert_eq!(chain.find_spendable_outputs(&key_hash(&wallets, &a), amount), Ok((0, vec![])));
    }
    assert_eq!(
        new_utxo_transaction(&a, &b, 1, &chain, &wallets),
        Err(ChainError::InsufficientFunds)
    );
}

#[test]
fn payment_beyond_balance_is_refused_and_changes_nothing() {
    let (wallets, a, b) = two_wallets();
    let chain = fresh_chain(&a);
    let tip = chain.tip.clone();
    let (accumulated, outputs) =
        chain.find_spendable_outputs(&key_hash(&wallets, &a), 11).unwrap();
    assert_eq!(accumulated, 10);
    assert_eq!(outputs, vec![(hex_string(&new_coinbase_tx(&a).id), vec![0])]);
    assert_eq!(
        new_utxo_transaction(&a, &b, 11, &chain, &wallets),
        Err(ChainError::InsufficientFunds)
    );
    assert_eq!(chain.tip, tip);
    assert_eq!(chain.db.len(), 2);
}

#[test]
fn payment_names_the_outputs_it_spends() {
    let (wallets, a, b) = two_wallets();
    let chain = fresh_chain(&a);
    let reward = new_coinbase_tx(&a);
    let tx = new_utxo_transaction(&a, &b, 4, &chain, &wallets).unwrap();
    let wallet = wallets.get_wallet(&a).unwrap();
    assert_eq!(tx.vin.len(), 1);
    assert_eq!(tx.vin[0].txid, reward.id);
    assert_eq!(tx.vin[0].vout, 0);
    assert_eq!(tx.vin[0].pub_key, wallet.public_key);
    assert_eq!(
        tx.vout,
        vec![
            TXOutput { value: 4, pub_key_hash: key_hash(&wallets, &b) },
            TXOutput { value: 6, pub_key_hash: key_hash(&wallets, &a) },
        ]
    );
    // The id is that of the payment before it was signed.
    let mut unsigned = tx.clone();
    unsigned.vin[0].signature = vec![];
    assert_eq!(tx.id, unsigned.hash());
    assert_eq!(chain.verify_transaction(&tx), Ok(true));
    assert_eq!(chain.verify_transaction(&unsigned), Ok(false));
}

#[test]
fn payments_are_refused_for_the_first_thing_that_is_wrong() {
    let (wallets, a, b) = two_wallets();
    let chain = fresh_chain(&a);
    let run = |from: &str, to: &str, amount: i32| {
        new_utxo_transaction(from, to, amount, &chain, &wallets)
    };
    assert_eq!(run(&a, &b, 0), Err(ChainError::InvalidAmount));
    assert_eq!(run("bad", "worse", -1), Err(ChainError::InvalidAmount));
    assert_eq!(run("bad", &b, 1), Err(ChainError::InvalidAddress));
    assert_eq!(run(&a, "bad", 1), Err(ChainError::InvalidAddress));
    let stranger = utxo_chain::wallet::Wallet::new().unwrap().address();
    assert_eq!(run(&stranger, &b, 1), Err(ChainError::WalletNotFound));
    assert_eq!(run(&b, &a, 1), Err(ChainError::InsufficientFunds));
    assert!(run(&a, &b, 1).is_ok());
}

#[test]
fn find_spendable_outputs_stops_at_the_first_total_that_suffices() {
    let (wallets, a, b) = two_wallets();
    let mut chain = fresh_chain(&a);
    // a pays 3 to b twice: b holds two outputs of 3, a holds the change.
    let first = new_utxo_transaction(&a, &b, 3, &chain, &wallets).unwrap();
    chain.mine_block_at(vec![first.clone()], 1).unwrap();
    let second = new_utxo_transaction(&a, &b, 3, &chain, &wallets).unwrap();
    chain.mine_block_at(vec![second.clone()], 2).unwrap();
    let b_hash = key_hash(&wallets, &b);
    assert_eq!(values(&chain, b_hash.clone()), vec![3, 3]);
    assert_eq!(values(&chain, key_hash(&wallets, &a)), vec![4]);
    // The scan starts at the tip: the newest output comes first.
    assert_eq!(
        chain.find_spendable_outputs(&b_hash, 1),
        Ok((3, vec![(hex_string(&second.id), vec![0])]))
    );
    assert_eq!(
        chain.find_spendable_outputs(&b_hash, 3),
        Ok((3, vec![(hex_string(&second.id), vec![0])]))
    );
    assert_eq!(
        chain.find_spendable_outputs(&b_hash, 4),
        Ok((6, vec![(hex_string(&second.id), vec![0]), (hex_string(&first.id), vec![0])]))
    );
    assert_eq!(
        chain.find_spendable_outputs(&b_hash, 7),
        Ok((6, vec![(hex_string(&second.id), vec![0]), (hex_string(&first.id), vec![0])]))
    );
    // b pays 5 back: both outputs are spent, one comes back as change.
    let back = new_utxo_transaction(&b, &a, 5, &chain, &wallets).unwrap();
    assert_eq!(back.vin.len(), 2);
    assert_eq!(back.vin[0].txid, second.id);
    assert_eq!(back.vin[1].txid, first.id);
    chain.mine_block_at(vec![back], 3).unwrap();
    assert_eq!(values(&chain, b_hash), vec![1]);
    assert_eq!(values(&chain, key_hash(&wallets, &a)), vec![5, 4]);
    assert_eq!(chain.iterator().next().unwrap().unwrap().prev_block_hash.len(), 32);
}

#[test]
fn find_transaction_walks_the_chain() {
    let (wallets, a, b) = two_wallets();
    let mut chain = fresh_chain(&a);
    let reward = new_coinbase_tx(&a);
    let tx = new_utxo_transaction(&a, &b, 4, &chain, &wallets).unwrap();
    chain.mine_block_at(vec![tx.clone()], 5).unwrap();
    assert_eq!(chain.find_transaction(&tx.id), Ok(Some(tx.clone())));
    assert_eq!(chain.find_transaction(&reward.id), Ok(Some(reward.clone())));
    assert_eq!(chain.find_transaction(&[1, 2, 3]), Ok(None));
    assert_eq!(chain.collect_transactions(), Ok(vec![tx.clone(), reward.clone()]));
    assert_eq!(find_in(&vec![tx.clone(), reward], &tx.id), Some(tx));
    assert_eq!(chain.find_unspent_transactions(&key_hash(&wallets, &b)).unwrap().len(), 1);
}

#[test]
fn each_unspent_output_is_listed_once() {
    let owner = vec![7u8; 20];
    let tx = Transaction {
        id: vec![1],
        vin: vec![],
        vout: vec![
            TXOutput { value: 1, pub_key_hash: owner.clone() },
            TXOutput { value: 2, pub_key_hash: vec![8u8; 20] },
            TXOutput { value: 3, pub_key_hash: owner.clone() },
        ],
    };
    let (holders, unspent) = scan_unspent(&vec![tx.clone()], &owner);
    assert_eq!(holders, vec![tx.clone()]);
    assert_eq!(
        unspent,
        vec![
            UnspentOutput { txid: vec![1], index: 0, output: tx.vout[0].clone() },
            UnspentOutput { txid: vec![1], index: 2, output: tx.vout[2].clone() },
        ]
    );
    assert_eq!(gather_outputs(&unspent), vec![tx.vout[0].clone(), tx.vout[2].clone()]);
    assert_eq!(set_aside(&unspent, 10), (4, vec![("01".to_string(), vec![0, 2])]));
    assert_eq!(set_aside(&unspent, 1), (1, vec![("01".to_string(), vec![0])]));
    let (holders, unspent) = scan_unspent(&vec![tx.clone()], &[8u8; 20]);
    assert_eq!(holders, vec![tx.clone()]);
    assert_eq!(unspent, vec![UnspentOutput { txid: vec![1], index: 1, output: tx.vout[1].clone() }]);
    assert_eq!(scan_unspent(&vec![tx], &[9u8; 20]), (vec![], vec![]));
    assert_eq!(scan_unspent(&vec![], &owner), (vec![], vec![]));
}

#[test]
fn a_payment_to_oneself_does_not_add_to_the_balance() {
    let (wallets, a, b) = two_wallets();
    let a_hash = key_hash(&wallets, &a);
    let mut chain = fresh_chain(&a);
    let split = new_utxo_transaction(&a, &a, 4, &chain, &wallets).unwrap();
    chain.mine_block_at(vec![split.clone()], 1).unwrap();
    // The reward is spent; the payment and its change are the balance.
    assert_eq!(values(&chain, a_hash.clone()), vec![4, 6]);
    assert_eq!(chain.find_unspent_transactions(&a_hash), Ok(vec![split.clone()]));
    assert_eq!(
        chain.find_spendable_outputs(&a_hash, 15),
        Ok((10, vec![(hex_string(&split.id), vec![0, 1])]))
    );
    assert_eq!(
        new_utxo_transaction(&a, &b, 15, &chain, &wallets),
        Err(ChainError::InsufficientFunds)
    );
    assert_eq!(
        new_utxo_transaction(&a, &b, 11, &chain, &wallets),
        Err(ChainError::InsufficientFunds)
    );
    // Spending the 4 leaves the 6, and the 4 does not come back.
    let spend = new_utxo_transaction(&a, &b, 4, &chain, &wallets).unwrap();
    assert_eq!(spend.vin.len(), 1);
    assert_eq!((spend.vin[0].txid.clone(), spend.vin[0].vout), (split.id.clone(), 0));
    chain.mine_block_at(vec![spend], 2).unwrap();
    assert_eq!(values(&chain, a_hash.clone()), vec![6]);
    assert_eq!(values(&chain, key_hash(&wallets, &b)), vec![4]);
    assert_eq!(
        chain.find_unspent_outputs(&a_hash),
        Ok(vec![UnspentOutput { txid: split.id.clone(), index: 1, output: split.vout[1].clone() }])
    );
    assert_eq!(
        chain.find_spendable_outputs(&a_hash, 100),
        Ok((6, vec![(hex_string(&split.id), vec![1])]))
    );
    assert_eq!(
        new_utxo_transaction(&a, &b, 7, &chain, &wallets),
        Err(ChainError::InsufficientFunds)
    );
    let rest = new_utxo_transaction(&a, &b, 6, &chain, &wallets).unwrap();
    chain.mine_block_at(vec![rest], 3).unwrap();
    assert_eq!(values(&chain, a_hash.clone()), Vec::<i32>::new());
    assert_eq!(chain.find_spendable_outputs(&a_hash, 1), Ok((0, vec![])));
    assert_eq!(values(&chain, key_hash(&wallets, &b)), vec![6, 4]);
}

#[test]
fn an_output_cannot_be_spent_with_another_key() {
    let (wallets, a, b) = two_wallets();
    let mut chain = fresh_chain(&a);
    let thief = wallets.get_wallet(&b).unwrap();
    // The thief names the reward of `a`, carries their own key and signs with it.
    let mut theft = Transaction {
        id: vec![],
        vin: vec![TXInput {
            txid: new_coinbase_tx(&a).id,
            vout: 0,
            signature: vec![],
            pub_key: thief.public_key.clone(),
        }],
        vout: vec![TXOutput::new(10, &b)],
    };
    theft.id = theft.hash();
    assert_eq!(chain.sign_transaction(&mut theft, &thief.private_key), Ok(()));
    assert_eq!(chain.verify_transaction(&theft), Ok(false));
    let tip = chain.tip.clone();
    assert_eq!(
        chain.mine_block_at(vec![theft], 1),
        Err(ChainError::SignatureVerificationFailure)
    );
    assert_eq!(chain.tip, tip);
    assert_eq!(values(&chain, key_hash(&wallets, &a)), vec![SUBSIDY]);
}

#[test]
fn tables_group_indices_by_transaction() {
    let mut table: Vec<(String, Vec<i32>)> = Vec::new();
    table_insert(&mut table, "aa".to_string(), 1);
    table_insert(&mut table, "bb".to_string(), 0);
    table_insert(&mut table, "aa".to_string(), 3);
    assert_eq!(table, vec![("aa".to_string(), vec![1, 3]), ("bb".to_string(), vec![0])]);
    assert!(table_has(&table, &"aa".to_string(), 3));
    assert!(table_has(&table, &"bb".to_string(), 0));
    assert!(!table_has(&table, &"bb".to_string(), 1));
    assert!(!table_has(&table, &"cc".to_string(), 0));
}

#[test]
fn opening_a_store_with_a_chain_takes_it_as_it_is() {
    let (_, a, b) = two_wallets();
    let chain = fresh_chain(&a);
    let tip = chain.tip.clone();
    let reopened = Blockchain::new_at(&b, chain.db, 1_800_000_000).unwrap();
    assert_eq!(reopened.tip, tip);
    assert_eq!(reopened.db.len(), 2);
    let again = Blockchain::new_at("", reopened.db, 0).unwrap();
    assert_eq!(again.tip, tip);
    let by_clock = Blockchain::new("", again.db).unwrap();
    assert_eq!(by_clock.tip, tip);
}

#[test]
fn starting_a_chain_can_fail() {
    let (_, a, _) = two_wallets();
    let missing = Blockchain::new_at("", BlockchainDb::new(16), 0);
    assert_eq!(missing.err(), Some(ChainError::MissingChain));
    let invalid = Blockchain::new_at("not an address", BlockchainDb::new(16), 0);
    assert_eq!(invalid.err(), Some(ChainError::InvalidAddress));
    // No room for the block, or room for the block but not for the tip.
    for capacity in [0, 1] {
        let full = Blockchain::new_at(&a, BlockchainDb::new(capacity), 0);
        assert_eq!(full.err(), Some(ChainError::PersistenceFailure));
    }
    assert!(Blockchain::new_at(&a, BlockchainDb::new(2), 0).is_ok());
    let by_clock = Blockchain::new(&a, BlockchainDb::new(2)).unwrap();
    assert!(by_clock.iterator().next().unwrap().unwrap().time_stamp > 1_600_000_000);
}

#[test]
fn a_failed_write_leaves_the_tip_where_it_was() {
    let (wallets, a, b) = two_wallets();
    let mut chain = Blockchain::new_at(&a, BlockchainDb::new(2), 0).unwrap();
    let tip = chain.tip.clone();
    let tx = new_utxo_transaction(&a, &b, 4, &chain, &wallets).unwrap();
    assert_eq!(chain.mine_block_at(vec![tx], 1), Err(ChainError::PersistenceFailure));
    assert_eq!(chain.tip, tip);
    assert_eq!(chain.db.len(), 2);
    assert_eq!(chain.db.read(&tip_key_bytes()), Some(tip));
    assert_eq!(values(&chain, key_hash(&wallets, &a)), vec![SUBSIDY]);
}

#[test]
fn transactions_that_do_not_verify_are_not_mined() {
    let (wallets, a, b) = two_wallets();
    let mut chain = fresh_chain(&a);
    let tip = chain.tip.clone();
    let good = new_utxo_transaction(&a, &b, 4, &chain, &wallets).unwrap();
    let mut forged = good.clone();
    forged.vout[0].value = 9;
    assert_eq!(
        chain.mine_block_at(vec![good.clone(), forged], 1),
        Err(ChainError::SignatureVerificationFailure)
    );
    let mut dangling = good.clone();
    dangling.vin[0].txid = vec![0xAB; 32];
    assert_eq!(
        chain.mine_block_at(vec![dangling.clone(), good.clone()], 1),
        Err(ChainError::MissingPriorTransaction)
    );
    assert_eq!(chain.verify_transaction(&dangling), Err(ChainError::MissingPriorTransaction));
    assert_eq!(chain.tip, tip);
    assert_eq!(chain.db.len(), 2);
    assert_eq!(chain.mine_block(vec![good]), Ok(()));
    assert_ne!(chain.tip, tip);
    assert_eq!(chain.db.len(), 3);
}

#[test]
fn sign_transaction_looks_the_outputs_up_in_the_chain() {
    let (wallets, a, b) = two_wallets();
    let chain = fresh_chain(&a);
    let wallet = wallets.get_wallet(&a).unwrap();
    let mut tx = Transaction {
        id: vec![],
        vin: vec![TXInput {
            txid: new_coinbase_tx(&a).id,
            vout: 0,
            signature: vec![],
            pub_key: wallet.public_key.clone(),
        }],
        vout: vec![TXOutput::new(10, &b)],
    };
    tx.id = tx.hash();
    assert_eq!(chain.verify_transaction(&tx), Ok(false));
    assert_eq!(chain.sign_transaction(&mut tx, &wallet.private_key), Ok(()));
    assert_eq!(chain.verify_transaction(&tx), Ok(true));
    tx.vin[0].txid = vec![1];
    assert_eq!(
        chain.sign_transaction(&mut tx, &wallet.private_key),
        Err(ChainError::MissingPriorTransaction)
    );
}

fn corrupted_store() -> BlockchainDb {
    let mut db = BlockchainDb::new(8);
    db.write(&tip_key_bytes(), b"somewhere").unwrap();
    db.write(b"somewhere", b"not a block").unwrap();
    db
}

#[test]
fn bytes_that_are_no_block_are_reported_as_corruption() {
    assert_eq!(next_to_load(&corrupted_store()), None);
    assert_eq!(CLI.print_chain(corrupted_store()), Err(ChainError::CorruptedChain));
    let (wallets, a, b) = two_wallets();
    assert_eq!(CLI.get_balance(&a, corrupted_store()), Err(ChainError::CorruptedChain));
    assert_eq!(
        CLI.send(&a, &b, 1, corrupted_store(), &wallets).err(),
        Some(ChainError::CorruptedChain)
    );
    let mut chain = Blockchain::new_at("", corrupted_store(), 0).unwrap();
    assert_eq!(chain.tip, b"somewhere".to_vec());
    assert_eq!(chain.iterator().next(), Err(ChainError::CorruptedChain));
    assert_eq!(chain.collect_transactions(), Err(ChainError::CorruptedChain));
    assert_eq!(chain.print_chain(), Err(ChainError::CorruptedChain));
    assert_eq!(chain.find_transaction(&[1]), Err(ChainError::CorruptedChain));
    assert_eq!(chain.find_utxo(vec![1]), Err(ChainError::CorruptedChain));
    assert_eq!(chain.find_unspent_outputs(&[1]), Err(ChainError::CorruptedChain));
    assert_eq!(chain.find_unspent_transactions(&[1]), Err(ChainError::CorruptedChain));
    assert_eq!(chain.find_spendable_outputs(&[1], 1), Err(ChainError::CorruptedChain));
    let mut reward = new_coinbase_tx(&a);
    let unsigned = reward.clone();
    assert_eq!(chain.verify_transaction(&reward), Err(ChainError::CorruptedChain));
    assert_eq!(
        chain.sign_transaction(&mut reward, &wallets.get_wallet(&a).unwrap().private_key),
        Err(ChainError::CorruptedChain)
    );
    assert_eq!(reward, unsigned);
    assert_eq!(
        new_utxo_transaction(&a, &b, 1, &chain, &wallets),
        Err(ChainError::CorruptedChain)
    );
    assert_eq!(chain.mine_block_at(vec![], 1), Err(ChainError::CorruptedChain));
    assert_eq!(chain.tip, b"somewhere".to_vec());
    assert_eq!(chain.db.len(), 2);
    assert_eq!(chain.db.read(b"somewhere"), Some(b"not a block".to_vec()));
}

#[test]
fn a_ring_of_blocks_is_reported_as_corruption() {
    // A block that names itself as the block before it.
    let block = Block {
        time_stamp: 0,
        transactions: vec![],
        prev_block_hash: b"loop".to_vec(),
        hash: b"loop".to_vec(),
        nonce: 0,
    };
    let mut db = BlockchainDb::new(8);
    db.write(&tip_key_bytes(), b"loop").unwrap();
    db.write(b"loop", &block.serialize()).unwrap();
    assert_eq!(next_to_load(&db), None);
    let chain = Blockchain::new_at("", db, 0).unwrap();
    let mut it = chain.iterator();
    assert_eq!(it.next(), Ok(Some(block.clone())));
    assert_eq!(it.next(), Ok(Some(block)));
    assert_eq!(it.next(), Err(ChainError::CorruptedChain));
    assert_eq!(chain.collect_transactions(), Err(ChainError::CorruptedChain));
}

#[test]
fn a_store_is_copied_key_by_key_until_the_chain_is_whole() {
    let (wallets, a, b) = two_wallets();
    let mut chain = fresh_chain(&a);
    let tx = new_utxo_transaction(&a, &b, 4, &chain, &wallets).unwrap();
    chain.mine_block_at(vec![tx], 5).unwrap();
    let blocks: Vec<Block> = vec![
        chain.iterator().next().unwrap().unwrap(),
        {
            let mut it = chain.iterator();
            it.next().unwrap();
            it.next().unwrap().unwrap()
        },
    ];
    let mut copy = BlockchainDb::new(8);
    assert_eq!(next_to_load(&copy), Some(tip_key_bytes()));
    copy.write(&tip_key_bytes(), &chain.tip).unwrap();
    assert_eq!(next_to_load(&copy), Some(chain.tip.clone()));
    copy.write(&chain.tip, &blocks[0].serialize()).unwrap();
    assert_eq!(next_to_load(&copy), Some(blocks[1].hash.clone()));
    copy.write(&blocks[1].hash, &blocks[1].serialize()).unwrap();
    // The first block names no block before it.
    assert_eq!(next_to_load(&copy), Some(vec![]));
    let copied = Blockchain::new_at("", copy, 0).unwrap();
    assert_eq!(copied.collect_transactions(), chain.collect_transactions());
}

#[test]
fn print_chain_reports_each_block_newest_first() {
    let (wallets, a, b) = two_wallets();
    let mut chain = fresh_chain(&a);
    let reward = new_coinbase_tx(&a);
    let tx = new_utxo_transaction(&a, &b, 4, &chain, &wallets).unwrap();
    chain.mine_block_at(vec![tx.clone()], 5).unwrap();
    let reports = chain.print_chain().unwrap();
    assert_eq!(reports.len(), 2);
    let genesis_hash = reports[1].hash.clone();
    assert_eq!(
        reports[0],
        BlockReport {
            prev_hash: genesis_hash.clone(),
            hash: hex_string(&chain.tip),
            lines: vec![
                ReportLine::Input { txid: hex_string(&reward.id), vout: 0, from: a.clone() },
                ReportLine::Output { txid: hex_string(&tx.id), value: 4, to: b.clone() },
                ReportLine::Output { txid: hex_string(&tx.id), value: 6, to: a.clone() },
            ],
        }
    );
    assert_eq!(reports[1].prev_hash, "");
    assert_eq!(genesis_hash.len(), 64);
    assert_eq!(reports[1].lines.len(), 2);
    assert_eq!(
        reports[1].lines[1],
        ReportLine::Output { txid: hex_string(&reward.id), value: 10, to: a }
    );
    match &reports[1].lines[0] {
        ReportLine::Input { txid, vout, .. } => {
            assert_eq!(txid, "");
            assert_eq!(*vout, -1);
        }
        other => panic!("{:?}", other),
    }
}
