//! The operations that the command line offers, as functions from a store and
//! a wallet collection to what is to be shown or kept.

use crate::bcdb::BlockchainDb;
use crate::blockchain::{chain_blocks, mined_onto, opened, tip_key, walk_end, Blockchain};
use crate::codec::copy_bytes;
use crate::error::ChainError;
use crate::report::{chain_report, reports_view, BlockReport};
use crate::transaction::{
    new_utxo_transaction, outputs_view, paid, transactions_view, TXOutputView, Transaction,
};
use crate::base58::{alphabet, decode, decoded, leading, lemma_decoded_is_payload};
use crate::utils::ascii_bytes;
use crate::utxo::{saturating_sum, unspent_outputs, utxo_of};
use crate::wallet::{
    address_of, address_pub_key_hash, address_valid, validate_address, CHECKSUM_LENGTH,
};
use crate::wallets::{addresses_with, strings_view, Wallets};
use vstd::prelude::*;
use vstd::slice::slice_subrange;
use vstd::string::is_ascii_spec_bytes;

verus! {

/// The commands of the ledger. Each takes the store and the wallets that it
/// works on, and gives back what is to be shown or kept.
pub struct CLI;

/// The values of outputs added up, each sum held within the range of `i32`.
pub open spec fn balance_of(utxo: Seq<TXOutputView>) -> int
    decreases utxo.len(),
{
    if utxo.len() == 0 {
        0
    } else {
        saturating_sum(balance_of(utxo.drop_last()), utxo.last().value as int)
    }
}

/// The public key hash that a balance is asked for: what stands between the
/// first byte and the last four of the bytes that the address decodes to.
pub open spec fn balance_key(address: Seq<char>) -> Seq<u8> {
    let bytes = decoded(ascii_bytes(address));
    bytes.subrange(1, bytes.len() - CHECKSUM_LENGTH)
}

/// The key that a balance is asked for is the key that the address carries,
/// unless the address is made of first digits alone.
pub proof fn lemma_balance_key(address: Seq<char>)
    requires
        address_valid(address),
        leading(ascii_bytes(address), alphabet()[0]) < address.len(),
    ensures
        balance_key(address) == address_pub_key_hash(address),
{
    lemma_decoded_is_payload(ascii_bytes(address));
}

/// The balance of an address on a chain: the total of the unspent outputs
/// that are locked to the address.
pub open spec fn chain_balance(chain: Blockchain, address: Seq<char>) -> int {
    balance_of(utxo_of(unspent_outputs(chain.transactions(), balance_key(address))))
}

/// The balance that is reported for an address, given how opening the chain
/// went: the balance on the chain, and an error where the chain could not be
/// opened or cannot be walked to its end.
pub open spec fn balance_reported(
    address: Seq<char>,
    chain: Result<Blockchain, ChainError>,
    r: Result<i32, ChainError>,
) -> bool {
    match chain {
        Err(e) => r == Err::<i32, ChainError>(e),
        Ok(c) => if c.intact() {
            r is Ok && r->Ok_0 == chain_balance(c, address)
        } else {
            r == Err::<i32, ChainError>(ChainError::CorruptedChain)
        },
    }
}

/// How a payment comes about: the chain is opened, the payment is made and
/// signed, and a block with it is mined on top of the chain. The first of the
/// three that fails decides the outcome.
pub open spec fn sent(
    from: Seq<char>,
    to: Seq<char>,
    amount: i32,
    db: BlockchainDb,
    wallets: Wallets,
    opened_at: i64,
    mined_at: i64,
    chain: Result<Blockchain, ChainError>,
    tx: Result<Transaction, ChainError>,
    outcome: Result<(), ChainError>,
    r: Result<Blockchain, ChainError>,
) -> bool {
    &&& opened(from, db, opened_at, chain)
    &&& match chain {
        Err(e) => r is Err && r->Err_0 == e,
        Ok(before) => {
            &&& paid(
                from,
                to,
                amount,
                wallets.wallet_of(from),
                before.intact(),
                before.transactions(),
                tx,
            )
            &&& match tx {
                Err(e) => r is Err && r->Err_0 == e,
                Ok(payment) => match outcome {
                    Err(e) => {
                        &&& r is Err && r->Err_0 == e
                        &&& exists|after: Blockchain|
                            mined_onto(before, seq![payment@], mined_at, outcome, after)
                    },
                    Ok(_) => r is Ok && mined_onto(
                        before,
                        seq![payment@],
                        mined_at,
                        outcome,
                        r->Ok_0,
                    ),
                },
            }
        },
    }
}

impl CLI {
    /// The balance of `address` on the chain that `db` holds. A store without
    /// a chain gets one that rewards the address. The key whose outputs are
    /// added up is read from the address with the decoder of `base58`.
    pub fn get_balance(&self, address: &str, db: BlockchainDb) -> (r: Result<i32, ChainError>)
        ensures
            !address_valid(address@) ==> r == Err::<i32, ChainError>(ChainError::InvalidAddress),
            address_valid(address@) ==> exists|
                time_stamp: i64,
                chain: Result<Blockchain, ChainError>,
            |
                #[trigger] opened(address@, db, time_stamp, chain) && balance_reported(
                    address@,
                    chain,
                    r,
                ),
    {
        if !validate_address(address) {
            return Err(ChainError::InvalidAddress);
        }
        let chain = Blockchain::new(address, db);
        let ghost time_stamp = choose|time_stamp: i64| opened(address@, db, time_stamp, chain);
        let ghost opened_chain = chain;
        let blockchain = match chain {
            Ok(blockchain) => blockchain,
            Err(e) => {
                assert(opened(address@, db, time_stamp, opened_chain) && balance_reported(
                    address@,
                    opened_chain,
                    Err::<i32, ChainError>(e),
                ));
                return Err(e);
            },
        };
        let text = address.as_bytes();
        proof {
            is_ascii_spec_bytes(address);
            assert(text@ =~= ascii_bytes(address@));
            lemma_decoded_is_payload(text@);
        }
        let payload = decode(text);
        let pub_key_hash = copy_bytes(
            slice_subrange(payload.as_slice(), 1, payload.len() - CHECKSUM_LENGTH),
        );
        let utxos = match blockchain.find_utxo(pub_key_hash) {
            Ok(utxos) => utxos,
            Err(e) => {
                assert(opened(address@, db, time_stamp, opened_chain) && balance_reported(
                    address@,
                    opened_chain,
                    Err::<i32, ChainError>(e),
                ));
                return Err(e);
            },
        };
        let ghost all = outputs_view(utxos@);
        let mut balance: i32 = 0;
        let mut k: usize = 0;
        while k < utxos.len()
            invariant
                k <= utxos@.len(),
                all == outputs_view(utxos@),
                balance == balance_of(all.take(k as int)),
            decreases utxos@.len() - k,
        {
            proof {
                assert(all.take(k + 1).drop_last() =~= all.take(k as int));
                assert(all.take(k + 1).last() == utxos@[k as int]@);
            }
            let sum: i64 = balance as i64 + utxos[k].value as i64;
            balance = if sum > i32::MAX as i64 {
                i32::MAX
            } else if sum < i32::MIN as i64 {
                i32::MIN
            } else {
                sum as i32
            };
            k += 1;
        }
        assert(all.take(k as int) =~= all);
        assert(opened(address@, db, time_stamp, opened_chain) && balance_reported(
            address@,
            opened_chain,
            Ok::<i32, ChainError>(balance),
        ));
        Ok(balance)
    }

    /// Opens the chain that `db` holds, or starts one that rewards `address`.
    pub fn create_blockchain(&self, address: &str, db: BlockchainDb) -> (r: Result<
        Blockchain,
        ChainError,
    >)
        ensures
            !address_valid(address@) ==> r is Err && r->Err_0 == ChainError::InvalidAddress,
            address_valid(address@) ==> exists|time_stamp: i64|
                opened(address@, db, time_stamp, r),
    {
        if !validate_address(address) {
            return Err(ChainError::InvalidAddress);
        }
        Blockchain::new(address, db)
    }

    /// Generates a wallet, keeps it in `wallets`, and returns its address.
    pub fn create_wallet(&self, wallets: &mut Wallets) -> (r: Result<String, ChainError>)
        ensures
            match r {
                Ok(address) => {
                    &&& address_valid(address@)
                    &&& final(wallets).wallet_of(address@) matches Some(wallet)
                    &&& wallet.consistent()
                    &&& address@ == address_of(wallet.pub_key_hash())
                    &&& forall|a: Seq<char>|
                        a != address@ ==> #[trigger] final(wallets).wallet_of(a) == old(
                            wallets,
                        ).wallet_of(a)
                    &&& final(wallets).addresses() == addresses_with(
                        old(wallets).addresses(),
                        address@,
                    )
                    &&& final(wallets).addresses().no_duplicates()
                },
                Err(e) => {
                    &&& e == ChainError::CryptoFailure
                    &&& forall|a: Seq<char>|
                        #[trigger] final(wallets).wallet_of(a) == old(wallets).wallet_of(a)
                    &&& final(wallets).addresses() == old(wallets).addresses()
                },
            },
    {
        wallets.create_wallet()
    }

    /// The addresses of the wallets in `wallets`.
    pub fn list_addresses(&self, wallets: &Wallets) -> (addresses: Vec<String>)
        ensures
            strings_view(addresses@) == wallets.addresses(),
            wallets.addresses().no_duplicates(),
    {
        wallets.get_addresses()
    }

    /// What there is to print of the chain that `db` holds. This never starts
    /// a chain: a store without one is an error, and so is a chain that cannot
    /// be walked to its end.
    pub fn print_chain(&self, db: BlockchainDb) -> (r: Result<Vec<BlockReport>, ChainError>)
        ensures
            match r {
                Ok(reports) => {
                    &&& db@.contains_key(tip_key())
                    &&& walk_end(db@, db@[tip_key()], db.len() as nat) is Some
                    &&& reports_view(reports@) == chain_report(
                        chain_blocks(db@, db@[tip_key()], db.len() as nat),
                    )
                },
                Err(e) => if db@.contains_key(tip_key()) {
                    &&& e == ChainError::CorruptedChain
                    &&& walk_end(db@, db@[tip_key()], db.len() as nat) is None
                } else {
                    e == ChainError::MissingChain
                },
            },
    {
        proof {
            reveal(opened);
            reveal_strlit("");
        }
        match Blockchain::new_at("", db, 0) {
            Ok(blockchain) => blockchain.print_chain(),
            Err(e) => Err(e),
        }
    }

    /// Pays `amount` from `from` to `to`: opens the chain that `db` holds,
    /// makes the payment, mines a block with it, and returns the chain.
    pub fn send(&self, from: &str, to: &str, amount: i32, db: BlockchainDb, wallets: &Wallets) -> (r:
        Result<Blockchain, ChainError>)
        ensures
            !address_valid(from@) || !address_valid(to@) ==> r is Err && r->Err_0
                == ChainError::InvalidAddress,
            address_valid(from@) && address_valid(to@) ==> exists|
                opened_at: i64,
                mined_at: i64,
                chain: Result<Blockchain, ChainError>,
                tx: Result<Transaction, ChainError>,
                outcome: Result<(), ChainError>,
            |
                #[trigger] sent(
                    from@,
                    to@,
                    amount,
                    db,
                    *wallets,
                    opened_at,
                    mined_at,
                    chain,
                    tx,
                    outcome,
                    r,
                ),
    {
        if !validate_address(from) {
            return Err(ChainError::InvalidAddress);
        }
        if !validate_address(to) {
            return Err(ChainError::InvalidAddress);
        }
        let chain = Blockchain::new(from, db);
        let ghost stamp0 = choose|time_stamp: i64| opened(from@, db, time_stamp, chain);
        let ghost chain0 = chain;
        let mut blockchain = match chain {
            Ok(blockchain) => blockchain,
            Err(e) => {
                let ghost r = Err::<Blockchain, ChainError>(e);
                let ghost tx0 = Err::<Transaction, ChainError>(e);
                assert(sent(from@, to@, amount, db, *wallets, stamp0, 0i64, chain0, tx0, Ok(()), r));
                return Err(e);
            },
        };
        let ghost before = blockchain;
        let made = new_utxo_transaction(from, to, amount, &blockchain, wallets);
        let ghost tx0 = made;
        let tx = match made {
            Ok(tx) => tx,
            Err(e) => {
                let ghost r = Err::<Blockchain, ChainError>(e);
                assert(sent(from@, to@, amount, db, *wallets, stamp0, 0i64, chain0, tx0, Ok(()), r));
                return Err(e);
            },
        };
        let mut txs: Vec<Transaction> = Vec::new();
        txs.push(tx);
        assert(transactions_view(txs@) =~= seq![tx@]);
        let outcome = blockchain.mine_block(txs);
        let ghost stamp1 = choose|time_stamp: i64|
            mined_onto(before, seq![tx@], time_stamp, outcome, blockchain);
        match outcome {
            Ok(_) => {
                let ghost r = Ok::<Blockchain, ChainError>(blockchain);
                assert(sent(
                    from@,
                    to@,
                    amount,
                    db,
                    *wallets,
                    stamp0,
                    stamp1,
                    chain0,
                    tx0,
                    outcome,
                    r,
                ));
                Ok(blockchain)
            },
            Err(e) => {
                let ghost r = Err::<Blockchain, ChainError>(e);
                assert(mined_onto(before, seq![tx@], stamp1, outcome, blockchain));
                assert(sent(
                    from@,
                    to@,
                    amount,
                    db,
                    *wallets,
                    stamp0,
                    stamp1,
                    chain0,
                    tx0,
                    outcome,
                    r,
                ));
                Err(e)
            },
        }
    }
}

} // verus!
