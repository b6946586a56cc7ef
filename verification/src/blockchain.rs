//! The chain: blocks in a store, linked from the tip back to the first block.
//!
//! Every query walks the chain anew from the tip; nothing is kept between
//! queries.

use crate::bcdb::BlockchainDb;
use crate::block::{candidate, decode_block, encode_block, mined, solvable, Block, BlockView};
use crate::clock::unix_time;
use crate::codec::copy_bytes;
use crate::error::ChainError;
use crate::report::{
    chain_report, lemma_chain_report_push, lemma_reports_view_push, report_block, reports_view,
    BlockReport,
};
use crate::transaction::{
    coinbase_for, new_coinbase_tx, outputs_view, sign_outcome, transactions_view, verify_spec,
    TXOutput, Transaction, TransactionView,
};
use crate::utxo::{
    find_by_id, find_in, gather_outputs, keys_distinct, names_outputs, scan_unspent, set_aside,
    spendable_outputs, table_view, unspent_outputs, unspent_transactions, unspent_view, utxo_of,
    UnspentOutput,
};
use crate::wallet::{address_pub_key_hash, address_valid, validate_address};
use vstd::prelude::*;

verus! {

/// The key under which the store holds the hash of the newest block.
pub open spec fn tip_key() -> Seq<u8> {
    seq![0x31u8]
}

/// The bytes of the key under which the store holds the tip.
pub fn tip_key_bytes() -> (key: Vec<u8>)
    ensures
        key@ == tip_key(),
{
    let mut key: Vec<u8> = Vec::new();
    key.push(0x31u8);
    assert(key@ =~= tip_key());
    key
}

/// The blocks that a walk reads from `store`, starting at the block with hash
/// `cursor` and following each block's link to the one before it. The walk
/// ends at a hash under which the store holds no block. It breaks off at bytes
/// that are no block and after `fuel` blocks; `walk_end` says whether it did.
pub open spec fn chain_blocks(store: Map<Seq<u8>, Seq<u8>>, cursor: Seq<u8>, fuel: nat) -> Seq<
    BlockView,
>
    decreases fuel,
{
    if fuel == 0 || !store.contains_key(cursor) {
        Seq::empty()
    } else {
        match decode_block(store[cursor]) {
            None => Seq::empty(),
            Some(block) => seq![block] + chain_blocks(
                store,
                block.prev_block_hash,
                (fuel - 1) as nat,
            ),
        }
    }
}

/// The hash at which a walk comes to its end: the first on its way under
/// which the store holds nothing. There is none where the walk comes upon
/// bytes that are no block, or where `fuel` blocks do not bring it to an end.
pub open spec fn walk_end(store: Map<Seq<u8>, Seq<u8>>, cursor: Seq<u8>, fuel: nat) -> Option<
    Seq<u8>,
>
    decreases fuel,
{
    if !store.contains_key(cursor) {
        Some(cursor)
    } else if fuel == 0 {
        None
    } else {
        match decode_block(store[cursor]) {
            None => None,
            Some(block) => walk_end(store, block.prev_block_hash, (fuel - 1) as nat),
        }
    }
}

/// The transactions of a sequence of blocks, in the order of the blocks and,
/// within a block, in block order.
pub open spec fn block_transactions(blocks: Seq<BlockView>) -> Seq<TransactionView>
    decreases blocks.len(),
{
    if blocks.len() == 0 {
        Seq::empty()
    } else {
        block_transactions(blocks.drop_last()) + blocks.last().transactions
    }
}

proof fn lemma_block_transactions_push(blocks: Seq<BlockView>, block: BlockView)
    ensures
        block_transactions(blocks.push(block)) == block_transactions(blocks) + block.transactions,
{
    assert(blocks.push(block).drop_last() =~= blocks);
}

proof fn lemma_transactions_view_add(a: Seq<Transaction>, b: Seq<Transaction>)
    ensures
        transactions_view(a + b) == transactions_view(a) + transactions_view(b),
{
    assert(transactions_view(a + b) =~= transactions_view(a) + transactions_view(b));
}

/// A chain: the store that holds its blocks, and the hash of the newest.
pub struct Blockchain {
    /// The hash of the newest block.
    pub tip: Vec<u8>,
    pub db: BlockchainDb,
}

/// A walk over the blocks of a chain, from the tip back to the first block.
pub struct BlockchainIterator<'a> {
    prev_block_hash: Vec<u8>,
    db: &'a BlockchainDb,
    remaining: usize,
}

impl<'a> BlockchainIterator<'a> {
    /// The blocks that the walk has yet to yield.
    pub closed spec fn pending(&self) -> Seq<BlockView> {
        chain_blocks(self.db@, self.prev_block_hash@, self.remaining as nat)
    }

    /// The hash at which the walk will come to its end, where it comes to
    /// one.
    pub closed spec fn end(&self) -> Option<Seq<u8>> {
        walk_end(self.db@, self.prev_block_hash@, self.remaining as nat)
    }

    /// Yields the block at the cursor and moves the cursor to the block before
    /// it; yields nothing once the store holds nothing at the cursor. Bytes at
    /// the cursor that are no block, and a block beyond as many as the store
    /// has entries, are reported as a corrupted chain.
    pub fn next(&mut self) -> (r: Result<Option<Block>, ChainError>)
        ensures
            final(self).end() == old(self).end(),
            match r {
                Ok(Some(block)) => old(self).pending() == seq![block@] + final(self).pending(),
                Ok(None) => {
                    &&& old(self).pending().len() == 0
                    &&& final(self).pending().len() == 0
                    &&& old(self).end() is Some
                },
                Err(e) => {
                    &&& e == ChainError::CorruptedChain
                    &&& old(self).pending().len() == 0
                    &&& final(self).pending().len() == 0
                    &&& old(self).end() is None
                },
            },
    {
        match self.db.read(self.prev_block_hash.as_slice()) {
            None => Ok(None),
            Some(encoded_block) => {
                if self.remaining == 0 {
                    return Err(ChainError::CorruptedChain);
                }
                match Block::deserialize(encoded_block.as_slice()) {
                    None => Err(ChainError::CorruptedChain),
                    Some(block) => {
                        self.prev_block_hash = copy_bytes(block.prev_block_hash.as_slice());
                        self.remaining = self.remaining - 1;
                        Ok(Some(block))
                    },
                }
            },
        }
    }
}

/// Whether the store can take a value under `key`.
pub open spec fn has_room(db: BlockchainDb, key: Seq<u8>) -> bool {
    db@.contains_key(key) || db.len() < db.capacity()
}

/// The number of entries after a write under `key`.
pub open spec fn len_after(db: BlockchainDb, key: Seq<u8>) -> int {
    db.len() + if db@.contains_key(key) {
        0int
    } else {
        1int
    }
}

/// Whether the store can take the tip after it took a block under `hash`.
pub open spec fn tip_fits(db: BlockchainDb, hash: Seq<u8>) -> bool {
    db@.contains_key(tip_key()) || len_after(db, hash) < db.capacity()
}

/// What writing a block and then the tip does to a store. The block's bytes
/// go in first, so that the tip never names a block that the store lacks.
pub open spec fn block_stored(
    before: BlockchainDb,
    block: BlockView,
    r: Result<(), ChainError>,
    after: BlockchainDb,
) -> bool {
    let with_block = before@.insert(block.hash, encode_block(block));
    &&& after.capacity() == before.capacity()
    &&& match r {
        Ok(_) => {
            &&& has_room(before, block.hash)
            &&& tip_fits(before, block.hash)
            &&& after@ == with_block.insert(tip_key(), block.hash)
            &&& after.len() == len_after(before, block.hash) + if before@.contains_key(tip_key()) {
                0int
            } else {
                1int
            }
        },
        Err(e) => {
            &&& e == ChainError::PersistenceFailure
            &&& if !has_room(before, block.hash) {
                &&& after@ == before@
                &&& after.len() == before.len()
            } else {
                &&& !tip_fits(before, block.hash)
                &&& after@ == with_block
                &&& after.len() == len_after(before, block.hash)
            }
        },
    }
}

/// Writes `block` under its hash, then the hash under the tip key.
fn store_block(db: &mut BlockchainDb, block: &Block) -> (r: Result<(), ChainError>)
    requires
        block@.hash.len() == 32,
    ensures
        block_stored(*old(db), block@, r, *final(db)),
        decode_block(encode_block(block@)) == Some(block@),
{
    let bytes = block.serialize();
    match db.write(block.hash.as_slice(), bytes.as_slice()) {
        Ok(_) => {},
        Err(e) => { return Err(e); },
    }
    let key = tip_key_bytes();
    assert(key@ != block@.hash);
    match db.write(key.as_slice(), block.hash.as_slice()) {
        Ok(_) => {},
        Err(e) => { return Err(e); },
    }
    Ok(())
}

/// The transactions of the first block of a chain that rewards `address`.
pub open spec fn genesis_transactions(address: Seq<char>) -> Seq<TransactionView> {
    seq![coinbase_for(address_pub_key_hash(address))]
}

/// The first block of a chain that rewards `address`.
pub open spec fn genesis_block(address: Seq<char>, time_stamp: i64) -> BlockView {
    mined(time_stamp, genesis_transactions(address), Seq::empty())
}

/// Why no chain can be started in `db` for `address`, if anything stands
/// against it: no address, a malformed address, no nonce that solves the first
/// block, or no room in the store for the block and the tip.
pub open spec fn creation_failure(address: Seq<char>, db: BlockchainDb, time_stamp: i64) -> Option<
    ChainError,
> {
    let genesis = genesis_block(address, time_stamp);
    if address.len() == 0 {
        Some(ChainError::MissingChain)
    } else if !address_valid(address) {
        Some(ChainError::InvalidAddress)
    } else if !solvable(candidate(time_stamp, genesis_transactions(address), Seq::empty())) {
        Some(ChainError::ProofOfWorkExhausted)
    } else if !has_room(db, genesis.hash) || !tip_fits(db, genesis.hash) {
        Some(ChainError::PersistenceFailure)
    } else {
        None
    }
}

/// What opening a chain in `db` at time `time_stamp` gives. A store with a
/// tip is taken as it is. In a store without one a chain is started: the first
/// block is mined and written, then the tip.
#[verifier::opaque]
pub open spec fn opened(
    address: Seq<char>,
    db: BlockchainDb,
    time_stamp: i64,
    r: Result<Blockchain, ChainError>,
) -> bool {
    if db@.contains_key(tip_key()) {
        &&& r is Ok
        &&& r->Ok_0.tip@ == db@[tip_key()]
        &&& r->Ok_0.db@ == db@
        &&& r->Ok_0.db.len() == db.len()
        &&& r->Ok_0.db.capacity() == db.capacity()
    } else {
        match r {
            Err(e) => creation_failure(address, db, time_stamp) == Some(e),
            Ok(chain) => {
                let genesis = genesis_block(address, time_stamp);
                &&& creation_failure(address, db, time_stamp) is None
                &&& genesis.is_mined()
                &&& genesis.hash.len() == 32
                &&& decode_block(encode_block(genesis)) == Some(genesis)
                &&& chain.tip@ == genesis.hash
                &&& chain.db@ == db@.insert(genesis.hash, encode_block(genesis)).insert(
                    tip_key(),
                    genesis.hash,
                )
                &&& chain.db.len() == len_after(db, genesis.hash) + 1
                &&& chain.db.capacity() == db.capacity()
            },
        }
    }
}

/// Why a transaction is kept out of a block, if anything stands against it:
/// an input that names no output of the chain, or a signature that does not
/// verify.
pub open spec fn rejection(tx: TransactionView, chain_txs: Seq<TransactionView>) -> Option<
    ChainError,
> {
    match verify_spec(tx, chain_txs) {
        Err(e) => Some(e),
        Ok(valid) => if valid {
            None
        } else {
            Some(ChainError::SignatureVerificationFailure)
        },
    }
}

/// The rejection of the first transaction that is rejected.
pub open spec fn first_rejection(txs: Seq<TransactionView>, chain_txs: Seq<TransactionView>) -> Option<
    ChainError,
>
    decreases txs.len(),
{
    if txs.len() == 0 {
        None
    } else {
        match rejection(txs[0], chain_txs) {
            Some(e) => Some(e),
            None => first_rejection(txs.drop_first(), chain_txs),
        }
    }
}

/// What mining a block of `txs` on top of the chain `before` at time
/// `time_stamp` gives.
///
/// The chain is walked and the transactions are verified against it first,
/// then the block is mined, written to the store, and the tip is moved: in
/// the store, then in the chain. A failure leaves the tip where it was; only a
/// failure of the write of the tip leaves the new block's bytes in the store.
#[verifier::opaque]
pub open spec fn mined_onto(
    before: Blockchain,
    txs: Seq<TransactionView>,
    time_stamp: i64,
    r: Result<(), ChainError>,
    after: Blockchain,
) -> bool {
    let block = mined(time_stamp, txs, before.tip@);
    let with_block = before.db@.insert(block.hash, encode_block(block));
    let rejected = first_rejection(txs, before.transactions());
    let block_fits = has_room(before.db, block.hash);
    let tip_fits = tip_fits(before.db, block.hash);
    &&& after.db.capacity() == before.db.capacity()
    &&& match r {
        Ok(_) => {
            &&& before.intact()
            &&& rejected is None
            &&& solvable(candidate(time_stamp, txs, before.tip@))
            &&& block_fits
            &&& tip_fits
            &&& block.is_mined()
            &&& block.hash.len() == 32
            &&& decode_block(encode_block(block)) == Some(block)
            &&& after.tip@ == block.hash
            &&& after.db@ == with_block.insert(tip_key(), block.hash)
            &&& after.db.len() == len_after(before.db, block.hash) + if before.db@.contains_key(
                tip_key(),
            ) {
                0int
            } else {
                1int
            }
        },
        Err(e) => {
            &&& after.tip@ == before.tip@
            &&& if !before.intact() {
                &&& e == ChainError::CorruptedChain
                &&& after.db@ == before.db@
                &&& after.db.len() == before.db.len()
            } else if rejected is Some {
                &&& e == rejected->0
                &&& after.db@ == before.db@
                &&& after.db.len() == before.db.len()
            } else if !solvable(candidate(time_stamp, txs, before.tip@)) {
                &&& e == ChainError::ProofOfWorkExhausted
                &&& after.db@ == before.db@
                &&& after.db.len() == before.db.len()
            } else if !block_fits {
                &&& e == ChainError::PersistenceFailure
                &&& after.db@ == before.db@
                &&& after.db.len() == before.db.len()
            } else {
                &&& e == ChainError::PersistenceFailure
                &&& !tip_fits
                &&& after.db@ == with_block
                &&& after.db.len() == len_after(before.db, block.hash)
            }
        },
    }
}

/// What a successful mining leaves: the tip at the new block, and the store
/// with the block's bytes under its hash and the hash under the tip key.
pub proof fn lemma_mined_onto_ok(
    before: Blockchain,
    txs: Seq<TransactionView>,
    time_stamp: i64,
    after: Blockchain,
)
    requires
        mined_onto(before, txs, time_stamp, Ok(()), after),
    ensures
        before.intact(),
        first_rejection(txs, before.transactions()) is None,
        mined(time_stamp, txs, before.tip@).is_mined(),
        mined(time_stamp, txs, before.tip@).hash.len() == 32,
        decode_block(encode_block(mined(time_stamp, txs, before.tip@))) == Some(
            mined(time_stamp, txs, before.tip@),
        ),
        after.tip@ == mined(time_stamp, txs, before.tip@).hash,
        after.db@ == before.db@.insert(
            mined(time_stamp, txs, before.tip@).hash,
            encode_block(mined(time_stamp, txs, before.tip@)),
        ).insert(tip_key(), mined(time_stamp, txs, before.tip@).hash),
        after.db.len() == len_after(before.db, mined(time_stamp, txs, before.tip@).hash)
            + if before.db@.contains_key(tip_key()) {
            0int
        } else {
            1int
        },
        after.db.capacity() == before.db.capacity(),
{
    reveal(mined_onto);
}

/// The key that a store lacks to hold its chain to the end: the tip pointer
/// where the store holds none, and otherwise the hash at which the walk from
/// the tip comes to its end. There is none where the chain is corrupted.
pub open spec fn missing_key(db: BlockchainDb) -> Option<Seq<u8>> {
    if !db@.contains_key(tip_key()) {
        Some(tip_key())
    } else {
        walk_end(db@, db@[tip_key()], db.len() as nat)
    }
}

/// The key to read next from a disk store that is being copied into `db`: the
/// key that `db` lacks to hold its chain to the end.
pub fn next_to_load(db: &BlockchainDb) -> (key: Option<Vec<u8>>)
    ensures
        match key {
            Some(k) => missing_key(*db) == Some(k@),
            None => missing_key(*db) is None,
        },
{
    let tip_key = tip_key_bytes();
    let tip = match db.read(tip_key.as_slice()) {
        Some(tip) => tip,
        None => { return Some(tip_key); },
    };
    let mut it = BlockchainIterator { prev_block_hash: tip, db, remaining: db.len() };
    loop
        invariant
            it.end() == missing_key(*db),
        decreases it.pending().len(),
    {
        match it.next() {
            Err(_) => {
                return None;
            },
            Ok(None) => {
                return Some(copy_bytes(it.prev_block_hash.as_slice()));
            },
            Ok(Some(_)) => {},
        }
    }
}

impl Blockchain {
    /// The blocks of the chain, newest first. A store of `n` entries holds no
    /// chain of more than `n` blocks, so the walk reads that many at most.
    pub open spec fn blocks(&self) -> Seq<BlockView> {
        chain_blocks(self.db@, self.tip@, self.db.len() as nat)
    }

    /// The transactions of the chain in walk order: newest block first.
    pub open spec fn transactions(&self) -> Seq<TransactionView> {
        block_transactions(self.blocks())
    }

    /// Whether the chain can be walked to its end: the walk from the tip ends
    /// at a hash under which the store holds nothing, and not at bytes that
    /// are no block, nor in a ring of blocks.
    pub open spec fn intact(&self) -> bool {
        walk_end(self.db@, self.tip@, self.db.len() as nat) is Some
    }

    /// Opens the chain that `db` holds, or starts one that rewards `address`,
    /// stamped with the clock's reading.
    pub fn new(address: &str, db: BlockchainDb) -> (r: Result<Blockchain, ChainError>)
        ensures
            exists|time_stamp: i64| opened(address@, db, time_stamp, r),
    {
        let time_stamp = unix_time();
        let r = Blockchain::new_at(address, db, time_stamp);
        assert(opened(address@, db, time_stamp, r));
        r
    }

    /// Opens the chain that `db` holds, or starts one that rewards `address`
    /// with a first block stamped `time_stamp`.
    pub fn new_at(address: &str, db: BlockchainDb, time_stamp: i64) -> (r: Result<
        Blockchain,
        ChainError,
    >)
        ensures
            opened(address@, db, time_stamp, r),
    {
        proof {
            reveal(opened);
        }
        let mut db = db;
        let ghost db0 = db;
        let key = tip_key_bytes();
        match db.read(key.as_slice()) {
            Some(last_hash) => {
                return Ok(Blockchain { tip: last_hash, db });
            },
            None => {},
        }
        if address.is_empty() {
            return Err(ChainError::MissingChain);
        }
        if !validate_address(address) {
            return Err(ChainError::InvalidAddress);
        }
        let coinbase = new_coinbase_tx(address);
        let mut txs: Vec<Transaction> = Vec::new();
        txs.push(coinbase);
        assert(transactions_view(txs@) =~= genesis_transactions(address@));
        let genesis = match Block::mine(time_stamp, txs, Vec::new()) {
            Ok(block) => block,
            Err(e) => { return Err(e); },
        };
        assert(genesis@ == genesis_block(address@, time_stamp));
        let stored = store_block(&mut db, &genesis);
        assert(block_stored(db0, genesis@, stored, db));
        match stored {
            Ok(_) => {},
            Err(e) => { return Err(e); },
        }
        Ok(Blockchain { tip: genesis.hash, db })
    }

    /// A walk over the chain that starts at the tip.
    pub fn iterator(&self) -> (it: BlockchainIterator<'_>)
        ensures
            it.pending() == self.blocks(),
            it.end() is Some == self.intact(),
    {
        BlockchainIterator {
            prev_block_hash: copy_bytes(self.tip.as_slice()),
            db: &self.db,
            remaining: self.db.len(),
        }
    }

    /// Walks the chain once and gathers its transactions in walk order.
    pub fn collect_transactions(&self) -> (r: Result<Vec<Transaction>, ChainError>)
        ensures
            match r {
                Ok(txs) => self.intact() && transactions_view(txs@) == self.transactions(),
                Err(e) => e == ChainError::CorruptedChain && !self.intact(),
            },
    {
        let mut txs: Vec<Transaction> = Vec::new();
        let mut it = self.iterator();
        let ghost mut done: Seq<BlockView> = Seq::empty();
        assert(done + it.pending() =~= self.blocks());
        assert(transactions_view(txs@) =~= block_transactions(done));
        loop
            invariant
                self.blocks() == done + it.pending(),
                it.end() is Some == self.intact(),
                transactions_view(txs@) == block_transactions(done),
            ensures
                it.pending().len() == 0,
                self.intact(),
            decreases it.pending().len(),
        {
            let ghost pending = it.pending();
            match it.next() {
                Err(e) => {
                    return Err(e);
                },
                Ok(None) => {
                    break ;
                },
                Ok(Some(block)) => {
                    let mut block_txs = block.transactions;
                    proof {
                        lemma_block_transactions_push(done, block@);
                        lemma_transactions_view_add(txs@, block_txs@);
                        assert(done.push(block@) + it.pending() =~= done + pending);
                        done = done.push(block@);
                    }
                    txs.append(&mut block_txs);
                },
            }
        }
        assert(done + it.pending() =~= done);
        Ok(txs)
    }

    /// Verifies `transactions` against the chain, mines a block of them on top
    /// of the tip, stamped with the clock's reading, and moves the tip to it.
    pub fn mine_block(&mut self, transactions: Vec<Transaction>) -> (r: Result<(), ChainError>)
        ensures
            exists|time_stamp: i64|
                mined_onto(
                    *old(self),
                    transactions_view(transactions@),
                    time_stamp,
                    r,
                    *final(self),
                ),
    {
        let time_stamp = unix_time();
        let ghost txs = transactions_view(transactions@);
        let r = self.mine_block_at(transactions, time_stamp);
        assert(mined_onto(*old(self), txs, time_stamp, r, *self));
        r
    }

    /// Verifies `transactions` against the chain, mines a block of them on top
    /// of the tip, stamped `time_stamp`, and moves the tip to it.
    pub fn mine_block_at(&mut self, transactions: Vec<Transaction>, time_stamp: i64) -> (r: Result<
        (),
        ChainError,
    >)
        ensures
            mined_onto(*old(self), transactions_view(transactions@), time_stamp, r, *final(self)),
    {
        proof {
            reveal(mined_onto);
        }
        let ghost txs = transactions_view(transactions@);
        let chain_txs = match self.collect_transactions() {
            Ok(chain_txs) => chain_txs,
            Err(e) => { return Err(e); },
        };
        let ghost chain = transactions_view(chain_txs@);
        let mut k: usize = 0;
        assert(txs.skip(0) =~= txs);
        while k < transactions.len()
            invariant
                k <= transactions@.len(),
                *self == *old(self),
                old(self).intact(),
                txs == transactions_view(transactions@),
                chain == transactions_view(chain_txs@),
                chain == old(self).transactions(),
                first_rejection(txs, chain) == first_rejection(txs.skip(k as int), chain),
            decreases transactions@.len() - k,
        {
            proof {
                reveal(mined_onto);
                let rest = txs.skip(k as int);
                assert(rest[0] == transactions@[k as int]@);
                assert(rest.drop_first() =~= txs.skip(k + 1));
            }
            match transactions[k].verify(&chain_txs) {
                Err(e) => {
                    return Err(e);
                },
                Ok(valid) => {
                    if !valid {
                        return Err(ChainError::SignatureVerificationFailure);
                    }
                },
            }
            k += 1;
        }
        assert(first_rejection(txs, chain) is None);
        let last_hash = copy_bytes(self.tip.as_slice());
        let new_block = match Block::mine(time_stamp, transactions, last_hash) {
            Ok(block) => block,
            Err(e) => { return Err(e); },
        };
        assert(new_block@ == mined(time_stamp, txs, old(self).tip@));
        let stored = store_block(&mut self.db, &new_block);
        assert(block_stored(old(self).db, new_block@, stored, self.db));
        match stored {
            Ok(_) => {},
            Err(e) => { return Err(e); },
        }
        self.tip = new_block.hash;
        Ok(())
    }

    /// Sets outputs aside for a payment of `amount` from the key behind
    /// `pub_key_hash`: its unspent outputs, in the order of the scan, until
    /// their total reaches the amount. Returns the total and the outputs
    /// taken, as a table from the hexadecimal id of a transaction to output
    /// indices.
    pub fn find_spendable_outputs(&self, pub_key_hash: &[u8], amount: i32) -> (r: Result<
        (i32, Vec<(String, Vec<i32>)>),
        ChainError,
    >)
        ensures
            match r {
                Ok(found) => {
                    &&& self.intact()
                    &&& (found.0 as int, table_view(found.1@)) == spendable_outputs(
                        unspent_outputs(self.transactions(), pub_key_hash@),
                        amount,
                    )
                    &&& names_outputs(table_view(found.1@))
                    &&& keys_distinct(table_view(found.1@))
                },
                Err(e) => e == ChainError::CorruptedChain && !self.intact(),
            },
    {
        match self.find_unspent_outputs(pub_key_hash) {
            Ok(unspent) => Ok(set_aside(&unspent, amount)),
            Err(e) => Err(e),
        }
    }

    /// Finds the transactions that hold an unspent output locked to
    /// `pub_key_hash`, each once. The chain is walked from the tip; an output
    /// counts as spent once an input signed with the key has named it.
    pub fn find_unspent_transactions(&self, pub_key_hash: &[u8]) -> (r: Result<
        Vec<Transaction>,
        ChainError,
    >)
        ensures
            match r {
                Ok(unspent) => {
                    &&& self.intact()
                    &&& transactions_view(unspent@) == unspent_transactions(
                        self.transactions(),
                        pub_key_hash@,
                    )
                },
                Err(e) => e == ChainError::CorruptedChain && !self.intact(),
            },
    {
        match self.collect_transactions() {
            Ok(txs) => Ok(scan_unspent(&txs, pub_key_hash).0),
            Err(e) => Err(e),
        }
    }

    /// Finds the unspent outputs locked to `pub_key_hash`, each once, in the
    /// order of the walk.
    pub fn find_unspent_outputs(&self, pub_key_hash: &[u8]) -> (r: Result<
        Vec<UnspentOutput>,
        ChainError,
    >)
        ensures
            match r {
                Ok(unspent) => {
                    &&& self.intact()
                    &&& unspent_view(unspent@) == unspent_outputs(
                        self.transactions(),
                        pub_key_hash@,
                    )
                },
                Err(e) => e == ChainError::CorruptedChain && !self.intact(),
            },
    {
        match self.collect_transactions() {
            Ok(txs) => Ok(scan_unspent(&txs, pub_key_hash).1),
            Err(e) => Err(e),
        }
    }

    /// The unspent outputs locked to `pub_key_hash`, each once.
    pub fn find_utxo(&self, pub_key_hash: Vec<u8>) -> (r: Result<Vec<TXOutput>, ChainError>)
        ensures
            match r {
                Ok(utxo) => {
                    &&& self.intact()
                    &&& outputs_view(utxo@) == utxo_of(
                        unspent_outputs(self.transactions(), pub_key_hash@),
                    )
                },
                Err(e) => e == ChainError::CorruptedChain && !self.intact(),
            },
    {
        match self.find_unspent_outputs(pub_key_hash.as_slice()) {
            Ok(unspent) => Ok(gather_outputs(&unspent)),
            Err(e) => Err(e),
        }
    }

    /// The first transaction in walk order that has the given id.
    pub fn find_transaction(&self, txid: &[u8]) -> (r: Result<Option<Transaction>, ChainError>)
        ensures
            match r {
                Ok(Some(tx)) => self.intact() && find_by_id(self.transactions(), txid@) == Some(
                    tx@,
                ),
                Ok(None) => self.intact() && find_by_id(self.transactions(), txid@) is None,
                Err(e) => e == ChainError::CorruptedChain && !self.intact(),
            },
    {
        match self.collect_transactions() {
            Ok(txs) => Ok(find_in(&txs, txid)),
            Err(e) => Err(e),
        }
    }

    /// Signs every input of `tx` with `private_key`. The outputs that the
    /// inputs name are looked up in the chain. Where the chain is corrupted
    /// the transaction is left as it was.
    pub fn sign_transaction(&self, tx: &mut Transaction, private_key: &[u8]) -> (r: Result<
        (),
        ChainError,
    >)
        ensures
            if self.intact() {
                sign_outcome(old(tx)@, final(tx)@, self.transactions(), private_key@, r)
            } else {
                r == Err::<(), ChainError>(ChainError::CorruptedChain) && final(tx)@ == old(tx)@
            },
    {
        match self.collect_transactions() {
            Ok(chain_txs) => tx.sign(private_key, &chain_txs),
            Err(e) => Err(e),
        }
    }

    /// Verifies `tx` against the transactions of the chain.
    pub fn verify_transaction(&self, tx: &Transaction) -> (r: Result<bool, ChainError>)
        ensures
            r == if self.intact() {
                verify_spec(tx@, self.transactions())
            } else {
                Err::<bool, ChainError>(ChainError::CorruptedChain)
            },
    {
        match self.collect_transactions() {
            Ok(chain_txs) => tx.verify(&chain_txs),
            Err(e) => Err(e),
        }
    }

    /// Walks the chain from the tip and gives, for each block, what there is
    /// to print of it.
    pub fn print_chain(&self) -> (r: Result<Vec<BlockReport>, ChainError>)
        ensures
            match r {
                Ok(reports) => self.intact() && reports_view(reports@) == chain_report(
                    self.blocks(),
                ),
                Err(e) => e == ChainError::CorruptedChain && !self.intact(),
            },
    {
        let mut reports: Vec<BlockReport> = Vec::new();
        let mut it = self.iterator();
        let ghost mut done: Seq<BlockView> = Seq::empty();
        assert(done + it.pending() =~= self.blocks());
        assert(reports_view(reports@) =~= chain_report(done));
        loop
            invariant
                self.blocks() == done + it.pending(),
                it.end() is Some == self.intact(),
                reports_view(reports@) == chain_report(done),
            ensures
                it.pending().len() == 0,
                self.intact(),
            decreases it.pending().len(),
        {
            let ghost pending = it.pending();
            match it.next() {
                Err(e) => {
                    return Err(e);
                },
                Ok(None) => {
                    break ;
                },
                Ok(Some(block)) => {
                    let report = report_block(&block);
                    proof {
                        assert(done.push(block@) + it.pending() =~= done + pending);
                        lemma_reports_view_push(reports@, report);
                        lemma_chain_report_push(done, block@);
                        done = done.push(block@);
                    }
                    reports.push(report);
                },
            }
        }
        assert(done + it.pending() =~= done);
        Ok(reports)
    }
}

} // verus!
