//! Blocks: an ordered batch of transactions, linked to the block before it and
//! closed by a proof of work.

use crate::clock::unix_time;
use crate::codec::{
    append_bytes, encode_bytes, encode_each, encode_i64, encode_seq, encode_u32,
    inverts, lemma_encode_each_push, lemma_parse_bytes, lemma_parse_i64, lemma_parse_seq,
    lemma_parse_u32, parse_bytes, parse_each, parse_i64, parse_seq, parse_u32, parse_u64,
    read_bytes, read_i64, read_u32, read_u64, write_bytes, write_i64, write_u32, write_u64,
};
use crate::error::ChainError;
use crate::proofofwork::{meets_target, nonce_solves, pow_data, pow_hash, ProofOfWork};
use crate::transaction::{
    lemma_parse_transaction, lemma_transaction_encodable, resume, transaction_encoder,
    transaction_parser, transactions_view, parse_transaction, Transaction, TransactionView,
};
use crate::utils::{compute_sha256, hex_lower, hex_string, sha256};
use vstd::prelude::*;

verus! {

/// An ordered batch of transactions with the hash of the block before it,
/// and the nonce and hash that mining found for it.
#[derive(Clone, Debug, PartialEq, Eq)]
pub struct Block {
    pub time_stamp: i64,
    pub transactions: Vec<Transaction>,
    pub prev_block_hash: Vec<u8>,
    pub hash: Vec<u8>,
    pub nonce: u32,
}

/// What a block holds, as mathematical values.
pub struct BlockView {
    pub time_stamp: i64,
    pub transactions: Seq<TransactionView>,
    pub prev_block_hash: Seq<u8>,
    pub hash: Seq<u8>,
    pub nonce: u32,
}

impl View for Block {
    type V = BlockView;

    open spec fn view(&self) -> BlockView {
        BlockView {
            time_stamp: self.time_stamp,
            transactions: transactions_view(self.transactions@),
            prev_block_hash: self.prev_block_hash@,
            hash: self.hash@,
            nonce: self.nonce,
        }
    }
}

/// The bytes of a transaction's id.
pub open spec fn id_of() -> spec_fn(TransactionView) -> Seq<u8> {
    |t: TransactionView| t.id
}

/// The block's commitment to its transactions: the digest of their ids, one
/// after another in block order.
pub open spec fn transactions_digest(transactions: Seq<TransactionView>) -> Seq<u8> {
    sha256(encode_each(transactions, id_of()))
}

impl BlockView {
    /// Every length fits the eight bytes that the format gives it.
    pub open spec fn encodable(self) -> bool {
        &&& self.transactions.len() <= u64::MAX
        &&& self.prev_block_hash.len() <= u64::MAX
        &&& self.hash.len() <= u64::MAX
        &&& forall|i: int|
            0 <= i < self.transactions.len() ==> (#[trigger] self.transactions[i]).encodable()
    }

    /// The block carries the first nonce whose hash is under the target, and
    /// that hash.
    pub open spec fn is_mined(self) -> bool {
        &&& self.hash == pow_hash(self, self.nonce)
        &&& meets_target(self.hash)
        &&& forall|m: u32| m < self.nonce ==> !nonce_solves(self, m)
    }
}

/// A block before mining: the fields that the proof of work covers.
pub open spec fn candidate(
    time_stamp: i64,
    transactions: Seq<TransactionView>,
    prev_block_hash: Seq<u8>,
) -> BlockView {
    BlockView { time_stamp, transactions, prev_block_hash, hash: Seq::empty(), nonce: 0 }
}

/// Whether some nonce brings the block's hash under the target.
pub open spec fn solvable(block: BlockView) -> bool {
    exists|n: u32| nonce_solves(block, n)
}

/// The first nonce that brings the block's hash under the target.
pub open spec fn first_nonce(block: BlockView) -> u32 {
    choose|n: u32| nonce_solves(block, n) && forall|m: u32| m < n ==> !nonce_solves(block, m)
}

/// The block that mining makes of a time stamp, transactions and a link: it
/// carries the first nonce that solves it, and the hash for that nonce.
#[verifier::opaque]
pub open spec fn mined(
    time_stamp: i64,
    transactions: Seq<TransactionView>,
    prev_block_hash: Seq<u8>,
) -> BlockView {
    let open_block = candidate(time_stamp, transactions, prev_block_hash);
    let nonce = first_nonce(open_block);
    BlockView { hash: pow_hash(open_block, nonce), nonce, ..open_block }
}

/// Mining keeps the time stamp, the transactions and the link.
pub proof fn lemma_mined_fields(
    time_stamp: i64,
    transactions: Seq<TransactionView>,
    prev_block_hash: Seq<u8>,
)
    ensures
        mined(time_stamp, transactions, prev_block_hash).time_stamp == time_stamp,
        mined(time_stamp, transactions, prev_block_hash).transactions == transactions,
        mined(time_stamp, transactions, prev_block_hash).prev_block_hash == prev_block_hash,
{
    reveal(mined);
}

/// Mining has one outcome: a mined block is the block that `mined` makes of
/// its time stamp, its transactions and its link.
pub proof fn lemma_mined_unique(block: BlockView)
    requires
        block.is_mined(),
    ensures
        solvable(candidate(block.time_stamp, block.transactions, block.prev_block_hash)),
        block == mined(block.time_stamp, block.transactions, block.prev_block_hash),
{
    reveal(mined);
    let open_block = candidate(block.time_stamp, block.transactions, block.prev_block_hash);
    assert forall|m: u32| nonce_solves(open_block, m) == nonce_solves(block, m) by {
        assert(pow_data(open_block, m) == pow_data(block, m));
    }
    assert(nonce_solves(open_block, block.nonce));
    let n = first_nonce(open_block);
    assert(nonce_solves(open_block, n) && forall|m: u32| m < n ==> !nonce_solves(open_block, m));
    assert(n == block.nonce);
    assert(pow_data(open_block, n) == pow_data(block, n));
}

/// What mining gives for a time stamp, transactions and a link: the mined
/// block, or the report that no nonce of the whole space solves it.
pub open spec fn mining_outcome(
    time_stamp: i64,
    transactions: Seq<TransactionView>,
    prev_block_hash: Seq<u8>,
    r: Result<Block, ChainError>,
) -> bool {
    match r {
        Ok(block) => {
            &&& solvable(candidate(time_stamp, transactions, prev_block_hash))
            &&& block@ == mined(time_stamp, transactions, prev_block_hash)
            &&& block@.time_stamp == time_stamp
            &&& block@.transactions == transactions
            &&& block@.prev_block_hash == prev_block_hash
            &&& block@.is_mined()
            &&& block@.hash.len() == 32
        },
        Err(e) => {
            &&& e == ChainError::ProofOfWorkExhausted
            &&& !solvable(candidate(time_stamp, transactions, prev_block_hash))
        },
    }
}

/// A block on the wire: time stamp, transactions, previous hash, hash, nonce.
#[verifier::opaque]
pub open spec fn encode_block(b: BlockView) -> Seq<u8> {
    encode_i64(b.time_stamp) + encode_seq(b.transactions, transaction_encoder()) + encode_bytes(
        b.prev_block_hash,
    ) + encode_bytes(b.hash) + encode_u32(b.nonce)
}

/// Reads a block from the front of `s`.
#[verifier::opaque]
pub open spec fn parse_block(s: Seq<u8>) -> Option<(BlockView, Seq<u8>)> {
    match parse_i64(s) {
        None => None,
        Some((time_stamp, s1)) => match parse_seq(s1, transaction_parser()) {
            None => None,
            Some((transactions, s2)) => match parse_bytes(s2) {
                None => None,
                Some((prev_block_hash, s3)) => match parse_bytes(s3) {
                    None => None,
                    Some((hash, s4)) => match parse_u32(s4) {
                        None => None,
                        Some((nonce, s5)) => Some(
                            (
                                BlockView { time_stamp, transactions, prev_block_hash, hash, nonce },
                                s5,
                            ),
                        ),
                    },
                },
            },
        },
    }
}

/// The block that a byte string holds: the bytes must be a block and nothing more.
pub open spec fn decode_block(s: Seq<u8>) -> Option<BlockView> {
    match parse_block(s) {
        Some((block, rest)) => if rest.len() == 0 {
            Some(block)
        } else {
            None
        },
        None => None,
    }
}

/// Decoding the bytes of a block gives the block back, field for field.
pub proof fn lemma_block_roundtrip(b: BlockView)
    requires
        b.encodable(),
    ensures
        decode_block(encode_block(b)) == Some(b),
{
    reveal(encode_block);
    reveal(parse_block);
    let s4 = encode_u32(b.nonce);
    let s3 = encode_bytes(b.hash) + s4;
    let s2 = encode_bytes(b.prev_block_hash) + s3;
    let s1 = encode_seq(b.transactions, transaction_encoder()) + s2;
    assert(encode_block(b) =~= encode_i64(b.time_stamp) + s1);
    lemma_parse_i64(b.time_stamp, s1);
    assert forall|k: int| 0 <= k < b.transactions.len() implies inverts(
        transaction_parser(),
        transaction_encoder(),
        #[trigger] b.transactions[k],
    ) by {
        let t = b.transactions[k];
        assert forall|r: Seq<u8>| #[trigger]
            transaction_parser()(transaction_encoder()(t) + r) == Some((t, r)) by {
            lemma_parse_transaction(t, r);
        }
    }
    lemma_parse_seq(b.transactions, transaction_encoder(), transaction_parser(), s2);
    lemma_parse_bytes(b.prev_block_hash, s3);
    lemma_parse_bytes(b.hash, s4);
    assert(s4 =~= s4 + Seq::<u8>::empty());
    lemma_parse_u32(b.nonce, Seq::<u8>::empty());
}

/// What an executable block holds can always be written.
proof fn lemma_block_encodable(b: Block)
    ensures
        b@.encodable(),
{
    assert(b.transactions.len() == b@.transactions.len());
    assert(b.prev_block_hash.len() == b@.prev_block_hash.len());
    assert(b.hash.len() == b@.hash.len());
    assert forall|i: int| 0 <= i < b@.transactions.len() implies (
    #[trigger] b@.transactions[i]).encodable() by {
        lemma_transaction_encodable(b.transactions@[i]);
    }
}

/// The view of a list with one more transaction is the view with one more.
pub proof fn lemma_transactions_view_push(txs: Seq<Transaction>, tx: Transaction)
    ensures
        transactions_view(txs.push(tx)) == transactions_view(txs).push(tx@),
{
    assert(transactions_view(txs.push(tx)) =~= transactions_view(txs).push(tx@));
}

/// Copies a list of transactions.
pub fn duplicate_transactions(txs: &Vec<Transaction>) -> (copy: Vec<Transaction>)
    ensures
        transactions_view(copy@) == transactions_view(txs@),
{
    let mut copy: Vec<Transaction> = Vec::new();
    let mut k: usize = 0;
    while k < txs.len()
        invariant
            k <= txs@.len(),
            transactions_view(copy@) == transactions_view(txs@.take(k as int)),
        decreases txs@.len() - k,
    {
        let tx = txs[k].duplicate();
        proof {
            lemma_transactions_view_push(copy@, tx);
            lemma_transactions_view_push(txs@.take(k as int), txs@[k as int]);
            assert(txs@.take(k + 1) =~= txs@.take(k as int).push(txs@[k as int]));
        }
        copy.push(tx);
        k += 1;
    }
    assert(txs@.take(k as int) =~= txs@);
    copy
}

impl Block {
    /// Mines a block over `transactions` on top of `prev_block_hash`, stamped
    /// with the clock's reading.
    pub fn new(transactions: Vec<Transaction>, prev_block_hash: Vec<u8>) -> (r: Result<
        Block,
        ChainError,
    >)
        ensures
            exists|time_stamp: i64|
                mining_outcome(
                    time_stamp,
                    transactions_view(transactions@),
                    prev_block_hash@,
                    r,
                ),
    {
        let time_stamp = unix_time();
        let ghost txs = transactions_view(transactions@);
        let r = Block::mine(time_stamp, transactions, prev_block_hash);
        assert(mining_outcome(time_stamp, txs, prev_block_hash@, r));
        r
    }

    /// Mines a block with the given time stamp: searches the nonces from zero
    /// upwards and keeps the first whose hash is under the target.
    pub fn mine(time_stamp: i64, transactions: Vec<Transaction>, prev_block_hash: Vec<u8>) -> (r:
        Result<Block, ChainError>)
        ensures
            mining_outcome(time_stamp, transactions_view(transactions@), prev_block_hash@, r),
    {
        let mut block = Block {
            time_stamp,
            transactions,
            prev_block_hash,
            hash: Vec::new(),
            nonce: 0,
        };
        let ghost open_block = block@;
        assert(open_block == candidate(
            time_stamp,
            transactions_view(transactions@),
            prev_block_hash@,
        ));
        let (nonce, hash) = {
            let pow = ProofOfWork::new(&block);
            pow.run()
        };
        if hash.len() == 0 {
            return Err(ChainError::ProofOfWorkExhausted);
        }
        assert(hash@ == pow_hash(open_block, nonce));
        assert(forall|m: u32| m < nonce ==> !nonce_solves(open_block, m));
        block.nonce = nonce;
        block.hash = hash;
        proof {
            assert(block@.time_stamp == open_block.time_stamp);
            assert(block@.transactions == open_block.transactions);
            assert(block@.prev_block_hash == open_block.prev_block_hash);
            assert(pow_data(block@, nonce) == pow_data(open_block, nonce));
            assert forall|m: u32| m < block@.nonce implies !nonce_solves(block@, m) by {
                assert(pow_data(block@, m) == pow_data(open_block, m));
                assert(!nonce_solves(open_block, m));
            }
            lemma_mined_unique(block@);
        }
        Ok(block)
    }

    /// Mines the first block of a chain, stamped with the clock's reading: it
    /// has no block before it.
    pub fn new_genesis_block(coinbase: Vec<Transaction>) -> (r: Result<Block, ChainError>)
        ensures
            exists|time_stamp: i64|
                mining_outcome(
                    time_stamp,
                    transactions_view(coinbase@),
                    Seq::<u8>::empty(),
                    r,
                ),
    {
        Block::new(coinbase, Vec::new())
    }

    /// Reads a block from bytes that hold a block and nothing else.
    pub fn deserialize(data: &[u8]) -> (r: Option<Block>)
        ensures
            match r {
                Some(block) => decode_block(data@) == Some(block@),
                None => decode_block(data@) is None,
            },
    {
        proof {
            reveal(parse_block);
        }
        let (time_stamp, s1) = match read_i64(data) {
            Some(p) => p,
            None => { return None; },
        };
        let (transactions, s2) = match read_transactions(s1) {
            Some(p) => p,
            None => { return None; },
        };
        let (prev_block_hash, s3) = match read_bytes(s2) {
            Some(p) => p,
            None => { return None; },
        };
        let (hash, s4) = match read_bytes(s3) {
            Some(p) => p,
            None => { return None; },
        };
        let (nonce, s5) = match read_u32(s4) {
            Some(p) => p,
            None => { return None; },
        };
        if s5.len() != 0 {
            return None;
        }
        Some(Block { time_stamp, transactions, prev_block_hash, hash, nonce })
    }

    /// The block as bytes. Reading them back gives the block, field for field.
    pub fn serialize(&self) -> (bytes: Vec<u8>)
        ensures
            bytes@ == encode_block(self@),
            decode_block(bytes@) == Some(self@),
    {
        let mut out: Vec<u8> = Vec::new();
        write_i64(&mut out, self.time_stamp);
        write_transactions(&self.transactions, &mut out);
        write_bytes(&mut out, self.prev_block_hash.as_slice());
        write_bytes(&mut out, self.hash.as_slice());
        write_u32(&mut out, self.nonce);
        proof {
            reveal(encode_block);
            assert(out@ =~= encode_block(self@));
            lemma_block_encodable(*self);
            lemma_block_roundtrip(self@);
        }
        out
    }

    /// The block's commitment to its transactions: the digest of their ids in
    /// block order.
    pub fn hash_transaction(&self) -> (digest: Vec<u8>)
        ensures
            digest@ == transactions_digest(self@.transactions),
            digest@.len() == 32,
    {
        let mut tx_hashes: Vec<u8> = Vec::new();
        let ghost items = self@.transactions;
        let mut k: usize = 0;
        assert(encode_each(items.take(0), id_of()) =~= Seq::<u8>::empty());
        while k < self.transactions.len()
            invariant
                k <= self.transactions@.len(),
                items == self@.transactions,
                tx_hashes@ == encode_each(items.take(k as int), id_of()),
            decreases self.transactions@.len() - k,
        {
            append_bytes(&mut tx_hashes, self.transactions[k].id.as_slice());
            proof {
                lemma_encode_each_push(items.take(k as int), items[k as int], id_of());
                assert(items.take(k + 1) =~= items.take(k as int).push(items[k as int]));
            }
            k += 1;
        }
        assert(items.take(k as int) =~= items);
        compute_sha256(tx_hashes.as_slice())
    }

    /// A copy of the block's transactions.
    pub fn get_transactions(&self) -> (transactions: Vec<Transaction>)
        ensures
            transactions_view(transactions@) == self@.transactions,
    {
        duplicate_transactions(&self.transactions)
    }

    /// The hash of the block before this one, as hexadecimal text.
    pub fn get_pre_block_hash(&self) -> (text: String)
        ensures
            text@ == hex_lower(self@.prev_block_hash),
    {
        hex_string(self.prev_block_hash.as_slice())
    }

    /// The block's hash as hexadecimal text.
    pub fn get_hash(&self) -> (text: String)
        ensures
            text@ == hex_lower(self@.hash),
    {
        hex_string(self.hash.as_slice())
    }
}

/// Appends the bytes of a list of transactions to `out`: their number, then each.
pub fn write_transactions(txs: &Vec<Transaction>, out: &mut Vec<u8>)
    ensures
        final(out)@ == old(out)@ + encode_seq(transactions_view(txs@), transaction_encoder()),
{
    let ghost before = out@;
    let ghost items = transactions_view(txs@);
    write_u64(out, txs.len() as u64);
    let ghost head = out@;
    let mut k: usize = 0;
    assert(encode_each(items.take(0), transaction_encoder()) =~= Seq::<u8>::empty());
    while k < txs.len()
        invariant
            k <= txs@.len(),
            items == transactions_view(txs@),
            out@ == head + encode_each(items.take(k as int), transaction_encoder()),
        decreases txs@.len() - k,
    {
        txs[k].write(out);
        proof {
            lemma_encode_each_push(items.take(k as int), items[k as int], transaction_encoder());
            assert(items.take(k + 1) =~= items.take(k as int).push(items[k as int]));
        }
        k += 1;
    }
    assert(items.take(k as int) =~= items);
    assert(out@ =~= before + encode_seq(items, transaction_encoder()));
}

/// Reads a list of transactions from the front of `data`.
pub fn read_transactions(data: &[u8]) -> (r: Option<(Vec<Transaction>, &[u8])>)
    ensures
        match r {
            Some((txs, rest)) => parse_seq(data@, transaction_parser()) == Some(
                (transactions_view(txs@), rest@),
            ),
            None => parse_seq(data@, transaction_parser()) is None,
        },
{
    let (count, body) = match read_u64(data) {
        Some(p) => p,
        None => { return None; },
    };
    let mut txs: Vec<Transaction> = Vec::new();
    let mut cur: &[u8] = body;
    let mut k: u64 = 0;
    proof {
        let all = parse_each(body@, count as nat, transaction_parser());
        if all is Some {
            let found = all->0;
            assert(Seq::<TransactionView>::empty() + found.0 =~= found.0);
        }
    }
    while k < count
        invariant
            k <= count,
            parse_u64(data@) == Some((count, body@)),
            parse_each(body@, count as nat, transaction_parser()) == resume(
                transactions_view(txs@),
                parse_each(cur@, (count - k) as nat, transaction_parser()),
            ),
        decreases count - k,
    {
        let ghost done = transactions_view(txs@);
        assert(transaction_parser()(cur@) == parse_transaction(cur@));
        match Transaction::read(cur) {
            None => {
                assert(parse_each(cur@, (count - k) as nat, transaction_parser()) is None);
                return None;
            },
            Some((tx, rest)) => {
                proof {
                    let tail = parse_each(rest@, (count - k - 1) as nat, transaction_parser());
                    if tail is Some {
                        let more = tail->0;
                        assert(done + (seq![tx@] + more.0) =~= done.push(tx@) + more.0);
                    }
                    lemma_transactions_view_push(txs@, tx);
                }
                txs.push(tx);
                cur = rest;
            },
        }
        k += 1;
    }
    assert(transactions_view(txs@) + Seq::<TransactionView>::empty() =~= transactions_view(txs@));
    Some((txs, cur))
}

} // verus!
