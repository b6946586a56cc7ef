//! What holds of the ledger as a whole: that mining keeps a chain in order,
//! the balances on a new chain and after a payment, that payments verify,
//! that a payment beyond a balance is refused, and that a spent output is not
//! set aside again.

use crate::bcdb::BlockchainDb;
use crate::block::{decode_block, encode_block, lemma_mined_fields, mined, BlockView};
use crate::blockchain::{
    block_transactions, chain_blocks, genesis_block, lemma_mined_onto_ok, mined_onto, opened,
    tip_key, walk_end, Blockchain,
};
use crate::cli::balance_of;
use crate::error::ChainError;
use crate::transaction::{
    coinbase_for, input_unlocks, lemma_inputs_for_pub_key, lemma_signed_transaction_verifies, paid,
    payment_failure, unsigned_payment, verify_spec, TXOutputView, Transaction, TransactionView,
    SUBSIDY,
};
use crate::utils::{hex_lower, lemma_hex_lower_injective};
use crate::utxo::{
    candidates, ids_distinct, lemma_selected_len_bound, lemma_set_aside_is_unspent,
    lemma_spent_output_is_not_listed, output_unspent, running_total, selected_len, selection,
    spendable_outputs, spends_among, spent_in, table_contains, unspent_of, unspent_outputs,
    unspent_transactions, utxo_of, Candidate, UnspentOutputView,
};
use crate::wallet::{address_pub_key_hash, address_valid, Wallet};
use vstd::prelude::*;

verus! {

/// The values of outputs added up.
pub open spec fn total_value(outputs: Seq<TXOutputView>) -> int
    decreases outputs.len(),
{
    if outputs.len() == 0 {
        0
    } else {
        total_value(outputs.drop_last()) + outputs.last().value
    }
}

/// The values of candidates added up.
pub open spec fn candidate_sum(c: Seq<Candidate>) -> int
    decreases c.len(),
{
    if c.len() == 0 {
        0
    } else {
        candidate_sum(c.drop_last()) + c.last().2
    }
}

/// No output of the list has a negative value.
pub open spec fn values_nonnegative(outputs: Seq<TXOutputView>) -> bool {
    forall|i: int| 0 <= i < outputs.len() ==> (#[trigger] outputs[i]).value >= 0
}

/// No candidate has a negative value.
pub open spec fn candidates_nonnegative(c: Seq<Candidate>) -> bool {
    forall|i: int| 0 <= i < c.len() ==> (#[trigger] c[i]).2 >= 0
}

/// The unspent outputs of a key on a chain.
pub open spec fn utxo(chain: Blockchain, pub_key_hash: Seq<u8>) -> Seq<TXOutputView> {
    utxo_of(unspent_outputs(chain.transactions(), pub_key_hash))
}

/// The outputs that can be spent are among the unspent ones, so where none
/// has a negative value they add up to no more.
proof fn lemma_candidates_bound(unspent: Seq<UnspentOutputView>)
    requires
        values_nonnegative(utxo_of(unspent)),
    ensures
        candidates_nonnegative(candidates(unspent)),
        0 <= candidate_sum(candidates(unspent)) <= total_value(utxo_of(unspent)),
    decreases unspent.len(),
{
    if unspent.len() > 0 {
        let rest = unspent.drop_last();
        let last = unspent.last();
        assert(utxo_of(unspent).drop_last() =~= utxo_of(rest));
        assert(utxo_of(unspent).last() == last.output);
        assert(utxo_of(unspent)[unspent.len() - 1].value >= 0);
        assert(values_nonnegative(utxo_of(rest))) by {
            assert forall|i: int| 0 <= i < utxo_of(rest).len() implies (#[trigger] utxo_of(
                rest,
            )[i]).value >= 0 by {
                assert(utxo_of(rest)[i] == utxo_of(unspent)[i]);
            }
        }
        lemma_candidates_bound(rest);
        let before = candidates(rest);
        let now = candidates(unspent);
        if now != before {
            assert(now.drop_last() =~= before);
        }
    }
}

proof fn lemma_running_total_bound(c: Seq<Candidate>)
    requires
        candidates_nonnegative(c),
    ensures
        0 <= running_total(c) <= candidate_sum(c),
    decreases c.len(),
{
    if c.len() > 0 {
        assert(candidates_nonnegative(c.drop_last())) by {
            assert forall|i: int| 0 <= i < c.drop_last().len() implies (#[trigger] c.drop_last()[i]).2
                >= 0 by {
                assert(c.drop_last()[i] == c[i]);
            }
        }
        lemma_running_total_bound(c.drop_last());
        assert(c[c.len() - 1].2 >= 0);
    }
}

proof fn lemma_prefix_sum_bound(c: Seq<Candidate>, n: int)
    requires
        candidates_nonnegative(c),
        0 <= n <= c.len(),
    ensures
        candidates_nonnegative(c.take(n)),
        0 <= candidate_sum(c.take(n)) <= candidate_sum(c),
    decreases c.len() - n,
{
    assert(candidates_nonnegative(c.take(n))) by {
        assert forall|i: int| 0 <= i < c.take(n).len() implies (#[trigger] c.take(n)[i]).2 >= 0 by {
            assert(c.take(n)[i] == c[i]);
        }
    }
    if n == c.len() {
        assert(c.take(n) =~= c);
        lemma_running_total_bound(c);
    } else {
        lemma_prefix_sum_bound(c, n + 1);
        assert(c.take(n + 1).drop_last() =~= c.take(n));
        assert(c.take(n + 1).last() == c[n]);
        assert(c[n].2 >= 0);
        lemma_running_total_bound(c.take(n));
    }
}

/// Where no candidate has a negative value and they add up to no more than
/// an `i32` holds, the running total is their sum.
proof fn lemma_running_total_exact(c: Seq<Candidate>)
    requires
        candidates_nonnegative(c),
        candidate_sum(c) <= i32::MAX,
    ensures
        running_total(c) == candidate_sum(c),
    decreases c.len(),
{
    if c.len() > 0 {
        assert(candidates_nonnegative(c.drop_last())) by {
            assert forall|i: int| 0 <= i < c.drop_last().len() implies (#[trigger] c.drop_last()[i]).2
                >= 0 by {
                assert(c.drop_last()[i] == c[i]);
            }
        }
        assert(c[c.len() - 1].2 >= 0);
        lemma_running_total_bound(c.drop_last());
        lemma_running_total_exact(c.drop_last());
    }
}

/// From `from` on, no candidate is taken beyond the first at which the
/// running total reaches the amount, and the taking stops short of the end
/// only there.
proof fn lemma_selected_len_is_least(c: Seq<Candidate>, amount: i32, from: nat)
    requires
        from <= c.len(),
    ensures
        forall|m: int|
            from < m < selected_len(c, amount, from) ==> running_total(#[trigger] c.take(m))
                < amount,
        selected_len(c, amount, from) < c.len() ==> running_total(
            c.take(selected_len(c, amount, from) as int),
        ) >= amount,
        from < c.len() && running_total(c.take(selected_len(c, amount, from) as int)) < amount
            ==> selected_len(c, amount, from) == c.len(),
    decreases c.len() - from,
{
    if from < c.len() && running_total(c.take(from as int + 1)) < amount {
        lemma_selected_len_is_least(c, amount, from + 1);
        lemma_selected_len_bound(c, amount, from + 1);
    }
}

/// What is set aside is the shortest run of candidates, from the first on,
/// whose running total reaches the amount, and all of them where no run does:
/// the first match is taken, not the smallest.
pub proof fn lemma_selection_is_shortest(c: Seq<Candidate>, amount: i32)
    ensures
        selection(c, amount).len() <= c.len(),
        forall|m: int|
            1 <= m < selection(c, amount).len() ==> running_total(#[trigger] c.take(m)) < amount,
        selection(c, amount).len() < c.len() ==> running_total(selection(c, amount)) >= amount,
        running_total(selection(c, amount)) < amount ==> selection(c, amount) == c,
{
    lemma_selected_len_bound(c, amount, 0);
    lemma_selected_len_is_least(c, amount, 0);
    if c.len() == 0 {
        assert(selection(c, amount) =~= c);
    } else if running_total(selection(c, amount)) < amount {
        assert(selection(c, amount) =~= c);
    }
}

/// Where every unspent output of a key can be named by an input, none has a
/// negative value, and `amount` is more than they add up to, all of them are
/// set aside and the total found is the balance.
pub proof fn lemma_whole_balance_is_found(unspent: Seq<UnspentOutputView>, amount: i32)
    requires
        values_nonnegative(utxo_of(unspent)),
        amount > total_value(utxo_of(unspent)),
        forall|i: int| 0 <= i < unspent.len() ==> 0 <= (#[trigger] unspent[i]).index <= i32::MAX,
    ensures
        spendable_outputs(unspent, amount).0 == total_value(utxo_of(unspent)),
        selection(candidates(unspent), amount) == candidates(unspent),
        candidates(unspent).len() == unspent.len(),
{
    let c = candidates(unspent);
    lemma_candidates_cover(unspent);
    lemma_candidates_bound(unspent);
    lemma_selected_len_bound(c, amount, 0);
    let n = selected_len(c, amount, 0) as int;
    lemma_prefix_sum_bound(c, n);
    lemma_running_total_bound(c.take(n));
    lemma_selection_is_shortest(c, amount);
    lemma_running_total_exact(c);
}

/// Where every unspent output can be named by an input, each is a candidate.
proof fn lemma_candidates_cover(unspent: Seq<UnspentOutputView>)
    requires
        forall|i: int| 0 <= i < unspent.len() ==> 0 <= (#[trigger] unspent[i]).index <= i32::MAX,
    ensures
        candidates(unspent).len() == unspent.len(),
        candidate_sum(candidates(unspent)) == total_value(utxo_of(unspent)),
    decreases unspent.len(),
{
    if unspent.len() > 0 {
        let rest = unspent.drop_last();
        assert forall|i: int| 0 <= i < rest.len() implies 0 <= (#[trigger] rest[i]).index
            <= i32::MAX by {
            assert(rest[i] == unspent[i]);
        }
        lemma_candidates_cover(rest);
        assert(0 <= unspent[unspent.len() - 1].index <= i32::MAX);
        assert(utxo_of(unspent).drop_last() =~= utxo_of(rest));
        assert(utxo_of(unspent).last() == unspent.last().output);
        assert(candidates(unspent).drop_last() =~= candidates(rest));
    }
}

/// A payment beyond the balance finds too little: where no unspent output of
/// a key has a negative value and `amount` is more than they add up to, what
/// is set aside for the payment is less than the amount.
pub proof fn lemma_amount_beyond_balance(unspent: Seq<UnspentOutputView>, amount: i32)
    requires
        values_nonnegative(utxo_of(unspent)),
        amount > total_value(utxo_of(unspent)),
    ensures
        spendable_outputs(unspent, amount).0 < amount,
{
    let c = candidates(unspent);
    lemma_candidates_bound(unspent);
    lemma_selected_len_bound(c, amount, 0);
    let n = selected_len(c, amount, 0) as int;
    lemma_prefix_sum_bound(c, n);
    lemma_running_total_bound(c.take(n));
}

/// An output that a transaction before its own in the walk has spent is not
/// set aside for a later payment, where no two transactions have the same id.
pub proof fn lemma_spent_output_is_not_set_aside(
    txs: Seq<TransactionView>,
    pub_key_hash: Seq<u8>,
    k: int,
    idx: i32,
    amount: i32,
)
    requires
        ids_distinct(txs),
        0 <= k < txs.len(),
        spent_in(txs.take(k), pub_key_hash, hex_lower(txs[k].id), idx as int),
    ensures
        !table_contains(
            spendable_outputs(unspent_outputs(txs, pub_key_hash), amount).1,
            hex_lower(txs[k].id),
            idx,
        ),
{
    let unspent = unspent_outputs(txs, pub_key_hash);
    let key = hex_lower(txs[k].id);
    if table_contains(spendable_outputs(unspent, amount).1, key, idx) {
        lemma_set_aside_is_unspent(unspent, amount, key, idx);
        let i = choose|i: int|
            0 <= i < unspent.len() && hex_lower((#[trigger] unspent[i]).txid) == key
                && unspent[i].index == idx;
        lemma_hex_lower_injective(unspent[i].txid, txs[k].id);
        lemma_spent_output_is_not_listed(txs, pub_key_hash, k, idx as int);
    }
}

/// A payment beyond the balance is refused for want of funds, whatever else
/// might stand against it later. Making a payment takes the chain by shared
/// reference, so the chain stays as it was.
pub proof fn lemma_payment_beyond_balance(
    from: Seq<char>,
    to: Seq<char>,
    amount: i32,
    wallet: Wallet,
    chain_txs: Seq<TransactionView>,
)
    requires
        amount > 0,
        address_valid(from),
        address_valid(to),
        values_nonnegative(utxo_of(unspent_outputs(chain_txs, wallet.pub_key_hash()))),
        amount > total_value(utxo_of(unspent_outputs(chain_txs, wallet.pub_key_hash()))),
    ensures
        payment_failure(from, to, amount, Some(wallet), true, chain_txs) == Some(
            ChainError::InsufficientFunds,
        ),
{
    lemma_amount_beyond_balance(unspent_outputs(chain_txs, wallet.pub_key_hash()), amount);
}

/// A payment that was made from a wallet whose keys belong together, and
/// whose inputs name outputs that are locked to the wallet's key, verifies
/// against the chain that it was made on.
pub proof fn lemma_payment_verifies(
    from: Seq<char>,
    to: Seq<char>,
    amount: i32,
    wallet: Wallet,
    chain_txs: Seq<TransactionView>,
    tx: Transaction,
)
    requires
        wallet.consistent(),
        paid(from, to, amount, Some(wallet), true, chain_txs, Ok(tx)),
        forall|j: int|
            0 <= j < tx@.vin.len() ==> #[trigger] input_unlocks(
                unsigned_payment(from, to, amount, wallet.public_key@, chain_txs),
                j,
                chain_txs,
            ),
    ensures
        verify_spec(tx@, chain_txs) == Ok::<bool, ChainError>(true),
{
    reveal(paid);
    let unsigned = unsigned_payment(from, to, amount, wallet.public_key@, chain_txs);
    let pub_key_hash = wallet.pub_key_hash();
    let set_aside = spendable_outputs(unspent_outputs(chain_txs, pub_key_hash), amount);
    lemma_inputs_for_pub_key(set_aside.1, wallet.public_key@);
    lemma_signed_transaction_verifies(unsigned, tx@, chain_txs, wallet.private_key@);
}

/// A chain that was just started in an empty store for `address`.
pub open spec fn fresh_chain(chain: Blockchain, address: Seq<char>, time_stamp: i64) -> bool {
    exists|db: BlockchainDb|
        db@ == Map::<Seq<u8>, Seq<u8>>::empty() && #[trigger] opened(
            address,
            db,
            time_stamp,
            Ok(chain),
        )
}

/// A new chain holds one block, the first, and one transaction, the reward.
pub proof fn lemma_fresh_chain_transactions(chain: Blockchain, address: Seq<char>, time_stamp: i64)
    requires
        fresh_chain(chain, address, time_stamp),
    ensures
        chain.blocks() == seq![genesis_block(address, time_stamp)],
        chain.transactions() == seq![coinbase_for(address_pub_key_hash(address))],
        chain.tip@ == genesis_block(address, time_stamp).hash,
        chain.tip@.len() == 32,
        chain.db@.dom() == set![chain.tip@, tip_key()],
        chain.db@[chain.tip@] == encode_block(genesis_block(address, time_stamp)),
        decode_block(chain.db@[chain.tip@]) == Some(
            genesis_block(address, time_stamp),
        ),
        genesis_block(address, time_stamp).prev_block_hash == Seq::<u8>::empty(),
        chain.db.len() >= 2,
{
    reveal(opened);
    let db = choose|db: BlockchainDb|
        db@ == Map::<Seq<u8>, Seq<u8>>::empty() && #[trigger] opened(
            address,
            db,
            time_stamp,
            Ok(chain),
        );
    let genesis = genesis_block(address, time_stamp);
    lemma_mined_fields(
        time_stamp,
        seq![coinbase_for(address_pub_key_hash(address))],
        Seq::empty(),
    );
    let store = chain.db@;
    assert(tip_key().len() == 1);
    assert(genesis.hash != tip_key());
    assert(store.contains_key(genesis.hash));
    assert(store[genesis.hash] == encode_block(genesis));
    assert(!store.contains_key(Seq::<u8>::empty()));
    assert(chain.db.len() >= 1);
    reveal_with_fuel(chain_blocks, 3);
    assert(chain_blocks(store, genesis.prev_block_hash, (chain.db.len() - 1) as nat)
        =~= Seq::<BlockView>::empty());
    assert(chain.blocks() =~= seq![genesis]);
    reveal_with_fuel(block_transactions, 3);
    assert(seq![genesis].drop_last() =~= Seq::<BlockView>::empty());
    assert(chain.transactions() =~= genesis.transactions);
    assert(store.dom() =~= set![chain.tip@, tip_key()]);
}

/// The unspent outputs of a key on a chain whose one transaction is the
/// reward for `owner`: the reward where the key is the owner's, and nothing
/// where it is another.
pub proof fn lemma_reward_alone(owner: Seq<u8>, pub_key_hash: Seq<u8>)
    ensures
        utxo_of(unspent_outputs(seq![coinbase_for(owner)], pub_key_hash)) == if pub_key_hash
            == owner {
            seq![TXOutputView { value: SUBSIDY, pub_key_hash: owner }]
        } else {
            Seq::<TXOutputView>::empty()
        },
{
    let reward = coinbase_for(owner);
    let txs = seq![reward];
    let none = Seq::<TransactionView>::empty();
    assert(txs.drop_last() =~= none);
    assert(txs.last() == reward);
    assert(reward.vout.len() == 1);
    reveal_with_fuel(unspent_outputs, 3);
    reveal_with_fuel(unspent_of, 3);
    reveal_with_fuel(spent_in, 2);
    assert(!spent_in(none, pub_key_hash, hex_lower(reward.id), 0));
    let listed = unspent_of(reward, none, pub_key_hash, 1);
    assert(unspent_of(reward, none, pub_key_hash, 0) =~= Seq::<UnspentOutputView>::empty());
    assert(unspent_outputs(txs, pub_key_hash) =~= listed);
    if pub_key_hash == owner {
        assert(output_unspent(reward, none, pub_key_hash, 0));
        assert(listed.len() == 1);
        assert(utxo_of(listed) =~= seq![reward.vout[0]]);
    } else {
        assert(!output_unspent(reward, none, pub_key_hash, 0));
        assert(listed =~= Seq::<UnspentOutputView>::empty());
        assert(utxo_of(listed) =~= Seq::<TXOutputView>::empty());
    }
}

/// On a new chain the address that was rewarded holds exactly the reward, and
/// every other key holds nothing.
pub proof fn lemma_fresh_chain_balances(
    chain: Blockchain,
    address: Seq<char>,
    time_stamp: i64,
    other: Seq<u8>,
)
    requires
        fresh_chain(chain, address, time_stamp),
        other != address_pub_key_hash(address),
    ensures
        utxo(chain, address_pub_key_hash(address)) == seq![
            TXOutputView { value: SUBSIDY, pub_key_hash: address_pub_key_hash(address) },
        ],
        balance_of(utxo(chain, address_pub_key_hash(address))) == SUBSIDY,
        utxo(chain, other) == Seq::<TXOutputView>::empty(),
        balance_of(utxo(chain, other)) == 0,
{
    lemma_fresh_chain_transactions(chain, address, time_stamp);
    lemma_reward_alone(address_pub_key_hash(address), address_pub_key_hash(address));
    lemma_reward_alone(address_pub_key_hash(address), other);
    let own = utxo(chain, address_pub_key_hash(address));
    assert(own.drop_last() =~= Seq::<TXOutputView>::empty());
    reveal_with_fuel(balance_of, 3);
}

/// Whether `store` holds `blocks` as a chain: each block under its hash, each
/// linked to the next by that hash, the last linked to nothing, and nothing
/// under the empty key.
pub open spec fn holds_chain(store: Map<Seq<u8>, Seq<u8>>, blocks: Seq<BlockView>) -> bool {
    &&& blocks.len() > 0
    &&& blocks.last().prev_block_hash == Seq::<u8>::empty()
    &&& !store.contains_key(Seq::<u8>::empty())
    &&& forall|i: int|
        0 <= i < blocks.len() ==> {
            &&& (#[trigger] blocks[i]).hash.len() == 32
            &&& store.contains_key(blocks[i].hash)
            &&& decode_block(store[blocks[i].hash]) == Some(blocks[i])
        }
    &&& forall|i: int, j: int|
        0 <= i && j == i + 1 && j < blocks.len() ==> (#[trigger] blocks[i]).prev_block_hash == (
        #[trigger] blocks[j]).hash
}

/// Whether a chain is in order: its store holds its blocks as a chain that
/// starts at the tip, the tip pointer in the store names the tip, and the
/// store has more entries than the chain has blocks.
pub open spec fn well_formed(chain: Blockchain) -> bool {
    &&& holds_chain(chain.db@, chain.blocks())
    &&& chain.blocks()[0].hash == chain.tip@
    &&& chain.db@.contains_key(tip_key())
    &&& chain.db@[tip_key()] == chain.tip@
    &&& chain.blocks().len() < chain.db.len()
}

/// A walk over a store that holds blocks as a chain yields those blocks.
pub proof fn lemma_walk_yields_chain(
    store: Map<Seq<u8>, Seq<u8>>,
    blocks: Seq<BlockView>,
    fuel: nat,
)
    requires
        holds_chain(store, blocks),
        fuel >= blocks.len(),
    ensures
        chain_blocks(store, blocks[0].hash, fuel) == blocks,
        walk_end(store, blocks[0].hash, fuel) == Some(Seq::<u8>::empty()),
    decreases blocks.len(),
{
    let first = blocks[0];
    let rest = blocks.drop_first();
    assert(first.hash.len() == 32);
    if rest.len() == 0 {
        assert(blocks.last() == first);
        assert(walk_end(store, first.prev_block_hash, (fuel - 1) as nat) == Some(
            Seq::<u8>::empty(),
        ));
        assert(chain_blocks(store, first.prev_block_hash, (fuel - 1) as nat) =~= Seq::<
            BlockView,
        >::empty());
        assert(seq![first] + Seq::<BlockView>::empty() =~= blocks);
    } else {
        assert(holds_chain(store, rest)) by {
            assert(rest.last() == blocks.last());
            assert forall|i: int| 0 <= i < rest.len() implies {
                &&& (#[trigger] rest[i]).hash.len() == 32
                &&& store.contains_key(rest[i].hash)
                &&& decode_block(store[rest[i].hash]) == Some(rest[i])
            } by {
                assert(rest[i] == blocks[i + 1]);
            }
            assert forall|i: int, j: int| 0 <= i && j == i + 1 && j < rest.len() implies (
            #[trigger] rest[i]).prev_block_hash == (#[trigger] rest[j]).hash by {
                assert(rest[i] == blocks[i + 1]);
                assert(rest[j] == blocks[j + 1]);
            }
        }
        lemma_walk_yields_chain(store, rest, (fuel - 1) as nat);
        assert(blocks[0].prev_block_hash == blocks[1].hash);
        assert(rest[0] == blocks[1]);
        assert(seq![first] + rest =~= blocks);
    }
}

/// The transactions of a chain with one more block on top are the block's
/// transactions and then the chain's.
pub proof fn lemma_block_transactions_on_top(block: BlockView, blocks: Seq<BlockView>)
    ensures
        block_transactions(seq![block] + blocks) == block.transactions + block_transactions(blocks),
    decreases blocks.len(),
{
    let all = seq![block] + blocks;
    if blocks.len() == 0 {
        assert(all.drop_last() =~= Seq::<BlockView>::empty());
        assert(block_transactions(all.drop_last()) =~= Seq::<TransactionView>::empty());
        assert(all.last() == block);
        assert(block_transactions(all) =~= block.transactions);
        assert(block.transactions + block_transactions(blocks) =~= block.transactions);
    } else {
        assert(all.drop_last() =~= seq![block] + blocks.drop_last());
        assert(all.last() == blocks.last());
        lemma_block_transactions_on_top(block, blocks.drop_last());
        assert(block_transactions(all) =~= block.transactions + block_transactions(blocks));
    }
}

/// The store of a chain in order, with a new block under a new hash and the
/// tip pointer moved to it, holds the new block on top of the chain.
proof fn lemma_store_holds_longer_chain(
    store: Map<Seq<u8>, Seq<u8>>,
    blocks: Seq<BlockView>,
    block: BlockView,
)
    requires
        holds_chain(store, blocks),
        !store.contains_key(block.hash),
        block.hash.len() == 32,
        block.prev_block_hash == blocks[0].hash,
        decode_block(encode_block(block)) == Some(block),
    ensures
        holds_chain(
            store.insert(block.hash, encode_block(block)).insert(tip_key(), block.hash),
            seq![block] + blocks,
        ),
{
    let longer = seq![block] + blocks;
    let after = store.insert(block.hash, encode_block(block)).insert(tip_key(), block.hash);
    assert(tip_key().len() == 1);
    assert(longer.last() == blocks.last());
    assert forall|i: int| 0 <= i < longer.len() implies {
        &&& (#[trigger] longer[i]).hash.len() == 32
        &&& after.contains_key(longer[i].hash)
        &&& decode_block(after[longer[i].hash]) == Some(longer[i])
    } by {
        if i > 0 {
            assert(longer[i] == blocks[i - 1]);
            assert(store.contains_key(blocks[i - 1].hash));
            assert(blocks[i - 1].hash != block.hash);
            assert(blocks[i - 1].hash != tip_key());
        } else {
            assert(block.hash != tip_key());
        }
    }
    assert forall|i: int, j: int| 0 <= i && j == i + 1 && j < longer.len() implies (
    #[trigger] longer[i]).prev_block_hash == (#[trigger] longer[j]).hash by {
        if i > 0 {
            assert(longer[i] == blocks[i - 1]);
            assert(longer[j] == blocks[j - 1]);
        } else {
            assert(longer[1] == blocks[0]);
        }
    }
}

/// Mining keeps a chain in order and puts the new block on top of it: the
/// blocks of the chain are the new block and then the blocks that were there,
/// and so for the transactions.
///
/// The new block's hash is taken to be new to the store: two blocks under one
/// hash cannot both be in it.
pub proof fn lemma_mining_extends_chain(
    before: Blockchain,
    after: Blockchain,
    txs: Seq<TransactionView>,
    time_stamp: i64,
)
    requires
        well_formed(before),
        mined_onto(before, txs, time_stamp, Ok(()), after),
        !before.db@.contains_key(after.tip@),
    ensures
        well_formed(after),
        after.blocks() == seq![mined(time_stamp, txs, before.tip@)] + before.blocks(),
        after.transactions() == txs + before.transactions(),
{
    let block = mined(time_stamp, txs, before.tip@);
    let longer = seq![block] + before.blocks();
    lemma_mined_onto_ok(before, txs, time_stamp, after);
    lemma_mined_fields(time_stamp, txs, before.tip@);
    lemma_store_holds_longer_chain(before.db@, before.blocks(), block);
    lemma_walk_yields_chain(after.db@, longer, after.db.len() as nat);
    assert(longer[0] == block);
    assert(after.blocks() == longer);
    lemma_block_transactions_on_top(block, before.blocks());
    assert(tip_key().len() == 1);
}

/// A chain in order can be walked to its end.
pub proof fn lemma_well_formed_is_intact(chain: Blockchain)
    requires
        well_formed(chain),
    ensures
        chain.intact(),
{
    lemma_walk_yields_chain(chain.db@, chain.blocks(), chain.db.len() as nat);
}

/// A new chain is in order.
pub proof fn lemma_fresh_chain_well_formed(chain: Blockchain, address: Seq<char>, time_stamp: i64)
    requires
        fresh_chain(chain, address, time_stamp),
    ensures
        well_formed(chain),
{
    lemma_fresh_chain_transactions(chain, address, time_stamp);
    let genesis = genesis_block(address, time_stamp);
    assert(chain.blocks()[0] == genesis);
    assert(chain.db@.dom().contains(tip_key()));
    assert(!chain.db@.dom().contains(Seq::<u8>::empty()));
    assert(chain.db@.dom().contains(genesis.hash));
    reveal(opened);
}

/// A transaction that spends the whole reward of `owner` to `recipient`: its
/// one input names the reward's only output and is signed with the owner's
/// key, and its one output carries the reward.
pub open spec fn spends_reward(payment: TransactionView, owner: Seq<u8>, recipient: Seq<u8>) -> bool {
    &&& payment.vin.len() == 1
    &&& payment.vin[0].txid == coinbase_for(owner).id
    &&& payment.vin[0].vout == 0
    &&& payment.vin[0].uses_key(owner)
    &&& payment.vout == seq![TXOutputView { value: SUBSIDY, pub_key_hash: recipient }]
}

/// The unspent outputs on a chain of two transactions, the reward of `owner`
/// and above it a payment of the whole reward to another key: none for the
/// owner, the payment's output for the recipient.
pub proof fn lemma_reward_spent(payment: TransactionView, owner: Seq<u8>, recipient: Seq<u8>)
    requires
        spends_reward(payment, owner, recipient),
        recipient != owner,
    ensures
        unspent_outputs(seq![payment, coinbase_for(owner)], owner) == Seq::<
            UnspentOutputView,
        >::empty(),
        utxo_of(unspent_outputs(seq![payment, coinbase_for(owner)], recipient)) == payment.vout,
{
    let reward = coinbase_for(owner);
    let txs = seq![payment, reward];
    let top = seq![payment];
    let none = Seq::<TransactionView>::empty();
    let nothing = Seq::<UnspentOutputView>::empty();
    assert(txs.drop_last() =~= top);
    assert(txs.last() == reward);
    assert(top.drop_last() =~= none);
    assert(top.last() == payment);
    assert(!payment.is_coinbase());
    reveal_with_fuel(unspent_outputs, 4);
    reveal_with_fuel(unspent_of, 3);
    reveal_with_fuel(spent_in, 3);
    reveal_with_fuel(spends_among, 3);
    assert(unspent_of(payment, none, owner, 0) =~= nothing);
    assert(unspent_of(reward, top, owner, 0) =~= nothing);
    assert(unspent_of(payment, none, recipient, 0) =~= nothing);
    assert(unspent_of(reward, top, recipient, 0) =~= nothing);
    // The owner: the payment pays another key, and it spends the reward.
    assert(!payment.vout[0].is_locked_with_key(owner));
    assert(unspent_of(payment, none, owner, 1) =~= nothing);
    assert(unspent_outputs(top, owner) =~= nothing);
    assert(spends_among(payment, 1, owner, hex_lower(reward.id), 0));
    assert(spent_in(top, owner, hex_lower(reward.id), 0));
    assert(unspent_of(reward, top, owner, 1) =~= nothing);
    assert(unspent_outputs(txs, owner) =~= nothing);
    // The recipient: the payment's output is unspent, the reward is not theirs.
    assert(!spent_in(none, recipient, hex_lower(payment.id), 0));
    assert(payment.vout[0].is_locked_with_key(recipient));
    let listed = unspent_of(payment, none, recipient, 1);
    assert(listed.len() == 1);
    assert(unspent_outputs(top, recipient) =~= listed);
    assert(!reward.vout[0].is_locked_with_key(recipient));
    assert(unspent_of(reward, top, recipient, 1) =~= nothing);
    assert(unspent_outputs(txs, recipient) =~= listed);
    assert(utxo_of(listed) =~= payment.vout);
}

/// Where a key has no unspent output, nothing is set aside for a payment.
proof fn lemma_nothing_to_spend(amount: i32)
    ensures
        spendable_outputs(Seq::<UnspentOutputView>::empty(), amount) == (
            0int,
            Seq::<(Seq<char>, Seq<i32>)>::empty(),
        ),
{
    let c = candidates(Seq::<UnspentOutputView>::empty());
    assert(c =~= Seq::<Candidate>::empty());
    assert(selected_len(c, amount, 0) == 0);
    assert(selection(c, amount) =~= Seq::<Candidate>::empty());
}

/// After a block with a payment has been mined on a new chain, the chain
/// holds two transactions: the payment, and below it the reward.
///
/// The new block's hash is taken to differ from the first block's: two blocks
/// under one hash cannot both be in the store.
pub proof fn lemma_chain_after_payment(
    before: Blockchain,
    after: Blockchain,
    address: Seq<char>,
    payment: TransactionView,
    opened_at: i64,
    mined_at: i64,
)
    requires
        fresh_chain(before, address, opened_at),
        mined_onto(before, seq![payment], mined_at, Ok(()), after),
        after.tip@ != before.tip@,
    ensures
        after.transactions() == seq![payment, coinbase_for(address_pub_key_hash(address))],
{
    lemma_fresh_chain_transactions(before, address, opened_at);
    lemma_fresh_chain_well_formed(before, address, opened_at);
    lemma_mined_onto_ok(before, seq![payment], mined_at, after);
    assert(tip_key().len() == 1);
    assert(!before.db@.dom().contains(after.tip@));
    lemma_mining_extends_chain(before, after, seq![payment], mined_at);
    assert(seq![payment] + before.transactions() =~= seq![
        payment,
        coinbase_for(address_pub_key_hash(address)),
    ]);
}

/// After a block with a payment of the whole reward has been mined on a new
/// chain, the owner of the reward holds nothing, the recipient holds the
/// reward, and no later payment of the owner finds the spent output again.
///
/// The new block's hash is taken to differ from the first block's: two blocks
/// under one hash cannot both be in the store.
pub proof fn lemma_balances_after_payment(
    before: Blockchain,
    after: Blockchain,
    address: Seq<char>,
    payment: TransactionView,
    recipient: Seq<u8>,
    opened_at: i64,
    mined_at: i64,
    amount: i32,
)
    requires
        fresh_chain(before, address, opened_at),
        spends_reward(payment, address_pub_key_hash(address), recipient),
        recipient != address_pub_key_hash(address),
        mined_onto(before, seq![payment], mined_at, Ok(()), after),
        after.tip@ != before.tip@,
    ensures
        utxo(after, address_pub_key_hash(address)) == Seq::<TXOutputView>::empty(),
        balance_of(utxo(after, address_pub_key_hash(address))) == 0,
        utxo(after, recipient) == seq![TXOutputView { value: SUBSIDY, pub_key_hash: recipient }],
        balance_of(utxo(after, recipient)) == SUBSIDY,
        spendable_outputs(
            unspent_outputs(after.transactions(), address_pub_key_hash(address)),
            amount,
        ) == (0int, Seq::<(Seq<char>, Seq<i32>)>::empty()),
{
    let owner = address_pub_key_hash(address);
    lemma_chain_after_payment(before, after, address, payment, opened_at, mined_at);
    lemma_reward_spent(payment, owner, recipient);
    lemma_nothing_to_spend(amount);
    assert(payment.vout.drop_last() =~= Seq::<TXOutputView>::empty());
    reveal_with_fuel(balance_of, 3);
    assert(utxo(after, owner) =~= Seq::<TXOutputView>::empty());
}

} // verus!
