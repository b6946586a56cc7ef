//! The scan for unspent outputs, and the choice of outputs for a payment.
//!
//! The scan goes over the transactions of a chain in walk order, newest first.
//! An output is spent once an input that is signed with the owner's key has
//! named it; an output that no such input has named by the time the scan
//! reaches its transaction is unspent.

use crate::block::lemma_transactions_view_push;
use crate::codec::bytes_eq;
use crate::transaction::{
    lemma_outputs_view_push, outputs_view, transactions_view, TXInputView, TXOutput,
    TXOutputView, Transaction, TransactionView,
};
use crate::utils::{hex_lower, hexlower_encode};
use vstd::prelude::*;

verus! {

/// The first transaction of a sequence that has the given id.
pub open spec fn find_by_id(txs: Seq<TransactionView>, id: Seq<u8>) -> Option<TransactionView>
    decreases txs.len(),
{
    if txs.len() == 0 {
        None
    } else if txs[0].id == id {
        Some(txs[0])
    } else {
        find_by_id(txs.drop_first(), id)
    }
}

/// The first of `txs` that has the given id.
pub fn find_in(txs: &Vec<Transaction>, txid: &[u8]) -> (r: Option<Transaction>)
    ensures
        match r {
            Some(tx) => find_by_id(transactions_view(txs@), txid@) == Some(tx@),
            None => find_by_id(transactions_view(txs@), txid@) is None,
        },
{
    let ghost all = transactions_view(txs@);
    let mut k: usize = 0;
    assert(all.skip(0) =~= all);
    while k < txs.len()
        invariant
            k <= txs@.len(),
            all == transactions_view(txs@),
            find_by_id(all, txid@) == find_by_id(all.skip(k as int), txid@),
        decreases txs@.len() - k,
    {
        proof {
            let rest = all.skip(k as int);
            assert(rest[0] == txs@[k as int]@);
            assert(rest.drop_first() =~= all.skip(k + 1));
        }
        if bytes_eq(txs[k].id.as_slice(), txid) {
            return Some(txs[k].duplicate());
        }
        k += 1;
    }
    assert(all.skip(k as int) =~= Seq::<TransactionView>::empty());
    None
}

/// Whether `input`, signed with the key behind `pub_key_hash`, spends output
/// `idx` of the transaction whose id has the hexadecimal text `key`.
pub open spec fn input_spends(
    input: TXInputView,
    pub_key_hash: Seq<u8>,
    key: Seq<char>,
    idx: int,
) -> bool {
    &&& input.uses_key(pub_key_hash)
    &&& hex_lower(input.txid) == key
    &&& input.vout as int == idx
}

/// Whether one of the first `n` inputs of `tx` spends the output.
pub open spec fn spends_among(
    tx: TransactionView,
    n: int,
    pub_key_hash: Seq<u8>,
    key: Seq<char>,
    idx: int,
) -> bool
    decreases n,
{
    if n <= 0 {
        false
    } else {
        spends_among(tx, n - 1, pub_key_hash, key, idx) || input_spends(
            tx.vin[n - 1],
            pub_key_hash,
            key,
            idx,
        )
    }
}

/// Whether `tx` spends the output. A reward transaction spends nothing.
pub open spec fn tx_spends(
    tx: TransactionView,
    pub_key_hash: Seq<u8>,
    key: Seq<char>,
    idx: int,
) -> bool {
    !tx.is_coinbase() && spends_among(tx, tx.vin.len() as int, pub_key_hash, key, idx)
}

/// Whether one of `txs` spends the output.
pub open spec fn spent_in(
    txs: Seq<TransactionView>,
    pub_key_hash: Seq<u8>,
    key: Seq<char>,
    idx: int,
) -> bool
    decreases txs.len(),
{
    if txs.len() == 0 {
        false
    } else {
        spent_in(txs.drop_last(), pub_key_hash, key, idx) || tx_spends(
            txs.last(),
            pub_key_hash,
            key,
            idx,
        )
    }
}

/// An unspent output as the scan finds it: the id of its transaction, its
/// index among the outputs of that transaction, and the output.
#[derive(Clone, Debug, PartialEq, Eq)]
pub struct UnspentOutput {
    pub txid: Vec<u8>,
    pub index: usize,
    pub output: TXOutput,
}

/// What an unspent output holds, as mathematical values.
pub struct UnspentOutputView {
    pub txid: Seq<u8>,
    pub index: int,
    pub output: TXOutputView,
}

impl View for UnspentOutput {
    type V = UnspentOutputView;

    open spec fn view(&self) -> UnspentOutputView {
        UnspentOutputView { txid: self.txid@, index: self.index as int, output: self.output@ }
    }
}

/// A list of unspent outputs, as mathematical values.
pub open spec fn unspent_view(list: Seq<UnspentOutput>) -> Seq<UnspentOutputView> {
    list.map_values(|u: UnspentOutput| u@)
}

/// Whether output `idx` of `tx` is unspent for a key: it is locked to
/// `pub_key_hash`, and none of `newer`, the transactions before `tx` in the
/// walk, spends it with that key.
pub open spec fn output_unspent(
    tx: TransactionView,
    newer: Seq<TransactionView>,
    pub_key_hash: Seq<u8>,
    idx: int,
) -> bool {
    &&& tx.vout[idx].is_locked_with_key(pub_key_hash)
    &&& !spent_in(newer, pub_key_hash, hex_lower(tx.id), idx)
}

/// The unspent outputs among the first `n` outputs of `tx`, each once, by
/// rising index.
pub open spec fn unspent_of(
    tx: TransactionView,
    newer: Seq<TransactionView>,
    pub_key_hash: Seq<u8>,
    n: int,
) -> Seq<UnspentOutputView>
    decreases n,
{
    if n <= 0 {
        Seq::empty()
    } else {
        let before = unspent_of(tx, newer, pub_key_hash, n - 1);
        if output_unspent(tx, newer, pub_key_hash, n - 1) {
            before.push(UnspentOutputView { txid: tx.id, index: n - 1, output: tx.vout[n - 1] })
        } else {
            before
        }
    }
}

/// The unspent outputs of a key over transactions in walk order, newest
/// first: every output that is locked to `pub_key_hash` and that no
/// transaction before its own in the walk spends with that key. Each is
/// listed once, in walk order, and within a transaction by rising index.
pub open spec fn unspent_outputs(txs: Seq<TransactionView>, pub_key_hash: Seq<u8>) -> Seq<
    UnspentOutputView,
>
    decreases txs.len(),
{
    if txs.len() == 0 {
        Seq::empty()
    } else {
        unspent_outputs(txs.drop_last(), pub_key_hash) + unspent_of(
            txs.last(),
            txs.drop_last(),
            pub_key_hash,
            txs.last().vout.len() as int,
        )
    }
}

/// Whether `tx` holds an unspent output of the key.
pub open spec fn holds_unspent(
    tx: TransactionView,
    newer: Seq<TransactionView>,
    pub_key_hash: Seq<u8>,
) -> bool {
    unspent_of(tx, newer, pub_key_hash, tx.vout.len() as int).len() > 0
}

/// The transactions that hold an unspent output of a key, each once, in walk
/// order.
pub open spec fn unspent_transactions(txs: Seq<TransactionView>, pub_key_hash: Seq<u8>) -> Seq<
    TransactionView,
>
    decreases txs.len(),
{
    if txs.len() == 0 {
        Seq::empty()
    } else {
        let before = unspent_transactions(txs.drop_last(), pub_key_hash);
        if holds_unspent(txs.last(), txs.drop_last(), pub_key_hash) {
            before.push(txs.last())
        } else {
            before
        }
    }
}

/// The outputs of a list of unspent outputs.
pub open spec fn utxo_of(unspent: Seq<UnspentOutputView>) -> Seq<TXOutputView> {
    Seq::new(unspent.len(), |i: int| unspent[i].output)
}

/// What is listed for a transaction is made of its outputs: each listed
/// output is the output of the transaction at its index, it is unspent, and
/// the indices rise, so that no output is listed twice.
pub proof fn lemma_unspent_of(
    tx: TransactionView,
    newer: Seq<TransactionView>,
    pub_key_hash: Seq<u8>,
    n: int,
)
    requires
        n <= tx.vout.len(),
    ensures
        forall|i: int|
            0 <= i < unspent_of(tx, newer, pub_key_hash, n).len() ==> {
                let u = #[trigger] unspent_of(tx, newer, pub_key_hash, n)[i];
                &&& 0 <= u.index < n
                &&& u.txid == tx.id
                &&& u.output == tx.vout[u.index]
                &&& output_unspent(tx, newer, pub_key_hash, u.index)
            },
        forall|i: int, j: int|
            0 <= i < j < unspent_of(tx, newer, pub_key_hash, n).len() ==> (#[trigger] unspent_of(
                tx,
                newer,
                pub_key_hash,
                n,
            )[i]).index < (#[trigger] unspent_of(tx, newer, pub_key_hash, n)[j]).index,
        forall|idx: int|
            0 <= idx < n && output_unspent(tx, newer, pub_key_hash, idx) ==> exists|i: int|
                0 <= i < unspent_of(tx, newer, pub_key_hash, n).len() && (#[trigger] unspent_of(
                    tx,
                    newer,
                    pub_key_hash,
                    n,
                )[i]).index == idx,
    decreases n,
{
    if n > 0 {
        lemma_unspent_of(tx, newer, pub_key_hash, n - 1);
        let before = unspent_of(tx, newer, pub_key_hash, n - 1);
        let now = unspent_of(tx, newer, pub_key_hash, n);
        assert forall|idx: int|
            0 <= idx < n && output_unspent(tx, newer, pub_key_hash, idx) implies exists|i: int|
            0 <= i < now.len() && (#[trigger] now[i]).index == idx by {
            if idx == n - 1 {
                assert(now[now.len() - 1].index == idx);
            } else {
                let i = choose|i: int| 0 <= i < before.len() && (#[trigger] before[i]).index == idx;
                assert(now[i] == before[i]);
            }
        }
    }
}

/// Whether `u` is an output of the transaction at place `k` of the walk, and
/// unspent there: locked to the key, and spent by no transaction before its
/// own.
pub open spec fn unspent_at(
    txs: Seq<TransactionView>,
    pub_key_hash: Seq<u8>,
    u: UnspentOutputView,
    k: int,
) -> bool {
    &&& 0 <= k < txs.len()
    &&& u.txid == txs[k].id
    &&& 0 <= u.index < txs[k].vout.len()
    &&& u.output == txs[k].vout[u.index]
    &&& output_unspent(txs[k], txs.take(k), pub_key_hash, u.index)
}

/// Whether `u` is an output of a transaction of the walk, and unspent there.
pub open spec fn unspent_somewhere(
    txs: Seq<TransactionView>,
    pub_key_hash: Seq<u8>,
    u: UnspentOutputView,
) -> bool {
    exists|k: int| unspent_at(txs, pub_key_hash, u, k)
}

/// Every listed output is an output of a transaction of the walk, locked to
/// the key, and spent by no transaction before its own.
pub proof fn lemma_listed_outputs_are_unspent(txs: Seq<TransactionView>, pub_key_hash: Seq<u8>)
    ensures
        forall|i: int|
            0 <= i < unspent_outputs(txs, pub_key_hash).len() ==> #[trigger] unspent_somewhere(
                txs,
                pub_key_hash,
                unspent_outputs(txs, pub_key_hash)[i],
            ),
    decreases txs.len(),
{
    if txs.len() > 0 {
        let front = txs.drop_last();
        let last = txs.last();
        let older = unspent_outputs(front, pub_key_hash);
        let newest = unspent_of(last, front, pub_key_hash, last.vout.len() as int);
        let all = unspent_outputs(txs, pub_key_hash);
        lemma_listed_outputs_are_unspent(front, pub_key_hash);
        lemma_unspent_of(last, front, pub_key_hash, last.vout.len() as int);
        assert forall|i: int| 0 <= i < all.len() implies #[trigger] unspent_somewhere(
            txs,
            pub_key_hash,
            all[i],
        ) by {
            if i < older.len() {
                assert(all[i] == older[i]);
                assert(unspent_somewhere(front, pub_key_hash, older[i]));
                let k = choose|k: int| unspent_at(front, pub_key_hash, older[i], k);
                assert(front.take(k) =~= txs.take(k));
                assert(front[k] == txs[k]);
                assert(unspent_at(txs, pub_key_hash, all[i], k));
            } else {
                assert(all[i] == newest[i - older.len()]);
                let k = txs.len() - 1;
                assert(txs.take(k) =~= front);
                assert(unspent_at(txs, pub_key_hash, all[i], k));
            }
        }
    }
}

/// Every output of the walk that is locked to the key, and spent by no
/// transaction before its own, is listed.
pub proof fn lemma_unspent_outputs_are_listed(
    txs: Seq<TransactionView>,
    pub_key_hash: Seq<u8>,
    k: int,
    idx: int,
)
    requires
        0 <= k < txs.len(),
        0 <= idx < txs[k].vout.len(),
        output_unspent(txs[k], txs.take(k), pub_key_hash, idx),
    ensures
        unspent_outputs(txs, pub_key_hash).contains(
            UnspentOutputView { txid: txs[k].id, index: idx, output: txs[k].vout[idx] },
        ),
    decreases txs.len(),
{
    let front = txs.drop_last();
    let last = txs.last();
    let older = unspent_outputs(front, pub_key_hash);
    let newest = unspent_of(last, front, pub_key_hash, last.vout.len() as int);
    let all = unspent_outputs(txs, pub_key_hash);
    let wanted = UnspentOutputView { txid: txs[k].id, index: idx, output: txs[k].vout[idx] };
    if k < txs.len() - 1 {
        assert(front.take(k) =~= txs.take(k));
        assert(front[k] == txs[k]);
        lemma_unspent_outputs_are_listed(front, pub_key_hash, k, idx);
        let i = choose|i: int| 0 <= i < older.len() && older[i] == wanted;
        assert(all[i] == wanted);
    } else {
        assert(txs.take(k) =~= front);
        lemma_unspent_of(last, front, pub_key_hash, last.vout.len() as int);
        let i = choose|i: int| 0 <= i < newest.len() && (#[trigger] newest[i]).index == idx;
        assert(all[older.len() + i] == newest[i]);
        assert(newest[i] == wanted);
    }
}

/// Whether no two transactions of a sequence have the same id.
pub open spec fn ids_distinct(txs: Seq<TransactionView>) -> bool {
    forall|a: int, b: int| 0 <= a < b < txs.len() ==> (#[trigger] txs[a]).id != (#[trigger] txs[b]).id
}

/// No output is listed twice, where no two transactions have the same id.
pub proof fn lemma_no_output_listed_twice(txs: Seq<TransactionView>, pub_key_hash: Seq<u8>)
    requires
        ids_distinct(txs),
    ensures
        forall|i: int, j: int|
            0 <= i < j < unspent_outputs(txs, pub_key_hash).len() ==> !({
                &&& (#[trigger] unspent_outputs(txs, pub_key_hash)[i]).txid == (
                #[trigger] unspent_outputs(txs, pub_key_hash)[j]).txid
                &&& unspent_outputs(txs, pub_key_hash)[i].index == unspent_outputs(
                    txs,
                    pub_key_hash,
                )[j].index
            }),
    decreases txs.len(),
{
    if txs.len() > 0 {
        let front = txs.drop_last();
        let last = txs.last();
        let older = unspent_outputs(front, pub_key_hash);
        let newest = unspent_of(last, front, pub_key_hash, last.vout.len() as int);
        let all = unspent_outputs(txs, pub_key_hash);
        assert(ids_distinct(front)) by {
            assert forall|a: int, b: int| 0 <= a < b < front.len() implies (#[trigger] front[a]).id
                != (#[trigger] front[b]).id by {
                assert(front[a] == txs[a]);
                assert(front[b] == txs[b]);
            }
        }
        lemma_no_output_listed_twice(front, pub_key_hash);
        lemma_listed_outputs_are_unspent(front, pub_key_hash);
        lemma_unspent_of(last, front, pub_key_hash, last.vout.len() as int);
        assert forall|i: int, j: int| 0 <= i < j < all.len() implies !({
            &&& (#[trigger] all[i]).txid == (#[trigger] all[j]).txid
            &&& all[i].index == all[j].index
        }) by {
            if j < older.len() {
                assert(all[i] == older[i]);
                assert(all[j] == older[j]);
            } else if i < older.len() {
                assert(all[i] == older[i]);
                assert(all[j] == newest[j - older.len()]);
                assert(unspent_somewhere(front, pub_key_hash, older[i]));
                let k = choose|k: int| unspent_at(front, pub_key_hash, older[i], k);
                assert(front[k] == txs[k]);
                assert(txs[k].id != txs[txs.len() - 1].id);
            } else {
                assert(all[i] == newest[i - older.len()]);
                assert(all[j] == newest[j - older.len()]);
            }
        }
    }
}

/// An output that a transaction before its own in the walk has spent is not
/// listed, where no two transactions have the same id.
pub proof fn lemma_spent_output_is_not_listed(
    txs: Seq<TransactionView>,
    pub_key_hash: Seq<u8>,
    k: int,
    idx: int,
)
    requires
        ids_distinct(txs),
        0 <= k < txs.len(),
        spent_in(txs.take(k), pub_key_hash, hex_lower(txs[k].id), idx),
    ensures
        forall|i: int|
            0 <= i < unspent_outputs(txs, pub_key_hash).len() ==> !({
                &&& (#[trigger] unspent_outputs(txs, pub_key_hash)[i]).txid == txs[k].id
                &&& unspent_outputs(txs, pub_key_hash)[i].index == idx
            }),
{
    let all = unspent_outputs(txs, pub_key_hash);
    lemma_listed_outputs_are_unspent(txs, pub_key_hash);
    assert forall|i: int| 0 <= i < all.len() implies !({
        &&& (#[trigger] all[i]).txid == txs[k].id
        &&& all[i].index == idx
    }) by {
        assert(unspent_somewhere(txs, pub_key_hash, all[i]));
        let at = choose|at: int| unspent_at(txs, pub_key_hash, all[i], at);
        if all[i].txid == txs[k].id && all[i].index == idx {
            if at < k {
                assert(txs[at].id != txs[k].id);
            } else if k < at {
                assert(txs[k].id != txs[at].id);
            }
        }
    }
}

/// A table from the hexadecimal text of a transaction id to output indices,
/// as mathematical values.
pub open spec fn table_view(table: Seq<(String, Vec<i32>)>) -> Seq<(Seq<char>, Seq<i32>)> {
    table.map_values(|e: (String, Vec<i32>)| (e.0@, e.1@))
}

/// Whether the table holds `idx` under `key`.
pub open spec fn table_contains(table: Seq<(Seq<char>, Seq<i32>)>, key: Seq<char>, idx: i32) -> bool {
    exists|p: int, q: int|
        0 <= p < table.len() && 0 <= q < table[p].1.len() && table[p].0 == key
            && #[trigger] table[p].1[q] == idx
}

/// The place of the first entry with `key`, or the table's length where no
/// entry has it.
pub open spec fn table_position(table: Seq<(Seq<char>, Seq<i32>)>, key: Seq<char>) -> int
    decreases table.len(),
{
    if table.len() == 0 {
        0
    } else if table[0].0 == key {
        0
    } else {
        1 + table_position(table.drop_first(), key)
    }
}

/// The table with `idx` added under `key`: at the end of the key's entry, or
/// in a new last entry where the key is new.
pub open spec fn table_add(table: Seq<(Seq<char>, Seq<i32>)>, key: Seq<char>, idx: i32) -> Seq<
    (Seq<char>, Seq<i32>),
> {
    let p = table_position(table, key);
    if p < table.len() {
        table.update(p, (key, table[p].1.push(idx)))
    } else {
        table.push((key, seq![idx]))
    }
}

proof fn lemma_table_position(table: Seq<(Seq<char>, Seq<i32>)>, key: Seq<char>, p: int)
    requires
        0 <= p <= table.len(),
        forall|j: int| 0 <= j < p ==> (#[trigger] table[j]).0 != key,
        p < table.len() ==> table[p].0 == key,
    ensures
        table_position(table, key) == p,
    decreases p,
{
    if p > 0 {
        assert(table[0].0 != key);
        let rest = table.drop_first();
        assert forall|j: int| 0 <= j < p - 1 implies (#[trigger] rest[j]).0 != key by {
            assert(rest[j] == table[j + 1]);
        }
        lemma_table_position(rest, key, p - 1);
    }
}

proof fn lemma_table_position_bounds(table: Seq<(Seq<char>, Seq<i32>)>, key: Seq<char>)
    ensures
        0 <= table_position(table, key) <= table.len(),
        table_position(table, key) < table.len() ==> table[table_position(table, key)].0 == key,
    decreases table.len(),
{
    if table.len() > 0 && table[0].0 != key {
        lemma_table_position_bounds(table.drop_first(), key);
    }
}

/// Adding an index under a key adds that pair to what the table holds, and
/// nothing else.
proof fn lemma_table_add(
    table: Seq<(Seq<char>, Seq<i32>)>,
    key: Seq<char>,
    idx: i32,
    key2: Seq<char>,
    idx2: i32,
)
    ensures
        table_contains(table_add(table, key, idx), key2, idx2) == (table_contains(
            table,
            key2,
            idx2,
        ) || (key2 == key && idx2 == idx)),
{
    lemma_table_position_bounds(table, key);
    let p = table_position(table, key);
    let added = table_add(table, key, idx);
    if p < table.len() {
        let outs = table[p].1;
        assert(added[p].1 == outs.push(idx));
        assert(added[p].1[outs.len() as int] == idx);
        if table_contains(table, key2, idx2) {
            let (a, b) = choose|a: int, b: int|
                0 <= a < table.len() && 0 <= b < table[a].1.len() && table[a].0 == key2
                    && #[trigger] table[a].1[b] == idx2;
            assert(added[a].1[b] == idx2);
            assert(added[a].0 == key2);
        }
        if table_contains(added, key2, idx2) {
            let (a, b) = choose|a: int, b: int|
                0 <= a < added.len() && 0 <= b < added[a].1.len() && added[a].0 == key2
                    && #[trigger] added[a].1[b] == idx2;
            if a == p && b == outs.len() {
            } else {
                assert(table[a].1[b] == idx2);
            }
        }
    } else {
        assert(added[table.len() as int].1[0] == idx);
        if table_contains(table, key2, idx2) {
            let (a, b) = choose|a: int, b: int|
                0 <= a < table.len() && 0 <= b < table[a].1.len() && table[a].0 == key2
                    && #[trigger] table[a].1[b] == idx2;
            assert(added[a].1[b] == idx2);
        }
        if table_contains(added, key2, idx2) {
            let (a, b) = choose|a: int, b: int|
                0 <= a < added.len() && 0 <= b < added[a].1.len() && added[a].0 == key2
                    && #[trigger] added[a].1[b] == idx2;
            if a == table.len() {
            } else {
                assert(table[a].1[b] == idx2);
            }
        }
    }
}

/// Whether the table holds `idx` under `key`.
pub fn table_has(table: &Vec<(String, Vec<i32>)>, key: &String, idx: i32) -> (has: bool)
    ensures
        has == table_contains(table_view(table@), key@, idx),
{
    let ghost view = table_view(table@);
    let mut p: usize = 0;
    while p < table.len()
        invariant
            p <= table@.len(),
            view == table_view(table@),
            forall|a: int, b: int|
                0 <= a < p && 0 <= b < view[a].1.len() && view[a].0 == key@ ==> #[trigger] view[a].1[b]
                    != idx,
        decreases table@.len() - p,
    {
        if table[p].0 == *key {
            let outs = &table[p].1;
            let mut q: usize = 0;
            while q < outs.len()
                invariant
                    q <= outs@.len(),
                    p < table@.len(),
                    view == table_view(table@),
                    outs@ == view[p as int].1,
                    view[p as int].0 == key@,
                    forall|b: int| 0 <= b < q ==> outs@[b] != idx,
                decreases outs@.len() - q,
            {
                if outs[q] == idx {
                    assert(view[p as int].1[q as int] == idx);
                    return true;
                }
                q += 1;
            }
        }
        p += 1;
    }
    false
}

/// Adds `idx` under `key`.
pub fn table_insert(table: &mut Vec<(String, Vec<i32>)>, key: String, idx: i32)
    ensures
        table_view(final(table)@) == table_add(table_view(old(table)@), key@, idx),
{
    let ghost view = table_view(table@);
    let mut p: usize = 0;
    while p < table.len()
        invariant
            p <= table@.len(),
            table@ == old(table)@,
            view == table_view(table@),
            forall|j: int| 0 <= j < p ==> (#[trigger] view[j]).0 != key@,
        decreases table@.len() - p,
    {
        if table[p].0 == key {
            let mut outs: Vec<i32> = Vec::new();
            let mut q: usize = 0;
            while q < table[p].1.len()
                invariant
                    p < table@.len(),
                    q <= table@[p as int].1@.len(),
                    outs@ == table@[p as int].1@.take(q as int),
                decreases table@[p as int].1@.len() - q,
            {
                outs.push(table[p].1[q]);
                q += 1;
                assert(table@[p as int].1@.take(q as int) =~= table@[p as int].1@.take(q - 1).push(
                    table@[p as int].1@[q - 1],
                ));
            }
            assert(table@[p as int].1@.take(q as int) =~= table@[p as int].1@);
            outs.push(idx);
            proof {
                assert(view[p as int].0 == key@);
                lemma_table_position(view, key@, p as int);
            }
            table.set(p, (key, outs));
            assert(table_view(table@) =~= table_add(view, key@, idx));
            return ;
        }
        p += 1;
    }
    proof {
        lemma_table_position(view, key@, p as int);
    }
    let mut outs: Vec<i32> = Vec::new();
    outs.push(idx);
    table.push((key, outs));
    assert(table_view(table@) =~= table_add(view, key@, idx));
}

/// An input names an output by a 32-bit index, so no input spends an output
/// at a place beyond that range.
proof fn lemma_spent_index_bound(
    txs: Seq<TransactionView>,
    pub_key_hash: Seq<u8>,
    key: Seq<char>,
    idx: int,
)
    requires
        idx > i32::MAX,
    ensures
        !spent_in(txs, pub_key_hash, key, idx),
    decreases txs.len(),
{
    if txs.len() > 0 {
        lemma_spent_index_bound(txs.drop_last(), pub_key_hash, key, idx);
        lemma_spends_index_bound(txs.last(), txs.last().vin.len() as int, pub_key_hash, key, idx);
    }
}

proof fn lemma_spends_index_bound(
    tx: TransactionView,
    n: int,
    pub_key_hash: Seq<u8>,
    key: Seq<char>,
    idx: int,
)
    requires
        idx > i32::MAX,
    ensures
        !spends_among(tx, n, pub_key_hash, key, idx),
    decreases n,
{
    if n > 0 {
        lemma_spends_index_bound(tx, n - 1, pub_key_hash, key, idx);
    }
}

/// The scan for unspent outputs over transactions in walk order: the
/// transactions that hold an unspent output of the key, and the unspent
/// outputs themselves.
pub fn scan_unspent(txs: &Vec<Transaction>, pub_key_hash: &[u8]) -> (r: (
    Vec<Transaction>,
    Vec<UnspentOutput>,
))
    ensures
        transactions_view(r.0@) == unspent_transactions(transactions_view(txs@), pub_key_hash@),
        unspent_view(r.1@) == unspent_outputs(transactions_view(txs@), pub_key_hash@),
{
    let ghost all = transactions_view(txs@);
    let ghost pkh = pub_key_hash@;
    let mut holders: Vec<Transaction> = Vec::new();
    let mut found: Vec<UnspentOutput> = Vec::new();
    let mut spent: Vec<(String, Vec<i32>)> = Vec::new();
    let mut k: usize = 0;
    assert(transactions_view(holders@) =~= unspent_transactions(all.take(0), pkh));
    assert(unspent_view(found@) =~= unspent_outputs(all.take(0), pkh));
    while k < txs.len()
        invariant
            k <= txs@.len(),
            all == transactions_view(txs@),
            pkh == pub_key_hash@,
            transactions_view(holders@) == unspent_transactions(all.take(k as int), pkh),
            unspent_view(found@) == unspent_outputs(all.take(k as int), pkh),
            forall|key: Seq<char>, idx: i32|
                #[trigger] table_contains(table_view(spent@), key, idx) == spent_in(
                    all.take(k as int),
                    pkh,
                    key,
                    idx as int,
                ),
        decreases txs@.len() - k,
    {
        let tx = &txs[k];
        let ghost newer = all.take(k as int);
        let ghost base = unspent_view(found@);
        let found_before = found.len();
        let txid_hex = hexlower_encode(tx.id.as_slice());
        let mut idx: usize = 0;
        assert(base + unspent_of(tx@, newer, pkh, 0) =~= base);
        while idx < tx.vout.len()
            invariant
                idx <= tx.vout@.len(),
                k < txs@.len(),
                tx == &txs@[k as int],
                txid_hex@ == hex_lower(tx@.id),
                pkh == pub_key_hash@,
                unspent_view(found@) == base + unspent_of(tx@, newer, pkh, idx as int),
                forall|key: Seq<char>, i: i32|
                    #[trigger] table_contains(table_view(spent@), key, i) == spent_in(
                        newer,
                        pkh,
                        key,
                        i as int,
                    ),
            decreases tx.vout@.len() - idx,
        {
            let is_spent = idx <= i32::MAX as usize && table_has(&spent, &txid_hex, idx as i32);
            proof {
                if idx <= i32::MAX as usize {
                    assert(table_contains(table_view(spent@), txid_hex@, idx as i32) == spent_in(
                        newer,
                        pkh,
                        txid_hex@,
                        idx as int,
                    ));
                } else {
                    lemma_spent_index_bound(newer, pkh, txid_hex@, idx as int);
                }
                assert(is_spent == spent_in(newer, pkh, hex_lower(tx@.id), idx as int));
                assert(tx@.vout[idx as int] == tx.vout@[idx as int]@);
            }
            if !is_spent && tx.vout[idx].is_locked_with_key(pub_key_hash) {
                let entry = UnspentOutput {
                    txid: tx.get_id(),
                    index: idx,
                    output: tx.vout[idx].duplicate(),
                };
                proof {
                    let so_far = unspent_of(tx@, newer, pkh, idx as int);
                    assert(unspent_view(found@.push(entry)) =~= unspent_view(found@).push(entry@));
                    assert((base + so_far).push(entry@) =~= base + so_far.push(entry@));
                }
                found.push(entry);
            }
            idx += 1;
        }
        proof {
            assert(all.take(k + 1).drop_last() =~= newer);
            assert(all.take(k + 1).last() == tx@);
            assert(unspent_view(found@).len() == base.len() + unspent_of(
                tx@,
                newer,
                pkh,
                tx@.vout.len() as int,
            ).len());
        }
        if found.len() > found_before {
            let copy = tx.duplicate();
            proof {
                lemma_transactions_view_push(holders@, copy);
            }
            holders.push(copy);
        }
        if !tx.is_coinbase() {
            let mut j: usize = 0;
            while j < tx.vin.len()
                invariant
                    j <= tx.vin@.len(),
                    pkh == pub_key_hash@,
                    forall|key: Seq<char>, i: i32|
                        #[trigger] table_contains(table_view(spent@), key, i) == (spent_in(
                            newer,
                            pkh,
                            key,
                            i as int,
                        ) || spends_among(tx@, j as int, pkh, key, i as int)),
                decreases tx.vin@.len() - j,
            {
                let txin = &tx.vin[j];
                if txin.uses_key(pub_key_hash) {
                    let spent_hex = hexlower_encode(txin.txid.as_slice());
                    let ghost table = table_view(spent@);
                    proof {
                        assert(tx@.vin[j as int] == txin@);
                        assert forall|key: Seq<char>, i: i32|
                            #[trigger] table_contains(
                                table_add(table, spent_hex@, txin.vout),
                                key,
                                i,
                            ) == (spent_in(newer, pkh, key, i as int) || spends_among(
                                tx@,
                                j + 1,
                                pkh,
                                key,
                                i as int,
                            )) by {
                            lemma_table_add(table, spent_hex@, txin.vout, key, i);
                            assert(table_contains(table, key, i) == (spent_in(
                                newer,
                                pkh,
                                key,
                                i as int,
                            ) || spends_among(tx@, j as int, pkh, key, i as int)));
                        }
                    }
                    table_insert(&mut spent, spent_hex, txin.vout);
                } else {
                    proof {
                        assert(tx@.vin[j as int] == txin@);
                    }
                }
                j += 1;
            }
        }
        k += 1;
    }
    assert(all.take(k as int) =~= all);
    (holders, found)
}

/// An output that can be spent: the hexadecimal text of its transaction's id,
/// its index, its value.
pub type Candidate = (Seq<char>, i32, i32);

/// The unspent outputs that can be spent, in order: those at an index that an
/// input can name, each with the hexadecimal text of its transaction's id.
pub open spec fn candidates(unspent: Seq<UnspentOutputView>) -> Seq<Candidate>
    decreases unspent.len(),
{
    if unspent.len() == 0 {
        Seq::empty()
    } else {
        let before = candidates(unspent.drop_last());
        let last = unspent.last();
        if 0 <= last.index <= i32::MAX {
            before.push((hex_lower(last.txid), last.index as i32, last.output.value))
        } else {
            before
        }
    }
}

/// The sum of two amounts, held within the range of `i32`.
pub open spec fn saturating_sum(a: int, b: int) -> int {
    if a + b > i32::MAX {
        i32::MAX as int
    } else if a + b < i32::MIN {
        i32::MIN as int
    } else {
        a + b
    }
}

/// The values of the candidates added up from the first to the last, each
/// sum held within the range of `i32`.
pub open spec fn running_total(c: Seq<Candidate>) -> int
    decreases c.len(),
{
    if c.len() == 0 {
        0
    } else {
        saturating_sum(running_total(c.drop_last()), c.last().2 as int)
    }
}

/// How many candidates are taken where the first `from` did not reach the
/// amount: all up to and including the first at which the running total
/// reaches it, or all of them.
pub open spec fn selected_len(c: Seq<Candidate>, amount: i32, from: nat) -> nat
    decreases c.len() - from,
{
    if from >= c.len() {
        c.len()
    } else if running_total(c.take(from as int + 1)) >= amount {
        from + 1
    } else {
        selected_len(c, amount, from + 1)
    }
}

/// The candidates taken for a payment of `amount`: the first ones, in order,
/// until the running total reaches the amount.
pub open spec fn selection(c: Seq<Candidate>, amount: i32) -> Seq<Candidate> {
    c.take(selected_len(c, amount, 0) as int)
}

/// The taken outputs as a table from transaction to output indices.
pub open spec fn grouped(taken: Seq<Candidate>) -> Seq<(Seq<char>, Seq<i32>)>
    decreases taken.len(),
{
    if taken.len() == 0 {
        Seq::empty()
    } else {
        table_add(grouped(taken.drop_last()), taken.last().0, taken.last().1)
    }
}

/// What is set aside for a payment of `amount` from a list of unspent
/// outputs: the total of the outputs taken, and the outputs.
pub open spec fn spendable_outputs(unspent: Seq<UnspentOutputView>, amount: i32) -> (
    int,
    Seq<(Seq<char>, Seq<i32>)>,
) {
    let taken = selection(candidates(unspent), amount);
    (running_total(taken), grouped(taken))
}

/// A list of candidates, as mathematical values.
pub open spec fn candidates_view(c: Seq<(String, i32, i32)>) -> Seq<Candidate> {
    c.map_values(|e: (String, i32, i32)| (e.0@, e.1, e.2))
}

/// The number of candidates taken lies between `from` and their number.
pub proof fn lemma_selected_len_bound(c: Seq<Candidate>, amount: i32, from: nat)
    requires
        from <= c.len(),
    ensures
        from <= selected_len(c, amount, from) <= c.len(),
    decreases c.len() - from,
{
    if from < c.len() && running_total(c.take(from as int + 1)) < amount {
        lemma_selected_len_bound(c, amount, from + 1);
    }
}

/// Whether a text is the hexadecimal text of some bytes.
pub open spec fn is_hex(text: Seq<char>) -> bool {
    exists|b: Seq<u8>| #[trigger] hex_lower(b) == text
}

/// Whether a table names outputs: every key is the hexadecimal text of some
/// bytes, and no index is negative.
pub open spec fn names_outputs(table: Seq<(Seq<char>, Seq<i32>)>) -> bool {
    &&& forall|p: int| 0 <= p < table.len() ==> is_hex((#[trigger] table[p]).0)
    &&& forall|p: int, q: int|
        0 <= p < table.len() && 0 <= q < table[p].1.len() ==> #[trigger] table[p].1[q] >= 0
}

/// Whether every candidate names an output: a transaction by hexadecimal
/// text, and an index that is not negative.
pub open spec fn candidates_name_outputs(c: Seq<Candidate>) -> bool {
    forall|i: int| 0 <= i < c.len() ==> is_hex((#[trigger] c[i]).0) && c[i].1 >= 0
}

proof fn lemma_table_add_names_outputs(
    table: Seq<(Seq<char>, Seq<i32>)>,
    key: Seq<char>,
    idx: i32,
)
    requires
        names_outputs(table),
        is_hex(key),
        idx >= 0,
    ensures
        names_outputs(table_add(table, key, idx)),
{
    lemma_table_position_bounds(table, key);
    let added = table_add(table, key, idx);
    assert forall|p: int| 0 <= p < added.len() implies is_hex((#[trigger] added[p]).0) by {
        if p < table.len() {
            assert(is_hex(table[p].0));
        }
    }
    assert forall|p: int, q: int|
        0 <= p < added.len() && 0 <= q < added[p].1.len() implies #[trigger] added[p].1[q]
        >= 0 by {
        if p < table.len() && q < table[p].1.len() {
            assert(table[p].1[q] >= 0);
        }
    }
}

proof fn lemma_grouped_names_outputs(taken: Seq<Candidate>)
    requires
        candidates_name_outputs(taken),
    ensures
        names_outputs(grouped(taken)),
    decreases taken.len(),
{
    if taken.len() > 0 {
        assert forall|i: int| 0 <= i < taken.drop_last().len() implies is_hex(
            (#[trigger] taken.drop_last()[i]).0,
        ) && taken.drop_last()[i].1 >= 0 by {
            assert(taken.drop_last()[i] == taken[i]);
        }
        lemma_grouped_names_outputs(taken.drop_last());
        assert(is_hex(taken[taken.len() - 1].0) && taken[taken.len() - 1].1 >= 0);
        lemma_table_add_names_outputs(grouped(taken.drop_last()), taken.last().0, taken.last().1);
    }
}

/// Whether one of the candidates is output `idx` of the transaction with the
/// hexadecimal id `key`.
pub open spec fn names_candidate(c: Seq<Candidate>, key: Seq<char>, idx: i32) -> bool {
    exists|j: int| 0 <= j < c.len() && (#[trigger] c[j]).0 == key && c[j].1 == idx
}

/// Whether one of the unspent outputs is output `idx` of the transaction with
/// the hexadecimal id `key`.
pub open spec fn names_unspent(unspent: Seq<UnspentOutputView>, key: Seq<char>, idx: i32) -> bool {
    exists|i: int|
        0 <= i < unspent.len() && hex_lower((#[trigger] unspent[i]).txid) == key
            && unspent[i].index == idx
}

proof fn lemma_grouped_holds_candidates(taken: Seq<Candidate>, key: Seq<char>, idx: i32)
    requires
        table_contains(grouped(taken), key, idx),
    ensures
        names_candidate(taken, key, idx),
    decreases taken.len(),
{
    if taken.len() > 0 {
        let front = taken.drop_last();
        lemma_table_add(grouped(front), taken.last().0, taken.last().1, key, idx);
        if table_contains(grouped(front), key, idx) {
            lemma_grouped_holds_candidates(front, key, idx);
            let j = choose|j: int| 0 <= j < front.len() && (#[trigger] front[j]).0 == key
                && front[j].1 == idx;
            assert(taken[j] == front[j]);
        } else {
            assert(taken[taken.len() - 1].0 == key);
        }
    } else {
        assert(grouped(taken).len() == 0);
    }
}

proof fn lemma_candidates_are_unspent(unspent: Seq<UnspentOutputView>, key: Seq<char>, idx: i32)
    requires
        names_candidate(candidates(unspent), key, idx),
    ensures
        names_unspent(unspent, key, idx),
    decreases unspent.len(),
{
    let c = candidates(unspent);
    let j = choose|j: int| 0 <= j < c.len() && (#[trigger] c[j]).0 == key && c[j].1 == idx;
    if unspent.len() > 0 {
        let front = unspent.drop_last();
        let before = candidates(front);
        if j < before.len() {
            assert(before[j] == c[j]);
            lemma_candidates_are_unspent(front, key, idx);
            let i = choose|i: int|
                0 <= i < front.len() && hex_lower((#[trigger] front[i]).txid) == key
                    && front[i].index == idx;
            assert(unspent[i] == front[i]);
        } else {
            assert(hex_lower(unspent[unspent.len() - 1].txid) == key);
        }
    }
}

/// What is set aside for a payment is taken from the unspent outputs.
pub proof fn lemma_set_aside_is_unspent(
    unspent: Seq<UnspentOutputView>,
    amount: i32,
    key: Seq<char>,
    idx: i32,
)
    requires
        table_contains(spendable_outputs(unspent, amount).1, key, idx),
    ensures
        names_unspent(unspent, key, idx),
{
    let c = candidates(unspent);
    let taken = selection(c, amount);
    lemma_selected_len_bound(c, amount, 0);
    lemma_grouped_holds_candidates(taken, key, idx);
    let j = choose|j: int| 0 <= j < taken.len() && (#[trigger] taken[j]).0 == key
        && taken[j].1 == idx;
    assert(c[j] == taken[j]);
    lemma_candidates_are_unspent(unspent, key, idx);
}

/// Whether no key stands twice in a table.
pub open spec fn keys_distinct(table: Seq<(Seq<char>, Seq<i32>)>) -> bool {
    forall|p: int, q: int|
        0 <= p < q < table.len() ==> (#[trigger] table[p]).0 != (#[trigger] table[q]).0
}

proof fn lemma_table_position_first(table: Seq<(Seq<char>, Seq<i32>)>, key: Seq<char>)
    ensures
        forall|j: int| 0 <= j < table_position(table, key) && j < table.len() ==> (
        #[trigger] table[j]).0 != key,
    decreases table.len(),
{
    if table.len() > 0 && table[0].0 != key {
        let rest = table.drop_first();
        lemma_table_position_first(rest, key);
        assert forall|j: int| 0 <= j < table_position(table, key) && j < table.len() implies (
        #[trigger] table[j]).0 != key by {
            if j > 0 {
                assert(table[j] == rest[j - 1]);
            }
        }
    }
}

proof fn lemma_table_add_keys_distinct(
    table: Seq<(Seq<char>, Seq<i32>)>,
    key: Seq<char>,
    idx: i32,
)
    requires
        keys_distinct(table),
    ensures
        keys_distinct(table_add(table, key, idx)),
{
    lemma_table_position_bounds(table, key);
    lemma_table_position_first(table, key);
    let added = table_add(table, key, idx);
    assert forall|p: int, q: int| 0 <= p < q < added.len() implies (#[trigger] added[p]).0 != (
    #[trigger] added[q]).0 by {
        if q < table.len() {
            assert(added[p].0 == table[p].0);
            assert(added[q].0 == table[q].0);
        } else {
            assert(added[p].0 == table[p].0);
        }
    }
}

/// A table of taken outputs has each transaction once.
pub proof fn lemma_grouped_keys_distinct(taken: Seq<Candidate>)
    ensures
        keys_distinct(grouped(taken)),
    decreases taken.len(),
{
    if taken.len() > 0 {
        lemma_grouped_keys_distinct(taken.drop_last());
        lemma_table_add_keys_distinct(grouped(taken.drop_last()), taken.last().0, taken.last().1);
    }
}

/// Lists the unspent outputs that can be spent.
pub fn list_candidates(unspent: &Vec<UnspentOutput>) -> (list: Vec<(String, i32, i32)>)
    ensures
        candidates_view(list@) == candidates(unspent_view(unspent@)),
        candidates_name_outputs(candidates_view(list@)),
{
    let ghost all = unspent_view(unspent@);
    let mut list: Vec<(String, i32, i32)> = Vec::new();
    let mut k: usize = 0;
    assert(candidates_view(list@) =~= candidates(all.take(0)));
    while k < unspent.len()
        invariant
            k <= unspent@.len(),
            all == unspent_view(unspent@),
            candidates_view(list@) == candidates(all.take(k as int)),
            candidates_name_outputs(candidates_view(list@)),
        decreases unspent@.len() - k,
    {
        let entry = &unspent[k];
        proof {
            assert(all.take(k + 1).drop_last() =~= all.take(k as int));
            assert(all.take(k + 1).last() == entry@);
        }
        if entry.index <= i32::MAX as usize {
            let item = (
                hexlower_encode(entry.txid.as_slice()),
                entry.index as i32,
                entry.output.value,
            );
            proof {
                let view = (item.0@, item.1, item.2);
                assert(candidates_view(list@.push(item)) =~= candidates_view(list@).push(view));
                assert(is_hex(hex_lower(entry.txid@)));
                assert forall|i: int| 0 <= i < candidates_view(list@).push(view).len() implies is_hex(
                    (#[trigger] candidates_view(list@).push(view)[i]).0,
                ) && candidates_view(list@).push(view)[i].1 >= 0 by {
                    if i < list@.len() {
                        assert(candidates_view(list@).push(view)[i] == candidates_view(list@)[i]);
                    }
                }
            }
            list.push(item);
        }
        k += 1;
    }
    assert(all.take(k as int) =~= all);
    list
}

/// Takes candidates in order until their running total reaches `amount`.
pub fn select_candidates(list: &Vec<(String, i32, i32)>, amount: i32) -> (r: (
    i32,
    Vec<(String, Vec<i32>)>,
))
    ensures
        r.0 == running_total(selection(candidates_view(list@), amount)),
        table_view(r.1@) == grouped(selection(candidates_view(list@), amount)),
{
    let ghost c = candidates_view(list@);
    let mut accumulated: i32 = 0;
    let mut table: Vec<(String, Vec<i32>)> = Vec::new();
    let mut i: usize = 0;
    assert(table_view(table@) =~= grouped(c.take(0)));
    while i < list.len()
        invariant
            i <= list@.len(),
            c == candidates_view(list@),
            selected_len(c, amount, 0) == selected_len(c, amount, i as nat),
            accumulated == running_total(c.take(i as int)),
            table_view(table@) == grouped(c.take(i as int)),
        decreases list@.len() - i,
    {
        let entry = &list[i];
        let ghost taken = c.take(i + 1);
        proof {
            assert(taken.drop_last() =~= c.take(i as int));
            assert(taken.last() == (entry.0@, entry.1, entry.2));
        }
        let sum: i64 = accumulated as i64 + entry.2 as i64;
        accumulated = if sum > i32::MAX as i64 {
            i32::MAX
        } else if sum < i32::MIN as i64 {
            i32::MIN
        } else {
            sum as i32
        };
        table_insert(&mut table, entry.0.clone(), entry.1);
        i += 1;
        if accumulated >= amount {
            assert(selected_len(c, amount, 0) == i);
            return (accumulated, table);
        }
    }
    assert(c.take(i as int) =~= c);
    (accumulated, table)
}

/// The outputs of a list of unspent outputs.
pub fn gather_outputs(unspent: &Vec<UnspentOutput>) -> (utxo: Vec<TXOutput>)
    ensures
        outputs_view(utxo@) == utxo_of(unspent_view(unspent@)),
{
    let ghost all = unspent_view(unspent@);
    let mut utxo: Vec<TXOutput> = Vec::new();
    let mut k: usize = 0;
    while k < unspent.len()
        invariant
            k <= unspent@.len(),
            all == unspent_view(unspent@),
            outputs_view(utxo@) == utxo_of(all.take(k as int)),
        decreases unspent@.len() - k,
    {
        let out = unspent[k].output.duplicate();
        proof {
            lemma_outputs_view_push(utxo@, out);
            assert(all[k as int] == unspent@[k as int]@);
            assert(utxo_of(all.take(k as int)).push(out@) =~= utxo_of(all.take(k + 1)));
        }
        utxo.push(out);
        k += 1;
    }
    assert(all.take(k as int) =~= all);
    utxo
}

/// Sets unspent outputs aside for a payment of `amount`: those that can be
/// spent, in order, until their total reaches the amount. Returns the total
/// and the outputs taken, as a table from the hexadecimal id of a transaction
/// to output indices.
pub fn set_aside(unspent: &Vec<UnspentOutput>, amount: i32) -> (r: (i32, Vec<(String, Vec<i32>)>))
    ensures
        (r.0 as int, table_view(r.1@)) == spendable_outputs(unspent_view(unspent@), amount),
        names_outputs(table_view(r.1@)),
        keys_distinct(table_view(r.1@)),
{
    let list = list_candidates(unspent);
    proof {
        let c = candidates(unspent_view(unspent@));
        lemma_grouped_keys_distinct(selection(c, amount));
        lemma_selected_len_bound(c, amount, 0);
        assert forall|i: int| 0 <= i < selection(c, amount).len() implies is_hex(
            (#[trigger] selection(c, amount)[i]).0,
        ) && selection(c, amount)[i].1 >= 0 by {
            assert(selection(c, amount)[i] == c[i]);
        }
        lemma_grouped_names_outputs(selection(c, amount));
    }
    select_candidates(&list, amount)
}

} // verus!
