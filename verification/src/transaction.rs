//! Transactions: outputs that lock coins to a key, inputs that spend them.

use crate::blockchain::Blockchain;
use crate::codec::{
    bytes_eq, copy_bytes, encode_bytes, encode_each, encode_i32, encode_seq, inverts,
    lemma_encode_each_push, lemma_parse_bytes, lemma_parse_i32, lemma_parse_seq, parse_bytes,
    parse_each, parse_i32, parse_seq, parse_u64, read_bytes, read_i32, read_u64, write_bytes,
    write_i32, write_u64,
};
use crate::error::ChainError;
use crate::utils::{
    base58_decode, compute_sha256, ecdsa_p256_sha256_sign, ecdsa_p256_sha256_sign_verify,
    ecdsa_public_key, ecdsa_signature_valid, hash_pub_key, hex_lower, hexlower_decode,
    lemma_hex_lower_injective, pub_key_hash_of, sha256,
};
use crate::utxo::{
    find_by_id, find_in, is_hex, names_outputs, spendable_outputs, table_view, unspent_outputs,
};
use crate::wallet::{
    address_decodes, address_pub_key_hash, address_valid, validate_address, Wallet,
    CHECKSUM_LENGTH,
};
use crate::wallets::Wallets;
use vstd::prelude::*;
use vstd::slice::slice_subrange;

verus! {

/// The reward of the transaction that opens a block.
pub const SUBSIDY: i32 = 10;

/// The output index that marks the input of a reward transaction.
pub const COINBASE_VOUT: i32 = -1;

/// A reference to an output of an earlier transaction, with the proof of the
/// right to spend it.
#[derive(Clone, Debug, PartialEq, Eq)]
pub struct TXInput {
    pub txid: Vec<u8>,
    pub vout: i32,
    pub signature: Vec<u8>,
    pub pub_key: Vec<u8>,
}

/// An amount of coins locked to the hash of a public key.
#[derive(Clone, Debug, PartialEq, Eq)]
pub struct TXOutput {
    pub value: i32,
    pub pub_key_hash: Vec<u8>,
}

/// A transfer of coins: inputs that spend earlier outputs, and new outputs.
/// The `id` is the digest of the inputs and outputs.
#[derive(Clone, Debug, PartialEq, Eq)]
pub struct Transaction {
    pub id: Vec<u8>,
    pub vin: Vec<TXInput>,
    pub vout: Vec<TXOutput>,
}

/// What an input holds, as mathematical values.
pub struct TXInputView {
    pub txid: Seq<u8>,
    pub vout: i32,
    pub signature: Seq<u8>,
    pub pub_key: Seq<u8>,
}

/// What an output holds, as mathematical values.
pub struct TXOutputView {
    pub value: i32,
    pub pub_key_hash: Seq<u8>,
}

/// What a transaction holds, as mathematical values.
pub struct TransactionView {
    pub id: Seq<u8>,
    pub vin: Seq<TXInputView>,
    pub vout: Seq<TXOutputView>,
}

impl View for TXInput {
    type V = TXInputView;

    open spec fn view(&self) -> TXInputView {
        TXInputView {
            txid: self.txid@,
            vout: self.vout,
            signature: self.signature@,
            pub_key: self.pub_key@,
        }
    }
}

impl View for TXOutput {
    type V = TXOutputView;

    open spec fn view(&self) -> TXOutputView {
        TXOutputView { value: self.value, pub_key_hash: self.pub_key_hash@ }
    }
}

impl View for Transaction {
    type V = TransactionView;

    open spec fn view(&self) -> TransactionView {
        TransactionView { id: self.id@, vin: inputs_view(self.vin@), vout: outputs_view(self.vout@) }
    }
}

/// A list of inputs, as mathematical values.
pub open spec fn inputs_view(inputs: Seq<TXInput>) -> Seq<TXInputView> {
    inputs.map_values(|i: TXInput| i@)
}

/// A list of outputs, as mathematical values.
pub open spec fn outputs_view(outputs: Seq<TXOutput>) -> Seq<TXOutputView> {
    outputs.map_values(|o: TXOutput| o@)
}

/// A list of transactions, as mathematical values.
pub open spec fn transactions_view(txs: Seq<Transaction>) -> Seq<TransactionView> {
    txs.map_values(|t: Transaction| t@)
}

impl TXInputView {
    /// Every length fits the eight bytes that the format gives it.
    pub open spec fn encodable(self) -> bool {
        &&& self.txid.len() <= u64::MAX
        &&& self.signature.len() <= u64::MAX
        &&& self.pub_key.len() <= u64::MAX
    }

    /// Whether the key that signed this input hashes to `pub_key_hash`.
    pub open spec fn uses_key(self, pub_key_hash: Seq<u8>) -> bool {
        pub_key_hash_of(self.pub_key) == pub_key_hash
    }

    /// The input without its signature and its public key.
    pub open spec fn trimmed(self) -> TXInputView {
        TXInputView {
            txid: self.txid,
            vout: self.vout,
            signature: Seq::empty(),
            pub_key: Seq::empty(),
        }
    }
}

impl TXOutputView {
    /// The length of the hash fits the eight bytes that the format gives it.
    pub open spec fn encodable(self) -> bool {
        self.pub_key_hash.len() <= u64::MAX
    }

    /// Whether the output is locked to `pub_key_hash`.
    pub open spec fn is_locked_with_key(self, pub_key_hash: Seq<u8>) -> bool {
        self.pub_key_hash == pub_key_hash
    }
}

impl TransactionView {
    /// Every length fits the eight bytes that the format gives it.
    pub open spec fn encodable(self) -> bool {
        &&& self.id.len() <= u64::MAX
        &&& self.vin.len() <= u64::MAX
        &&& self.vout.len() <= u64::MAX
        &&& forall|i: int| 0 <= i < self.vin.len() ==> (#[trigger] self.vin[i]).encodable()
        &&& forall|i: int| 0 <= i < self.vout.len() ==> (#[trigger] self.vout[i]).encodable()
    }

    /// A reward transaction: a single input that names no transaction and
    /// carries the marker index.
    pub open spec fn is_coinbase(self) -> bool {
        &&& self.vin.len() == 1
        &&& self.vin[0].txid.len() == 0
        &&& self.vin[0].vout == COINBASE_VOUT
    }

    /// The transaction with every input's signature and public key cleared.
    pub open spec fn trimmed(self) -> TransactionView {
        TransactionView {
            id: self.id,
            vin: self.vin.map_values(|i: TXInputView| i.trimmed()),
            vout: self.vout,
        }
    }

    /// The identity of the transaction: the SHA-256 digest of its bytes, taken
    /// with the `id` field empty.
    pub open spec fn hash(self) -> Seq<u8> {
        sha256(encode_transaction(TransactionView { id: Seq::empty(), ..self }))
    }
}

/// An input on the wire: the id it names, the index, the signature, the
/// public key.
pub open spec fn encode_input(i: TXInputView) -> Seq<u8> {
    encode_bytes(i.txid) + encode_i32(i.vout) + encode_bytes(i.signature) + encode_bytes(i.pub_key)
}

/// Reads an input from the front of `s`.
pub open spec fn parse_input(s: Seq<u8>) -> Option<(TXInputView, Seq<u8>)> {
    match parse_bytes(s) {
        None => None,
        Some((txid, s1)) => match parse_i32(s1) {
            None => None,
            Some((vout, s2)) => match parse_bytes(s2) {
                None => None,
                Some((signature, s3)) => match parse_bytes(s3) {
                    None => None,
                    Some((pub_key, s4)) => Some((TXInputView { txid, vout, signature, pub_key }, s4)),
                },
            },
        },
    }
}

/// An output on the wire: the value, then the hash that locks it.
pub open spec fn encode_output(o: TXOutputView) -> Seq<u8> {
    encode_i32(o.value) + encode_bytes(o.pub_key_hash)
}

/// Reads an output from the front of `s`.
pub open spec fn parse_output(s: Seq<u8>) -> Option<(TXOutputView, Seq<u8>)> {
    match parse_i32(s) {
        None => None,
        Some((value, s1)) => match parse_bytes(s1) {
            None => None,
            Some((pub_key_hash, s2)) => Some((TXOutputView { value, pub_key_hash }, s2)),
        },
    }
}

/// `encode_input` as a value.
pub open spec fn input_encoder() -> spec_fn(TXInputView) -> Seq<u8> {
    |i: TXInputView| encode_input(i)
}

/// `parse_input` as a value.
pub open spec fn input_parser() -> spec_fn(Seq<u8>) -> Option<(TXInputView, Seq<u8>)> {
    |s: Seq<u8>| parse_input(s)
}

/// `encode_output` as a value.
pub open spec fn output_encoder() -> spec_fn(TXOutputView) -> Seq<u8> {
    |o: TXOutputView| encode_output(o)
}

/// `parse_output` as a value.
pub open spec fn output_parser() -> spec_fn(Seq<u8>) -> Option<(TXOutputView, Seq<u8>)> {
    |s: Seq<u8>| parse_output(s)
}

/// A transaction on the wire: its id, its inputs, its outputs.
pub open spec fn encode_transaction(t: TransactionView) -> Seq<u8> {
    encode_bytes(t.id) + encode_seq(t.vin, input_encoder()) + encode_seq(t.vout, output_encoder())
}

/// Reads a transaction from the front of `s`.
pub open spec fn parse_transaction(s: Seq<u8>) -> Option<(TransactionView, Seq<u8>)> {
    match parse_bytes(s) {
        None => None,
        Some((id, s1)) => match parse_seq(s1, input_parser()) {
            None => None,
            Some((vin, s2)) => match parse_seq(s2, output_parser()) {
                None => None,
                Some((vout, s3)) => Some((TransactionView { id, vin, vout }, s3)),
            },
        },
    }
}

/// `encode_transaction` as a value.
pub open spec fn transaction_encoder() -> spec_fn(TransactionView) -> Seq<u8> {
    |t: TransactionView| encode_transaction(t)
}

/// `parse_transaction` as a value.
pub open spec fn transaction_parser() -> spec_fn(Seq<u8>) -> Option<(TransactionView, Seq<u8>)> {
    |s: Seq<u8>| parse_transaction(s)
}

/// What is left to read of a sequence, joined to what was read of it.
pub open spec fn resume<T>(done: Seq<T>, left: Option<(Seq<T>, Seq<u8>)>) -> Option<
    (Seq<T>, Seq<u8>),
> {
    match left {
        None => None,
        Some((more, rest)) => Some((done + more, rest)),
    }
}

proof fn lemma_parse_input(i: TXInputView, rest: Seq<u8>)
    requires
        i.encodable(),
    ensures
        parse_input(encode_input(i) + rest) == Some((i, rest)),
{
    let s3 = encode_bytes(i.pub_key) + rest;
    let s2 = encode_bytes(i.signature) + s3;
    let s1 = encode_i32(i.vout) + s2;
    assert(encode_input(i) + rest =~= encode_bytes(i.txid) + s1);
    lemma_parse_bytes(i.txid, s1);
    lemma_parse_i32(i.vout, s2);
    lemma_parse_bytes(i.signature, s3);
    lemma_parse_bytes(i.pub_key, rest);
}

proof fn lemma_parse_output(o: TXOutputView, rest: Seq<u8>)
    requires
        o.encodable(),
    ensures
        parse_output(encode_output(o) + rest) == Some((o, rest)),
{
    let s1 = encode_bytes(o.pub_key_hash) + rest;
    assert(encode_output(o) + rest =~= encode_i32(o.value) + s1);
    lemma_parse_i32(o.value, s1);
    lemma_parse_bytes(o.pub_key_hash, rest);
}

/// Reading the bytes of a transaction gives the transaction back, whatever
/// follows them.
pub proof fn lemma_parse_transaction(t: TransactionView, rest: Seq<u8>)
    requires
        t.encodable(),
    ensures
        parse_transaction(encode_transaction(t) + rest) == Some((t, rest)),
{
    let s2 = encode_seq(t.vout, output_encoder()) + rest;
    let s1 = encode_seq(t.vin, input_encoder()) + s2;
    assert(encode_transaction(t) + rest =~= encode_bytes(t.id) + s1);
    lemma_parse_bytes(t.id, s1);
    assert forall|k: int| 0 <= k < t.vin.len() implies inverts(
        input_parser(),
        input_encoder(),
        #[trigger] t.vin[k],
    ) by {
        let i = t.vin[k];
        assert forall|r: Seq<u8>| #[trigger]
            input_parser()(input_encoder()(i) + r) == Some((i, r)) by {
            lemma_parse_input(i, r);
        }
    }
    lemma_parse_seq(t.vin, input_encoder(), input_parser(), s2);
    assert forall|k: int| 0 <= k < t.vout.len() implies inverts(
        output_parser(),
        output_encoder(),
        #[trigger] t.vout[k],
    ) by {
        let o = t.vout[k];
        assert forall|r: Seq<u8>| #[trigger]
            output_parser()(output_encoder()(o) + r) == Some((o, r)) by {
            lemma_parse_output(o, r);
        }
    }
    lemma_parse_seq(t.vout, output_encoder(), output_parser(), rest);
}

/// What an executable transaction holds can always be written.
pub proof fn lemma_transaction_encodable(t: Transaction)
    ensures
        t@.encodable(),
{
    assert(t.id.len() == t@.id.len());
    assert(t.vin.len() == t@.vin.len());
    assert(t.vout.len() == t@.vout.len());
    assert forall|i: int| 0 <= i < t@.vin.len() implies (#[trigger] t@.vin[i]).encodable() by {
        let input = t.vin@[i];
        assert(t@.vin[i] == input@);
        assert(input.txid.len() == input@.txid.len());
        assert(input.signature.len() == input@.signature.len());
        assert(input.pub_key.len() == input@.pub_key.len());
    }
    assert forall|i: int| 0 <= i < t@.vout.len() implies (#[trigger] t@.vout[i]).encodable() by {
        let output = t.vout@[i];
        assert(t@.vout[i] == output@);
        assert(output.pub_key_hash.len() == output@.pub_key_hash.len());
    }
}

proof fn lemma_inputs_view_push(inputs: Seq<TXInput>, input: TXInput)
    ensures
        inputs_view(inputs.push(input)) == inputs_view(inputs).push(input@),
{
    assert(inputs_view(inputs.push(input)) =~= inputs_view(inputs).push(input@));
}

/// The view of a list with one more output is the view with one more.
pub proof fn lemma_outputs_view_push(outputs: Seq<TXOutput>, output: TXOutput)
    ensures
        outputs_view(outputs.push(output)) == outputs_view(outputs).push(output@),
{
    assert(outputs_view(outputs.push(output)) =~= outputs_view(outputs).push(output@));
}

proof fn lemma_inputs_view_update(inputs: Seq<TXInput>, j: int, input: TXInput)
    requires
        0 <= j < inputs.len(),
    ensures
        inputs_view(inputs.update(j, input)) == inputs_view(inputs).update(j, input@),
{
    assert(inputs_view(inputs.update(j, input)) =~= inputs_view(inputs).update(j, input@));
}

/// The output that an input names among `prev`: output `vout` of the first
/// transaction with the input's `txid`.
pub open spec fn referenced_output(input: TXInputView, prev: Seq<TransactionView>) -> Option<
    TXOutputView,
> {
    match find_by_id(prev, input.txid) {
        None => None,
        Some(tx) => if 0 <= input.vout < tx.vout.len() {
            Some(tx.vout[input.vout as int])
        } else {
            None
        },
    }
}

/// Whether every input of `tx` names an output among `prev`.
pub open spec fn all_resolved(tx: TransactionView, prev: Seq<TransactionView>) -> bool {
    forall|j: int| 0 <= j < tx.vin.len() ==> referenced_output(#[trigger] tx.vin[j], prev) is Some
}

/// `tx` with the public key of input `j` replaced.
pub open spec fn with_pub_key(tx: TransactionView, j: int, pub_key: Seq<u8>) -> TransactionView {
    TransactionView { vin: tx.vin.update(j, TXInputView { pub_key, ..tx.vin[j] }), ..tx }
}

/// What is signed for input `j`: the id of the trimmed copy in which that
/// input alone carries, in place of a public key, the hash that locks the
/// output it names.
pub open spec fn signing_message(tx: TransactionView, j: int, prev: Seq<TransactionView>) -> Seq<
    u8,
> {
    with_pub_key(tx.trimmed(), j, referenced_output(tx.vin[j], prev)->0.pub_key_hash).hash()
}

/// Whether input `j` carries the key that the output it names is locked to:
/// the hash of the input's public key is the hash that locks the output.
pub open spec fn input_unlocks(tx: TransactionView, j: int, prev: Seq<TransactionView>) -> bool {
    tx.vin[j].uses_key(referenced_output(tx.vin[j], prev)->0.pub_key_hash)
}

/// Whether input `j` has the right to spend the output it names: it carries
/// the key that the output is locked to, and its signature is valid for its
/// message under that key.
pub open spec fn input_verifies(tx: TransactionView, j: int, prev: Seq<TransactionView>) -> bool {
    &&& input_unlocks(tx, j, prev)
    &&& ecdsa_signature_valid(
        tx.vin[j].pub_key,
        tx.vin[j].signature,
        signing_message(tx, j, prev),
    )
}

/// The outcome of verification. A reward transaction verifies. Any other
/// needs every input to name an output among `prev`, and then verifies exactly
/// when every input carries the key that locks the output it names, with a
/// valid signature under that key.
pub open spec fn verify_spec(tx: TransactionView, prev: Seq<TransactionView>) -> Result<
    bool,
    ChainError,
> {
    if tx.is_coinbase() {
        Ok(true)
    } else if !all_resolved(tx, prev) {
        Err(ChainError::MissingPriorTransaction)
    } else {
        Ok(forall|j: int| 0 <= j < tx.vin.len() ==> #[trigger] input_verifies(tx, j, prev))
    }
}

/// `after` is `before` with a signature in every input, each valid for its
/// message under the public key of `private_key`.
pub open spec fn signed_by(
    before: TransactionView,
    after: TransactionView,
    prev: Seq<TransactionView>,
    private_key: Seq<u8>,
) -> bool {
    &&& after.id == before.id
    &&& after.vout == before.vout
    &&& after.vin.len() == before.vin.len()
    &&& forall|j: int|
        0 <= j < before.vin.len() ==> {
            &&& (#[trigger] after.vin[j]).txid == before.vin[j].txid
            &&& after.vin[j].vout == before.vin[j].vout
            &&& after.vin[j].pub_key == before.vin[j].pub_key
            &&& ecdsa_signature_valid(
                ecdsa_public_key(private_key),
                after.vin[j].signature,
                signing_message(before, j, prev),
            )
        }
}

/// What signing gives. A reward transaction is left as it is. Of any other,
/// every input must name an output among `prev`, or signing fails and says
/// that one is missing. Then either every input gets a valid signature, or the
/// signature primitive fails and the transaction is left as it was.
pub open spec fn sign_outcome(
    before: TransactionView,
    after: TransactionView,
    prev: Seq<TransactionView>,
    private_key: Seq<u8>,
    r: Result<(), ChainError>,
) -> bool {
    if before.is_coinbase() {
        r is Ok && after == before
    } else if !all_resolved(before, prev) {
        r == Err::<(), ChainError>(ChainError::MissingPriorTransaction) && after == before
    } else {
        match r {
            Ok(_) => signed_by(before, after, prev, private_key),
            Err(e) => e == ChainError::CryptoFailure && after == before,
        }
    }
}

/// Signing changes no message: what is signed for an input does not depend on
/// the signatures that the transaction carries.
proof fn lemma_signing_message_of_signed(
    before: TransactionView,
    after: TransactionView,
    prev: Seq<TransactionView>,
    private_key: Seq<u8>,
    j: int,
)
    requires
        signed_by(before, after, prev, private_key),
        0 <= j < before.vin.len(),
    ensures
        signing_message(after, j, prev) == signing_message(before, j, prev),
{
    assert(after.trimmed().vin =~= before.trimmed().vin) by {
        assert forall|k: int| 0 <= k < before.vin.len() implies after.trimmed().vin[k]
            == before.trimmed().vin[k] by {
            assert(after.vin[k].txid == before.vin[k].txid);
        }
    }
    assert(after.trimmed() == before.trimmed());
    assert(after.vin[j].txid == before.vin[j].txid);
}

/// A transaction that was signed with a private key, and whose inputs carry
/// the public key of that private key and spend outputs that are locked to
/// it, verifies against the same prior transactions.
pub proof fn lemma_signed_transaction_verifies(
    before: TransactionView,
    after: TransactionView,
    prev: Seq<TransactionView>,
    private_key: Seq<u8>,
)
    requires
        !before.is_coinbase(),
        all_resolved(before, prev),
        signed_by(before, after, prev, private_key),
        forall|j: int|
            0 <= j < before.vin.len() ==> (#[trigger] before.vin[j]).pub_key == ecdsa_public_key(
                private_key,
            ),
        forall|j: int| 0 <= j < before.vin.len() ==> #[trigger] input_unlocks(before, j, prev),
    ensures
        verify_spec(after, prev) == Ok::<bool, ChainError>(true),
{
    assert(after.vin[0].txid == before.vin[0].txid || before.vin.len() == 0);
    assert(!after.is_coinbase());
    assert forall|j: int| 0 <= j < after.vin.len() implies referenced_output(
        #[trigger] after.vin[j],
        prev,
    ) is Some by {
        assert(after.vin[j].txid == before.vin[j].txid);
        assert(referenced_output(before.vin[j], prev) is Some);
    }
    assert forall|j: int| 0 <= j < after.vin.len() implies #[trigger] input_verifies(
        after,
        j,
        prev,
    ) by {
        lemma_signing_message_of_signed(before, after, prev, private_key, j);
        assert(after.vin[j].pub_key == before.vin[j].pub_key);
        assert(after.vin[j].txid == before.vin[j].txid);
        assert(input_unlocks(before, j, prev));
    }
}

/// The reward transaction for a public key hash: one marker input, one output
/// of the subsidy.
pub open spec fn coinbase_for(pub_key_hash: Seq<u8>) -> TransactionView {
    let body = TransactionView {
        id: Seq::empty(),
        vin: seq![
            TXInputView {
                txid: Seq::empty(),
                vout: COINBASE_VOUT,
                signature: Seq::empty(),
                pub_key: Seq::empty(),
            },
        ],
        vout: seq![TXOutputView { value: SUBSIDY, pub_key_hash }],
    };
    TransactionView { id: body.hash(), ..body }
}

/// The bytes whose hexadecimal text is `text`.
pub open spec fn unhex(text: Seq<char>) -> Seq<u8> {
    choose|b: Seq<u8>| hex_lower(b) == text
}

/// An unsigned input for each index of one entry of a table of outputs.
pub open spec fn entry_inputs(key: Seq<char>, outs: Seq<i32>, pub_key: Seq<u8>) -> Seq<TXInputView> {
    Seq::new(
        outs.len(),
        |q: int|
            TXInputView { txid: unhex(key), vout: outs[q], signature: Seq::empty(), pub_key },
    )
}

/// An unsigned input for each output of a table, in the order of the table.
pub open spec fn inputs_for(table: Seq<(Seq<char>, Seq<i32>)>, pub_key: Seq<u8>) -> Seq<TXInputView>
    decreases table.len(),
{
    if table.len() == 0 {
        Seq::empty()
    } else {
        inputs_for(table.drop_last(), pub_key) + entry_inputs(
            table.last().0,
            table.last().1,
            pub_key,
        )
    }
}

/// Every input that is made for a table of outputs carries the public key.
pub proof fn lemma_inputs_for_pub_key(table: Seq<(Seq<char>, Seq<i32>)>, pub_key: Seq<u8>)
    ensures
        forall|j: int|
            0 <= j < inputs_for(table, pub_key).len() ==> (#[trigger] inputs_for(
                table,
                pub_key,
            )[j]).pub_key == pub_key,
    decreases table.len(),
{
    if table.len() > 0 {
        lemma_inputs_for_pub_key(table.drop_last(), pub_key);
        let before = inputs_for(table.drop_last(), pub_key);
        let last = entry_inputs(table.last().0, table.last().1, pub_key);
        assert forall|j: int| 0 <= j < inputs_for(table, pub_key).len() implies (
        #[trigger] inputs_for(table, pub_key)[j]).pub_key == pub_key by {
            if j < before.len() {
                assert(inputs_for(table, pub_key)[j] == before[j]);
            } else {
                assert(inputs_for(table, pub_key)[j] == last[j - before.len()]);
            }
        }
    }
}

/// The outputs of a payment: the amount to the recipient and, where more was
/// set aside than the amount, the rest back to the sender.
pub open spec fn payment_outputs(from: Seq<char>, to: Seq<char>, amount: i32, accumulated: int) -> Seq<
    TXOutputView,
> {
    let pay = seq![TXOutputView { value: amount, pub_key_hash: address_pub_key_hash(to) }];
    if accumulated > amount {
        pay.push(
            TXOutputView {
                value: (accumulated - amount) as i32,
                pub_key_hash: address_pub_key_hash(from),
            },
        )
    } else {
        pay
    }
}

/// The payment before it is signed: an input for each output set aside from
/// the sender's unspent outputs, the outputs of the payment, and the id of the
/// two.
pub open spec fn unsigned_payment(
    from: Seq<char>,
    to: Seq<char>,
    amount: i32,
    pub_key: Seq<u8>,
    chain_txs: Seq<TransactionView>,
) -> TransactionView {
    let pub_key_hash = pub_key_hash_of(pub_key);
    let set_aside = spendable_outputs(unspent_outputs(chain_txs, pub_key_hash), amount);
    let body = TransactionView {
        id: Seq::empty(),
        vin: inputs_for(set_aside.1, pub_key),
        vout: payment_outputs(from, to, amount, set_aside.0),
    };
    TransactionView { id: body.hash(), ..body }
}

/// Why no payment can be made, if anything stands against it. `intact` says
/// whether the chain can be walked to its end, and `chain_txs` is what the
/// walk gives.
pub open spec fn payment_failure(
    from: Seq<char>,
    to: Seq<char>,
    amount: i32,
    wallet: Option<Wallet>,
    intact: bool,
    chain_txs: Seq<TransactionView>,
) -> Option<ChainError> {
    if amount <= 0 {
        Some(ChainError::InvalidAmount)
    } else if !address_valid(from) || !address_valid(to) {
        Some(ChainError::InvalidAddress)
    } else if wallet is None {
        Some(ChainError::WalletNotFound)
    } else if !intact {
        Some(ChainError::CorruptedChain)
    } else {
        let pub_key = wallet->0.public_key@;
        let pub_key_hash = pub_key_hash_of(pub_key);
        let unsigned = unsigned_payment(from, to, amount, pub_key, chain_txs);
        if spendable_outputs(unspent_outputs(chain_txs, pub_key_hash), amount).0 < amount {
            Some(ChainError::InsufficientFunds)
        } else if !all_resolved(unsigned, chain_txs) {
            Some(ChainError::MissingPriorTransaction)
        } else {
            None
        }
    }
}

/// What making a payment gives: the failure that stands against it, or the
/// unsigned payment signed with the sender's private key, or the failure of
/// the signature primitive.
#[verifier::opaque]
pub open spec fn paid(
    from: Seq<char>,
    to: Seq<char>,
    amount: i32,
    wallet: Option<Wallet>,
    intact: bool,
    chain_txs: Seq<TransactionView>,
    r: Result<Transaction, ChainError>,
) -> bool {
    match payment_failure(from, to, amount, wallet, intact, chain_txs) {
        Some(e) => r is Err && r->Err_0 == e,
        None => {
            let unsigned = unsigned_payment(from, to, amount, wallet->0.public_key@, chain_txs);
            match r {
                Ok(tx) => {
                    &&& !unsigned.is_coinbase()
                    &&& signed_by(unsigned, tx@, chain_txs, wallet->0.private_key@)
                },
                Err(e) => e == ChainError::CryptoFailure,
            }
        },
    }
}

impl TXInput {
    /// A copy of the id of the transaction that the input names.
    pub fn get_txid(&self) -> (txid: Vec<u8>)
        ensures
            txid@ == self.txid@,
    {
        copy_bytes(self.txid.as_slice())
    }

    /// The index of the output that the input names.
    pub fn get_vout(&self) -> (vout: i32)
        ensures
            vout == self.vout,
    {
        self.vout
    }

    /// A copy of the public key that the input carries.
    pub fn get_pub_key(&self) -> (pub_key: Vec<u8>)
        ensures
            pub_key@ == self.pub_key@,
    {
        copy_bytes(self.pub_key.as_slice())
    }

    /// Whether the key that signed this input hashes to `pub_key_hash`.
    pub fn uses_key(&self, pub_key_hash: &[u8]) -> (uses: bool)
        ensures
            uses == self@.uses_key(pub_key_hash@),
    {
        let locking_hash = hash_pub_key(self.pub_key.as_slice());
        bytes_eq(locking_hash.as_slice(), pub_key_hash)
    }

    /// A copy that shares nothing with `self`.
    pub fn duplicate(&self) -> (copy: TXInput)
        ensures
            copy@ == self@,
    {
        TXInput {
            txid: copy_bytes(self.txid.as_slice()),
            vout: self.vout,
            signature: copy_bytes(self.signature.as_slice()),
            pub_key: copy_bytes(self.pub_key.as_slice()),
        }
    }

    /// Appends the input's bytes to `out`.
    pub fn write(&self, out: &mut Vec<u8>)
        ensures
            final(out)@ == old(out)@ + encode_input(self@),
    {
        let ghost before = out@;
        write_bytes(out, self.txid.as_slice());
        write_i32(out, self.vout);
        write_bytes(out, self.signature.as_slice());
        write_bytes(out, self.pub_key.as_slice());
        assert(out@ =~= before + encode_input(self@));
    }

    /// Reads an input from the front of `data`.
    pub fn read(data: &[u8]) -> (r: Option<(TXInput, &[u8])>)
        ensures
            match r {
                Some((input, rest)) => parse_input(data@) == Some((input@, rest@)),
                None => parse_input(data@) is None,
            },
    {
        let (txid, s1) = match read_bytes(data) {
            Some(p) => p,
            None => { return None; },
        };
        let (vout, s2) = match read_i32(s1) {
            Some(p) => p,
            None => { return None; },
        };
        let (signature, s3) = match read_bytes(s2) {
            Some(p) => p,
            None => { return None; },
        };
        let (pub_key, s4) = match read_bytes(s3) {
            Some(p) => p,
            None => { return None; },
        };
        Some((TXInput { txid, vout, signature, pub_key }, s4))
    }
}

impl TXOutput {
    /// An output of `value` locked to the key that `address` carries.
    pub fn new(value: i32, address: &str) -> (output: TXOutput)
        requires
            address_decodes(address@),
        ensures
            output@ == (TXOutputView { value, pub_key_hash: address_pub_key_hash(address@) }),
    {
        let mut output = TXOutput { value, pub_key_hash: Vec::new() };
        output.lock(address);
        output
    }

    /// The amount of coins in the output.
    pub fn get_value(&self) -> (value: i32)
        ensures
            value == self.value,
    {
        self.value
    }

    /// A copy of the hash that locks the output.
    pub fn get_pub_key_hash(&self) -> (hash: Vec<u8>)
        ensures
            hash@ == self.pub_key_hash@,
    {
        copy_bytes(self.pub_key_hash.as_slice())
    }

    /// Locks the output to the key that `address` carries.
    pub fn lock(&mut self, address: &str)
        requires
            address_decodes(address@),
        ensures
            final(self).value == old(self).value,
            final(self).pub_key_hash@ == address_pub_key_hash(address@),
    {
        let payload = base58_decode(address);
        let pub_key_hash = copy_bytes(
            slice_subrange(payload.as_slice(), 1, payload.len() - CHECKSUM_LENGTH),
        );
        self.pub_key_hash = pub_key_hash;
    }

    /// Whether the output is locked to `pub_key_hash`.
    pub fn is_locked_with_key(&self, pub_key_hash: &[u8]) -> (locked: bool)
        ensures
            locked == self@.is_locked_with_key(pub_key_hash@),
    {
        bytes_eq(self.pub_key_hash.as_slice(), pub_key_hash)
    }

    /// A copy that shares nothing with `self`.
    pub fn duplicate(&self) -> (copy: TXOutput)
        ensures
            copy@ == self@,
    {
        TXOutput { value: self.value, pub_key_hash: copy_bytes(self.pub_key_hash.as_slice()) }
    }

    /// Appends the output's bytes to `out`.
    pub fn write(&self, out: &mut Vec<u8>)
        ensures
            final(out)@ == old(out)@ + encode_output(self@),
    {
        let ghost before = out@;
        write_i32(out, self.value);
        write_bytes(out, self.pub_key_hash.as_slice());
        assert(out@ =~= before + encode_output(self@));
    }

    /// Reads an output from the front of `data`.
    pub fn read(data: &[u8]) -> (r: Option<(TXOutput, &[u8])>)
        ensures
            match r {
                Some((output, rest)) => parse_output(data@) == Some((output@, rest@)),
                None => parse_output(data@) is None,
            },
    {
        let (value, s1) = match read_i32(data) {
            Some(p) => p,
            None => { return None; },
        };
        let (pub_key_hash, s2) = match read_bytes(s1) {
            Some(p) => p,
            None => { return None; },
        };
        Some((TXOutput { value, pub_key_hash }, s2))
    }
}

/// Copies a list of inputs.
pub fn duplicate_inputs(inputs: &Vec<TXInput>) -> (copy: Vec<TXInput>)
    ensures
        inputs_view(copy@) == inputs_view(inputs@),
{
    let mut copy: Vec<TXInput> = Vec::new();
    let mut k: usize = 0;
    while k < inputs.len()
        invariant
            k <= inputs@.len(),
            inputs_view(copy@) == inputs_view(inputs@.take(k as int)),
        decreases inputs@.len() - k,
    {
        let ghost before = copy@;
        let input = inputs[k].duplicate();
        proof {
            lemma_inputs_view_push(before, input);
            lemma_inputs_view_push(inputs@.take(k as int), inputs@[k as int]);
            assert(inputs@.take(k + 1) =~= inputs@.take(k as int).push(inputs@[k as int]));
        }
        copy.push(input);
        k += 1;
    }
    assert(inputs@.take(k as int) =~= inputs@);
    copy
}

/// Copies a list of outputs.
pub fn duplicate_outputs(outputs: &Vec<TXOutput>) -> (copy: Vec<TXOutput>)
    ensures
        outputs_view(copy@) == outputs_view(outputs@),
{
    let mut copy: Vec<TXOutput> = Vec::new();
    let mut k: usize = 0;
    while k < outputs.len()
        invariant
            k <= outputs@.len(),
            outputs_view(copy@) == outputs_view(outputs@.take(k as int)),
        decreases outputs@.len() - k,
    {
        let ghost before = copy@;
        let output = outputs[k].duplicate();
        proof {
            lemma_outputs_view_push(before, output);
            lemma_outputs_view_push(outputs@.take(k as int), outputs@[k as int]);
            assert(outputs@.take(k + 1) =~= outputs@.take(k as int).push(outputs@[k as int]));
        }
        copy.push(output);
        k += 1;
    }
    assert(outputs@.take(k as int) =~= outputs@);
    copy
}

/// Appends the bytes of a list of inputs to `out`: their number, then each.
pub fn write_inputs(inputs: &Vec<TXInput>, out: &mut Vec<u8>)
    ensures
        final(out)@ == old(out)@ + encode_seq(inputs_view(inputs@), input_encoder()),
{
    let ghost before = out@;
    let ghost items = inputs_view(inputs@);
    write_u64(out, inputs.len() as u64);
    let ghost head = out@;
    let mut k: usize = 0;
    assert(encode_each(items.take(0), input_encoder()) =~= Seq::<u8>::empty());
    while k < inputs.len()
        invariant
            k <= inputs@.len(),
            items == inputs_view(inputs@),
            out@ == head + encode_each(items.take(k as int), input_encoder()),
        decreases inputs@.len() - k,
    {
        inputs[k].write(out);
        proof {
            lemma_encode_each_push(items.take(k as int), items[k as int], input_encoder());
            assert(items.take(k + 1) =~= items.take(k as int).push(items[k as int]));
        }
        k += 1;
    }
    assert(items.take(k as int) =~= items);
    assert(out@ =~= before + encode_seq(items, input_encoder()));
}

/// Appends the bytes of a list of outputs to `out`: their number, then each.
pub fn write_outputs(outputs: &Vec<TXOutput>, out: &mut Vec<u8>)
    ensures
        final(out)@ == old(out)@ + encode_seq(outputs_view(outputs@), output_encoder()),
{
    let ghost before = out@;
    let ghost items = outputs_view(outputs@);
    write_u64(out, outputs.len() as u64);
    let ghost head = out@;
    let mut k: usize = 0;
    assert(encode_each(items.take(0), output_encoder()) =~= Seq::<u8>::empty());
    while k < outputs.len()
        invariant
            k <= outputs@.len(),
            items == outputs_view(outputs@),
            out@ == head + encode_each(items.take(k as int), output_encoder()),
        decreases outputs@.len() - k,
    {
        outputs[k].write(out);
        proof {
            lemma_encode_each_push(items.take(k as int), items[k as int], output_encoder());
            assert(items.take(k + 1) =~= items.take(k as int).push(items[k as int]));
        }
        k += 1;
    }
    assert(items.take(k as int) =~= items);
    assert(out@ =~= before + encode_seq(items, output_encoder()));
}

/// Reads a list of inputs from the front of `data`.
pub fn read_inputs(data: &[u8]) -> (r: Option<(Vec<TXInput>, &[u8])>)
    ensures
        match r {
            Some((inputs, rest)) => parse_seq(data@, input_parser()) == Some(
                (inputs_view(inputs@), rest@),
            ),
            None => parse_seq(data@, input_parser()) is None,
        },
{
    let (count, body) = match read_u64(data) {
        Some(p) => p,
        None => { return None; },
    };
    let mut inputs: Vec<TXInput> = Vec::new();
    let mut cur: &[u8] = body;
    let mut k: u64 = 0;
    proof {
        let all = parse_each(body@, count as nat, input_parser());
        if all is Some {
            let found = all->0;
            assert(Seq::<TXInputView>::empty() + found.0 =~= found.0);
        }
    }
    while k < count
        invariant
            k <= count,
            parse_u64(data@) == Some((count, body@)),
            parse_each(body@, count as nat, input_parser()) == resume(
                inputs_view(inputs@),
                parse_each(cur@, (count - k) as nat, input_parser()),
            ),
        decreases count - k,
    {
        let ghost done = inputs_view(inputs@);
        assert(input_parser()(cur@) == parse_input(cur@));
        match TXInput::read(cur) {
            None => {
                assert(parse_each(cur@, (count - k) as nat, input_parser()) is None);
                return None;
            },
            Some((input, rest)) => {
                proof {
                    let tail = parse_each(rest@, (count - k - 1) as nat, input_parser());
                    if tail is Some {
                        let more = tail->0;
                        assert(done + (seq![input@] + more.0) =~= done.push(input@) + more.0);
                    }
                    lemma_inputs_view_push(inputs@, input);
                }
                inputs.push(input);
                cur = rest;
            },
        }
        k += 1;
    }
    assert(inputs_view(inputs@) + Seq::<TXInputView>::empty() =~= inputs_view(inputs@));
    Some((inputs, cur))
}

/// Reads a list of outputs from the front of `data`.
pub fn read_outputs(data: &[u8]) -> (r: Option<(Vec<TXOutput>, &[u8])>)
    ensures
        match r {
            Some((outputs, rest)) => parse_seq(data@, output_parser()) == Some(
                (outputs_view(outputs@), rest@),
            ),
            None => parse_seq(data@, output_parser()) is None,
        },
{
    let (count, body) = match read_u64(data) {
        Some(p) => p,
        None => { return None; },
    };
    let mut outputs: Vec<TXOutput> = Vec::new();
    let mut cur: &[u8] = body;
    let mut k: u64 = 0;
    proof {
        let all = parse_each(body@, count as nat, output_parser());
        if all is Some {
            let found = all->0;
            assert(Seq::<TXOutputView>::empty() + found.0 =~= found.0);
        }
    }
    while k < count
        invariant
            k <= count,
            parse_u64(data@) == Some((count, body@)),
            parse_each(body@, count as nat, output_parser()) == resume(
                outputs_view(outputs@),
                parse_each(cur@, (count - k) as nat, output_parser()),
            ),
        decreases count - k,
    {
        let ghost done = outputs_view(outputs@);
        assert(output_parser()(cur@) == parse_output(cur@));
        match TXOutput::read(cur) {
            None => {
                assert(parse_each(cur@, (count - k) as nat, output_parser()) is None);
                return None;
            },
            Some((output, rest)) => {
                proof {
                    let tail = parse_each(rest@, (count - k - 1) as nat, output_parser());
                    if tail is Some {
                        let more = tail->0;
                        assert(done + (seq![output@] + more.0) =~= done.push(output@) + more.0);
                    }
                    lemma_outputs_view_push(outputs@, output);
                }
                outputs.push(output);
                cur = rest;
            },
        }
        k += 1;
    }
    assert(outputs_view(outputs@) + Seq::<TXOutputView>::empty() =~= outputs_view(outputs@));
    Some((outputs, cur))
}

impl Transaction {
    /// The identity of the transaction: the digest of its bytes, written with
    /// an empty `id`.
    pub fn hash(&self) -> (digest: Vec<u8>)
        ensures
            digest@ == self@.hash(),
            digest@.len() == 32,
    {
        let mut data: Vec<u8> = Vec::new();
        let empty: Vec<u8> = Vec::new();
        write_bytes(&mut data, empty.as_slice());
        write_inputs(&self.vin, &mut data);
        write_outputs(&self.vout, &mut data);
        assert(data@ =~= encode_transaction(TransactionView { id: Seq::empty(), ..self@ }));
        compute_sha256(data.as_slice())
    }

    /// Whether this is a reward transaction.
    pub fn is_coinbase(&self) -> (coinbase: bool)
        ensures
            coinbase == self@.is_coinbase(),
    {
        self.vin.len() == 1 && self.vin[0].txid.len() == 0 && self.vin[0].vout == COINBASE_VOUT
    }

    /// A copy of the transaction's id.
    pub fn get_id(&self) -> (id: Vec<u8>)
        ensures
            id@ == self.id@,
    {
        copy_bytes(self.id.as_slice())
    }

    /// A copy of the transaction's inputs.
    pub fn get_vin(&self) -> (vin: Vec<TXInput>)
        ensures
            inputs_view(vin@) == self@.vin,
    {
        duplicate_inputs(&self.vin)
    }

    /// A copy of the transaction's outputs.
    pub fn get_vout(&self) -> (vout: Vec<TXOutput>)
        ensures
            outputs_view(vout@) == self@.vout,
    {
        duplicate_outputs(&self.vout)
    }

    /// A copy that shares nothing with `self`.
    pub fn duplicate(&self) -> (copy: Transaction)
        ensures
            copy@ == self@,
    {
        Transaction {
            id: copy_bytes(self.id.as_slice()),
            vin: duplicate_inputs(&self.vin),
            vout: duplicate_outputs(&self.vout),
        }
    }

    /// A copy for signing: every input without its signature and public key.
    pub fn trimmed_copy(&self) -> (copy: Transaction)
        ensures
            copy@ == self@.trimmed(),
    {
        let mut inputs: Vec<TXInput> = Vec::new();
        let mut k: usize = 0;
        while k < self.vin.len()
            invariant
                k <= self.vin@.len(),
                inputs_view(inputs@) == self@.trimmed().vin.take(k as int),
            decreases self.vin@.len() - k,
        {
            let input = &self.vin[k];
            let bare = TXInput {
                txid: input.get_txid(),
                vout: input.get_vout(),
                signature: Vec::new(),
                pub_key: Vec::new(),
            };
            proof {
                let target = self@.trimmed().vin;
                lemma_inputs_view_push(inputs@, bare);
                assert(target[k as int] == self.vin@[k as int]@.trimmed());
                assert(target.take(k + 1) =~= target.take(k as int).push(target[k as int]));
            }
            inputs.push(bare);
            k += 1;
        }
        assert(self@.trimmed().vin.take(k as int) =~= self@.trimmed().vin);
        Transaction {
            id: copy_bytes(self.id.as_slice()),
            vin: inputs,
            vout: duplicate_outputs(&self.vout),
        }
    }

    /// The hashes that lock the outputs named by the inputs, one for each
    /// input, or nothing where an input names no output among `prev_txs`.
    pub fn resolve_locks(&self, prev_txs: &Vec<Transaction>) -> (r: Option<Vec<Vec<u8>>>)
        ensures
            match r {
                Some(locks) => {
                    &&& all_resolved(self@, transactions_view(prev_txs@))
                    &&& locks@.len() == self@.vin.len()
                    &&& forall|j: int|
                        0 <= j < locks@.len() ==> (#[trigger] locks@[j])@ == referenced_output(
                            self@.vin[j],
                            transactions_view(prev_txs@),
                        )->0.pub_key_hash
                },
                None => !all_resolved(self@, transactions_view(prev_txs@)),
            },
    {
        let ghost prev = transactions_view(prev_txs@);
        let mut locks: Vec<Vec<u8>> = Vec::new();
        let mut j: usize = 0;
        while j < self.vin.len()
            invariant
                j <= self.vin@.len(),
                prev == transactions_view(prev_txs@),
                locks@.len() == j,
                forall|i: int|
                    0 <= i < j ==> referenced_output(#[trigger] self@.vin[i], prev) is Some,
                forall|i: int|
                    0 <= i < j ==> (#[trigger] locks@[i])@ == referenced_output(
                        self@.vin[i],
                        prev,
                    )->0.pub_key_hash,
            decreases self.vin@.len() - j,
        {
            let input = &self.vin[j];
            assert(self@.vin[j as int] == input@);
            let prior = match find_in(prev_txs, input.txid.as_slice()) {
                Some(tx) => tx,
                None => {
                    assert(referenced_output(self@.vin[j as int], prev) is None);
                    return None;
                },
            };
            if input.vout < 0 || input.vout as usize >= prior.vout.len() {
                assert(referenced_output(self@.vin[j as int], prev) is None);
                return None;
            }
            let at = input.vout as usize;
            assert(prior@.vout[at as int] == prior.vout@[at as int]@);
            locks.push(copy_bytes(prior.vout[at].pub_key_hash.as_slice()));
            j += 1;
        }
        Some(locks)
    }

    /// The id that the transaction would have with the public key of input
    /// `j` replaced by `pub_key`. The transaction is left as it was.
    pub fn patched_hash(&mut self, j: usize, pub_key: &[u8]) -> (digest: Vec<u8>)
        requires
            j < old(self).vin@.len(),
        ensures
            final(self)@ == old(self)@,
            digest@ == with_pub_key(old(self)@, j as int, pub_key@).hash(),
    {
        let ghost inputs = self.vin@;
        let unpatched = self.vin[j].duplicate();
        let patched = TXInput {
            txid: copy_bytes(unpatched.txid.as_slice()),
            vout: unpatched.vout,
            signature: copy_bytes(unpatched.signature.as_slice()),
            pub_key: copy_bytes(pub_key),
        };
        proof {
            lemma_inputs_view_update(inputs, j as int, patched);
            lemma_inputs_view_update(inputs.update(j as int, patched), j as int, unpatched);
            assert(inputs_view(inputs)[j as int] == inputs[j as int]@);
        }
        self.vin.set(j, patched);
        assert(self@ == with_pub_key(old(self)@, j as int, pub_key@));
        let digest = self.hash();
        self.vin.set(j, unpatched);
        assert(self@.vin =~= old(self)@.vin);
        digest
    }

    /// Signs every input with `private_key`. The output that an input names is
    /// looked up among `prev_txs`. A reward transaction is left unsigned.
    ///
    /// Either every input gets its signature or the transaction is left as it
    /// was.
    pub fn sign(&mut self, private_key: &[u8], prev_txs: &Vec<Transaction>) -> (r: Result<
        (),
        ChainError,
    >)
        ensures
            sign_outcome(old(self)@, final(self)@, transactions_view(prev_txs@), private_key@, r),
    {
        if self.is_coinbase() {
            return Ok(());
        }
        let ghost prev = transactions_view(prev_txs@);
        let ghost before = self@;
        let locks = match self.resolve_locks(prev_txs) {
            Some(locks) => locks,
            None => { return Err(ChainError::MissingPriorTransaction); },
        };
        let mut tx_copy = self.trimmed_copy();
        let mut signatures: Vec<Vec<u8>> = Vec::new();
        let mut j: usize = 0;
        while j < self.vin.len()
            invariant
                j <= self.vin@.len(),
                *self == *old(self),
                before == self@,
                prev == transactions_view(prev_txs@),
                !before.is_coinbase(),
                all_resolved(before, prev),
                tx_copy@ == before.trimmed(),
                locks@.len() == before.vin.len(),
                signatures@.len() == j,
                forall|i: int|
                    0 <= i < locks@.len() ==> (#[trigger] locks@[i])@ == referenced_output(
                        before.vin[i],
                        prev,
                    )->0.pub_key_hash,
                forall|i: int|
                    0 <= i < j ==> ecdsa_signature_valid(
                        ecdsa_public_key(private_key@),
                        (#[trigger] signatures@[i])@,
                        signing_message(before, i, prev),
                    ),
            decreases self.vin@.len() - j,
        {
            assert(tx_copy@.vin.len() == before.vin.len());
            let digest = tx_copy.patched_hash(j, locks[j].as_slice());
            assert(digest@ == signing_message(before, j as int, prev));
            match ecdsa_p256_sha256_sign(private_key, digest.as_slice()) {
                Some(signature) => {
                    signatures.push(signature);
                },
                None => {
                    return Err(ChainError::CryptoFailure);
                },
            }
            j += 1;
        }
        let mut k: usize = 0;
        while k < self.vin.len()
            invariant
                k <= self.vin@.len(),
                self.id == old(self).id,
                self.vout == old(self).vout,
                self.vin@.len() == before.vin.len(),
                before == old(self)@,
                signatures@.len() == before.vin.len(),
                forall|i: int|
                    0 <= i < before.vin.len() ==> {
                        &&& (#[trigger] self@.vin[i]).txid == before.vin[i].txid
                        &&& self@.vin[i].vout == before.vin[i].vout
                        &&& self@.vin[i].pub_key == before.vin[i].pub_key
                    },
                forall|i: int| 0 <= i < k ==> (#[trigger] self@.vin[i]).signature == signatures@[i]@,
            decreases self.vin@.len() - k,
        {
            let input = &self.vin[k];
            let ghost inputs = self.vin@;
            assert(self@.vin[k as int] == input@);
            let signed = TXInput {
                txid: copy_bytes(input.txid.as_slice()),
                vout: input.vout,
                signature: copy_bytes(signatures[k].as_slice()),
                pub_key: copy_bytes(input.pub_key.as_slice()),
            };
            proof {
                lemma_inputs_view_update(inputs, k as int, signed);
            }
            self.vin.set(k, signed);
            k += 1;
        }
        proof {
            assert forall|i: int| 0 <= i < before.vin.len() implies ecdsa_signature_valid(
                ecdsa_public_key(private_key@),
                (#[trigger] self@.vin[i]).signature,
                signing_message(before, i, prev),
            ) by {
                assert(self@.vin[i].signature == signatures@[i]@);
            }
        }
        Ok(())
    }

    /// Verifies the right of every input to spend the output it names: that it
    /// carries the key that the output is locked to, and a valid signature
    /// under that key. The output is looked up among `prev_txs`.
    pub fn verify(&self, prev_txs: &Vec<Transaction>) -> (r: Result<bool, ChainError>)
        ensures
            r == verify_spec(self@, transactions_view(prev_txs@)),
    {
        if self.is_coinbase() {
            return Ok(true);
        }
        let ghost prev = transactions_view(prev_txs@);
        let ghost tx = self@;
        let locks = match self.resolve_locks(prev_txs) {
            Some(locks) => locks,
            None => { return Err(ChainError::MissingPriorTransaction); },
        };
        let mut tx_copy = self.trimmed_copy();
        let mut j: usize = 0;
        while j < self.vin.len()
            invariant
                j <= self.vin@.len(),
                tx == self@,
                prev == transactions_view(prev_txs@),
                tx_copy@ == tx.trimmed(),
                locks@.len() == tx.vin.len(),
                forall|i: int|
                    0 <= i < locks@.len() ==> (#[trigger] locks@[i])@ == referenced_output(
                        tx.vin[i],
                        prev,
                    )->0.pub_key_hash,
                forall|i: int| 0 <= i < j ==> #[trigger] input_verifies(tx, i, prev),
                !tx.is_coinbase(),
                all_resolved(tx, prev),
            decreases self.vin@.len() - j,
        {
            assert(tx_copy@.vin.len() == tx.vin.len());
            let digest = tx_copy.patched_hash(j, locks[j].as_slice());
            assert(digest@ == signing_message(tx, j as int, prev));
            let input = &self.vin[j];
            assert(tx.vin[j as int] == input@);
            if !input.uses_key(locks[j].as_slice()) {
                assert(!input_verifies(tx, j as int, prev));
                return Ok(false);
            }
            let valid = ecdsa_p256_sha256_sign_verify(
                input.pub_key.as_slice(),
                input.signature.as_slice(),
                digest.as_slice(),
            );
            if !valid {
                assert(!input_verifies(tx, j as int, prev));
                return Ok(false);
            }
            j += 1;
        }
        Ok(true)
    }

    /// Appends the transaction's bytes to `out`.
    pub fn write(&self, out: &mut Vec<u8>)
        ensures
            final(out)@ == old(out)@ + encode_transaction(self@),
    {
        let ghost before = out@;
        write_bytes(out, self.id.as_slice());
        write_inputs(&self.vin, out);
        write_outputs(&self.vout, out);
        assert(out@ =~= before + encode_transaction(self@));
    }

    /// Reads a transaction from the front of `data`.
    pub fn read(data: &[u8]) -> (r: Option<(Transaction, &[u8])>)
        ensures
            match r {
                Some((tx, rest)) => parse_transaction(data@) == Some((tx@, rest@)),
                None => parse_transaction(data@) is None,
            },
    {
        let (id, s1) = match read_bytes(data) {
            Some(p) => p,
            None => { return None; },
        };
        let (vin, s2) = match read_inputs(s1) {
            Some(p) => p,
            None => { return None; },
        };
        let (vout, s3) = match read_outputs(s2) {
            Some(p) => p,
            None => { return None; },
        };
        Some((Transaction { id, vin, vout }, s3))
    }
}

/// Creates the reward transaction for `to`: one marker input, one output of
/// the subsidy locked to the address.
pub fn new_coinbase_tx(to: &str) -> (tx: Transaction)
    requires
        address_decodes(to@),
    ensures
        tx@ == coinbase_for(address_pub_key_hash(to@)),
{
    let txin = TXInput {
        txid: Vec::new(),
        vout: COINBASE_VOUT,
        signature: Vec::new(),
        pub_key: Vec::new(),
    };
    let txout = TXOutput::new(SUBSIDY, to);
    let mut vin: Vec<TXInput> = Vec::new();
    vin.push(txin);
    let mut vout: Vec<TXOutput> = Vec::new();
    vout.push(txout);
    let mut tx = Transaction { id: Vec::new(), vin, vout };
    let ghost body = tx@;
    assert(body.vin =~= coinbase_for(address_pub_key_hash(to@)).vin);
    assert(body.vout =~= coinbase_for(address_pub_key_hash(to@)).vout);
    tx.id = tx.hash();
    assert(tx@.hash() == body.hash());
    tx
}

/// Builds an unsigned input for each output of `table`, each carrying
/// `pub_key`.
pub fn build_inputs(table: &Vec<(String, Vec<i32>)>, pub_key: &[u8]) -> (inputs: Vec<TXInput>)
    requires
        names_outputs(table_view(table@)),
    ensures
        inputs_view(inputs@) == inputs_for(table_view(table@), pub_key@),
        forall|j: int| 0 <= j < inputs@.len() ==> (#[trigger] inputs@[j]).vout >= 0,
{
    let ghost view = table_view(table@);
    let mut inputs: Vec<TXInput> = Vec::new();
    let mut p: usize = 0;
    assert(inputs_view(inputs@) =~= inputs_for(view.take(0), pub_key@));
    while p < table.len()
        invariant
            p <= table@.len(),
            view == table_view(table@),
            names_outputs(view),
            inputs_view(inputs@) == inputs_for(view.take(p as int), pub_key@),
            forall|j: int| 0 <= j < inputs@.len() ==> (#[trigger] inputs@[j]).vout >= 0,
        decreases table@.len() - p,
    {
        let ghost key = view[p as int].0;
        let ghost outs_view = view[p as int].1;
        let ghost base = inputs_view(inputs@);
        let decoded = hexlower_decode(table[p].0.as_str());
        // A key of the table is the text of an id, so it decodes.
        assert(decoded is Some) by {
            assert(is_hex(key));
        }
        let txid = match decoded {
            Some(bytes) => bytes,
            None => Vec::new(),
        };
        proof {
            lemma_hex_lower_injective(txid@, unhex(key));
        }
        let outs = &table[p].1;
        let mut q: usize = 0;
        assert(base + entry_inputs(key, outs_view.take(0), pub_key@) =~= base);
        assert forall|b: int| 0 <= b < outs_view.len() implies outs_view[b] >= 0 by {
            assert(view[p as int].1[b] >= 0);
        }
        while q < outs.len()
            invariant
                q <= outs@.len(),
                outs@ == outs_view,
                txid@ == unhex(key),
                forall|b: int| 0 <= b < outs_view.len() ==> outs_view[b] >= 0,
                inputs_view(inputs@) == base + entry_inputs(key, outs_view.take(q as int), pub_key@),
                forall|j: int| 0 <= j < inputs@.len() ==> (#[trigger] inputs@[j]).vout >= 0,
            decreases outs@.len() - q,
        {
            let input = TXInput {
                txid: copy_bytes(txid.as_slice()),
                vout: outs[q],
                signature: Vec::new(),
                pub_key: copy_bytes(pub_key),
            };
            proof {
                lemma_inputs_view_push(inputs@, input);
                let so_far = entry_inputs(key, outs_view.take(q as int), pub_key@);
                assert((base + so_far).push(input@) =~= base + entry_inputs(
                    key,
                    outs_view.take(q + 1),
                    pub_key@,
                ));
            }
            inputs.push(input);
            q += 1;
        }
        proof {
            assert(outs_view.take(q as int) =~= outs_view);
            assert(view.take(p + 1).drop_last() =~= view.take(p as int));
            assert(view.take(p + 1).last() == view[p as int]);
        }
        p += 1;
    }
    assert(view.take(p as int) =~= view);
    inputs
}

/// Creates a payment of `amount` from `from` to `to`: sets unspent outputs of
/// the sender aside, spends them in full, pays the amount to the recipient and
/// the rest back to the sender, and signs with the sender's key. The sender's
/// wallet is looked up in `wallets`.
pub fn new_utxo_transaction(
    from: &str,
    to: &str,
    amount: i32,
    blockchain: &Blockchain,
    wallets: &Wallets,
) -> (r: Result<Transaction, ChainError>)
    ensures
        paid(
            from@,
            to@,
            amount,
            wallets.wallet_of(from@),
            blockchain.intact(),
            blockchain.transactions(),
            r,
        ),
{
    proof {
        reveal(paid);
    }
    if amount <= 0 {
        return Err(ChainError::InvalidAmount);
    }
    if !validate_address(from) || !validate_address(to) {
        return Err(ChainError::InvalidAddress);
    }
    let wallet = match wallets.get_wallet(from) {
        Some(wallet) => wallet,
        None => { return Err(ChainError::WalletNotFound); },
    };
    let public_key_hash = hash_pub_key(wallet.public_key.as_slice());
    let (accumulated, valid_outputs) = match blockchain.find_spendable_outputs(
        public_key_hash.as_slice(),
        amount,
    ) {
        Ok(found) => found,
        Err(e) => { return Err(e); },
    };
    if accumulated < amount {
        return Err(ChainError::InsufficientFunds);
    }
    let inputs = build_inputs(&valid_outputs, wallet.public_key.as_slice());
    let mut outputs: Vec<TXOutput> = Vec::new();
    outputs.push(TXOutput::new(amount, to));
    if accumulated > amount {
        outputs.push(TXOutput::new(accumulated - amount, from));
    }
    assert(outputs_view(outputs@) =~= payment_outputs(from@, to@, amount, accumulated as int));
    let mut tx = Transaction { id: Vec::new(), vin: inputs, vout: outputs };
    let ghost body = tx@;
    tx.id = tx.hash();
    let ghost unsigned = tx@;
    assert(unsigned.hash() == body.hash());
    assert(!unsigned.is_coinbase()) by {
        if unsigned.vin.len() == 1 {
            assert(unsigned.vin[0] == tx.vin@[0]@);
            assert(tx.vin@[0].vout >= 0);
        }
    }
    assert(unsigned == unsigned_payment(
        from@,
        to@,
        amount,
        wallet.public_key@,
        blockchain.transactions(),
    ));
    match blockchain.sign_transaction(&mut tx, wallet.private_key.as_slice()) {
        Ok(_) => Ok(tx),
        Err(e) => Err(e),
    }
}

} // verus!
