//! What there is to print of a chain: for each block its hashes and a line
//! for each input and each output.

use crate::block::{Block, BlockView};
use crate::transaction::{TXInputView, TXOutputView, Transaction, TransactionView};
use crate::utils::{hash_pub_key, hex_lower, hexlower_encode, pub_key_hash_of};
use crate::wallet::{address_of, calc_address};
use vstd::prelude::*;

verus! {

/// One line of a printed chain: an input with the address that spent, or an
/// output with the address that it pays.
#[derive(Clone, Debug, PartialEq, Eq)]
pub enum ReportLine {
    Input { txid: String, vout: i32, from: String },
    Output { txid: String, value: i32, to: String },
}

/// What there is to print of a block: its link, its hash, and a line for each
/// input and each output of each transaction.
#[derive(Clone, Debug, PartialEq, Eq)]
pub struct BlockReport {
    pub prev_hash: String,
    pub hash: String,
    pub lines: Vec<ReportLine>,
}

/// What a line holds, as mathematical values.
pub enum ReportLineView {
    Input { txid: Seq<char>, vout: i32, from: Seq<char> },
    Output { txid: Seq<char>, value: i32, to: Seq<char> },
}

/// What a block's report holds, as mathematical values.
pub struct BlockReportView {
    pub prev_hash: Seq<char>,
    pub hash: Seq<char>,
    pub lines: Seq<ReportLineView>,
}

impl View for ReportLine {
    type V = ReportLineView;

    open spec fn view(&self) -> ReportLineView {
        match self {
            ReportLine::Input { txid, vout, from } => ReportLineView::Input {
                txid: txid@,
                vout: *vout,
                from: from@,
            },
            ReportLine::Output { txid, value, to } => ReportLineView::Output {
                txid: txid@,
                value: *value,
                to: to@,
            },
        }
    }
}

/// A list of lines, as mathematical values.
pub open spec fn lines_view(lines: Seq<ReportLine>) -> Seq<ReportLineView> {
    lines.map_values(|l: ReportLine| l@)
}

impl View for BlockReport {
    type V = BlockReportView;

    open spec fn view(&self) -> BlockReportView {
        BlockReportView {
            prev_hash: self.prev_hash@,
            hash: self.hash@,
            lines: lines_view(self.lines@),
        }
    }
}

/// A list of reports, as mathematical values.
pub open spec fn reports_view(reports: Seq<BlockReport>) -> Seq<BlockReportView> {
    reports.map_values(|r: BlockReport| r@)
}

/// The line for an input: the transaction and output that it names, and the
/// address of the key that signed it.
pub open spec fn input_line(input: TXInputView) -> ReportLineView {
    ReportLineView::Input {
        txid: hex_lower(input.txid),
        vout: input.vout,
        from: address_of(pub_key_hash_of(input.pub_key)),
    }
}

/// The line for an output of the transaction `id`: its value and the address
/// that it is locked to.
pub open spec fn output_line(id: Seq<u8>, output: TXOutputView) -> ReportLineView {
    ReportLineView::Output {
        txid: hex_lower(id),
        value: output.value,
        to: address_of(output.pub_key_hash),
    }
}

/// The lines of a transaction: its inputs, then its outputs.
pub open spec fn transaction_lines(tx: TransactionView) -> Seq<ReportLineView> {
    Seq::new(tx.vin.len(), |j: int| input_line(tx.vin[j])) + Seq::new(
        tx.vout.len(),
        |j: int| output_line(tx.id, tx.vout[j]),
    )
}

/// The lines of a list of transactions, in order.
pub open spec fn block_lines(txs: Seq<TransactionView>) -> Seq<ReportLineView>
    decreases txs.len(),
{
    if txs.len() == 0 {
        Seq::empty()
    } else {
        block_lines(txs.drop_last()) + transaction_lines(txs.last())
    }
}

/// What there is to print of a block.
pub open spec fn report_of(block: BlockView) -> BlockReportView {
    BlockReportView {
        prev_hash: hex_lower(block.prev_block_hash),
        hash: hex_lower(block.hash),
        lines: block_lines(block.transactions),
    }
}

/// What there is to print of a sequence of blocks.
pub open spec fn chain_report(blocks: Seq<BlockView>) -> Seq<BlockReportView> {
    Seq::new(blocks.len(), |i: int| report_of(blocks[i]))
}

proof fn lemma_lines_view_push(lines: Seq<ReportLine>, line: ReportLine)
    ensures
        lines_view(lines.push(line)) == lines_view(lines).push(line@),
{
    assert(lines_view(lines.push(line)) =~= lines_view(lines).push(line@));
}

/// The view of a list with one more report is the view with one more.
pub proof fn lemma_reports_view_push(reports: Seq<BlockReport>, report: BlockReport)
    ensures
        reports_view(reports.push(report)) == reports_view(reports).push(report@),
{
    assert(reports_view(reports.push(report)) =~= reports_view(reports).push(report@));
}

/// The report of a chain with one more block is the report with one more.
pub proof fn lemma_chain_report_push(blocks: Seq<BlockView>, block: BlockView)
    ensures
        chain_report(blocks.push(block)) == chain_report(blocks).push(report_of(block)),
{
    assert(chain_report(blocks.push(block)) =~= chain_report(blocks).push(report_of(block)));
}

/// Appends the lines of `tx` to `lines`.
pub fn report_transaction(tx: &Transaction, lines: &mut Vec<ReportLine>)
    ensures
        lines_view(final(lines)@) == lines_view(old(lines)@) + transaction_lines(tx@),
{
    let ghost base = lines_view(lines@);
    let ghost ins = Seq::new(tx@.vin.len(), |j: int| input_line(tx@.vin[j]));
    let ghost outs = Seq::new(tx@.vout.len(), |j: int| output_line(tx@.id, tx@.vout[j]));
    let mut j: usize = 0;
    assert(base + ins.take(0) =~= base);
    while j < tx.vin.len()
        invariant
            j <= tx.vin@.len(),
            ins == Seq::new(tx@.vin.len(), |j: int| input_line(tx@.vin[j])),
            lines_view(lines@) == base + ins.take(j as int),
        decreases tx.vin@.len() - j,
    {
        let input = &tx.vin[j];
        assert(tx@.vin[j as int] == input@);
        let pub_key_hash = hash_pub_key(input.pub_key.as_slice());
        let line = ReportLine::Input {
            txid: hexlower_encode(input.txid.as_slice()),
            vout: input.vout,
            from: calc_address(pub_key_hash.as_slice()),
        };
        proof {
            lemma_lines_view_push(lines@, line);
            assert((base + ins.take(j as int)).push(line@) =~= base + ins.take(j + 1));
        }
        lines.push(line);
        j += 1;
    }
    assert(ins.take(j as int) =~= ins);
    let mut k: usize = 0;
    assert(base + ins + outs.take(0) =~= base + ins);
    while k < tx.vout.len()
        invariant
            k <= tx.vout@.len(),
            outs == Seq::new(tx@.vout.len(), |j: int| output_line(tx@.id, tx@.vout[j])),
            lines_view(lines@) == base + ins + outs.take(k as int),
        decreases tx.vout@.len() - k,
    {
        let output = &tx.vout[k];
        assert(tx@.vout[k as int] == output@);
        let line = ReportLine::Output {
            txid: hexlower_encode(tx.id.as_slice()),
            value: output.value,
            to: calc_address(output.pub_key_hash.as_slice()),
        };
        proof {
            lemma_lines_view_push(lines@, line);
            assert((base + ins + outs.take(k as int)).push(line@) =~= base + ins + outs.take(k + 1));
        }
        lines.push(line);
        k += 1;
    }
    assert(outs.take(k as int) =~= outs);
    assert(base + ins + outs =~= base + (ins + outs));
}

/// What there is to print of `block`.
pub fn report_block(block: &Block) -> (report: BlockReport)
    ensures
        report@ == report_of(block@),
{
    let mut lines: Vec<ReportLine> = Vec::new();
    let ghost txs = block@.transactions;
    let mut k: usize = 0;
    assert(lines_view(lines@) =~= block_lines(txs.take(0)));
    while k < block.transactions.len()
        invariant
            k <= block.transactions@.len(),
            txs == block@.transactions,
            lines_view(lines@) == block_lines(txs.take(k as int)),
        decreases block.transactions@.len() - k,
    {
        report_transaction(&block.transactions[k], &mut lines);
        proof {
            assert(txs.take(k + 1).drop_last() =~= txs.take(k as int));
            assert(txs.take(k + 1).last() == block.transactions@[k as int]@);
        }
        k += 1;
    }
    assert(txs.take(k as int) =~= txs);
    BlockReport { prev_hash: block.get_pre_block_hash(), hash: block.get_hash(), lines }
}

} // verus!
