//! A small proof-of-work ledger, verified with Verus.
//!
//! Coins are held as unspent outputs of transactions. A block batches
//! transactions and is closed by a proof of work; blocks are linked into a
//! chain by their hashes and kept in a store under those hashes. Balances are
//! derived by walking the chain from its tip.
//!
//! - [`codec`], [`transaction`], [`block`]: the data and its binary format.
//! - [`proofofwork`]: the search for a nonce and its check.
//! - [`bcdb`], [`blockchain`]: the store and the chain in it.
//! - [`utxo`]: the scan for unspent outputs and the choice of outputs to spend.
//! - [`wallet`], [`wallets`]: keys and addresses.
//! - [`cli`], [`report`]: the commands, and what they give to print.
//! - [`utils`], [`base58`], [`clock`]: hashing, encodings, signatures, time.
//! - [`theorems`]: what holds of the ledger as a whole.

pub mod base58;
pub mod bcdb;
pub mod block;
pub mod blockchain;
pub mod cli;
pub mod clock;
pub mod codec;
pub mod error;
pub mod proofofwork;
pub mod report;
pub mod theorems;
pub mod transaction;
pub mod utils;
pub mod utxo;
pub mod wallet;
pub mod wallets;
