//! The ways in which a ledger operation can fail.

use vstd::prelude::*;

verus! {

/// Why an operation on the ledger did not go through.
///
/// The first group is what a caller can recover from: the request was at
/// fault. The second group reports a ledger or a capability that is not in
/// the state the operation needs.
#[derive(Clone, Copy, Debug, PartialEq, Eq, Structural)]
pub enum ChainError {
    /// The sender's spendable outputs add up to less than the amount asked for.
    InsufficientFunds,
    /// An address does not carry the checksum of its own contents.
    InvalidAddress,
    /// A payment of nothing, or of less than nothing.
    InvalidAmount,
    /// A signature of a transaction's input does not verify.
    SignatureVerificationFailure,
    /// The wallet collection holds no wallet for the sender's address.
    WalletNotFound,
    /// An input names a transaction, or an output of one, that the chain does not hold.
    MissingPriorTransaction,
    /// The store did not take a write.
    PersistenceFailure,
    /// No nonce of the 32-bit space brings the block's hash under the target.
    ProofOfWorkExhausted,
    /// The store holds no chain and no address was given to start one.
    MissingChain,
    /// The walk over the chain came upon bytes that are no block, or upon more
    /// blocks than the store has entries.
    CorruptedChain,
    /// The signature primitive rejected the key or could not produce a result.
    CryptoFailure,
}

} // verus!
