use vstd::prelude::*;

verus! {

/// The failures the ledger reports to its caller instead of aborting.
#[derive(Clone, Copy, Debug, PartialEq, Eq, Structural)]
pub enum LedgerError {
    /// The sender's unspent outputs do not add up to the requested amount.
    InsufficientFunds,
    /// An input refers to a transaction that the caller did not supply or the
    /// ledger does not hold.
    UnknownPriorTransaction,
    /// An input refers to an output position that its prior transaction lacks.
    UnknownPriorOutput,
    /// A stored signature does not verify against its input's digest.
    InvalidSignature,
    /// The private key bytes do not form a usable signing key.
    InvalidKey,
    /// No nonce of the 32-bit space met the target.
    ConsensusExhausted,
    /// The stored ledger is absent, already present, or inconsistent.
    StoreError,
    /// A peer could not be reached.
    NetworkError,
    /// An address, a hash or a frame is malformed.
    DecodeError,
    /// A block was asked for with no transaction in it.
    EmptyBlock,
    /// A sum of amounts, a height or a length left the range of its integer
    /// type.
    Overflow,
    /// An operation was asked for without an argument it needs.
    InvalidArguments,
    /// No wallet is kept under the sender's address.
    UnknownWallet,
}

} // verus!
