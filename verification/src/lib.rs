//! A minimal proof-of-work ledger: blocks committed by a Merkle root, UTXO
//! transactions signed per input, an index of unspent outputs, and the
//! command set two nodes use to converge on one chain.

pub mod address;
pub mod block;
pub mod blockchain;
pub mod cli;
pub mod digest;
pub mod error;
pub mod hexcode;
pub mod merkle;
pub mod network;
pub mod octets;
pub mod proof_of_work;
pub mod signature;
pub mod store;
pub mod text;
pub mod transaction;
pub mod tx;
pub mod utxo;
pub mod wallet;
pub mod wallets;
pub mod wire;
