//! The operations a node offers on its command line, on values already
//! parsed and loaded.

use crate::address::{address_is_valid, address_owner, decode_address, validate_address};
use crate::block::{block_views, is_mined, Block, BlockView};
use crate::blockchain::{mine_failure, Blockchain};
use crate::error::LedgerError;
use crate::hexcode::hex_decoding;
use crate::network::command::{Message, MessageView, SendTxCmd};
use crate::network::{central_node, node_address_of, Outgoing, Server};
use crate::proof_of_work::{nonce_wins, ProofOfWork, DIFFICULTY};
use crate::transaction::{transfer_outcome, tx_views, Transaction, TransactionView};
use crate::utxo::{apply_block, owned, replay, total_amount, UTXOSet, UtxoView};
use crate::wallet::Wallet;
use crate::wallets::{wallet_under, Wallets};
use vstd::prelude::*;

verus! {

/// What the command line can ask for.
#[derive(Clone, Copy, Debug, PartialEq, Eq, Structural)]
pub enum CliOperation {
    GetBalance,
    PrintChain,
    Send,
    CreateChain,
    PrintUsage,
    CreateWallet,
    ListAddress,
    Rebuild,
    StartNode,
}

/// The arguments of one call.
#[derive(Debug, PartialEq, Eq)]
pub struct CliParam {
    pub operation: CliOperation,
    pub address: Option<String>,
    pub from: Option<String>,
    pub to: Option<String>,
    pub amount: Option<u128>,
    pub miner_address: Option<String>,
    pub node_id: u32,
    pub mine: Option<bool>,
}

/// One call of the node, with arguments that were found complete.
#[derive(Debug, PartialEq, Eq)]
pub struct CommandLine {
    pub cli_param: CliParam,
}

/// What sending gave: the block that was mined here, or the command that
/// carries the transaction to the central node.
#[derive(Debug, PartialEq, Eq)]
pub enum Sent {
    Mined(Block),
    Relay(Outgoing),
}

/// One line of the printed chain.
#[derive(Debug, PartialEq, Eq)]
pub struct ChainLine {
    pub height: u128,
    pub prev_hash: String,
    pub hash: String,
    pub pow: bool,
}

/// Whether the arguments are complete: sending needs a sender and a
/// receiver.
pub open spec fn complete(param: CliParam) -> bool {
    param.operation == CliOperation::Send ==> param.from.is_some() && param.to.is_some()
}

/// Whether a block's stored nonce wins against the block's own content.
pub open spec fn sealed(block: BlockView) -> bool {
    &&& hex_decoding(block.prev_hash) matches Some(prev)
    &&& block.transactions.len() > 0
    &&& nonce_wins(prev, crate::block::merkle_root_of(block.transactions), block.nonce, DIFFICULTY)
}

/// The transaction that `send` makes before anything is mined or sent, or
/// why it makes none: an argument is missing, an address is none, the
/// sender has no wallet here, or the transfer itself fails.
pub open spec fn send_preparation(
    param: CliParam,
    wallets: Seq<(String, Wallet)>,
    index: Seq<UtxoView>,
    chain_txs: Seq<TransactionView>,
) -> Result<TransactionView, LedgerError> {
    if param.from.is_none() || param.to.is_none() || param.amount.is_none() {
        Err(LedgerError::InvalidArguments)
    } else if !address_is_valid(param.from.unwrap()@) || !address_is_valid(param.to.unwrap()@) {
        Err(LedgerError::DecodeError)
    } else {
        match wallet_under(wallets, param.from.unwrap()@) {
            None => Err(LedgerError::UnknownWallet),
            Some(wallet) => transfer_outcome(
                wallet.pub_key@,
                wallet.priv_key@,
                param.to.unwrap()@,
                param.amount.unwrap(),
                index,
                chain_txs,
            ),
        }
    }
}

impl CliParam {
    /// Whether the arguments are complete for the operation asked for.
    pub fn validate_args(&self) -> (checked: Result<(), LedgerError>)
        ensures
            match checked {
                Ok(_) => complete(*self),
                Err(e) => !complete(*self) && e == LedgerError::InvalidArguments,
            },
    {
        let sending = match self.operation {
            CliOperation::Send => true,
            _ => false,
        };
        if sending && (self.from.is_none() || self.to.is_none()) {
            Err(LedgerError::InvalidArguments)
        } else {
            Ok(())
        }
    }
}

impl CommandLine {
    /// A call with the given arguments, once they are found complete.
    pub fn new(cli_param: CliParam) -> (call: Result<Self, LedgerError>)
        ensures
            match call {
                Ok(c) => complete(cli_param) && c.cli_param == cli_param,
                Err(e) => !complete(cli_param) && e == LedgerError::InvalidArguments,
            },
    {
        match cli_param.validate_args() {
            Err(e) => Err(e),
            Ok(_) => Ok(CommandLine { cli_param }),
        }
    }

    /// Founds a ledger that pays its first reward to the address given, and
    /// builds its index. Fails with `InvalidArguments` without an address,
    /// with `DecodeError` when the address is none, else as founding does.
    pub fn create_chain(&self, exists: bool) -> (made: Result<(Blockchain, UTXOSet), LedgerError>)
        ensures
            match made {
                Ok((ledger, index)) => {
                    &&& self.cli_param.address matches Some(address)
                    &&& address_is_valid(address@)
                    &&& !exists
                    &&& address_owner(address@) matches Some(owner)
                    &&& ledger.wf()
                    &&& ledger.tip().height == 0
                    &&& ledger.blocks@.len() == 1
                    &&& is_mined(
                        ledger.blocks@[0]@,
                        Seq::empty(),
                        seq![crate::transaction::coinbase_view(owner)],
                        0,
                        ledger.blocks@[0].timestamp,
                    )
                    &&& ledger.latest_hash@ == ledger.blocks@[0].hash@
                    &&& index@ == replay(ledger.chain())
                    &&& index.wf()
                },
                Err(e) => match self.cli_param.address {
                    None => e == LedgerError::InvalidArguments,
                    Some(address) => if !address_is_valid(address@) {
                        e == LedgerError::DecodeError
                    } else if exists {
                        e == LedgerError::StoreError
                    } else {
                        match address_owner(address@) {
                            None => e == LedgerError::DecodeError,
                            Some(owner) => crate::block::mining_failure(
                                Seq::empty(),
                                seq![crate::transaction::coinbase_view(owner)],
                            ) == Some(e),
                        }
                    },
                },
            },
    {
        match &self.cli_param.address {
            None => Err(LedgerError::InvalidArguments),
            Some(address) => {
                if !validate_address(address.as_str()) {
                    return Err(LedgerError::DecodeError);
                }
                match Blockchain::init(address.clone(), exists) {
                    Err(e) => Err(e),
                    Ok(ledger) => {
                        let index = UTXOSet::new(&ledger);
                        Ok((ledger, index))
                    },
                }
            },
        }
    }

    /// What the address given owns. Fails with `InvalidArguments` without an
    /// address, with `DecodeError` when the address is none, with `Overflow`
    /// when the sum leaves the range of `u128`.
    pub fn get_balance(&self, utxo_set: &UTXOSet) -> (balance: Result<u128, LedgerError>)
        ensures
            match self.cli_param.address {
                None => balance == Err::<u128, LedgerError>(LedgerError::InvalidArguments),
                Some(address) => if !address_is_valid(address@) {
                    balance == Err::<u128, LedgerError>(LedgerError::DecodeError)
                } else {
                    match address_owner(address@) {
                        None => balance == Err::<u128, LedgerError>(LedgerError::DecodeError),
                        Some(owner) => {
                            let sum = total_amount(owned(utxo_set@, owner, utxo_set@.len()));
                            if sum > u128::MAX {
                                balance == Err::<u128, LedgerError>(LedgerError::Overflow)
                            } else {
                                balance == Ok::<u128, LedgerError>(sum as u128)
                            }
                        },
                    }
                },
            },
    {
        match &self.cli_param.address {
            None => Err(LedgerError::InvalidArguments),
            Some(address) => {
                if !validate_address(address.as_str()) {
                    return Err(LedgerError::DecodeError);
                }
                match decode_address(address.as_str()) {
                    Err(e) => Err(e),
                    Ok(owner) => utxo_set.balance(owner.as_slice()),
                }
            },
        }
    }

    /// Rebuilds the index from the chain.
    pub fn rebuild(&self, blockchain: &Blockchain, utxo_set: &mut UTXOSet)
        ensures
            final(utxo_set)@ == replay(blockchain.chain()),
            final(utxo_set).wf(),
    {
        utxo_set.rebuild(blockchain);
    }

    /// The chain as it is printed, newest block first, each with the answer
    /// of the proof-of-work check.
    pub fn print_chain(&self, blockchain: &Blockchain) -> (lines: Vec<ChainLine>)
        ensures
            lines@.len() == blockchain.chain().len(),
            forall|i: int|
                0 <= i < lines@.len() ==> {
                    let line = #[trigger] lines@[i];
                    let block = blockchain.chain()[i];
                    &&& line.height == block.height
                    &&& line.prev_hash@ == block.prev_hash
                    &&& line.hash@ == block.hash
                    &&& line.pow == sealed(block)
                },
    {
        let blocks = blockchain.get_blocks();
        let mut lines: Vec<ChainLine> = Vec::new();
        let mut i: usize = 0;
        while i < blocks.len()
            invariant
                i <= blocks@.len(),
                block_views(blocks@) == blockchain.chain(),
                lines@.len() == i,
                forall|k: int|
                    0 <= k < i ==> {
                        let line = #[trigger] lines@[k];
                        let block = blockchain.chain()[k];
                        &&& line.height == block.height
                        &&& line.prev_hash@ == block.prev_hash
                        &&& line.hash@ == block.hash
                        &&& line.pow == sealed(block)
                    },
            decreases blocks@.len() - i,
        {
            let block = &blocks[i];
            assert(block_views(blocks@)[i as int] == block@);
            let pow = match ProofOfWork::new(block) {
                Ok(work) => work.validate(),
                Err(_) => false,
            };
            lines.push(
                ChainLine { height: block.height, prev_hash: block.prev_hash.clone(), hash: block.hash.clone(), pow },
            );
            i = i + 1;
        }
        lines
    }

    /// The node that is to be started. Fails with `InvalidArguments` without
    /// a miner's address, with `DecodeError` when that address is none.
    pub fn start_node(&self) -> (server: Result<Server, LedgerError>)
        ensures
            match server {
                Ok(s) => {
                    &&& self.cli_param.miner_address matches Some(miner)
                    &&& address_is_valid(miner@)
                    &&& s.node_id == self.cli_param.node_id
                    &&& s.node_address@ == node_address_of(self.cli_param.node_id)
                    &&& s.miner_address@ == miner@
                    &&& s.blocks_in_transimission@.len() == 0
                },
                Err(e) => match self.cli_param.miner_address {
                    None => e == LedgerError::InvalidArguments,
                    Some(miner) => !address_is_valid(miner@) && e == LedgerError::DecodeError,
                },
            },
    {
        match &self.cli_param.miner_address {
            None => Err(LedgerError::InvalidArguments),
            Some(miner) => {
                if !validate_address(miner.as_str()) {
                    return Err(LedgerError::DecodeError);
                }
                Ok(Server::new(self.cli_param.node_id, miner.clone()))
            },
        }
    }

    /// Makes the transfer that the arguments describe, from a wallet of this
    /// node. With `mine` set the transfer is mined into a block here and the
    /// index brought up to date; else it leaves for the central node. On
    /// failure nothing is changed.
    pub fn send(&self, wallets: &Wallets, blockchain: &mut Blockchain, utxo_set: &mut UTXOSet) -> (sent: Result<
        Sent,
        LedgerError,
    >)
        requires
            old(blockchain).wf(),
        ensures
            final(blockchain).wf(),
            ({
                let prepared = send_preparation(
                    self.cli_param,
                    wallets.wallets@,
                    old(utxo_set)@,
                    old(blockchain).transactions(),
                );
                match sent {
                    Ok(Sent::Mined(block)) => {
                        &&& self.cli_param.mine == Some(true)
                        &&& prepared matches Ok(tx)
                        &&& is_mined(
                            block@,
                            old(blockchain).tip().hash,
                            seq![tx],
                            (old(blockchain).tip().height + 1) as u128,
                            block.timestamp,
                        )
                        &&& block.height == old(blockchain).tip().height + 1
                        &&& final(blockchain).latest_hash@ == block@.hash
                        &&& final(blockchain).block_views() == crate::blockchain::stored(
                            old(blockchain).block_views(),
                            block@,
                        )
                        &&& final(utxo_set)@ == apply_block(old(utxo_set)@, block@)
                        &&& old(utxo_set).wf() ==> final(utxo_set).wf()
                        &&& old(utxo_set)@ == replay(old(blockchain).chain()) && crate::blockchain::is_fresh(
                            old(blockchain).block_views(),
                            block@.hash,
                        ) ==> final(utxo_set)@ == replay(final(blockchain).chain())
                    },
                    Ok(Sent::Relay(out)) => {
                        &&& self.cli_param.mine != Some(true)
                        &&& prepared matches Ok(tx)
                        &&& out.addr@ == central_node()
                        &&& out.message@ == (MessageView::SendTx { node_addr: central_node(), tx })
                        &&& *final(blockchain) == *old(blockchain)
                        &&& *final(utxo_set) == *old(utxo_set)
                    },
                    Err(e) => {
                        &&& *final(blockchain) == *old(blockchain)
                        &&& *final(utxo_set) == *old(utxo_set)
                        &&& match prepared {
                            Err(cause) => e == cause,
                            Ok(tx) => self.cli_param.mine == Some(true) && mine_failure(
                                old(blockchain).tip(),
                                old(blockchain).transactions(),
                                seq![tx],
                            ) == Some(e),
                        }
                    },
                }
            }),
    {
        let (from, to, amount) = match (&self.cli_param.from, &self.cli_param.to, self.cli_param.amount) {
            (Some(from), Some(to), Some(amount)) => (from, to, amount),
            _ => {
                return Err(LedgerError::InvalidArguments);
            },
        };
        if !validate_address(from.as_str()) || !validate_address(to.as_str()) {
            return Err(LedgerError::DecodeError);
        }
        let wallet = match wallets.get_wallet(from.as_str()) {
            None => {
                return Err(LedgerError::UnknownWallet);
            },
            Some(wallet) => wallet,
        };
        let tx = match Transaction::new(wallet, to.as_str(), amount, utxo_set, blockchain) {
            Err(e) => {
                return Err(e);
            },
            Ok(tx) => tx,
        };
        let mine = match self.cli_param.mine {
            Some(flag) => flag,
            None => false,
        };
        if mine {
            let ghost made = tx@;
            let transactions: Vec<Transaction> = vec![tx];
            assert(tx_views(transactions@) =~= seq![made]);
            match blockchain.mine_block(transactions) {
                Err(e) => Err(e),
                Ok(block) => {
                    proof {
                        crate::utxo::law_rebuild_after_update(old(blockchain).chain(), block@);
                    }
                    utxo_set.update(&block);
                    Ok(Sent::Mined(block))
                },
            }
        } else {
            let central = "localhost:3000".to_owned();
            let message = Message::SendTx(SendTxCmd::new(central.clone(), tx));
            Ok(Sent::Relay(Outgoing { addr: central, message }))
        }
    }
}

} // verus!
