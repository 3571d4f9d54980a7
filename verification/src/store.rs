//! How the ledger lies in a key-value store: each block under its hash, the
//! hash of the tip under `lsh`, the unspent outputs of each transaction
//! under `utxo-` and the transaction's id.

use crate::block::{block_encoding, put_block, read_block, take_block, Block};
use crate::blockchain::Blockchain;
use crate::hexcode::{hex_decode, hex_decoding, hex_encode, hex_encoding};
use crate::tx::{
    placed_outputs_encoding, put_placed_outputs, read_placed_outputs, take_placed_outputs, TxOutputs,
};
use vstd::prelude::*;

verus! {

/// The key of the pointer to the tip.
pub open spec fn pointer_key() -> Seq<char> {
    "lsh"@
}

/// What every key of the index starts with.
pub open spec fn utxo_prefix() -> Seq<char> {
    "utxo-"@
}

/// The key of the record of a transaction's unspent outputs.
pub open spec fn utxo_key_of(tx_id: Seq<u8>) -> Seq<char> {
    utxo_prefix() + hex_encoding(tx_id)
}

/// The key of the pointer to the tip.
pub fn latest_hash_key() -> (key: String)
    ensures
        key@ == pointer_key(),
{
    "lsh".to_owned()
}

/// The key of the record of a transaction's unspent outputs.
pub fn utxo_key(tx_id: &[u8]) -> (key: String)
    ensures
        key@ == utxo_key_of(tx_id@),
{
    let id = hex_encode(tx_id);
    "utxo-".to_owned().concat(id.as_str())
}

/// The key of a block: its hash.
pub fn block_key(hash: &String) -> (key: String)
    ensures
        key@ == hash@,
{
    hash.clone()
}

/// What is kept under the pointer's key: the bytes of the tip's hash.
/// `None` when the hash is no hexadecimal text.
pub fn pointer_value(blockchain: &Blockchain) -> (value: Option<Vec<u8>>)
    ensures
        match value {
            Some(bytes) => hex_decoding(blockchain.latest_hash@) == Some(bytes@),
            None => hex_decoding(blockchain.latest_hash@).is_none(),
        },
{
    hex_decode(blockchain.latest_hash.as_str())
}

/// The hash of the tip, from what is kept under the pointer's key.
pub fn pointer_hash(value: &[u8]) -> (hash: String)
    ensures
        hash@ == hex_encoding(value@),
{
    hex_encode(value)
}

/// What is kept under a block's key: the block in its encoding.
pub fn block_value(block: &Block) -> (value: Vec<u8>)
    ensures
        value@ == block_encoding(block@),
{
    let mut value: Vec<u8> = Vec::new();
    put_block(&mut value, block);
    assert(value@ =~= block_encoding(block@));
    value
}

/// The block that a stored value holds; `None` when it holds none.
pub fn stored_block(value: &[u8]) -> (block: Option<Block>)
    ensures
        match block {
            Some(b) => read_block(value@, 0) matches Some((found, next)) && found == b@,
            None => read_block(value@, 0).is_none(),
        },
{
    match take_block(value, 0) {
        Some((block, _)) => Some(block),
        None => None,
    }
}

/// What is kept under the key of a transaction's unspent outputs: the
/// outputs with their positions, as a list in its encoding.
pub fn outputs_value(record: &TxOutputs) -> (value: Vec<u8>)
    ensures
        value@ == placed_outputs_encoding(record@),
{
    let mut value: Vec<u8> = Vec::new();
    put_placed_outputs(&mut value, &record.outputs);
    assert(value@ =~= placed_outputs_encoding(record@));
    value
}

/// The unspent outputs that a stored value holds; `None` when it holds
/// none.
pub fn stored_outputs(value: &[u8]) -> (record: Option<TxOutputs>)
    ensures
        match record {
            Some(r) => read_placed_outputs(value@, 0) matches Some((found, next)) && found == r@,
            None => read_placed_outputs(value@, 0).is_none(),
        },
{
    match take_placed_outputs(value, 0) {
        Some((outputs, _)) => Some(TxOutputs { outputs }),
        None => None,
    }
}

/// What is stored of a block reads back as the block.
pub proof fn law_stored_block_reads_back(block: crate::block::BlockView)
    requires
        crate::block::block_fits(block),
    ensures
        read_block(block_encoding(block), 0) == Some((block, block_encoding(block).len())),
{
    let bytes = block_encoding(block);
    assert(bytes.skip(0) =~= bytes + Seq::<u8>::empty());
    crate::block::lemma_block_reads_back(bytes, 0, block, Seq::empty());
}

/// What is stored of a transaction's unspent outputs reads back as those
/// outputs.
pub proof fn law_stored_outputs_read_back(record: Seq<(usize, crate::tx::TxOutputView)>)
    requires
        crate::tx::placed_outputs_fit(record),
    ensures
        read_placed_outputs(placed_outputs_encoding(record), 0) == Some(
            (record, placed_outputs_encoding(record).len()),
        ),
{
    let bytes = placed_outputs_encoding(record);
    assert(bytes.skip(0) =~= bytes + Seq::<u8>::empty());
    crate::tx::lemma_placed_outputs_read_back(bytes, 0, record, Seq::empty());
}


} // verus!
