//! Blocks: a list of transactions chained to a predecessor by hash and sealed
//! by proof of work.

use crate::digest::sha256;
use crate::error::LedgerError;
use crate::hexcode::{hex_decoding, hex_encoding};
use crate::merkle::{merkle_root, MerkleTree};
use crate::octets::byte_rows;
use crate::proof_of_work::{exhausted, first_win, preimage, ProofOfWork, DIFFICULTY};
use crate::transaction::{
    encode_transaction, lemma_transactions_read_back, put_transactions, read_transactions, take_transactions,
    transaction_encoding, transactions_encoding, transactions_fit, tx_views, Transaction, TransactionView,
};
use crate::wire::{
    lemma_concat_assoc, lemma_skip_past, lemma_text_reads_back, lemma_u128_reads_back, lemma_u32_reads_back,
    put_text, put_u128, put_u32, read_text, read_u128, read_u32, take_text, take_u128, take_u32, text_bytes,
    text_fits, u128_bytes, u32_bytes,
};
use vstd::prelude::*;

verus! {

/// One link of the chain.
#[derive(Debug, PartialEq, Eq)]
pub struct Block {
    pub prev_hash: String,
    pub transactions: Vec<Transaction>,
    pub hash: String,
    pub nonce: u32,
    pub height: u128,
    pub timestamp: u128,
}

/// What a block is, as mathematics.
#[verifier::ext_equal]
pub struct BlockView {
    pub prev_hash: Seq<char>,
    pub transactions: Seq<TransactionView>,
    pub hash: Seq<char>,
    pub nonce: u32,
    pub height: u128,
    pub timestamp: u128,
}

impl View for Block {
    type V = BlockView;

    open spec fn view(&self) -> BlockView {
        BlockView {
            prev_hash: self.prev_hash@,
            transactions: tx_views(self.transactions@),
            hash: self.hash@,
            nonce: self.nonce,
            height: self.height,
            timestamp: self.timestamp,
        }
    }
}

/// The views of a list of blocks.
pub open spec fn block_views(blocks: Seq<Block>) -> Seq<BlockView> {
    Seq::new(blocks.len(), |i: int| blocks[i]@)
}

/// A block as it is encoded: its fields in order.
#[verifier::opaque]
pub open spec fn block_encoding(block: BlockView) -> Seq<u8> {
    text_bytes(block.prev_hash) + transactions_encoding(block.transactions) + text_bytes(block.hash) + u32_bytes(
        block.nonce,
    ) + u128_bytes(block.height) + u128_bytes(block.timestamp)
}

/// The block that stands at `at`, with the position after it.
#[verifier::opaque]
pub open spec fn read_block(bytes: Seq<u8>, at: nat) -> Option<(BlockView, nat)> {
    match read_text(bytes, at) {
        None => None,
        Some((prev_hash, a)) => match read_transactions(bytes, a) {
            None => None,
            Some((transactions, b)) => match read_text(bytes, b) {
                None => None,
                Some((hash, c)) => match read_u32(bytes, c) {
                    None => None,
                    Some((nonce, d)) => match read_u128(bytes, d) {
                        None => None,
                        Some((height, e)) => match read_u128(bytes, e) {
                            None => None,
                            Some((timestamp, f)) => Some(
                                (BlockView { prev_hash, transactions, hash, nonce, height, timestamp }, f),
                            ),
                        },
                    },
                },
            },
        },
    }
}

/// Appends the encoding of a block.
pub fn put_block(out: &mut Vec<u8>, block: &Block)
    ensures
        final(out)@ == old(out)@ + block_encoding(block@),
{
    proof {
        reveal(block_encoding);
    }
    put_text(out, &block.prev_hash);
    put_transactions(out, &block.transactions);
    put_text(out, &block.hash);
    put_u32(out, block.nonce);
    put_u128(out, block.height);
    put_u128(out, block.timestamp);
    proof {
        let before = old(out)@;
        let a = text_bytes(block.prev_hash@);
        let b = transactions_encoding(block@.transactions);
        let c = text_bytes(block.hash@);
        let d = u32_bytes(block.nonce);
        let e = u128_bytes(block.height);
        let f = u128_bytes(block.timestamp);
        lemma_concat_assoc(before, a, b);
        lemma_concat_assoc(before, a + b, c);
        lemma_concat_assoc(before, a + b + c, d);
        lemma_concat_assoc(before, a + b + c + d, e);
        lemma_concat_assoc(before, a + b + c + d + e, f);
    }
}

/// Reads the block that stands at `at`.
pub fn take_block(src: &[u8], at: usize) -> (found: Option<(Block, usize)>)
    ensures
        match found {
            Some((block, next)) => read_block(src@, at as nat) == Some((block@, next as nat)) && at <= next
                <= src@.len(),
            None => read_block(src@, at as nat).is_none(),
        },
{
    proof {
        reveal(read_block);
    }
    let (prev_hash, a) = match take_text(src, at) {
        None => {
            return None;
        },
        Some(read) => read,
    };
    let (transactions, b) = match take_transactions(src, a) {
        None => {
            return None;
        },
        Some(read) => read,
    };
    let (hash, c) = match take_text(src, b) {
        None => {
            return None;
        },
        Some(read) => read,
    };
    let (nonce, d) = match take_u32(src, c) {
        None => {
            return None;
        },
        Some(read) => read,
    };
    let (height, e) = match take_u128(src, d) {
        None => {
            return None;
        },
        Some(read) => read,
    };
    let (timestamp, f) = match take_u128(src, e) {
        None => {
            return None;
        },
        Some(read) => read,
    };
    Some((Block { prev_hash, transactions, hash, nonce, height, timestamp }, f))
}

/// The encodings of a list of transactions, in order.
pub open spec fn encodings(transactions: Seq<TransactionView>) -> Seq<Seq<u8>> {
    Seq::new(transactions.len(), |i: int| transaction_encoding(transactions[i]))
}

/// The Merkle root over a list of transactions.
pub open spec fn merkle_root_of(transactions: Seq<TransactionView>) -> Seq<u8> {
    merkle_root(encodings(transactions))
}

/// Whether `block` is what mining gives for the predecessor hash
/// `prev_hash`, the given transactions, height and time: its nonce is the
/// first that wins and its hash is the digest for that nonce.
pub open spec fn is_mined(
    block: BlockView,
    prev_hash: Seq<char>,
    transactions: Seq<TransactionView>,
    height: u128,
    timestamp: u128,
) -> bool {
    &&& hex_decoding(prev_hash) matches Some(prev)
    &&& transactions.len() > 0
    &&& first_win(prev, merkle_root_of(transactions), block.nonce, DIFFICULTY)
    &&& block.hash.len() == 64
    &&& block == BlockView {
        prev_hash,
        transactions,
        hash: hex_encoding(sha256(preimage(prev, merkle_root_of(transactions), block.nonce, DIFFICULTY))),
        nonce: block.nonce,
        height,
        timestamp,
    }
}

/// The hash of a mined block is hexadecimal text for the digest that won,
/// so the block can be mined upon in its turn.
pub proof fn law_mined_hash_is_hex(
    block: BlockView,
    prev_hash: Seq<char>,
    transactions: Seq<TransactionView>,
    height: u128,
    timestamp: u128,
)
    requires
        is_mined(block, prev_hash, transactions, height, timestamp),
    ensures
        hex_decoding(block.hash) == Some(
            sha256(
                preimage(hex_decoding(prev_hash).unwrap(), merkle_root_of(transactions), block.nonce, DIFFICULTY),
            ),
        ),
{
    crate::hexcode::lemma_hex_round_trip(
        sha256(preimage(hex_decoding(prev_hash).unwrap(), merkle_root_of(transactions), block.nonce, DIFFICULTY)),
    );
}

/// Why mining fails, if it does: the predecessor's hash is no hexadecimal
/// text, there is no transaction, or no nonce wins, asked in that order.
pub open spec fn mining_failure(prev_hash: Seq<char>, transactions: Seq<TransactionView>) -> Option<
    LedgerError,
> {
    match hex_decoding(prev_hash) {
        None => Some(LedgerError::DecodeError),
        Some(prev) => if transactions.len() == 0 {
            Some(LedgerError::EmptyBlock)
        } else if exhausted(prev, merkle_root_of(transactions), DIFFICULTY) {
            Some(LedgerError::ConsensusExhausted)
        } else {
            None
        },
    }
}

/// Calls `SystemTime::now` and counts the milliseconds since the Unix epoch.
/// Nothing is promised of the result: it is whatever the clock says.
#[verifier::external_body]
pub(crate) fn now_millis() -> u128 {
    std::time::SystemTime::now().duration_since(std::time::UNIX_EPOCH).map_or(0, |elapsed| elapsed.as_millis())
}

impl Clone for Block {
    fn clone(&self) -> (copy: Self)
        ensures
            copy@ == self@,
    {
        let mut transactions: Vec<Transaction> = Vec::new();
        let mut i: usize = 0;
        while i < self.transactions.len()
            invariant
                i <= self.transactions@.len(),
                transactions@.len() == i,
                forall|k: int| 0 <= k < i ==> (#[trigger] transactions@[k])@ == self.transactions@[k]@,
            decreases self.transactions@.len() - i,
        {
            transactions.push(self.transactions[i].clone());
            i = i + 1;
        }
        let copy = Block {
            prev_hash: self.prev_hash.clone(),
            transactions,
            hash: self.hash.clone(),
            nonce: self.nonce,
            height: self.height,
            timestamp: self.timestamp,
        };
        assert(copy@.transactions =~= self@.transactions);
        copy
    }
}

impl Block {
    /// The first block: no predecessor, height 0, the coinbase transaction
    /// alone, stamped with the current time.
    pub fn genesis(coinbase: Transaction) -> (block: Result<Self, LedgerError>)
        ensures
            match block {
                Ok(b) => is_mined(b@, Seq::empty(), seq![coinbase@], 0, b.timestamp) && b.height == 0,
                Err(e) => mining_failure(Seq::empty(), seq![coinbase@]) == Some(e),
            },
    {
        let ghost only = coinbase@;
        let transactions: Vec<Transaction> = vec![coinbase];
        assert(tx_views(transactions@) =~= seq![only]);
        Block::create_block(String::new(), transactions, 0)
    }

    /// Mines a block on `prev_hash` and stamps it with the current time.
    pub fn create_block(prev_hash: String, transactions: Vec<Transaction>, height: u128) -> (block: Result<
        Self,
        LedgerError,
    >)
        ensures
            match block {
                Ok(b) => is_mined(b@, prev_hash@, tx_views(transactions@), height, b.timestamp),
                Err(e) => mining_failure(prev_hash@, tx_views(transactions@)) == Some(e),
            },
    {
        let timestamp: u128 = now_millis();
        Block::create_block_at(prev_hash, transactions, height, timestamp)
    }

    /// Mines a block on `prev_hash` with a given time stamp: the nonce is the
    /// first that wins, the hash the digest for it.
    pub fn create_block_at(
        prev_hash: String,
        transactions: Vec<Transaction>,
        height: u128,
        timestamp: u128,
    ) -> (block: Result<Self, LedgerError>)
        ensures
            match block {
                Ok(b) => is_mined(b@, prev_hash@, tx_views(transactions@), height, timestamp),
                Err(e) => mining_failure(prev_hash@, tx_views(transactions@)) == Some(e),
            },
    {
        let mut block = Block { prev_hash, transactions, hash: String::new(), nonce: 0, height, timestamp };
        match ProofOfWork::new(&block) {
            Err(e) => Err(e),
            Ok(work) => match work.run() {
                None => Err(LedgerError::ConsensusExhausted),
                Some((nonce, hash)) => {
                    block.nonce = nonce;
                    block.hash = hash;
                    Ok(block)
                },
            },
        }
    }

    /// The Merkle root over the block's transactions, each in its encoding.
    /// Fails with `EmptyBlock` when there is none.
    pub fn hash_transactions(&self) -> (root: Result<Vec<u8>, LedgerError>)
        ensures
            match root {
                Ok(r) => self.transactions@.len() > 0 && r@ == merkle_root_of(tx_views(self.transactions@)),
                Err(e) => self.transactions@.len() == 0 && e == LedgerError::EmptyBlock,
            },
    {
        let mut rows: Vec<Vec<u8>> = Vec::new();
        let mut i: usize = 0;
        while i < self.transactions.len()
            invariant
                i <= self.transactions@.len(),
                rows@.len() == i,
                forall|k: int|
                    0 <= k < i ==> (#[trigger] rows@[k])@ == transaction_encoding(self.transactions@[k]@),
            decreases self.transactions@.len() - i,
        {
            rows.push(encode_transaction(&self.transactions[i]));
            i = i + 1;
        }
        assert(byte_rows(rows@) =~= encodings(tx_views(self.transactions@)));
        match MerkleTree::new(rows) {
            Ok(tree) => Ok(tree.root.data),
            Err(e) => Err(e),
        }
    }
}

/// Whether a block can be encoded: its texts and its transactions fit.
pub open spec fn block_fits(block: BlockView) -> bool {
    text_fits(block.prev_hash) && transactions_fit(block.transactions) && text_fits(block.hash)
}

/// An encoded block reads back, wherever it stands.
pub proof fn lemma_block_reads_back(bytes: Seq<u8>, at: nat, value: BlockView, rest: Seq<u8>)
    requires
        at <= bytes.len(),
        bytes.skip(at as int) == block_encoding(value) + rest,
        block_fits(value),
    ensures
        read_block(bytes, at) == Some((value, (at + block_encoding(value).len()) as nat)),
{
    reveal(block_encoding);
    reveal(read_block);
    let a = text_bytes(value.prev_hash);
    let b = transactions_encoding(value.transactions);
    let c = text_bytes(value.hash);
    let d = u32_bytes(value.nonce);
    let e = u128_bytes(value.height);
    let f = u128_bytes(value.timestamp);
    let past_e = f + rest;
    let past_d = e + past_e;
    let past_c = d + past_d;
    let past_b = c + past_c;
    let past_a = b + past_b;
    let at_b = (at + a.len()) as nat;
    let at_c = (at_b + b.len()) as nat;
    let at_d = (at_c + c.len()) as nat;
    let at_e = (at_d + d.len()) as nat;
    let at_f = (at_e + e.len()) as nat;
    lemma_concat_assoc(a + b + c + d + e, f, rest);
    lemma_concat_assoc(a + b + c + d, e, past_e);
    lemma_concat_assoc(a + b + c, d, past_d);
    lemma_concat_assoc(a + b, c, past_c);
    lemma_concat_assoc(a, b, past_b);
    lemma_text_reads_back(bytes, at, value.prev_hash, past_a);
    lemma_skip_past(bytes, at, a, past_a);
    lemma_transactions_read_back(bytes, at_b, value.transactions, past_b);
    lemma_skip_past(bytes, at_b, b, past_b);
    lemma_text_reads_back(bytes, at_c, value.hash, past_c);
    lemma_skip_past(bytes, at_c, c, past_c);
    lemma_u32_reads_back(bytes, at_d, value.nonce, past_d);
    lemma_skip_past(bytes, at_d, d, past_d);
    lemma_u128_reads_back(bytes, at_e, value.height, past_e);
    lemma_skip_past(bytes, at_e, e, past_e);
    lemma_u128_reads_back(bytes, at_f, value.timestamp, rest);
    lemma_skip_past(bytes, at_f, f, rest);
}


/// The encoding tells blocks apart: two blocks with the same bytes are the
/// same block.
pub proof fn law_encoding_tells_blocks_apart(first: BlockView, second: BlockView)
    requires
        block_fits(first),
        block_fits(second),
        block_encoding(first) == block_encoding(second),
    ensures
        first == second,
{
    let bytes = block_encoding(first);
    assert(bytes.skip(0) =~= bytes + Seq::<u8>::empty());
    lemma_block_reads_back(bytes, 0, first, Seq::empty());
    lemma_block_reads_back(bytes, 0, second, Seq::empty());
}

} // verus!
