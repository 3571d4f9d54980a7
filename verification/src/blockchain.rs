//! The ledger: the blocks it holds, the pointer to its tip, and the walks
//! from the tip back to the first block.

use crate::block::{block_views, is_mined, mining_failure, now_millis, Block, BlockView};
use crate::error::LedgerError;
use crate::hexcode::{hex_encode, hex_encoding};
use crate::transaction::{prior_of, sign_outcome, tx_views, verify_outcome, Transaction, TransactionView};
use crate::utxo::{replay, utxo_views, UTXOSet, Utxo, UtxoView};
use vstd::prelude::*;

verus! {

/// The first of `blocks` with the given hash.
pub open spec fn lookup(blocks: Seq<BlockView>, hash: Seq<char>) -> Option<BlockView>
    decreases blocks.len(),
{
    if blocks.len() == 0 {
        None
    } else if blocks[0].hash == hash {
        Some(blocks[0])
    } else {
        lookup(blocks.drop_first(), hash)
    }
}

/// The blocks met by following predecessor links from `from`, newest first.
/// The walk ends at the empty hash, at a hash that no block has, or after
/// `fuel` blocks.
pub open spec fn walk(blocks: Seq<BlockView>, from: Seq<char>, fuel: nat) -> Seq<BlockView>
    decreases fuel,
{
    if fuel == 0 || from.len() == 0 {
        Seq::empty()
    } else {
        match lookup(blocks, from) {
            None => Seq::empty(),
            Some(block) => seq![block] + walk(blocks, block.prev_hash, (fuel - 1) as nat),
        }
    }
}

/// The transactions of a run of blocks, block after block.
pub open spec fn transactions_of(chain: Seq<BlockView>) -> Seq<TransactionView>
    decreases chain.len(),
{
    if chain.len() == 0 {
        Seq::empty()
    } else {
        chain.first().transactions + transactions_of(chain.drop_first())
    }
}

/// Why the first `n` of `txs` cannot all go into a block, if they cannot:
/// the failure of the first that does not verify against `prev_txs`.
pub open spec fn first_invalid(txs: Seq<TransactionView>, prev_txs: Seq<TransactionView>, n: nat) -> Option<
    LedgerError,
>
    decreases n,
{
    if n == 0 {
        None
    } else {
        match first_invalid(txs, prev_txs, (n - 1) as nat) {
            Some(e) => Some(e),
            None => match verify_outcome(txs[n - 1], prev_txs) {
                Err(e) => Some(e),
                Ok(valid) => if valid {
                    None
                } else {
                    Some(LedgerError::InvalidSignature)
                },
            },
        }
    }
}

/// Why mining `txs` on top of `tip` fails, if it does: a transaction that
/// does not verify, a height out of range, or the mining itself, asked in
/// that order.
pub open spec fn mine_failure(tip: BlockView, chain_txs: Seq<TransactionView>, txs: Seq<TransactionView>) -> Option<
    LedgerError,
> {
    match first_invalid(txs, chain_txs, txs.len()) {
        Some(e) => Some(e),
        None => if tip.height == u128::MAX {
            Some(LedgerError::Overflow)
        } else {
            mining_failure(tip.hash, txs)
        },
    }
}

/// The blocks after one is stored under its hash: it takes the place of the
/// first block with that hash, or comes last when there is none.
pub open spec fn stored(blocks: Seq<BlockView>, block: BlockView) -> Seq<BlockView>
    decreases blocks.len(),
{
    if blocks.len() == 0 {
        seq![block]
    } else if blocks[0].hash == block.hash {
        seq![block] + blocks.drop_first()
    } else {
        seq![blocks[0]] + stored(blocks.drop_first(), block)
    }
}

/// Whether no two blocks have the same hash.
pub open spec fn hashes_distinct(blocks: Seq<BlockView>) -> bool {
    forall|i: int, j: int|
        0 <= i < j < blocks.len() ==> (#[trigger] blocks[i]).hash != (#[trigger] blocks[j]).hash
}

/// Whether no block has `hash` as its own hash or as its predecessor's.
pub open spec fn is_fresh(blocks: Seq<BlockView>, hash: Seq<char>) -> bool {
    forall|i: int| 0 <= i < blocks.len() ==> (#[trigger] blocks[i]).hash != hash && blocks[i].prev_hash != hash
}

/// The ledger: every block it was given or has mined, and the hash of the
/// block that is its tip.
#[derive(Debug, PartialEq, Eq)]
pub struct Blockchain {
    pub latest_hash: String,
    pub blocks: Vec<Block>,
}

/// A walk over a ledger from its tip towards its first block.
pub struct Iterator<'a> {
    pub blockchain: &'a Blockchain,
    pub current_hash: String,
    pub remaining: usize,
}

impl<'a> Iterator<'a> {
    /// The blocks the walk has yet to give, newest first.
    pub open spec fn rest(&self) -> Seq<BlockView> {
        walk(self.blockchain.block_views(), self.current_hash@, self.remaining as nat)
    }

    /// The next block of the walk, or `None` when the walk is over.
    pub fn next(&mut self) -> (block: Option<Block>)
        ensures
            final(self).blockchain == old(self).blockchain,
            match block {
                Some(b) => old(self).rest().len() > 0 && b@ == old(self).rest()[0] && final(self).rest() == old(
                    self,
                ).rest().drop_first(),
                None => old(self).rest().len() == 0 && *final(self) == *old(self),
            },
    {
        if self.remaining == 0 || self.current_hash.as_str().is_empty() {
            return None;
        }
        match self.blockchain.find_block(&self.current_hash) {
            None => None,
            Some(found) => {
                let block = found.clone();
                let ghost before = self.rest();
                self.current_hash = block.prev_hash.clone();
                self.remaining = self.remaining - 1;
                assert(before.drop_first() =~= self.rest());
                Some(block)
            },
        }
    }
}

impl Blockchain {
    /// The views of the blocks held.
    pub open spec fn block_views(&self) -> Seq<BlockView> {
        block_views(self.blocks@)
    }

    /// The chain: the blocks from the tip back, newest first.
    pub open spec fn chain(&self) -> Seq<BlockView> {
        walk(self.block_views(), self.latest_hash@, self.blocks@.len())
    }

    /// The block at the tip.
    pub open spec fn tip(&self) -> BlockView {
        lookup(self.block_views(), self.latest_hash@).unwrap()
    }

    /// A ledger is well formed when it holds no two blocks under one hash
    /// and its pointer names a block it holds.
    pub open spec fn wf(&self) -> bool {
        &&& hashes_distinct(self.block_views())
        &&& lookup(self.block_views(), self.latest_hash@).is_some()
    }

    /// Whether the ledger holds no two blocks under one hash.
    pub fn no_hash_twice(&self) -> (ok: bool)
        ensures
            ok == hashes_distinct(self.block_views()),
    {
        let ghost all = self.block_views();
        let mut j: usize = 0;
        while j < self.blocks.len()
            invariant
                j <= self.blocks@.len(),
                all == self.block_views(),
                forall|a: int, b: int| 0 <= a < b < j ==> (#[trigger] all[a]).hash != (#[trigger] all[b]).hash,
            decreases self.blocks@.len() - j,
        {
            let mut i: usize = 0;
            while i < j
                invariant
                    i <= j < self.blocks@.len(),
                    all == self.block_views(),
                    forall|a: int| 0 <= a < i ==> (#[trigger] all[a]).hash != all[j as int].hash,
                decreases j - i,
            {
                assert(all[i as int] == self.blocks@[i as int]@);
                assert(all[j as int] == self.blocks@[j as int]@);
                if self.blocks[i].hash == self.blocks[j].hash {
                    return false;
                }
                i = i + 1;
            }
            j = j + 1;
        }
        true
    }

    /// The block with the given hash, if the ledger holds one.
    pub fn find_block(&self, hash: &String) -> (found: Option<&Block>)
        ensures
            match found {
                Some(block) => lookup(self.block_views(), hash@) == Some(block@),
                None => lookup(self.block_views(), hash@).is_none(),
            },
    {
        let ghost all = self.block_views();
        assert(all.skip(0) =~= all);
        let mut i: usize = 0;
        while i < self.blocks.len()
            invariant
                i <= self.blocks@.len(),
                all == self.block_views(),
                lookup(all, hash@) == lookup(all.skip(i as int), hash@),
            decreases self.blocks@.len() - i,
        {
            assert(all.skip(i as int)[0] == self.blocks@[i as int]@);
            assert(all.skip(i as int).drop_first() =~= all.skip(i + 1));
            if self.blocks[i].hash == *hash {
                return Some(&self.blocks[i]);
            }
            i = i + 1;
        }
        None
    }

    /// Opens the ledger that was stored: its pointer and its blocks. Fails
    /// with `StoreError` when nothing was stored, when the pointer names no
    /// stored block, or when two stored blocks have one hash.
    pub fn continue_chain(latest_hash: Option<String>, blocks: Vec<Block>) -> (ledger: Result<Self, LedgerError>)
        ensures
            match ledger {
                Ok(l) => latest_hash == Some(l.latest_hash) && l.blocks == blocks && l.wf(),
                Err(e) => e == LedgerError::StoreError && (latest_hash matches Some(hash) ==> lookup(
                    block_views(blocks@),
                    hash@,
                ).is_none() || !hashes_distinct(block_views(blocks@))),
            },
    {
        match latest_hash {
            None => Err(LedgerError::StoreError),
            Some(hash) => {
                let ledger = Blockchain { latest_hash: hash, blocks };
                if ledger.find_block(&ledger.latest_hash).is_some() && ledger.no_hash_twice() {
                    Ok(ledger)
                } else {
                    Err(LedgerError::StoreError)
                }
            },
        }
    }

    /// Founds a ledger: a genesis block that pays the reward to `to`, and
    /// the pointer on it. Fails with `StoreError` when a ledger exists
    /// already, else as the coinbase transaction or the mining does.
    pub fn init(to: String, exists: bool) -> (ledger: Result<Self, LedgerError>)
        ensures
            match ledger {
                Ok(l) => {
                    &&& !exists
                    &&& crate::address::address_owner(to@) matches Some(owner)
                    &&& l.blocks@.len() == 1
                    &&& is_mined(
                        l.blocks@[0]@,
                        Seq::empty(),
                        seq![crate::transaction::coinbase_view(owner)],
                        0,
                        l.blocks@[0].timestamp,
                    )
                    &&& l.latest_hash@ == l.blocks@[0].hash@
                    &&& l.wf()
                    &&& l.tip().height == 0
                },
                Err(e) => if exists {
                    e == LedgerError::StoreError
                } else {
                    match crate::address::address_owner(to@) {
                        None => e == LedgerError::DecodeError,
                        Some(owner) => mining_failure(
                            Seq::empty(),
                            seq![crate::transaction::coinbase_view(owner)],
                        ) == Some(e),
                    }
                },
            },
    {
        if exists {
            return Err(LedgerError::StoreError);
        }
        match Transaction::coinbase_tx(to) {
            Err(e) => Err(e),
            Ok(coinbase) => match Block::genesis(coinbase) {
                Err(e) => Err(e),
                Ok(genesis) => {
                    let latest_hash = genesis.hash.clone();
                    let ledger = Blockchain { latest_hash, blocks: vec![genesis] };
                    assert(ledger.block_views() =~= seq![genesis@]);
                    Ok(ledger)
                },
            },
        }
    }

    /// Takes a block from outside. A block whose hash the ledger holds
    /// already changes nothing. Any other is stored, and becomes the tip
    /// when it stands higher than the tip does. Nothing else of the block is
    /// checked.
    pub fn add_block(&mut self, block: Block)
        requires
            old(self).wf(),
        ensures
            final(self).wf(),
            lookup(old(self).block_views(), block@.hash).is_some() ==> *final(self) == *old(self),
            lookup(old(self).block_views(), block@.hash).is_none() ==> {
                &&& final(self).blocks@ == old(self).blocks@.push(block)
                &&& final(self).latest_hash@ == if block.height > old(self).tip().height {
                    block@.hash
                } else {
                    old(self).latest_hash@
                }
                &&& final(self).tip() == if block.height > old(self).tip().height {
                    block@
                } else {
                    old(self).tip()
                }
            },
            final(self).tip().height >= old(self).tip().height,
            lookup(final(self).block_views(), block@.hash).is_some(),
            block.height > old(self).tip().height && block@.prev_hash == old(self).latest_hash@ && block@.hash.len()
                > 0 && is_fresh(old(self).block_views(), block@.hash) ==> final(self).chain() == seq![block@] + old(
                self,
            ).chain(),
    {
        if self.find_block(&block.hash).is_some() {
            proof {
                if is_fresh(self.block_views(), block@.hash) {
                    lemma_lookup_absent(self.block_views(), block@.hash);
                }
            }
            return ;
        }
        let tip_height: u128 = match self.find_block(&self.latest_hash) {
            Some(tip) => tip.height,
            None => 0,
        };
        let ghost before = self.block_views();
        let ghost added = block@;
        let advance = block.height > tip_height;
        let hash = block.hash.clone();
        self.blocks.push(block);
        proof {
            assert(self.block_views() =~= before.push(added));
            lemma_lookup_push(before, added, old(self).latest_hash@);
            lemma_lookup_push(before, added, added.hash);
            lemma_lookup_none(before, added.hash);
            if is_fresh(before, added.hash) {
                lemma_walk_push(before, added, old(self).latest_hash@, before.len());
            }
        }
        if advance {
            self.latest_hash = hash;
        }
    }

    /// The block whose hash has the given bytes.
    pub fn get_block(&self, hash: &[u8]) -> (block: Option<Block>)
        ensures
            match block {
                Some(b) => lookup(self.block_views(), hex_encoding(hash@)) == Some(b@),
                None => lookup(self.block_views(), hex_encoding(hash@)).is_none(),
            },
    {
        let key = hex_encode(hash);
        match self.find_block(&key) {
            Some(found) => Some(found.clone()),
            None => None,
        }
    }

    /// The blocks of the chain, newest first.
    pub fn get_blocks(&self) -> (blocks: Vec<Block>)
        ensures
            block_views(blocks@) == self.chain(),
    {
        let mut walker = self.iterator();
        let mut blocks: Vec<Block> = Vec::new();
        let ghost whole = self.chain();
        assert(whole.take(0) =~= Seq::<BlockView>::empty());
        assert(whole.skip(0) =~= whole);
        loop
            invariant
                walker.blockchain == self,
                blocks@.len() <= whole.len(),
                block_views(blocks@) == whole.take(blocks@.len() as int),
                walker.rest() == whole.skip(blocks@.len() as int),
            ensures
                block_views(blocks@) == whole,
            decreases whole.len() - blocks@.len(),
        {
            let ghost done = blocks@.len() as int;
            match walker.next() {
                None => {
                    assert(whole.take(done) =~= whole);
                    break ;
                },
                Some(block) => {
                    let ghost so_far = block_views(blocks@);
                    assert(whole.skip(done)[0] == whole[done]);
                    blocks.push(block);
                    assert(block_views(blocks@) =~= so_far.push(block@));
                    assert(whole.take(done + 1) =~= whole.take(done).push(whole[done]));
                    assert(whole.skip(done).drop_first() =~= whole.skip(done + 1));
                },
            }
        }
        blocks
    }

    /// The hashes of the chain's blocks, newest first.
    pub fn get_block_hashes(&self) -> (hashes: Vec<String>)
        ensures
            hashes@.len() == self.chain().len(),
            forall|i: int| 0 <= i < hashes@.len() ==> (#[trigger] hashes@[i])@ == self.chain()[i].hash,
    {
        let blocks = self.get_blocks();
        let mut hashes: Vec<String> = Vec::new();
        let mut i: usize = 0;
        while i < blocks.len()
            invariant
                i <= blocks@.len(),
                block_views(blocks@) == self.chain(),
                hashes@.len() == i,
                forall|k: int| 0 <= k < i ==> (#[trigger] hashes@[k])@ == self.chain()[k].hash,
            decreases blocks@.len() - i,
        {
            assert(block_views(blocks@)[i as int] == blocks@[i as int]@);
            hashes.push(blocks[i].hash.clone());
            i = i + 1;
        }
        hashes
    }

    /// The height of the tip.
    pub fn get_height(&self) -> (height: u128)
        requires
            self.wf(),
        ensures
            height == self.tip().height,
    {
        match self.find_block(&self.latest_hash) {
            Some(tip) => tip.height,
            None => 0,
        }
    }

    /// A fresh walk from the current tip.
    pub fn iterator(&self) -> (walker: Iterator<'_>)
        ensures
            walker.blockchain == self,
            walker.rest() == self.chain(),
    {
        Iterator { blockchain: self, current_hash: self.latest_hash.clone(), remaining: self.blocks.len() }
    }

    /// The transactions of the chain, from the newest block to the oldest,
    /// those of one block in their order.
    pub open spec fn transactions(&self) -> Seq<TransactionView> {
        transactions_of(self.chain())
    }

    /// A copy of every transaction of the chain, newest block first.
    pub fn all_transactions(&self) -> (txs: Vec<Transaction>)
        ensures
            tx_views(txs@) == self.transactions(),
    {
        let blocks = self.get_blocks();
        let ghost chain = self.chain();
        let mut txs: Vec<Transaction> = Vec::new();
        let mut i: usize = 0;
        assert(chain.skip(0) =~= chain);
        assert(tx_views(txs@) =~= Seq::<TransactionView>::empty());
        while i < blocks.len()
            invariant
                i <= blocks@.len(),
                block_views(blocks@) == chain,
                tx_views(txs@) + transactions_of(chain.skip(i as int)) == transactions_of(chain),
            decreases blocks@.len() - i,
        {
            let block = &blocks[i];
            let ghost gathered = tx_views(txs@);
            let ghost later = transactions_of(chain.skip(i + 1));
            assert(chain.skip(i as int).first() == block@);
            assert(chain.skip(i as int).drop_first() =~= chain.skip(i + 1));
            let mut j: usize = 0;
            assert(block@.transactions.take(0) =~= Seq::<TransactionView>::empty());
            while j < block.transactions.len()
                invariant
                    j <= block.transactions@.len(),
                    tx_views(txs@) == gathered + block@.transactions.take(j as int),
                decreases block.transactions@.len() - j,
            {
                let ghost before = tx_views(txs@);
                txs.push(block.transactions[j].clone());
                assert(tx_views(txs@) =~= before.push(block.transactions@[j as int]@));
                assert(block@.transactions.take(j + 1) =~= block@.transactions.take(j as int).push(
                    block.transactions@[j as int]@,
                ));
                assert(gathered + block@.transactions.take(j + 1) =~= (gathered + block@.transactions.take(
                    j as int,
                )).push(block.transactions@[j as int]@));
                j = j + 1;
            }
            assert(block@.transactions.take(block.transactions@.len() as int) =~= block@.transactions);
            assert((gathered + block@.transactions) + later =~= gathered + (block@.transactions + later));
            i = i + 1;
        }
        assert(transactions_of(chain.skip(blocks@.len() as int)) =~= Seq::<TransactionView>::empty());
        assert(tx_views(txs@) + Seq::<TransactionView>::empty() =~= tx_views(txs@));
        txs
    }

    /// The transaction with the given id that a walk from the tip meets
    /// first. Fails with `UnknownPriorTransaction` when the chain has none.
    pub fn find_transaction(&self, tx_id: &[u8]) -> (found: Result<Transaction, LedgerError>)
        ensures
            match found {
                Ok(tx) => prior_of(self.transactions(), tx_id@) == Some(tx@),
                Err(e) => prior_of(self.transactions(), tx_id@).is_none() && e
                    == LedgerError::UnknownPriorTransaction,
            },
    {
        let txs = self.all_transactions();
        match crate::transaction::find_prior(&txs, tx_id) {
            Some(tx) => Ok(tx.clone()),
            None => Err(LedgerError::UnknownPriorTransaction),
        }
    }

    /// Signs `tx` with `private_key`, against the transactions of the chain.
    pub fn sign_transaction(&self, tx: &mut Transaction, private_key: &[u8]) -> (done: Result<(), LedgerError>)
        ensures
            match done {
                Ok(_) => sign_outcome(old(tx)@, private_key@, self.transactions()) == Ok::<
                    TransactionView,
                    LedgerError,
                >(final(tx)@),
                Err(e) => sign_outcome(old(tx)@, private_key@, self.transactions()) == Err::<
                    TransactionView,
                    LedgerError,
                >(e) && *final(tx) == *old(tx),
            },
            done.is_ok() && !crate::transaction::is_coinbase_view(old(tx)@) && (forall|i: int|
                0 <= i < old(tx)@.inputs.len() ==> Some((#[trigger] old(tx)@.inputs[i]).pub_key)
                    == crate::signature::ecdsa_public_key(private_key@)) ==> verify_outcome(
                final(tx)@,
                self.transactions(),
            ) == Ok::<bool, LedgerError>(true),
    {
        let txs = self.all_transactions();
        tx.sign(private_key, &txs)
    }

    /// Verifies `tx` against the transactions of the chain.
    pub fn verify_transaction(&self, tx: &Transaction) -> (valid: Result<bool, LedgerError>)
        ensures
            valid == verify_outcome(tx@, self.transactions()),
    {
        let txs = self.all_transactions();
        tx.verity(&txs)
    }

    /// Stores a block under its hash.
    fn store(&mut self, block: Block)
        ensures
            final(self).block_views() == stored(old(self).block_views(), block@),
            final(self).latest_hash == old(self).latest_hash,
            hashes_distinct(old(self).block_views()) ==> hashes_distinct(final(self).block_views()),
    {
        let ghost before = self.block_views();
        let ghost added = block@;
        let mut i: usize = 0;
        while i < self.blocks.len()
            invariant
                i <= self.blocks@.len(),
                *self == *old(self),
                before == self.block_views(),
                added == block@,
                forall|k: int| 0 <= k < i ==> (#[trigger] before[k]).hash != added.hash,
            decreases self.blocks@.len() - i,
        {
            assert(before[i as int] == self.blocks@[i as int]@);
            if self.blocks[i].hash == block.hash {
                self.blocks.set(i, block);
                proof {
                    assert(self.block_views() =~= before.update(i as int, added));
                    lemma_stored_at(before, added, i as int);
                }
                return ;
            }
            i = i + 1;
        }
        self.blocks.push(block);
        proof {
            assert(self.block_views() =~= before.push(added));
            lemma_lookup_absent(before, added.hash);
            lemma_stored_last(before, added);
        }
    }

    /// Mines a block with `transactions` on top of the tip and makes it the
    /// tip, stamped with the current time. Every transaction must verify
    /// against the chain; when one does not, nothing is changed.
    pub fn mine_block(&mut self, transactions: Vec<Transaction>) -> (block: Result<Block, LedgerError>)
        requires
            old(self).wf(),
        ensures
            final(self).wf(),
            match block {
                Ok(b) => {
                    &&& is_mined(
                        b@,
                        old(self).tip().hash,
                        tx_views(transactions@),
                        (old(self).tip().height + 1) as u128,
                        b.timestamp,
                    )
                    &&& b.height == old(self).tip().height + 1
                    &&& final(self).block_views() == stored(old(self).block_views(), b@)
                    &&& final(self).latest_hash@ == b@.hash
                    &&& final(self).tip() == b@
                    &&& is_fresh(old(self).block_views(), b@.hash) ==> final(self).chain() == seq![b@] + old(
                        self,
                    ).chain()
                },
                Err(e) => *final(self) == *old(self) && mine_failure(
                    old(self).tip(),
                    old(self).transactions(),
                    tx_views(transactions@),
                ) == Some(e),
            },
    {
        let timestamp: u128 = now_millis();
        self.mine_block_at(transactions, timestamp)
    }

    /// Mines a block with `transactions` on top of the tip and makes it the
    /// tip, with a given time stamp. The new block stands one higher than
    /// the tip it was mined on.
    pub fn mine_block_at(&mut self, transactions: Vec<Transaction>, timestamp: u128) -> (block: Result<
        Block,
        LedgerError,
    >)
        requires
            old(self).wf(),
        ensures
            final(self).wf(),
            match block {
                Ok(b) => {
                    &&& is_mined(
                        b@,
                        old(self).tip().hash,
                        tx_views(transactions@),
                        (old(self).tip().height + 1) as u128,
                        timestamp,
                    )
                    &&& b.height == old(self).tip().height + 1
                    &&& final(self).block_views() == stored(old(self).block_views(), b@)
                    &&& final(self).latest_hash@ == b@.hash
                    &&& final(self).tip() == b@
                    &&& is_fresh(old(self).block_views(), b@.hash) ==> final(self).chain() == seq![b@] + old(
                        self,
                    ).chain()
                },
                Err(e) => *final(self) == *old(self) && mine_failure(
                    old(self).tip(),
                    old(self).transactions(),
                    tx_views(transactions@),
                ) == Some(e),
            },
    {
        let ghost txs = tx_views(transactions@);
        let ghost chain_txs = self.transactions();
        let prev_txs = self.all_transactions();
        let mut i: usize = 0;
        while i < transactions.len()
            invariant
                i <= transactions@.len(),
                *self == *old(self),
                self.wf(),
                txs == tx_views(transactions@),
                chain_txs == tx_views(prev_txs@),
                chain_txs == self.transactions(),
                first_invalid(txs, chain_txs, i as nat).is_none(),
            decreases transactions@.len() - i,
        {
            assert(txs[i as int] == transactions@[i as int]@);
            let failure = match transactions[i].verity(&prev_txs) {
                Err(e) => Some(e),
                Ok(valid) => if valid {
                    None
                } else {
                    Some(LedgerError::InvalidSignature)
                },
            };
            match failure {
                Some(e) => {
                    proof {
                        assert(first_invalid(txs, chain_txs, (i + 1) as nat) == Some(e));
                        lemma_first_invalid_stays(txs, chain_txs, (i + 1) as nat, txs.len());
                    }
                    return Err(e);
                },
                None => {},
            }
            i = i + 1;
        }
        let (tip_hash, tip_height) = match self.find_block(&self.latest_hash) {
            Some(tip) => (tip.hash.clone(), tip.height),
            None => (String::new(), 0),
        };
        if tip_height == u128::MAX {
            return Err(LedgerError::Overflow);
        }
        match Block::create_block_at(tip_hash, transactions, tip_height + 1, timestamp) {
            Err(e) => Err(e),
            Ok(block) => {
                let ghost before = self.block_views();
                let ghost tip = self.tip();
                self.store(block.clone());
                self.latest_hash = block.hash.clone();
                proof {
                    lemma_stored_holds(before, block@);
                    if is_fresh(before, block@.hash) {
                        lemma_lookup_absent(before, block@.hash);
                        lemma_stored_last(before, block@);
                        lemma_lookup_push(before, block@, block@.hash);
                        lemma_lookup_member(before, old(self).latest_hash@);
                        lemma_walk_push(before, block@, tip.hash, before.len());
                    }
                }
                Ok(block)
            },
        }
    }

    /// The unspent outputs of the chain: the replay of every block from the
    /// oldest to the tip.
    pub fn find_utxos(&self) -> (entries: Vec<Utxo>)
        ensures
            utxo_views(entries@) == replay(self.chain()),
            crate::utxo::keys_distinct(utxo_views(entries@)),
    {
        let blocks = self.get_blocks();
        let ghost chain = self.chain();
        let mut index = UTXOSet { entries: Vec::new() };
        let mut i: usize = blocks.len();
        assert(chain.skip(i as int) =~= Seq::<BlockView>::empty());
        assert(index@ =~= Seq::<UtxoView>::empty());
        while i > 0
            invariant
                i <= blocks@.len(),
                block_views(blocks@) == chain,
                index@ == replay(chain.skip(i as int)),
                index.wf(),
            decreases i,
        {
            i = i - 1;
            assert(chain.skip(i as int).drop_first() =~= chain.skip(i + 1));
            assert(chain.skip(i as int).first() == blocks@[i as int]@);
            index.update(&blocks[i]);
        }
        assert(chain.skip(0) =~= chain);
        index.entries
    }
}

/// A block that comes last is found under its own hash only when no earlier
/// block has it, and hides no other block.
pub proof fn lemma_lookup_push(blocks: Seq<BlockView>, block: BlockView, hash: Seq<char>)
    ensures
        lookup(blocks.push(block), hash) == match lookup(blocks, hash) {
            Some(found) => Some(found),
            None => if block.hash == hash {
                Some(block)
            } else {
                None
            },
        },
    decreases blocks.len(),
{
    if blocks.len() == 0 {
        assert(blocks.push(block).drop_first() =~= blocks);
    } else {
        assert(blocks.push(block).drop_first() =~= blocks.drop_first().push(block));
        if blocks[0].hash != hash {
            lemma_lookup_push(blocks.drop_first(), block, hash);
        }
    }
}

/// A block found under a hash has that hash and is one of the blocks.
pub proof fn lemma_lookup_member(blocks: Seq<BlockView>, hash: Seq<char>)
    requires
        lookup(blocks, hash).is_some(),
    ensures
        lookup(blocks, hash).unwrap().hash == hash,
        blocks.contains(lookup(blocks, hash).unwrap()),
    decreases blocks.len(),
{
    if blocks[0].hash != hash {
        lemma_lookup_member(blocks.drop_first(), hash);
        let found = lookup(blocks, hash).unwrap();
        let i = choose|i: int| 0 <= i < blocks.drop_first().len() && blocks.drop_first()[i] == found;
        assert(blocks[i + 1] == found);
    } else {
        assert(blocks[0] == lookup(blocks, hash).unwrap());
    }
}

/// When nothing is found under a hash, no block has it.
pub proof fn lemma_lookup_none(blocks: Seq<BlockView>, hash: Seq<char>)
    requires
        lookup(blocks, hash).is_none(),
    ensures
        forall|i: int| 0 <= i < blocks.len() ==> (#[trigger] blocks[i]).hash != hash,
    decreases blocks.len(),
{
    if blocks.len() > 0 {
        lemma_lookup_none(blocks.drop_first(), hash);
        assert forall|i: int| 0 <= i < blocks.len() implies (#[trigger] blocks[i]).hash != hash by {
            if i > 0 {
                assert(blocks[i] == blocks.drop_first()[i - 1]);
            }
        }
    }
}

/// Nothing is found under a hash that no block has.
pub proof fn lemma_lookup_absent(blocks: Seq<BlockView>, hash: Seq<char>)
    requires
        forall|i: int| 0 <= i < blocks.len() ==> (#[trigger] blocks[i]).hash != hash,
    ensures
        lookup(blocks, hash).is_none(),
    decreases blocks.len(),
{
    if blocks.len() > 0 {
        assert(blocks[0].hash != hash);
        assert forall|i: int| 0 <= i < blocks.drop_first().len() implies (#[trigger] blocks.drop_first()[i]).hash
            != hash by {
            assert(blocks.drop_first()[i] == blocks[i + 1]);
        }
        lemma_lookup_absent(blocks.drop_first(), hash);
    }
}

/// A block stored under a hash that no block has comes last.
pub proof fn lemma_stored_last(blocks: Seq<BlockView>, block: BlockView)
    requires
        lookup(blocks, block.hash).is_none(),
    ensures
        stored(blocks, block) == blocks.push(block),
    decreases blocks.len(),
{
    if blocks.len() == 0 {
        assert(stored(blocks, block) =~= blocks.push(block));
    } else {
        lemma_stored_last(blocks.drop_first(), block);
        assert(seq![blocks[0]] + blocks.drop_first().push(block) =~= blocks.push(block));
    }
}

/// A block stored under the hash of the block at `at`, the first with that
/// hash, takes its place.
pub proof fn lemma_stored_at(blocks: Seq<BlockView>, block: BlockView, at: int)
    requires
        0 <= at < blocks.len(),
        blocks[at].hash == block.hash,
        forall|k: int| 0 <= k < at ==> (#[trigger] blocks[k]).hash != block.hash,
    ensures
        stored(blocks, block) == blocks.update(at, block),
    decreases blocks.len(),
{
    if at == 0 {
        assert(seq![block] + blocks.drop_first() =~= blocks.update(0, block));
    } else {
        assert forall|k: int| 0 <= k < at - 1 implies (#[trigger] blocks.drop_first()[k]).hash != block.hash by {
            assert(blocks.drop_first()[k] == blocks[k + 1]);
        }
        lemma_stored_at(blocks.drop_first(), block, at - 1);
        assert(seq![blocks[0]] + blocks.drop_first().update(at - 1, block) =~= blocks.update(at, block));
    }
}

/// After a block is stored, it is what is found under its hash.
pub proof fn lemma_stored_holds(blocks: Seq<BlockView>, block: BlockView)
    ensures
        lookup(stored(blocks, block), block.hash) == Some(block),
    decreases blocks.len(),
{
    if blocks.len() == 0 {
    } else if blocks[0].hash == block.hash {
    } else {
        lemma_stored_holds(blocks.drop_first(), block);
        assert((seq![blocks[0]] + stored(blocks.drop_first(), block)).drop_first() =~= stored(
            blocks.drop_first(),
            block,
        ));
    }
}

/// A block with a fresh hash, added last, changes no walk that starts
/// elsewhere.
pub proof fn lemma_walk_push(blocks: Seq<BlockView>, block: BlockView, from: Seq<char>, fuel: nat)
    requires
        is_fresh(blocks, block.hash),
        from != block.hash,
    ensures
        walk(blocks.push(block), from, fuel) == walk(blocks, from, fuel),
    decreases fuel,
{
    if fuel > 0 && from.len() > 0 {
        lemma_lookup_push(blocks, block, from);
        if lookup(blocks, from).is_some() {
            lemma_lookup_member(blocks, from);
            let found = lookup(blocks, from).unwrap();
            let i = choose|i: int| 0 <= i < blocks.len() && blocks[i] == found;
            assert(blocks[i].prev_hash != block.hash);
            lemma_walk_push(blocks, block, found.prev_hash, (fuel - 1) as nat);
        }
    }
}

/// Once a transaction fails, the failure stands for every longer prefix.
pub proof fn lemma_first_invalid_stays(txs: Seq<TransactionView>, prev_txs: Seq<TransactionView>, at: nat, n: nat)
    requires
        at <= n,
        first_invalid(txs, prev_txs, at).is_some(),
    ensures
        first_invalid(txs, prev_txs, n) == first_invalid(txs, prev_txs, at),
    decreases n - at,
{
    if at < n {
        lemma_first_invalid_stays(txs, prev_txs, at, (n - 1) as nat);
    }
}

} // verus!
