//! The index of unspent outputs: what every balance query and every new
//! transaction reads, kept up to date block by block or rebuilt from the
//! chain.

use crate::block::{Block, BlockView};
use crate::blockchain::Blockchain;
use crate::error::LedgerError;
use crate::octets::{bytes_eq, copy_bytes};
use crate::transaction::{is_coinbase_view, Transaction, TransactionView};
use crate::tx::{TxOutput, TxOutputView, TxOutputs};
use vstd::prelude::*;

verus! {

/// One unspent output: the transaction it belongs to, the position it has
/// there, and the output itself.
#[derive(Debug, PartialEq, Eq)]
pub struct Utxo {
    pub tx_id: Vec<u8>,
    pub out_idx: usize,
    pub output: TxOutput,
}

/// What an unspent output is, as mathematics.
#[verifier::ext_equal]
pub struct UtxoView {
    pub tx_id: Seq<u8>,
    pub out_idx: usize,
    pub output: TxOutputView,
}

impl View for Utxo {
    type V = UtxoView;

    open spec fn view(&self) -> UtxoView {
        UtxoView { tx_id: self.tx_id@, out_idx: self.out_idx, output: self.output@ }
    }
}

impl Clone for Utxo {
    fn clone(&self) -> (copy: Self)
        ensures
            copy@ == self@,
    {
        Utxo { tx_id: copy_bytes(self.tx_id.as_slice()), out_idx: self.out_idx, output: self.output.clone() }
    }
}

/// The views of a list of unspent outputs.
pub open spec fn utxo_views(entries: Seq<Utxo>) -> Seq<UtxoView> {
    Seq::new(entries.len(), |i: int| entries[i]@)
}

/// The unspent outputs of the ledger, in the order they are scanned in.
#[derive(Debug, PartialEq, Eq)]
pub struct UTXOSet {
    pub entries: Vec<Utxo>,
}

impl View for UTXOSet {
    type V = Seq<UtxoView>;

    open spec fn view(&self) -> Seq<UtxoView> {
        utxo_views(self.entries@)
    }
}

/// Whether a transaction spends the output at `out_idx` of `tx_id`. A
/// coinbase transaction spends nothing.
pub open spec fn spends(tx: TransactionView, tx_id: Seq<u8>, out_idx: usize) -> bool {
    &&& !is_coinbase_view(tx)
    &&& exists|i: int|
        0 <= i < tx.inputs.len() && (#[trigger] tx.inputs[i]).tx_id == tx_id && tx.inputs[i].out_idx == out_idx
}

/// Whether an entry stays in the index when `tx` is applied: `tx` does not
/// spend it, and it does not stand under the id that `tx` is about to take.
pub open spec fn survives(entry: UtxoView, tx: TransactionView) -> bool {
    !spends(tx, entry.tx_id, entry.out_idx) && entry.tx_id != tx.id
}

/// The entries that survive `tx`, in their order.
pub open spec fn survivors(entries: Seq<UtxoView>, tx: TransactionView) -> Seq<UtxoView>
    decreases entries.len(),
{
    if entries.len() == 0 {
        entries
    } else if survives(entries.last(), tx) {
        survivors(entries.drop_last(), tx).push(entries.last())
    } else {
        survivors(entries.drop_last(), tx)
    }
}

/// Every output of `tx`, as an entry at its own position.
pub open spec fn outputs_of(tx: TransactionView) -> Seq<UtxoView> {
    Seq::new(tx.outputs.len(), |i: int| UtxoView { tx_id: tx.id, out_idx: i as usize, output: tx.outputs[i] })
}

/// The index after one transaction: what it spends leaves, what stood under
/// its id is overwritten, and all its outputs enter.
pub open spec fn apply_tx(entries: Seq<UtxoView>, tx: TransactionView) -> Seq<UtxoView> {
    survivors(entries, tx) + outputs_of(tx)
}

/// The index after a list of transactions, applied in order.
pub open spec fn apply_txs(entries: Seq<UtxoView>, txs: Seq<TransactionView>) -> Seq<UtxoView>
    decreases txs.len(),
{
    if txs.len() == 0 {
        entries
    } else {
        apply_tx(apply_txs(entries, txs.drop_last()), txs.last())
    }
}

/// The index after one block.
pub open spec fn apply_block(entries: Seq<UtxoView>, block: BlockView) -> Seq<UtxoView> {
    apply_txs(entries, block.transactions)
}

/// The index after a run of blocks given newest first: the oldest is applied
/// first.
pub open spec fn apply_chain(entries: Seq<UtxoView>, chain: Seq<BlockView>) -> Seq<UtxoView>
    decreases chain.len(),
{
    if chain.len() == 0 {
        entries
    } else {
        apply_block(apply_chain(entries, chain.drop_first()), chain.first())
    }
}

/// The index of a whole chain given newest first: the replay of every block
/// from the oldest to the newest, starting with nothing.
pub open spec fn replay(chain: Seq<BlockView>) -> Seq<UtxoView> {
    apply_chain(Seq::empty(), chain)
}

/// The scan for spendable outputs after `n` entries: the total gathered and
/// the outputs selected. An output of `owner` is taken as long as the total
/// is short of `amount`.
pub open spec fn selection(entries: Seq<UtxoView>, owner: Seq<u8>, amount: u128, n: nat) -> (
    nat,
    Seq<(Seq<u8>, usize)>,
)
    decreases n,
{
    if n == 0 {
        (0, Seq::empty())
    } else {
        let (total, selected) = selection(entries, owner, amount, (n - 1) as nat);
        let entry = entries[n - 1];
        if total < amount && entry.output.pub_key_hash == owner {
            ((total + entry.output.amount) as nat, selected.push((entry.tx_id, entry.out_idx)))
        } else {
            (total, selected)
        }
    }
}

/// The outputs of `owner` among the first `n` entries.
pub open spec fn owned(entries: Seq<UtxoView>, owner: Seq<u8>, n: nat) -> Seq<TxOutputView>
    decreases n,
{
    if n == 0 {
        Seq::empty()
    } else if entries[n - 1].output.pub_key_hash == owner {
        owned(entries, owner, (n - 1) as nat).push(entries[n - 1].output)
    } else {
        owned(entries, owner, (n - 1) as nat)
    }
}

/// The sum of the amounts of a list of outputs.
pub open spec fn total_amount(outputs: Seq<TxOutputView>) -> nat
    decreases outputs.len(),
{
    if outputs.len() == 0 {
        0
    } else {
        (total_amount(outputs.drop_last()) + outputs.last().amount) as nat
    }
}

/// The surviving outputs of one transaction among the first `n` entries,
/// each with its position.
pub open spec fn record_of(entries: Seq<UtxoView>, tx_id: Seq<u8>, n: nat) -> Seq<(usize, TxOutputView)>
    decreases n,
{
    if n == 0 {
        Seq::empty()
    } else if entries[n - 1].tx_id == tx_id {
        record_of(entries, tx_id, (n - 1) as nat).push((entries[n - 1].out_idx, entries[n - 1].output))
    } else {
        record_of(entries, tx_id, (n - 1) as nat)
    }
}

/// The transactions of a chain given newest first, in the order they are
/// replayed in: oldest block first, those of one block in their order.
pub open spec fn history(chain: Seq<BlockView>) -> Seq<TransactionView>
    decreases chain.len(),
{
    if chain.len() == 0 {
        Seq::empty()
    } else {
        history(chain.drop_first()) + chain.first().transactions
    }
}

/// Whether `entry` is an output of the transaction at `at` that every later
/// transaction lets stand.
pub open spec fn stands_since(txs: Seq<TransactionView>, entry: UtxoView, at: int) -> bool {
    &&& outputs_of(txs[at]).contains(entry)
    &&& forall|later: int| at < later < txs.len() ==> survives(entry, #[trigger] txs[later])
}

/// Whether `entry` is an output of one of `txs` that no later one of them
/// spends or overwrites.
pub open spec fn unspent_in(txs: Seq<TransactionView>, entry: UtxoView) -> bool {
    exists|at: int| 0 <= at < txs.len() && #[trigger] stands_since(txs, entry, at)
}

/// Whether the entry at `at` stands under a transaction id that an earlier
/// entry has too.
pub open spec fn seen_before(entries: Seq<UtxoView>, at: int) -> bool {
    exists|k: int| 0 <= k < at && (#[trigger] entries[k]).tx_id == entries[at].tx_id
}

/// The number of transactions that have an output among the first `n`
/// entries.
pub open spec fn transactions_among(entries: Seq<UtxoView>, n: nat) -> nat
    decreases n,
{
    if n == 0 {
        0
    } else if seen_before(entries, n - 1) {
        transactions_among(entries, (n - 1) as nat)
    } else {
        transactions_among(entries, (n - 1) as nat) + 1
    }
}

/// The records of the first `n` entries: one for each transaction that has
/// an entry among them, in the order the transactions are first met in,
/// each holding all that survives of its transaction.
pub open spec fn records_among(entries: Seq<UtxoView>, n: nat) -> Seq<(Seq<u8>, Seq<(usize, TxOutputView)>)>
    decreases n,
{
    if n == 0 {
        Seq::empty()
    } else if seen_before(entries, n - 1) {
        records_among(entries, (n - 1) as nat)
    } else {
        records_among(entries, (n - 1) as nat).push(
            (entries[n - 1].tx_id, record_of(entries, entries[n - 1].tx_id, entries.len())),
        )
    }
}

/// The entries of one record.
pub open spec fn record_entries(tx_id: Seq<u8>, record: Seq<(usize, TxOutputView)>) -> Seq<UtxoView> {
    Seq::new(record.len(), |i: int| UtxoView { tx_id, out_idx: record[i].0, output: record[i].1 })
}

/// The entries of a list of records, record after record.
pub open spec fn entries_of(records: Seq<(Seq<u8>, Seq<(usize, TxOutputView)>)>) -> Seq<UtxoView>
    decreases records.len(),
{
    if records.len() == 0 {
        Seq::empty()
    } else {
        entries_of(records.drop_last()) + record_entries(records.last().0, records.last().1)
    }
}

/// The views of a list of records.
pub open spec fn record_views(records: Seq<(Vec<u8>, TxOutputs)>) -> Seq<(Seq<u8>, Seq<(usize, TxOutputView)>)> {
    Seq::new(records.len(), |i: int| (records[i].0@, records[i].1@))
}

/// Replaying a longer chain is replaying the shorter one and then applying
/// the later blocks to the index one after the other: an index rebuilt from
/// the chain equals the one kept up to date block by block.
pub proof fn law_rebuild_equals_updates(older: Seq<BlockView>, newer: Seq<BlockView>)
    ensures
        replay(newer + older) == apply_chain(replay(older), newer),
    decreases newer.len(),
{
    if newer.len() == 0 {
        assert(newer + older =~= older);
    } else {
        law_rebuild_equals_updates(older, newer.drop_first());
        assert((newer + older).drop_first() =~= newer.drop_first() + older);
        assert((newer + older).first() == newer.first());
    }
}

/// One more block on top of a chain: rebuilding the index over the longer
/// chain gives what updating the index of the shorter one with that block
/// gives.
pub proof fn law_rebuild_after_update(chain: Seq<BlockView>, block: BlockView)
    ensures
        replay(seq![block] + chain) == apply_block(replay(chain), block),
{
    assert((seq![block] + chain).drop_first() =~= chain);
}

/// What survives a transaction is what was there and survives it.
pub proof fn lemma_survivors_contains(entries: Seq<UtxoView>, tx: TransactionView, entry: UtxoView)
    ensures
        survivors(entries, tx).contains(entry) <==> entries.contains(entry) && survives(entry, tx),
    decreases entries.len(),
{
    if entries.len() > 0 {
        let rest = entries.drop_last();
        let last = entries.last();
        lemma_survivors_contains(rest, tx, entry);
        let kept = survivors(rest, tx);
        if entries.contains(entry) {
            let i = choose|i: int| 0 <= i < entries.len() && entries[i] == entry;
            if i < rest.len() {
                assert(rest[i] == entry);
            }
        }
        if rest.contains(entry) {
            let i = choose|i: int| 0 <= i < rest.len() && rest[i] == entry;
            assert(entries[i] == entry);
        }
        if survives(last, tx) {
            if kept.push(last).contains(entry) {
                let i = choose|i: int| 0 <= i < kept.push(last).len() && kept.push(last)[i] == entry;
                if i < kept.len() {
                    assert(kept[i] == entry);
                } else {
                    assert(entries[entries.len() - 1] == entry);
                }
            }
            if kept.contains(entry) {
                let i = choose|i: int| 0 <= i < kept.len() && kept[i] == entry;
                assert(kept.push(last)[i] == entry);
            }
            if entry == last {
                assert(kept.push(last)[kept.len() as int] == entry);
                assert(entries[entries.len() - 1] == entry);
            }
        }
    }
}

/// What stands in the sum of two lists stands in one of them.
pub proof fn lemma_concat_contains(a: Seq<UtxoView>, b: Seq<UtxoView>, entry: UtxoView)
    ensures
        (a + b).contains(entry) <==> a.contains(entry) || b.contains(entry),
{
    if (a + b).contains(entry) {
        let i = choose|i: int| 0 <= i < (a + b).len() && (a + b)[i] == entry;
        if i < a.len() {
            assert(a[i] == entry);
        } else {
            assert(b[i - a.len()] == entry);
        }
    }
    if a.contains(entry) {
        let i = choose|i: int| 0 <= i < a.len() && a[i] == entry;
        assert((a + b)[i] == entry);
    }
    if b.contains(entry) {
        let i = choose|i: int| 0 <= i < b.len() && b[i] == entry;
        assert((a + b)[i + a.len()] == entry);
    }
}

/// Applying two runs of transactions one after the other is applying them
/// as one run.
pub proof fn lemma_apply_txs_concat(entries: Seq<UtxoView>, first: Seq<TransactionView>, then: Seq<TransactionView>)
    ensures
        apply_txs(entries, first + then) == apply_txs(apply_txs(entries, first), then),
    decreases then.len(),
{
    if then.len() == 0 {
        assert(first + then =~= first);
    } else {
        lemma_apply_txs_concat(entries, first, then.drop_last());
        assert((first + then).drop_last() =~= first + then.drop_last());
        assert((first + then).last() == then.last());
    }
}

/// The index of a chain is the replay of its transactions, oldest first.
pub proof fn lemma_replay_is_history(chain: Seq<BlockView>)
    ensures
        replay(chain) == apply_txs(Seq::empty(), history(chain)),
    decreases chain.len(),
{
    if chain.len() > 0 {
        lemma_replay_is_history(chain.drop_first());
        lemma_apply_txs_concat(Seq::empty(), history(chain.drop_first()), chain.first().transactions);
    }
}

/// What the replay of a run of transactions holds is exactly what is
/// unspent in it: the outputs that no later transaction of the run spends
/// or overwrites.
pub proof fn law_replay_holds_the_unspent(txs: Seq<TransactionView>, entry: UtxoView)
    ensures
        apply_txs(Seq::empty(), txs).contains(entry) <==> unspent_in(txs, entry),
    decreases txs.len(),
{
    if txs.len() == 0 {
        assert(!unspent_in(txs, entry));
    } else {
        let before = txs.drop_last();
        let tx = txs.last();
        let held = apply_txs(Seq::empty(), before);
        let newest = txs.len() - 1;
        law_replay_holds_the_unspent(before, entry);
        lemma_survivors_contains(held, tx, entry);
        lemma_concat_contains(survivors(held, tx), outputs_of(tx), entry);
        if apply_txs(Seq::empty(), txs).contains(entry) {
            if outputs_of(tx).contains(entry) {
                assert(stands_since(txs, entry, newest));
            } else {
                let at = choose|at: int| 0 <= at < before.len() && #[trigger] stands_since(before, entry, at);
                assert(txs[at] == before[at]);
                assert forall|later: int| at < later < txs.len() implies survives(entry, #[trigger] txs[later]) by {
                    if later < before.len() {
                        assert(txs[later] == before[later]);
                    }
                }
                assert(stands_since(txs, entry, at));
            }
        }
        if unspent_in(txs, entry) {
            let at = choose|at: int| 0 <= at < txs.len() && #[trigger] stands_since(txs, entry, at);
            if at < newest {
                assert(before[at] == txs[at]);
                assert forall|later: int| at < later < before.len() implies survives(
                    entry,
                    #[trigger] before[later],
                ) by {
                    assert(before[later] == txs[later]);
                }
                assert(stands_since(before, entry, at));
                assert(survives(entry, txs[newest]));
            }
        }
    }
}

/// What the index of a chain holds is exactly what is unspent in the
/// chain's transactions.
pub proof fn law_index_holds_the_unspent(chain: Seq<BlockView>, entry: UtxoView)
    ensures
        replay(chain).contains(entry) <==> unspent_in(history(chain), entry),
{
    lemma_replay_is_history(chain);
    law_replay_holds_the_unspent(history(chain), entry);
}

/// Whether no two entries stand for the same output of the same
/// transaction.
pub open spec fn keys_distinct(entries: Seq<UtxoView>) -> bool {
    forall|i: int, j: int|
        0 <= i < j < entries.len() ==> !((#[trigger] entries[i]).tx_id == (#[trigger] entries[j]).tx_id
            && entries[i].out_idx == entries[j].out_idx)
}

/// Whether every transaction has few enough outputs for each to have a
/// position of its own.
pub open spec fn positions_fit(txs: Seq<TransactionView>) -> bool {
    forall|k: int| 0 <= k < txs.len() ==> (#[trigger] txs[k]).outputs.len() <= usize::MAX
}

/// What survives a transaction holds no output twice when the entries held
/// none twice; each survivor is one of the entries and survives.
proof fn lemma_survivors_are_distinct(entries: Seq<UtxoView>, tx: TransactionView)
    requires
        keys_distinct(entries),
    ensures
        keys_distinct(survivors(entries, tx)),
        forall|i: int|
            0 <= i < survivors(entries, tx).len() ==> entries.contains(#[trigger] survivors(entries, tx)[i])
                && survives(survivors(entries, tx)[i], tx),
    decreases entries.len(),
{
    if entries.len() > 0 {
        let rest = entries.drop_last();
        let last = entries.last();
        assert forall|i: int, j: int| 0 <= i < j < rest.len() implies !((#[trigger] rest[i]).tx_id == (
        #[trigger] rest[j]).tx_id && rest[i].out_idx == rest[j].out_idx) by {
            assert(rest[i] == entries[i] && rest[j] == entries[j]);
        }
        lemma_survivors_are_distinct(rest, tx);
        let kept = survivors(rest, tx);
        let all = survivors(entries, tx);
        assert forall|i: int| 0 <= i < all.len() implies entries.contains(#[trigger] all[i]) && survives(
            all[i],
            tx,
        ) by {
            if i < kept.len() {
                assert(rest.contains(kept[i]));
                let at = choose|at: int| 0 <= at < rest.len() && rest[at] == kept[i];
                assert(entries[at] == all[i]);
            } else {
                assert(entries[entries.len() - 1] == all[i]);
            }
        }
        if survives(last, tx) {
            assert forall|i: int, j: int| 0 <= i < j < all.len() implies !((#[trigger] all[i]).tx_id == (
            #[trigger] all[j]).tx_id && all[i].out_idx == all[j].out_idx) by {
                if j == kept.len() {
                    assert(rest.contains(kept[i]));
                    let at = choose|at: int| 0 <= at < rest.len() && rest[at] == kept[i];
                    assert(entries[at] == kept[i]);
                    assert(entries[entries.len() - 1] == last);
                } else {
                    assert(all[i] == kept[i] && all[j] == kept[j]);
                }
            }
        }
    }
}

/// Applying a transaction to an index without doubles leaves no doubles.
proof fn lemma_apply_keeps_distinct(entries: Seq<UtxoView>, tx: TransactionView)
    requires
        keys_distinct(entries),
        tx.outputs.len() <= usize::MAX,
    ensures
        keys_distinct(apply_tx(entries, tx)),
{
    lemma_survivors_are_distinct(entries, tx);
    let kept = survivors(entries, tx);
    let added = outputs_of(tx);
    let all = apply_tx(entries, tx);
    assert forall|i: int, j: int| 0 <= i < j < all.len() implies !((#[trigger] all[i]).tx_id == (
    #[trigger] all[j]).tx_id && all[i].out_idx == all[j].out_idx) by {
        if j < kept.len() {
            assert(all[i] == kept[i] && all[j] == kept[j]);
        } else if i < kept.len() {
            assert(all[i] == kept[i]);
            assert(survives(kept[i], tx));
            assert(all[j] == added[j - kept.len()]);
        } else {
            assert(all[i] == added[i - kept.len()]);
            assert(all[j] == added[j - kept.len()]);
        }
    }
}

/// The replay of a run of transactions holds no output twice: each entry is
/// the only one for its transaction and position.
pub proof fn law_replay_keys_are_distinct(txs: Seq<TransactionView>)
    requires
        positions_fit(txs),
    ensures
        keys_distinct(apply_txs(Seq::empty(), txs)),
    decreases txs.len(),
{
    if txs.len() > 0 {
        let before = txs.drop_last();
        assert forall|k: int| 0 <= k < before.len() implies (#[trigger] before[k]).outputs.len() <= usize::MAX by {
            assert(before[k] == txs[k]);
        }
        law_replay_keys_are_distinct(before);
        assert(txs.last() == txs[txs.len() - 1]);
        lemma_apply_keeps_distinct(apply_txs(Seq::empty(), before), txs.last());
    }
}

/// Whether `tx` spends the output at `out_idx` of `tx_id`.
pub fn spent_by(tx: &Transaction, tx_id: &[u8], out_idx: usize) -> (spent: bool)
    ensures
        spent == spends(tx@, tx_id@, out_idx),
{
    if tx.is_coinbase() {
        return false;
    }
    let mut i: usize = 0;
    while i < tx.inputs.len()
        invariant
            i <= tx.inputs@.len(),
            !is_coinbase_view(tx@),
            forall|k: int|
                0 <= k < i ==> !((#[trigger] tx@.inputs[k]).tx_id == tx_id@ && tx@.inputs[k].out_idx == out_idx),
        decreases tx.inputs@.len() - i,
    {
        assert(tx@.inputs[i as int] == tx.inputs@[i as int]@);
        if tx.inputs[i].out_idx == out_idx && bytes_eq(tx.inputs[i].tx_id.as_slice(), tx_id) {
            return true;
        }
        i = i + 1;
    }
    false
}

impl UTXOSet {
    /// An index is well formed when it holds no output twice.
    pub open spec fn wf(&self) -> bool {
        keys_distinct(self@)
    }

    /// The index of a chain: rebuilt from its blocks.
    pub fn new(blockchain: &Blockchain) -> (index: Self)
        ensures
            index@ == replay(blockchain.chain()),
            index.wf(),
    {
        let mut index = UTXOSet { entries: Vec::new() };
        index.rebuild(blockchain);
        index
    }

    /// Scans the index for outputs of `pub_key_hash` until their total
    /// reaches `amount`. Returns the total with the outputs selected, each
    /// as transaction id and position. Fails with `InsufficientFunds` when
    /// the whole index does not hold enough, with `Overflow` when the total
    /// leaves the range of `u128`.
    pub fn find_spendable_outputs(&self, pub_key_hash: &[u8], amount: u128) -> (found: Result<
        (u128, Vec<(Vec<u8>, usize)>),
        LedgerError,
    >)
        ensures
            ({
                let (total, selected) = selection(self@, pub_key_hash@, amount, self@.len());
                match found {
                    Ok((sum, picked)) => {
                        &&& sum == total
                        &&& sum >= amount
                        &&& picked@.len() == selected.len()
                        &&& forall|i: int|
                            0 <= i < selected.len() ==> (#[trigger] picked@[i]).0@ == selected[i].0 && picked@[i].1
                                == selected[i].1
                    },
                    Err(e) => if total > u128::MAX {
                        e == LedgerError::Overflow
                    } else {
                        total < amount && e == LedgerError::InsufficientFunds
                    },
                }
            }),
    {
        let mut accumulated: u128 = 0;
        let mut picked: Vec<(Vec<u8>, usize)> = Vec::new();
        let mut i: usize = 0;
        while i < self.entries.len()
            invariant
                i <= self.entries@.len(),
                accumulated == selection(self@, pub_key_hash@, amount, i as nat).0,
                picked@.len() == selection(self@, pub_key_hash@, amount, i as nat).1.len(),
                forall|k: int|
                    0 <= k < picked@.len() ==> (#[trigger] picked@[k]).0@ == selection(
                        self@,
                        pub_key_hash@,
                        amount,
                        i as nat,
                    ).1[k].0 && picked@[k].1 == selection(self@, pub_key_hash@, amount, i as nat).1[k].1,
            decreases self.entries@.len() - i,
        {
            let entry = &self.entries[i];
            assert(self@[i as int] == entry@);
            if accumulated < amount && entry.output.belongs_to(pub_key_hash) {
                if entry.output.amount > u128::MAX - accumulated {
                    proof {
                        lemma_selection_grows(self@, pub_key_hash@, amount, (i + 1) as nat, self@.len());
                    }
                    return Err(LedgerError::Overflow);
                }
                accumulated = accumulated + entry.output.amount;
                picked.push((copy_bytes(entry.tx_id.as_slice()), entry.out_idx));
            }
            i = i + 1;
        }
        if accumulated >= amount {
            Ok((accumulated, picked))
        } else {
            Err(LedgerError::InsufficientFunds)
        }
    }

    /// The outputs of `pub_key_hash`, in scan order.
    pub fn find_utxo(&self, pub_key_hash: &[u8]) -> (outputs: Vec<TxOutput>)
        ensures
            crate::tx::output_views(outputs@) == owned(self@, pub_key_hash@, self@.len()),
    {
        let mut outputs: Vec<TxOutput> = Vec::new();
        let mut i: usize = 0;
        while i < self.entries.len()
            invariant
                i <= self.entries@.len(),
                crate::tx::output_views(outputs@) == owned(self@, pub_key_hash@, i as nat),
            decreases self.entries@.len() - i,
        {
            let entry = &self.entries[i];
            assert(self@[i as int] == entry@);
            if entry.output.belongs_to(pub_key_hash) {
                let ghost before = crate::tx::output_views(outputs@);
                outputs.push(entry.output.clone());
                assert(crate::tx::output_views(outputs@) =~= before.push(entry.output@));
            }
            i = i + 1;
        }
        outputs
    }

    /// What `pub_key_hash` owns: the sum over its unspent outputs. Fails with
    /// `Overflow` when the sum leaves the range of `u128`.
    pub fn balance(&self, pub_key_hash: &[u8]) -> (sum: Result<u128, LedgerError>)
        ensures
            match sum {
                Ok(s) => s == total_amount(owned(self@, pub_key_hash@, self@.len())),
                Err(e) => total_amount(owned(self@, pub_key_hash@, self@.len())) > u128::MAX && e
                    == LedgerError::Overflow,
            },
    {
        let outputs = self.find_utxo(pub_key_hash);
        let ghost views = crate::tx::output_views(outputs@);
        let mut sum: u128 = 0;
        let mut i: usize = 0;
        while i < outputs.len()
            invariant
                i <= outputs@.len(),
                views == crate::tx::output_views(outputs@),
                views == owned(self@, pub_key_hash@, self@.len()),
                sum == total_amount(views.take(i as int)),
            decreases outputs@.len() - i,
        {
            assert(views.take(i + 1).drop_last() =~= views.take(i as int));
            assert(views.take(i + 1).last() == outputs@[i as int]@);
            if outputs[i].amount > u128::MAX - sum {
                proof {
                    assert(total_amount(views.take(i + 1)) == sum + outputs@[i as int].amount);
                    lemma_total_grows(views, (i + 1) as int);
                }
                return Err(LedgerError::Overflow);
            }
            sum = sum + outputs[i].amount;
            i = i + 1;
        }
        assert(views.take(outputs@.len() as int) =~= views);
        Ok(sum)
    }

    /// The number of transactions that still have an unspent output.
    pub fn count_tx(&self) -> (count: u128)
        ensures
            count == transactions_among(self@, self@.len()),
    {
        let mut count: u128 = 0;
        let mut i: usize = 0;
        while i < self.entries.len()
            invariant
                i <= self.entries@.len(),
                count == transactions_among(self@, i as nat),
                count <= i,
            decreases self.entries@.len() - i,
        {
            let seen = self.seen(i);
            if !seen {
                count = count + 1;
            }
            i = i + 1;
        }
        count
    }

    /// Whether an earlier entry stands under the transaction id of the
    /// entry at `at`.
    fn seen(&self, at: usize) -> (seen: bool)
        requires
            at < self.entries@.len(),
        ensures
            seen == seen_before(self@, at as int),
    {
        let mut seen = false;
        let mut k: usize = 0;
        while k < at
            invariant
                k <= at < self.entries@.len(),
                seen == (exists|m: int| 0 <= m < k && (#[trigger] self@[m]).tx_id == self@[at as int].tx_id),
            decreases at - k,
        {
            assert(self@[k as int] == self.entries@[k as int]@);
            assert(self@[at as int] == self.entries@[at as int]@);
            if bytes_eq(self.entries[k].tx_id.as_slice(), self.entries[at].tx_id.as_slice()) {
                seen = true;
            }
            k = k + 1;
        }
        seen
    }

    /// The index as it is stored: one record for each transaction that has
    /// an unspent output, under the transaction's id.
    pub fn records(&self) -> (records: Vec<(Vec<u8>, TxOutputs)>)
        ensures
            record_views(records@) == records_among(self@, self@.len()),
    {
        let mut records: Vec<(Vec<u8>, TxOutputs)> = Vec::new();
        let mut i: usize = 0;
        assert(record_views(records@) =~= records_among(self@, 0));
        while i < self.entries.len()
            invariant
                i <= self.entries@.len(),
                record_views(records@) == records_among(self@, i as nat),
            decreases self.entries@.len() - i,
        {
            if !self.seen(i) {
                let ghost before = record_views(records@);
                let tx_id = copy_bytes(self.entries[i].tx_id.as_slice());
                let record = self.record(tx_id.as_slice());
                assert(self@[i as int] == self.entries@[i as int]@);
                records.push((tx_id, record));
                assert(record_views(records@) =~= before.push((tx_id@, record@)));
            }
            i = i + 1;
        }
        records
    }

    /// The index that stored records hold: the entries of each record, record
    /// after record.
    pub fn from_records(records: &Vec<(Vec<u8>, TxOutputs)>) -> (index: Self)
        ensures
            index@ == entries_of(record_views(records@)),
    {
        let ghost views = record_views(records@);
        let mut entries: Vec<Utxo> = Vec::new();
        let mut i: usize = 0;
        assert(views.take(0) =~= Seq::<(Seq<u8>, Seq<(usize, TxOutputView)>)>::empty());
        assert(utxo_views(entries@) =~= Seq::<UtxoView>::empty());
        while i < records.len()
            invariant
                i <= records@.len(),
                views == record_views(records@),
                utxo_views(entries@) == entries_of(views.take(i as int)),
            decreases records@.len() - i,
        {
            let record = &records[i];
            let ghost done = utxo_views(entries@);
            let ghost these = record_entries(record.0@, record.1@);
            assert(views.take(i + 1).drop_last() =~= views.take(i as int));
            assert(views.take(i + 1).last() == (record.0@, record.1@));
            let mut j: usize = 0;
            assert(done + these.take(0) =~= done);
            while j < record.1.outputs.len()
                invariant
                    j <= record.1.outputs@.len(),
                    these == record_entries(record.0@, record.1@),
                    utxo_views(entries@) == done + these.take(j as int),
                decreases record.1.outputs@.len() - j,
            {
                let ghost so_far = utxo_views(entries@);
                let placed = &record.1.outputs[j];
                let entry = Utxo {
                    tx_id: copy_bytes(record.0.as_slice()),
                    out_idx: placed.0,
                    output: placed.1.clone(),
                };
                assert(entry@ == these[j as int]);
                entries.push(entry);
                assert(utxo_views(entries@) =~= so_far.push(entry@));
                assert(done + these.take(j + 1) =~= (done + these.take(j as int)).push(entry@));
                j = j + 1;
            }
            assert(these.take(record.1.outputs@.len() as int) =~= these);
            i = i + 1;
        }
        assert(views.take(records@.len() as int) =~= views);
        UTXOSet { entries }
    }

    /// The surviving outputs of one transaction, each with its position.
    pub fn record(&self, tx_id: &[u8]) -> (record: TxOutputs)
        ensures
            record@ == record_of(self@, tx_id@, self@.len()),
    {
        let mut record = TxOutputs::default();
        let mut i: usize = 0;
        while i < self.entries.len()
            invariant
                i <= self.entries@.len(),
                record@ == record_of(self@, tx_id@, i as nat),
            decreases self.entries@.len() - i,
        {
            let entry = &self.entries[i];
            assert(self@[i as int] == entry@);
            if bytes_eq(entry.tx_id.as_slice(), tx_id) {
                record.push(entry.out_idx, entry.output.clone());
            }
            i = i + 1;
        }
        record
    }

    /// Applies one transaction: removes what it spends, overwrites what
    /// stood under its id, and adds all its outputs.
    pub fn apply(&mut self, tx: &Transaction)
        ensures
            final(self)@ == apply_tx(old(self)@, tx@),
            old(self).wf() ==> final(self).wf(),
    {
        let ghost before = self@;
        let added: usize = tx.outputs.len();
        proof {
            if keys_distinct(before) {
                assert(tx@.outputs.len() == added);
                lemma_apply_keeps_distinct(before, tx@);
            }
        }
        let mut kept: Vec<Utxo> = Vec::new();
        let mut i: usize = 0;
        assert(before.take(0) =~= Seq::<UtxoView>::empty());
        while i < self.entries.len()
            invariant
                i <= self.entries@.len(),
                self@ == before,
                utxo_views(kept@) == survivors(before.take(i as int), tx@),
            decreases self.entries@.len() - i,
        {
            let entry = &self.entries[i];
            assert(before[i as int] == entry@);
            assert(before.take(i + 1).drop_last() =~= before.take(i as int));
            assert(before.take(i + 1).last() == entry@);
            let gone = spent_by(tx, entry.tx_id.as_slice(), entry.out_idx) || bytes_eq(
                entry.tx_id.as_slice(),
                tx.id.as_slice(),
            );
            if !gone {
                let ghost so_far = utxo_views(kept@);
                kept.push(entry.clone());
                assert(utxo_views(kept@) =~= so_far.push(entry@));
            }
            i = i + 1;
        }
        assert(before.take(self.entries@.len() as int) =~= before);
        let ghost stayed = utxo_views(kept@);
        let mut j: usize = 0;
        while j < added
            invariant
                j <= added == tx.outputs@.len(),
                stayed == survivors(before, tx@),
                utxo_views(kept@) == stayed + outputs_of(tx@).take(j as int),
            decreases added - j,
        {
            let ghost so_far = utxo_views(kept@);
            let entry = Utxo {
                tx_id: copy_bytes(tx.id.as_slice()),
                out_idx: j,
                output: tx.outputs[j].clone(),
            };
            assert(entry@ == outputs_of(tx@)[j as int]);
            kept.push(entry);
            assert(utxo_views(kept@) =~= so_far.push(entry@));
            assert(stayed + outputs_of(tx@).take(j + 1) =~= (stayed + outputs_of(tx@).take(j as int)).push(
                entry@,
            ));
            j = j + 1;
        }
        assert(outputs_of(tx@).take(tx.outputs@.len() as int) =~= outputs_of(tx@));
        self.entries = kept;
    }

    /// Brings the index up to date with one more block: its transactions
    /// are applied in order.
    pub fn update(&mut self, block: &Block)
        ensures
            final(self)@ == apply_block(old(self)@, block@),
            old(self).wf() ==> final(self).wf(),
    {
        let ghost before = self@;
        let ghost txs = block@.transactions;
        let mut i: usize = 0;
        assert(txs.take(0) =~= Seq::<TransactionView>::empty());
        while i < block.transactions.len()
            invariant
                i <= block.transactions@.len(),
                txs == block@.transactions,
                self@ == apply_txs(before, txs.take(i as int)),
                keys_distinct(before) ==> self.wf(),
            decreases block.transactions@.len() - i,
        {
            assert(txs.take(i + 1).drop_last() =~= txs.take(i as int));
            assert(txs.take(i + 1).last() == block.transactions@[i as int]@);
            self.apply(&block.transactions[i]);
            i = i + 1;
        }
        assert(txs.take(block.transactions@.len() as int) =~= txs);
    }

    /// Drops every entry and replays the chain from its oldest block to its
    /// tip. Whatever the index held before has no part in the result.
    pub fn rebuild(&mut self, blockchain: &Blockchain)
        ensures
            final(self)@ == replay(blockchain.chain()),
            final(self).wf(),
    {
        self.entries = blockchain.find_utxos();
    }
}

/// The total of a selection never shrinks as the scan goes on.
pub proof fn lemma_selection_grows(entries: Seq<UtxoView>, owner: Seq<u8>, amount: u128, from: nat, to: nat)
    requires
        from <= to,
    ensures
        selection(entries, owner, amount, from).0 <= selection(entries, owner, amount, to).0,
    decreases to - from,
{
    if from < to {
        lemma_selection_grows(entries, owner, amount, from, (to - 1) as nat);
    }
}

/// The total of a prefix is no more than the total of the whole.
pub proof fn lemma_total_grows(outputs: Seq<TxOutputView>, n: int)
    requires
        0 <= n <= outputs.len(),
    ensures
        total_amount(outputs.take(n)) <= total_amount(outputs),
    decreases outputs.len() - n,
{
    if n < outputs.len() {
        lemma_total_grows(outputs, n + 1);
        assert(outputs.take(n + 1).drop_last() =~= outputs.take(n));
    } else {
        assert(outputs.take(n) =~= outputs);
    }
}

} // verus!
