//! Transactions: how they are named, trimmed for signing, signed input by
//! input, and verified.

use crate::blockchain::Blockchain;
use crate::digest::{sha256, sha256_digest};
use crate::error::LedgerError;
use crate::hexcode::{hex_encode, hex_encoding};
use crate::octets::{byte_rows, bytes_eq, copy_bytes};
use crate::text::{decimal, push_decimal};
use crate::signature::{ecdsa_public_key, ecdsa_signature, ecdsa_verifies, sign_message, verify_message};
use crate::tx::{
    input_views, inputs_encoding, inputs_fit, lemma_inputs_read_back, lemma_outputs_read_back, output_views,
    outputs_encoding, outputs_fit, put_inputs, put_outputs, read_inputs, read_outputs, take_inputs,
    take_outputs, TxInputView, TxOutputView,
};
pub use crate::tx::{TxInput, TxOutput};
use crate::utxo::{selection, UTXOSet, UtxoView};
use crate::wallet::Wallet;
use crate::wire::{
    bytes_bytes, bytes_fit, lemma_bytes_read_back, lemma_concat_assoc, lemma_skip_past,
    lemma_usize_reads_back, put_bytes, put_usize, read_bytes, read_usize, take_bytes, take_usize,
    usize_bytes,
};
use vstd::prelude::*;

verus! {

/// The reward a coinbase transaction issues.
pub const SUBSIDY: u128 = 100;

/// A transfer: outputs of earlier transactions in, new outputs out.
#[derive(Debug, PartialEq, Eq)]
pub struct Transaction {
    pub id: Vec<u8>,
    pub inputs: Vec<TxInput>,
    pub outputs: Vec<TxOutput>,
}

/// What a transaction is, as mathematics.
#[verifier::ext_equal]
pub struct TransactionView {
    pub id: Seq<u8>,
    pub inputs: Seq<TxInputView>,
    pub outputs: Seq<TxOutputView>,
}

impl View for Transaction {
    type V = TransactionView;

    open spec fn view(&self) -> TransactionView {
        TransactionView {
            id: self.id@,
            inputs: input_views(self.inputs@),
            outputs: output_views(self.outputs@),
        }
    }
}

/// The views of a list of transactions.
pub open spec fn tx_views(txs: Seq<Transaction>) -> Seq<TransactionView> {
    Seq::new(txs.len(), |i: int| txs[i]@)
}

/// The canonical bytes of a transaction: its id, its inputs, its outputs.
#[verifier::opaque]
pub open spec fn transaction_encoding(tx: TransactionView) -> Seq<u8> {
    bytes_bytes(tx.id) + inputs_encoding(tx.inputs) + outputs_encoding(tx.outputs)
}

/// The transaction that stands at `at`, with the position after it.
#[verifier::opaque]
pub open spec fn read_transaction(bytes: Seq<u8>, at: nat) -> Option<(TransactionView, nat)> {
    match read_bytes(bytes, at) {
        None => None,
        Some((id, a)) => match read_inputs(bytes, a) {
            None => None,
            Some((inputs, b)) => match read_outputs(bytes, b) {
                None => None,
                Some((outputs, c)) => Some((TransactionView { id, inputs, outputs }, c)),
            },
        },
    }
}

/// Appends the encoding of a transaction.
pub fn put_transaction(out: &mut Vec<u8>, tx: &Transaction)
    ensures
        final(out)@ == old(out)@ + transaction_encoding(tx@),
{
    proof {
        reveal(transaction_encoding);
    }
    put_bytes(out, tx.id.as_slice());
    put_inputs(out, &tx.inputs);
    put_outputs(out, &tx.outputs);
    proof {
        let before = old(out)@;
        let a = bytes_bytes(tx.id@);
        let b = inputs_encoding(tx@.inputs);
        let c = outputs_encoding(tx@.outputs);
        lemma_concat_assoc(before, a, b);
        lemma_concat_assoc(before, a + b, c);
    }
}

/// Reads the transaction that stands at `at`.
pub fn take_transaction(src: &[u8], at: usize) -> (found: Option<(Transaction, usize)>)
    ensures
        match found {
            Some((tx, next)) => read_transaction(src@, at as nat) == Some((tx@, next as nat)) && at <= next
                <= src@.len(),
            None => read_transaction(src@, at as nat).is_none(),
        },
{
    proof {
        reveal(read_transaction);
    }
    let (id, a) = match take_bytes(src, at) {
        None => {
            return None;
        },
        Some(read) => read,
    };
    let (inputs, b) = match take_inputs(src, a) {
        None => {
            return None;
        },
        Some(read) => read,
    };
    let (outputs, c) = match take_outputs(src, b) {
        None => {
            return None;
        },
        Some(read) => read,
    };
    Some((Transaction { id, inputs, outputs }, c))
}

/// The encodings of transactions, one after the other.
pub open spec fn transaction_run_encoding(items: Seq<TransactionView>) -> Seq<u8>
    decreases items.len(),
{
    if items.len() == 0 {
        Seq::empty()
    } else {
        transaction_run_encoding(items.drop_last()) + transaction_encoding(items.last())
    }
}

/// A list of transactions as it is encoded: its length, then its items.
pub open spec fn transactions_encoding(items: Seq<TransactionView>) -> Seq<u8> {
    usize_bytes(items.len() as usize) + transaction_run_encoding(items)
}

/// The `count` transactions that stand one after the other from `at` on, with
/// the position after them.
pub open spec fn read_transaction_run(bytes: Seq<u8>, at: nat, count: nat) -> Option<(Seq<TransactionView>, nat)>
    decreases count,
{
    if count == 0 {
        Some((Seq::empty(), at))
    } else {
        match read_transaction_run(bytes, at, (count - 1) as nat) {
            None => None,
            Some((head, next)) => match read_transaction(bytes, next) {
                None => None,
                Some((last, after)) => Some((head.push(last), after)),
            },
        }
    }
}

/// The list of transactions that stands at `at`, with the position after it.
pub open spec fn read_transactions(bytes: Seq<u8>, at: nat) -> Option<(Seq<TransactionView>, nat)> {
    match read_usize(bytes, at) {
        None => None,
        Some((count, next)) => read_transaction_run(bytes, next, count as nat),
    }
}

/// Where fewer transactions cannot be read, more cannot either.
pub proof fn lemma_read_transaction_run_stops(bytes: Seq<u8>, at: nat, fewer: nat, more: nat)
    requires
        fewer <= more,
        read_transaction_run(bytes, at, fewer).is_none(),
    ensures
        read_transaction_run(bytes, at, more).is_none(),
    decreases more - fewer,
{
    if fewer < more {
        lemma_read_transaction_run_stops(bytes, at, fewer, (more - 1) as nat);
    }
}

/// Appends the encoding of a list of transactions.
pub fn put_transactions(out: &mut Vec<u8>, items: &Vec<Transaction>)
    ensures
        final(out)@ == old(out)@ + transactions_encoding(tx_views(items@)),
{
    let ghost before = out@;
    let ghost all = tx_views(items@);
    put_usize(out, items.len());
    let ghost head = out@;
    let mut i: usize = 0;
    assert(all.take(0) =~= Seq::<TransactionView>::empty());
    assert(out@ =~= head + transaction_run_encoding(all.take(0)));
    while i < items.len()
        invariant
            i <= items@.len(),
            all == tx_views(items@),
            out@ == head + transaction_run_encoding(all.take(i as int)),
        decreases items@.len() - i,
    {
        assert(all.take(i + 1).drop_last() =~= all.take(i as int));
        assert(all.take(i + 1).last() == items@[i as int]@);
        put_transaction(out, &items[i]);
        assert(out@ =~= head + transaction_run_encoding(all.take(i + 1)));
        i = i + 1;
    }
    assert(all.take(items@.len() as int) =~= all);
    assert(out@ =~= before + transactions_encoding(all));
}

/// Reads the list of transactions that stands at `at`.
pub fn take_transactions(src: &[u8], at: usize) -> (found: Option<(Vec<Transaction>, usize)>)
    ensures
        match found {
            Some((items, next)) => read_transactions(src@, at as nat) == Some((tx_views(items@), next as nat)) && at
                <= next <= src@.len(),
            None => read_transactions(src@, at as nat).is_none(),
        },
{
    let (count, start) = match take_usize(src, at) {
        None => {
            return None;
        },
        Some(read) => read,
    };
    let mut items: Vec<Transaction> = Vec::new();
    let mut next: usize = start;
    let mut i: usize = 0;
    assert(tx_views(items@) =~= Seq::<TransactionView>::empty());
    while i < count
        invariant
            i <= count,
            at <= start <= next <= src@.len(),
            read_usize(src@, at as nat) == Some((count, start as nat)),
            read_transaction_run(src@, start as nat, i as nat) == Some((tx_views(items@), next as nat)),
        decreases count - i,
    {
        let ghost so_far = tx_views(items@);
        match take_transaction(src, next) {
            None => {
                proof {
                    assert(read_transaction_run(src@, start as nat, (i + 1) as nat).is_none());
                    lemma_read_transaction_run_stops(src@, start as nat, (i + 1) as nat, count as nat);
                }
                return None;
            },
            Some((item, after)) => {
                items.push(item);
                assert(tx_views(items@) =~= so_far.push(item@));
                next = after;
            },
        }
        i = i + 1;
    }
    Some((items, next))
}

/// The canonical bytes of a transaction.
pub fn encode_transaction(tx: &Transaction) -> (bytes: Vec<u8>)
    ensures
        bytes@ == transaction_encoding(tx@),
{
    let mut bytes: Vec<u8> = Vec::new();
    put_transaction(&mut bytes, tx);
    assert(bytes@ =~= transaction_encoding(tx@));
    bytes
}

/// What marks the single input of a coinbase transaction in place of a key.
pub open spec fn coinbase_tag() -> Seq<u8> {
    seq![67u8, 111u8, 105u8, 110u8, 98u8, 97u8, 115u8, 101u8]
}

/// A coinbase transaction has exactly one input, and that input names no
/// earlier transaction.
pub open spec fn is_coinbase_view(tx: TransactionView) -> bool {
    tx.inputs.len() == 1 && tx.inputs[0].tx_id.len() == 0
}

/// The transaction with its id replaced by the digest of its encoding.
pub open spec fn with_id(tx: TransactionView) -> TransactionView {
    TransactionView { id: sha256(transaction_encoding(tx)), ..tx }
}

/// The coinbase transaction that pays the reward to `owner`.
pub open spec fn coinbase_view(owner: Seq<u8>) -> TransactionView {
    with_id(
        TransactionView {
            id: Seq::empty(),
            inputs: seq![
                TxInputView { tx_id: Seq::empty(), out_idx: 0, sig: Seq::empty(), pub_key: coinbase_tag() },
            ],
            outputs: seq![TxOutputView { amount: SUBSIDY, pub_key_hash: owner }],
        },
    )
}

/// An input with its signature and key cleared.
pub open spec fn trimmed_input(input: TxInputView) -> TxInputView {
    TxInputView { sig: Seq::empty(), pub_key: Seq::empty(), ..input }
}

/// The copy that is signed: every input's signature and key cleared.
pub open spec fn trimmed(tx: TransactionView) -> TransactionView {
    TransactionView {
        inputs: Seq::new(tx.inputs.len(), |i: int| trimmed_input(tx.inputs[i])),
        ..tx
    }
}

/// The trimmed copy in which input `i` alone carries, in place of a key, the
/// owner of the output it spends.
pub open spec fn signing_form(tx: TransactionView, i: int, owner: Seq<u8>) -> TransactionView {
    TransactionView {
        inputs: trimmed(tx).inputs.update(i, TxInputView { pub_key: owner, ..trimmed_input(tx.inputs[i]) }),
        ..tx
    }
}

/// The digest that the signature of input `i` is made over.
pub open spec fn signing_digest(tx: TransactionView, i: int, owner: Seq<u8>) -> Seq<u8> {
    sha256(transaction_encoding(signing_form(tx, i, owner)))
}

/// The first of `prev_txs` with the given id.
pub open spec fn prior_of(prev_txs: Seq<TransactionView>, tx_id: Seq<u8>) -> Option<TransactionView>
    decreases prev_txs.len(),
{
    if prev_txs.len() == 0 {
        None
    } else if prev_txs[0].id == tx_id {
        Some(prev_txs[0])
    } else {
        prior_of(prev_txs.drop_first(), tx_id)
    }
}

/// Whether every input's earlier transaction is among `prev_txs`.
pub open spec fn priors_known(tx: TransactionView, prev_txs: Seq<TransactionView>) -> bool {
    forall|i: int| 0 <= i < tx.inputs.len() ==> prior_of(prev_txs, (#[trigger] tx.inputs[i]).tx_id).is_some()
}

/// The owner of the output that an input spends.
pub open spec fn referenced_owner(prev_txs: Seq<TransactionView>, input: TxInputView) -> Result<
    Seq<u8>,
    LedgerError,
> {
    match prior_of(prev_txs, input.tx_id) {
        None => Err(LedgerError::UnknownPriorTransaction),
        Some(prior) => if input.out_idx < prior.outputs.len() {
            Ok(prior.outputs[input.out_idx as int].pub_key_hash)
        } else {
            Err(LedgerError::UnknownPriorOutput)
        },
    }
}

/// The signature that `private_key` gives input `i`.
pub open spec fn input_signature(
    tx: TransactionView,
    private_key: Seq<u8>,
    prev_txs: Seq<TransactionView>,
    i: int,
) -> Result<Seq<u8>, LedgerError> {
    match referenced_owner(prev_txs, tx.inputs[i]) {
        Err(e) => Err(e),
        Ok(owner) => match ecdsa_signature(private_key, signing_digest(tx, i, owner)) {
            None => Err(LedgerError::InvalidKey),
            Some(signature) => Ok(signature),
        },
    }
}

/// The signatures of the first `n` inputs, or the failure of the first input
/// that cannot be signed.
pub open spec fn signatures_upto(
    tx: TransactionView,
    private_key: Seq<u8>,
    prev_txs: Seq<TransactionView>,
    n: nat,
) -> Result<Seq<Seq<u8>>, LedgerError>
    decreases n,
{
    if n == 0 {
        Ok(Seq::empty())
    } else {
        match signatures_upto(tx, private_key, prev_txs, (n - 1) as nat) {
            Err(e) => Err(e),
            Ok(signatures) => match input_signature(tx, private_key, prev_txs, n - 1) {
                Err(e) => Err(e),
                Ok(signature) => Ok(signatures.push(signature)),
            },
        }
    }
}

/// The transaction with input `i` carrying `signatures[i]`.
pub open spec fn with_signatures(tx: TransactionView, signatures: Seq<Seq<u8>>) -> TransactionView {
    TransactionView {
        inputs: Seq::new(tx.inputs.len(), |i: int| TxInputView { sig: signatures[i], ..tx.inputs[i] }),
        ..tx
    }
}

/// What signing does: it fails when an earlier transaction is missing, else
/// at the first input that cannot be signed, else every input gets its
/// signature.
pub open spec fn sign_outcome(
    tx: TransactionView,
    private_key: Seq<u8>,
    prev_txs: Seq<TransactionView>,
) -> Result<TransactionView, LedgerError> {
    if !priors_known(tx, prev_txs) {
        Err(LedgerError::UnknownPriorTransaction)
    } else {
        match signatures_upto(tx, private_key, prev_txs, tx.inputs.len()) {
            Err(e) => Err(e),
            Ok(signatures) => Ok(with_signatures(tx, signatures)),
        }
    }
}

/// Whether the key that input `i` carries accepts the signature that
/// `private_key` makes for that input.
pub open spec fn own_signature_accepted(
    tx: TransactionView,
    private_key: Seq<u8>,
    prev_txs: Seq<TransactionView>,
    i: int,
) -> bool {
    referenced_owner(prev_txs, tx.inputs[i]) matches Ok(owner) ==> (ecdsa_signature(
        private_key,
        signing_digest(tx, i, owner),
    ) matches Some(signature) ==> ecdsa_verifies(tx.inputs[i].pub_key, signing_digest(tx, i, owner), signature))
}

/// Whether `signature` verifies, under the public key of `private_key`, for
/// the digest of input `i`.
pub open spec fn verifies_under_key(
    tx: TransactionView,
    private_key: Seq<u8>,
    prev_txs: Seq<TransactionView>,
    i: int,
    signature: Seq<u8>,
) -> bool {
    &&& referenced_owner(prev_txs, tx.inputs[i]) matches Ok(owner)
    &&& ecdsa_public_key(private_key) matches Some(public_key)
    &&& ecdsa_verifies(public_key, signing_digest(tx, i, owner), signature)
}

/// Whether input `i` carries a signature that its own key accepts for its
/// digest.
pub open spec fn input_verifies(tx: TransactionView, i: int, owner: Seq<u8>) -> bool {
    ecdsa_verifies(tx.inputs[i].pub_key, signing_digest(tx, i, owner), tx.inputs[i].sig)
}

/// Verification of the inputs from `i` on: an input whose output is missing
/// stops it with a failure, one whose signature is wrong with `false`.
pub open spec fn verify_from(tx: TransactionView, prev_txs: Seq<TransactionView>, i: nat) -> Result<
    bool,
    LedgerError,
>
    decreases tx.inputs.len() - i,
{
    if i >= tx.inputs.len() {
        Ok(true)
    } else {
        match referenced_owner(prev_txs, tx.inputs[i as int]) {
            Err(e) => Err(e),
            Ok(owner) => if input_verifies(tx, i as int, owner) {
                verify_from(tx, prev_txs, i + 1)
            } else {
                Ok(false)
            },
        }
    }
}

/// What verification answers: a coinbase transaction is valid as it stands;
/// any other needs every earlier transaction and a valid signature on every
/// input.
pub open spec fn verify_outcome(tx: TransactionView, prev_txs: Seq<TransactionView>) -> Result<
    bool,
    LedgerError,
> {
    if is_coinbase_view(tx) {
        Ok(true)
    } else if !priors_known(tx, prev_txs) {
        Err(LedgerError::UnknownPriorTransaction)
    } else {
        verify_from(tx, prev_txs, 0)
    }
}

/// One input for each selected output, carrying the spender's key and no
/// signature yet.
pub open spec fn inputs_for(selected: Seq<(Seq<u8>, usize)>, pub_key: Seq<u8>) -> Seq<TxInputView> {
    Seq::new(
        selected.len(),
        |i: int| TxInputView { tx_id: selected[i].0, out_idx: selected[i].1, sig: Seq::empty(), pub_key },
    )
}

/// The outputs of a transfer: the amount to the receiver and, when the
/// inputs hold more, the difference back to the sender.
pub open spec fn outputs_for(amount: u128, total: nat, receiver: Seq<u8>, sender: Seq<u8>) -> Seq<TxOutputView> {
    if total > amount {
        seq![
            TxOutputView { amount, pub_key_hash: receiver },
            TxOutputView { amount: (total - amount) as u128, pub_key_hash: sender },
        ]
    } else {
        seq![TxOutputView { amount, pub_key_hash: receiver }]
    }
}

/// The transfer before it is signed, named by the digest of its encoding.
pub open spec fn unsigned_transfer(
    selected: Seq<(Seq<u8>, usize)>,
    total: nat,
    pub_key: Seq<u8>,
    amount: u128,
    receiver: Seq<u8>,
) -> TransactionView {
    with_id(
        TransactionView {
            id: Seq::empty(),
            inputs: inputs_for(selected, pub_key),
            outputs: outputs_for(amount, total, receiver, crate::address::pub_key_hash(pub_key)),
        },
    )
}

/// What making a transfer gives: the receiver's address must name an owner,
/// the sender's unspent outputs in `index` must reach `amount`, and the
/// transfer built over the selected outputs must take the sender's
/// signatures.
pub open spec fn transfer_outcome(
    pub_key: Seq<u8>,
    private_key: Seq<u8>,
    to: Seq<char>,
    amount: u128,
    index: Seq<UtxoView>,
    chain_txs: Seq<TransactionView>,
) -> Result<TransactionView, LedgerError> {
    match crate::address::address_owner(to) {
        None => Err(LedgerError::DecodeError),
        Some(receiver) => {
            let (total, selected) = selection(index, crate::address::pub_key_hash(pub_key), amount, index.len());
            if total > u128::MAX {
                Err(LedgerError::Overflow)
            } else if total < amount {
                Err(LedgerError::InsufficientFunds)
            } else {
                sign_outcome(unsigned_transfer(selected, total, pub_key, amount, receiver), private_key, chain_txs)
            }
        },
    }
}

/// How an input reads when a transaction is shown.
pub open spec fn input_text(idx: nat, input: TxInputView) -> Seq<char> {
    "    Input "@ + decimal(idx) + ":"@ + "        Tx ID:      "@ + hex_encoding(input.tx_id)
        + "        Out:        "@ + decimal(input.out_idx as nat) + "        Signature:  "@ + hex_encoding(
        input.sig,
    ) + "        Scipt:      "@ + hex_encoding(input.pub_key)
}

/// How an output reads when a transaction is shown.
pub open spec fn output_text(idx: nat, output: TxOutputView) -> Seq<char> {
    "    Output  "@ + decimal(idx) + ":"@ + "        Value: "@ + decimal(output.amount as nat)
        + "        Script: "@ + hex_encoding(output.pub_key_hash)
}

/// How the first `n` inputs read, one after the other.
pub open spec fn inputs_text(inputs: Seq<TxInputView>, n: nat) -> Seq<char>
    decreases n,
{
    if n == 0 {
        Seq::empty()
    } else {
        inputs_text(inputs, (n - 1) as nat) + input_text((n - 1) as nat, inputs[n - 1])
    }
}

/// How the first `n` outputs read, one after the other.
pub open spec fn outputs_text(outputs: Seq<TxOutputView>, n: nat) -> Seq<char>
    decreases n,
{
    if n == 0 {
        Seq::empty()
    } else {
        outputs_text(outputs, (n - 1) as nat) + output_text((n - 1) as nat, outputs[n - 1])
    }
}

/// How a transaction reads when it is shown: its id, its inputs, its
/// outputs.
pub open spec fn transaction_text(tx: TransactionView) -> Seq<char> {
    "--- Transaction "@ + hex_encoding(tx.id) + ":"@ + inputs_text(tx.inputs, tx.inputs.len()) + outputs_text(
        tx.outputs,
        tx.outputs.len(),
    )
}

/// How an input reads when a transaction is shown.
pub fn input_line(idx: usize, input: &TxInput) -> (line: String)
    ensures
        line@ == input_text(idx as nat, input@),
{
    let mut line = "    Input ".to_owned();
    push_decimal(&mut line, idx as u128);
    line.append(":");
    line.append("        Tx ID:      ");
    line.append(hex_encode(input.tx_id.as_slice()).as_str());
    line.append("        Out:        ");
    push_decimal(&mut line, input.out_idx as u128);
    line.append("        Signature:  ");
    line.append(hex_encode(input.sig.as_slice()).as_str());
    line.append("        Scipt:      ");
    line.append(hex_encode(input.pub_key.as_slice()).as_str());
    line
}

/// How an output reads when a transaction is shown.
pub fn output_line(idx: usize, output: &TxOutput) -> (line: String)
    ensures
        line@ == output_text(idx as nat, output@),
{
    let mut line = "    Output  ".to_owned();
    push_decimal(&mut line, idx as u128);
    line.append(":");
    line.append("        Value: ");
    push_decimal(&mut line, output.amount);
    line.append("        Script: ");
    line.append(hex_encode(output.pub_key_hash.as_slice()).as_str());
    line
}

/// Looks a transaction up by id among `prev_txs`.
pub fn find_prior<'a>(prev_txs: &'a Vec<Transaction>, tx_id: &[u8]) -> (found: Option<&'a Transaction>)
    ensures
        match found {
            Some(prior) => prior_of(tx_views(prev_txs@), tx_id@) == Some(prior@),
            None => prior_of(tx_views(prev_txs@), tx_id@).is_none(),
        },
{
    let ghost all = tx_views(prev_txs@);
    assert(all.skip(0) =~= all);
    let mut i: usize = 0;
    while i < prev_txs.len()
        invariant
            i <= prev_txs@.len(),
            all == tx_views(prev_txs@),
            prior_of(all, tx_id@) == prior_of(all.skip(i as int), tx_id@),
        decreases prev_txs@.len() - i,
    {
        assert(all.skip(i as int)[0] == prev_txs@[i as int]@);
        assert(all.skip(i as int).drop_first() =~= all.skip(i + 1));
        if bytes_eq(prev_txs[i].id.as_slice(), tx_id) {
            return Some(&prev_txs[i]);
        }
        i = i + 1;
    }
    None
}

/// Looks up the owner of the output that `input` spends.
pub fn owner_of<'a>(prev_txs: &'a Vec<Transaction>, input: &TxInput) -> (owner: Result<
    &'a Vec<u8>,
    LedgerError,
>)
    ensures
        match owner {
            Ok(o) => referenced_owner(tx_views(prev_txs@), input@) == Ok::<Seq<u8>, LedgerError>(o@),
            Err(e) => referenced_owner(tx_views(prev_txs@), input@) == Err::<Seq<u8>, LedgerError>(e),
        },
{
    match find_prior(prev_txs, input.tx_id.as_slice()) {
        None => Err(LedgerError::UnknownPriorTransaction),
        Some(prior) => if input.out_idx < prior.outputs.len() {
            Ok(&prior.outputs[input.out_idx].pub_key_hash)
        } else {
            Err(LedgerError::UnknownPriorOutput)
        },
    }
}

/// Once an input fails, so does every longer prefix.
pub proof fn lemma_signatures_fail_on(
    tx: TransactionView,
    private_key: Seq<u8>,
    prev_txs: Seq<TransactionView>,
    at: nat,
    n: nat,
)
    requires
        at <= n,
        signatures_upto(tx, private_key, prev_txs, at).is_err(),
    ensures
        signatures_upto(tx, private_key, prev_txs, n) == signatures_upto(tx, private_key, prev_txs, at),
    decreases n - at,
{
    if at < n {
        lemma_signatures_fail_on(tx, private_key, prev_txs, at, (n - 1) as nat);
    }
}

/// Sign, then verify: when signing succeeds on a transaction that is no
/// coinbase, each signature verifies under the key of its input, and every
/// input carries the public key of the private key that signed, then the
/// signed transaction verifies against the same earlier transactions.
pub proof fn law_sign_then_verify(
    tx: TransactionView,
    private_key: Seq<u8>,
    prev_txs: Seq<TransactionView>,
)
    requires
        !is_coinbase_view(tx),
        sign_outcome(tx, private_key, prev_txs).is_ok(),
        forall|i: int| 0 <= i < tx.inputs.len() ==> #[trigger] own_signature_accepted(tx, private_key, prev_txs, i),
    ensures
        verify_outcome(sign_outcome(tx, private_key, prev_txs).unwrap(), prev_txs) == Ok::<
            bool,
            LedgerError,
        >(true),
{
    let signed = sign_outcome(tx, private_key, prev_txs).unwrap();
    let signatures = signatures_upto(tx, private_key, prev_txs, tx.inputs.len()).unwrap();
    lemma_signatures_shape(tx, private_key, prev_txs, tx.inputs.len());
    assert(priors_known(signed, prev_txs)) by {
        assert forall|i: int| 0 <= i < signed.inputs.len() implies prior_of(
            prev_txs,
            (#[trigger] signed.inputs[i]).tx_id,
        ).is_some() by {
            assert(signed.inputs[i].tx_id == tx.inputs[i].tx_id);
        }
    }
    lemma_verify_signed(tx, private_key, prev_txs, signatures, 0);
}

/// The signatures of the first `n` inputs are `n` in number, and each is the
/// signature of its input.
pub proof fn lemma_signatures_shape(
    tx: TransactionView,
    private_key: Seq<u8>,
    prev_txs: Seq<TransactionView>,
    n: nat,
)
    requires
        signatures_upto(tx, private_key, prev_txs, n).is_ok(),
    ensures
        signatures_upto(tx, private_key, prev_txs, n).unwrap().len() == n,
        forall|i: int|
            0 <= i < n ==> input_signature(tx, private_key, prev_txs, i) == Ok::<Seq<u8>, LedgerError>(
                #[trigger] signatures_upto(tx, private_key, prev_txs, n).unwrap()[i],
            ),
    decreases n,
{
    if n > 0 {
        lemma_signatures_shape(tx, private_key, prev_txs, (n - 1) as nat);
    }
}

/// Signing and verifying look at the same digest: neither the signatures nor
/// the keys of a transaction enter it.
pub proof fn lemma_digest_ignores_signatures(
    tx: TransactionView,
    signatures: Seq<Seq<u8>>,
    i: int,
    owner: Seq<u8>,
)
    requires
        0 <= i < tx.inputs.len(),
    ensures
        signing_digest(with_signatures(tx, signatures), i, owner) == signing_digest(tx, i, owner),
{
    let signed = with_signatures(tx, signatures);
    assert(trimmed(signed).inputs =~= trimmed(tx).inputs);
    assert(signing_form(signed, i, owner) =~= signing_form(tx, i, owner));
}

/// From input `i` on, a transaction that carries the signatures made for it
/// verifies.
proof fn lemma_verify_signed(
    tx: TransactionView,
    private_key: Seq<u8>,
    prev_txs: Seq<TransactionView>,
    signatures: Seq<Seq<u8>>,
    i: nat,
)
    requires
        i <= tx.inputs.len(),
        signatures.len() == tx.inputs.len(),
        forall|k: int|
            0 <= k < tx.inputs.len() ==> input_signature(tx, private_key, prev_txs, k) == Ok::<
                Seq<u8>,
                LedgerError,
            >(#[trigger] signatures[k]),
        forall|k: int| 0 <= k < tx.inputs.len() ==> #[trigger] own_signature_accepted(tx, private_key, prev_txs, k),
    ensures
        verify_from(with_signatures(tx, signatures), prev_txs, i) == Ok::<bool, LedgerError>(true),
    decreases tx.inputs.len() - i,
{
    let signed = with_signatures(tx, signatures);
    if i < tx.inputs.len() {
        let k = i as int;
        assert(input_signature(tx, private_key, prev_txs, k) == Ok::<Seq<u8>, LedgerError>(signatures[k]));
        let owner = referenced_owner(prev_txs, tx.inputs[k]).unwrap();
        assert(referenced_owner(prev_txs, signed.inputs[k]) == Ok::<Seq<u8>, LedgerError>(owner));
        lemma_digest_ignores_signatures(tx, signatures, k, owner);
        assert(ecdsa_signature(private_key, signing_digest(tx, k, owner)) == Some(signatures[k]));
        assert(own_signature_accepted(tx, private_key, prev_txs, k));
        assert(input_verifies(signed, k, owner));
        lemma_verify_signed(tx, private_key, prev_txs, signatures, i + 1);
    }
}

impl Clone for Transaction {
    fn clone(&self) -> (copy: Self)
        ensures
            copy@ == self@,
    {
        let mut inputs: Vec<TxInput> = Vec::new();
        let mut i: usize = 0;
        while i < self.inputs.len()
            invariant
                i <= self.inputs@.len(),
                inputs@.len() == i,
                forall|k: int| 0 <= k < i ==> (#[trigger] inputs@[k])@ == self.inputs@[k]@,
            decreases self.inputs@.len() - i,
        {
            inputs.push(self.inputs[i].clone());
            i = i + 1;
        }
        let mut outputs: Vec<TxOutput> = Vec::new();
        let mut j: usize = 0;
        while j < self.outputs.len()
            invariant
                j <= self.outputs@.len(),
                outputs@.len() == j,
                forall|k: int| 0 <= k < j ==> (#[trigger] outputs@[k])@ == self.outputs@[k]@,
            decreases self.outputs@.len() - j,
        {
            outputs.push(self.outputs[j].clone());
            j = j + 1;
        }
        let copy = Transaction { id: copy_bytes(self.id.as_slice()), inputs, outputs };
        assert(copy@.inputs =~= self@.inputs);
        assert(copy@.outputs =~= self@.outputs);
        copy
    }
}

impl Transaction {
    /// Makes the transfer of `amount` from the wallet `from` to the address
    /// `to`: one input for each output selected from `utxo_set`, the amount
    /// to the receiver, the rest back to the sender; named, then signed
    /// against the chain's transactions. Where the wallet is well formed the
    /// transfer verifies against the chain.
    pub fn new(from: &Wallet, to: &str, amount: u128, utxo_set: &UTXOSet, blockchain: &Blockchain) -> (tx: Result<
        Self,
        LedgerError,
    >)
        ensures
            match tx {
                Ok(t) => transfer_outcome(
                    from.pub_key@,
                    from.priv_key@,
                    to@,
                    amount,
                    utxo_set@,
                    blockchain.transactions(),
                ) == Ok::<TransactionView, LedgerError>(t@),
                Err(e) => transfer_outcome(
                    from.pub_key@,
                    from.priv_key@,
                    to@,
                    amount,
                    utxo_set@,
                    blockchain.transactions(),
                ) == Err::<TransactionView, LedgerError>(e),
            },
            tx.is_ok() && from.wf() ==> verify_outcome(tx.unwrap()@, blockchain.transactions()) == Ok::<
                bool,
                LedgerError,
            >(true),
    {
        let receiver = match crate::address::decode_address(to) {
            Err(e) => {
                return Err(e);
            },
            Ok(hash) => hash,
        };
        let sender = from.owner();
        let (total, picked) = match utxo_set.find_spendable_outputs(sender.as_slice(), amount) {
            Err(e) => {
                return Err(e);
            },
            Ok(found) => found,
        };
        let ghost selected = selection(utxo_set@, sender@, amount, utxo_set@.len()).1;
        let mut inputs: Vec<TxInput> = Vec::new();
        let mut i: usize = 0;
        while i < picked.len()
            invariant
                i <= picked@.len(),
                picked@.len() == selected.len(),
                forall|k: int|
                    0 <= k < selected.len() ==> (#[trigger] picked@[k]).0@ == selected[k].0 && picked@[k].1
                        == selected[k].1,
                inputs@.len() == i,
                forall|k: int| 0 <= k < i ==> (#[trigger] inputs@[k])@ == inputs_for(selected, from.pub_key@)[k],
            decreases picked@.len() - i,
        {
            inputs.push(
                TxInput::new(
                    copy_bytes(picked[i].0.as_slice()),
                    picked[i].1,
                    copy_bytes(from.pub_key.as_slice()),
                    Vec::new(),
                ),
            );
            i = i + 1;
        }
        let mut outputs: Vec<TxOutput> = Vec::new();
        outputs.push(TxOutput { amount, pub_key_hash: receiver });
        if total > amount {
            outputs.push(TxOutput { amount: total - amount, pub_key_hash: sender });
        }
        let mut tx = Transaction { id: Vec::new(), inputs, outputs };
        proof {
            assert(tx@.inputs =~= inputs_for(selected, from.pub_key@));
            assert(tx@.outputs =~= outputs_for(
                amount,
                total as nat,
                receiver@,
                crate::address::pub_key_hash(from.pub_key@),
            ));
        }
        tx.set_id();
        let ghost unsigned = tx@;
        match blockchain.sign_transaction(&mut tx, from.priv_key.as_slice()) {
            Err(e) => Err(e),
            Ok(_) => {
                proof {
                    if from.wf() && is_coinbase_view(unsigned) {
                        assert(tx@.inputs[0].tx_id == unsigned.inputs[0].tx_id);
                    }
                }
                Ok(tx)
            },
        }
    }

    /// The transaction as text, for showing it.
    pub fn to_text(&self) -> (text: String)
        ensures
            text@ == transaction_text(self@),
    {
        let mut text = "--- Transaction ".to_owned();
        text.append(hex_encode(self.id.as_slice()).as_str());
        text.append(":");
        let ghost head = text@;
        let mut i: usize = 0;
        assert(text@ =~= head + inputs_text(self@.inputs, 0));
        while i < self.inputs.len()
            invariant
                i <= self.inputs@.len(),
                text@ == head + inputs_text(self@.inputs, i as nat),
            decreases self.inputs@.len() - i,
        {
            let line = input_line(i, &self.inputs[i]);
            assert(self@.inputs[i as int] == self.inputs@[i as int]@);
            proof {
                crate::text::lemma_join_assoc(head, inputs_text(self@.inputs, i as nat), line@);
            }
            text.append(line.as_str());
            i = i + 1;
        }
        let ghost middle = text@;
        let mut j: usize = 0;
        assert(text@ =~= middle + outputs_text(self@.outputs, 0));
        while j < self.outputs.len()
            invariant
                j <= self.outputs@.len(),
                text@ == middle + outputs_text(self@.outputs, j as nat),
            decreases self.outputs@.len() - j,
        {
            let line = output_line(j, &self.outputs[j]);
            assert(self@.outputs[j as int] == self.outputs@[j as int]@);
            proof {
                crate::text::lemma_join_assoc(middle, outputs_text(self@.outputs, j as nat), line@);
            }
            text.append(line.as_str());
            j = j + 1;
        }
        proof {
            crate::text::lemma_join_assoc(
                head,
                inputs_text(self@.inputs, self@.inputs.len()),
                outputs_text(self@.outputs, self@.outputs.len()),
            );
        }
        text
    }

    /// Names the transaction by the digest of its encoding as it stands.
    pub fn set_id(&mut self)
        ensures
            final(self)@ == with_id(old(self)@),
    {
        let encoded = encode_transaction(self);
        self.id = sha256_digest(encoded.as_slice());
    }

    /// Whether this is a coinbase transaction: one input, and that one
    /// without an earlier transaction.
    pub fn is_coinbase(&self) -> (coinbase: bool)
        ensures
            coinbase == is_coinbase_view(self@),
    {
        self.inputs.len() == 1 && self.inputs[0].tx_id.len() == 0
    }

    /// The transaction that issues the reward to the owner that `to` names.
    /// Fails with `DecodeError` when the address names none.
    pub fn coinbase_tx(to: String) -> (tx: Result<Self, LedgerError>)
        ensures
            match tx {
                Ok(t) => crate::address::address_owner(to@) matches Some(owner) && t@ == coinbase_view(
                    owner,
                ),
                Err(e) => crate::address::address_owner(to@).is_none() && e == LedgerError::DecodeError,
            },
    {
        let tag: Vec<u8> = vec![67u8, 111u8, 105u8, 110u8, 98u8, 97u8, 115u8, 101u8];
        assert(tag@ =~= coinbase_tag());
        let input = TxInput::new(Vec::new(), 0, tag, Vec::new());
        match TxOutput::new(SUBSIDY, to) {
            Err(e) => Err(e),
            Ok(output) => {
                let mut tx = Transaction { id: Vec::new(), inputs: vec![input], outputs: vec![output] };
                assert(tx@.inputs =~= seq![input@]);
                assert(tx@.outputs =~= seq![output@]);
                tx.set_id();
                Ok(tx)
            },
        }
    }

    /// The copy that signatures are made over: every input's signature and
    /// key cleared, all else kept.
    pub fn trimmed_copy(&self) -> (copy: Self)
        ensures
            copy@ == trimmed(self@),
    {
        let mut inputs: Vec<TxInput> = Vec::new();
        let mut i: usize = 0;
        while i < self.inputs.len()
            invariant
                i <= self.inputs@.len(),
                inputs@.len() == i,
                forall|k: int| 0 <= k < i ==> (#[trigger] inputs@[k])@ == trimmed_input(self.inputs@[k]@),
            decreases self.inputs@.len() - i,
        {
            let input = &self.inputs[i];
            inputs.push(
                TxInput {
                    tx_id: copy_bytes(input.tx_id.as_slice()),
                    out_idx: input.out_idx,
                    sig: Vec::new(),
                    pub_key: Vec::new(),
                },
            );
            i = i + 1;
        }
        let whole = self.clone();
        let copy = Transaction { id: whole.id, inputs, outputs: whole.outputs };
        assert(copy@.inputs =~= trimmed(self@).inputs);
        copy
    }

    /// The digest that the signature of input `i` covers, given the owner of
    /// the output it spends.
    pub fn input_digest(&self, i: usize, owner: &[u8]) -> (digest: Vec<u8>)
        requires
            i < self.inputs@.len(),
        ensures
            digest@ == signing_digest(self@, i as int, owner@),
    {
        let trimmed_tx = self.trimmed_copy();
        let mut inputs: Vec<TxInput> = Vec::new();
        let mut k: usize = 0;
        while k < trimmed_tx.inputs.len()
            invariant
                k <= trimmed_tx.inputs@.len(),
                trimmed_tx@ == trimmed(self@),
                i < self.inputs@.len(),
                inputs@.len() == k,
                forall|j: int|
                    0 <= j < k ==> (#[trigger] inputs@[j])@ == signing_form(self@, i as int, owner@).inputs[j],
            decreases trimmed_tx.inputs@.len() - k,
        {
            let input = &trimmed_tx.inputs[k];
            assert(input@ == trimmed(self@).inputs[k as int]);
            let pub_key = if k == i {
                copy_bytes(owner)
            } else {
                Vec::new()
            };
            inputs.push(
                TxInput { tx_id: copy_bytes(input.tx_id.as_slice()), out_idx: input.out_idx, sig: Vec::new(), pub_key },
            );
            k = k + 1;
        }
        let form = Transaction { id: trimmed_tx.id, inputs, outputs: trimmed_tx.outputs };
        assert(form@.inputs =~= signing_form(self@, i as int, owner@).inputs);
        assert(form@ =~= signing_form(self@, i as int, owner@));
        let encoded = encode_transaction(&form);
        sha256_digest(encoded.as_slice())
    }

    /// Signs every input with `private_key`, each over its own digest of the
    /// trimmed copy. `prev_txs` holds the transactions whose outputs are
    /// spent. On failure nothing is changed.
    ///
    /// Every signature stored verifies under the public key of `private_key`;
    /// so where every input carries that key and the transaction is no
    /// coinbase, the signed transaction verifies.
    pub fn sign(&mut self, private_key: &[u8], prev_txs: &Vec<Transaction>) -> (done: Result<(), LedgerError>)
        ensures
            match done {
                Ok(_) => sign_outcome(old(self)@, private_key@, tx_views(prev_txs@)) == Ok::<
                    TransactionView,
                    LedgerError,
                >(final(self)@),
                Err(e) => sign_outcome(old(self)@, private_key@, tx_views(prev_txs@)) == Err::<
                    TransactionView,
                    LedgerError,
                >(e) && *final(self) == *old(self),
            },
            done.is_ok() && !is_coinbase_view(old(self)@) && (forall|i: int|
                0 <= i < old(self)@.inputs.len() ==> Some((#[trigger] old(self)@.inputs[i]).pub_key)
                    == ecdsa_public_key(private_key@)) ==> verify_outcome(final(self)@, tx_views(prev_txs@))
                == Ok::<bool, LedgerError>(true),
    {
        let ghost before = self@;
        let ghost prevs = tx_views(prev_txs@);
        let count: usize = self.inputs.len();
        let mut i: usize = 0;
        while i < count
            invariant
                i <= count,
                count == self.inputs@.len(),
                self@ == before,
                *self == *old(self),
                prevs == tx_views(prev_txs@),
                forall|k: int| 0 <= k < i ==> prior_of(prevs, (#[trigger] before.inputs[k]).tx_id).is_some(),
            decreases count - i,
        {
            assert(before.inputs[i as int] == self.inputs@[i as int]@);
            if find_prior(prev_txs, self.inputs[i].tx_id.as_slice()).is_none() {
                return Err(LedgerError::UnknownPriorTransaction);
            }
            i = i + 1;
        }
        assert(priors_known(before, prevs));
        let mut signatures: Vec<Vec<u8>> = Vec::new();
        assert(byte_rows(signatures@) =~= Seq::<Seq<u8>>::empty());
        let mut j: usize = 0;
        while j < count
            invariant
                j <= count,
                count == self.inputs@.len(),
                self@ == before,
                *self == *old(self),
                priors_known(before, prevs),
                prevs == tx_views(prev_txs@),
                signatures@.len() == j,
                signatures_upto(before, private_key@, prevs, j as nat) == Ok::<Seq<Seq<u8>>, LedgerError>(
                    byte_rows(signatures@),
                ),
                forall|k: int|
                    0 <= k < j ==> verifies_under_key(before, private_key@, prevs, k, (#[trigger] signatures@[k])@),
            decreases count - j,
        {
            assert(before.inputs[j as int] == self.inputs@[j as int]@);
            let outcome = match owner_of(prev_txs, &self.inputs[j]) {
                Err(e) => Err(e),
                Ok(owner) => {
                    let digest = self.input_digest(j, owner.as_slice());
                    match sign_message(private_key, digest.as_slice()) {
                        None => Err(LedgerError::InvalidKey),
                        Some(signature) => Ok(signature),
                    }
                },
            };
            match outcome {
                Err(e) => {
                    proof {
                        assert(input_signature(before, private_key@, prevs, j as int) == Err::<
                            Seq<u8>,
                            LedgerError,
                        >(e));
                        assert(signatures_upto(before, private_key@, prevs, (j + 1) as nat) == Err::<
                            Seq<Seq<u8>>,
                            LedgerError,
                        >(e));
                        lemma_signatures_fail_on(before, private_key@, prevs, (j + 1) as nat, count as nat);
                    }
                    return Err(e);
                },
                Ok(signature) => {
                    proof {
                        assert(input_signature(before, private_key@, prevs, j as int) == Ok::<
                            Seq<u8>,
                            LedgerError,
                        >(signature@));
                        assert(byte_rows(signatures@.push(signature)) =~= byte_rows(signatures@).push(
                            signature@,
                        ));
                    }
                    signatures.push(signature);
                },
            }
            j = j + 1;
        }
        let mut inputs: Vec<TxInput> = Vec::new();
        let mut k: usize = 0;
        while k < count
            invariant
                k <= count,
                count == self.inputs@.len(),
                self@ == before,
                signatures@.len() == count,
                inputs@.len() == k,
                forall|m: int|
                    0 <= m < k ==> (#[trigger] inputs@[m])@ == with_signatures(
                        before,
                        byte_rows(signatures@),
                    ).inputs[m],
            decreases count - k,
        {
            let input = &self.inputs[k];
            assert(before.inputs[k as int] == input@);
            inputs.push(
                TxInput {
                    tx_id: copy_bytes(input.tx_id.as_slice()),
                    out_idx: input.out_idx,
                    sig: copy_bytes(signatures[k].as_slice()),
                    pub_key: copy_bytes(input.pub_key.as_slice()),
                },
            );
            k = k + 1;
        }
        self.inputs = inputs;
        proof {
            let ghost stored = byte_rows(signatures@);
            assert(self@.inputs =~= with_signatures(before, stored).inputs);
            assert(self@ =~= with_signatures(before, stored));
            if !is_coinbase_view(before) && (forall|i: int|
                0 <= i < before.inputs.len() ==> Some((#[trigger] before.inputs[i]).pub_key) == ecdsa_public_key(
                    private_key@,
                )) {
                lemma_signatures_shape(before, private_key@, prevs, count as nat);
                assert forall|i: int| 0 <= i < before.inputs.len() implies #[trigger] own_signature_accepted(
                    before,
                    private_key@,
                    prevs,
                    i,
                ) by {
                    assert(input_signature(before, private_key@, prevs, i) == Ok::<Seq<u8>, LedgerError>(
                        stored[i],
                    ));
                    assert(verifies_under_key(before, private_key@, prevs, i, signatures@[i]@));
                    assert(Some(before.inputs[i].pub_key) == ecdsa_public_key(private_key@));
                }
                law_sign_then_verify(before, private_key@, prevs);
            }
        }
        Ok(())
    }

    /// Verifies every input's signature over its digest of the trimmed copy,
    /// under the input's own key. `prev_txs` holds the transactions whose
    /// outputs are spent. A coinbase transaction is valid as it stands.
    pub fn verity(&self, prev_txs: &Vec<Transaction>) -> (valid: Result<bool, LedgerError>)
        ensures
            valid == verify_outcome(self@, tx_views(prev_txs@)),
    {
        if self.is_coinbase() {
            return Ok(true);
        }
        let ghost prevs = tx_views(prev_txs@);
        let count: usize = self.inputs.len();
        let mut i: usize = 0;
        while i < count
            invariant
                i <= count,
                count == self.inputs@.len(),
                !is_coinbase_view(self@),
                prevs == tx_views(prev_txs@),
                forall|k: int| 0 <= k < i ==> prior_of(prevs, (#[trigger] self@.inputs[k]).tx_id).is_some(),
            decreases count - i,
        {
            assert(self@.inputs[i as int] == self.inputs@[i as int]@);
            if find_prior(prev_txs, self.inputs[i].tx_id.as_slice()).is_none() {
                return Err(LedgerError::UnknownPriorTransaction);
            }
            i = i + 1;
        }
        assert(priors_known(self@, prevs));
        let mut j: usize = 0;
        while j < count
            invariant
                j <= count,
                count == self.inputs@.len(),
                !is_coinbase_view(self@),
                priors_known(self@, prevs),
                prevs == tx_views(prev_txs@),
                verify_from(self@, prevs, 0) == verify_from(self@, prevs, j as nat),
            decreases count - j,
        {
            let input = &self.inputs[j];
            assert(self@.inputs[j as int] == input@);
            match owner_of(prev_txs, input) {
                Err(e) => {
                    return Err(e);
                },
                Ok(owner) => {
                    let digest = self.input_digest(j, owner.as_slice());
                    if !verify_message(input.pub_key.as_slice(), digest.as_slice(), input.sig.as_slice()) {
                        return Ok(false);
                    }
                },
            }
            j = j + 1;
        }
        Ok(true)
    }
}

/// Whether a transaction can be encoded: its id, its inputs and its
/// outputs fit.
pub open spec fn transaction_fits(tx: TransactionView) -> bool {
    bytes_fit(tx.id) && inputs_fit(tx.inputs) && outputs_fit(tx.outputs)
}

/// An encoded transaction reads back, wherever it stands.
pub proof fn lemma_transaction_reads_back(bytes: Seq<u8>, at: nat, value: TransactionView, rest: Seq<u8>)
    requires
        at <= bytes.len(),
        bytes.skip(at as int) == transaction_encoding(value) + rest,
        transaction_fits(value),
    ensures
        read_transaction(bytes, at) == Some((value, (at + transaction_encoding(value).len()) as nat)),
{
    reveal(transaction_encoding);
    reveal(read_transaction);
    let a = bytes_bytes(value.id);
    let b = inputs_encoding(value.inputs);
    let c = outputs_encoding(value.outputs);
    let past_b = c + rest;
    let past_a = b + past_b;
    let at_b = (at + a.len()) as nat;
    let at_c = (at_b + b.len()) as nat;
    lemma_concat_assoc(a + b, c, rest);
    lemma_concat_assoc(a, b, past_b);
    lemma_bytes_read_back(bytes, at, value.id, past_a);
    lemma_skip_past(bytes, at, a, past_a);
    lemma_inputs_read_back(bytes, at_b, value.inputs, past_b);
    lemma_skip_past(bytes, at_b, b, past_b);
    lemma_outputs_read_back(bytes, at_c, value.outputs, rest);
    lemma_skip_past(bytes, at_c, c, rest);
}

/// Whether a list of transactions can be encoded: its length and every item
/// fit.
pub open spec fn transactions_fit(items: Seq<TransactionView>) -> bool {
    &&& items.len() <= usize::MAX
    &&& forall|i: int| 0 <= i < items.len() ==> transaction_fits(#[trigger] items[i])
}

/// Encoded transactions read back one after the other, wherever they stand.
pub proof fn lemma_transaction_run_reads_back(bytes: Seq<u8>, at: nat, items: Seq<TransactionView>, rest: Seq<u8>)
    requires
        at <= bytes.len(),
        bytes.skip(at as int) == transaction_run_encoding(items) + rest,
        forall|i: int| 0 <= i < items.len() ==> transaction_fits(#[trigger] items[i]),
    ensures
        read_transaction_run(bytes, at, items.len()) == Some((items, (at + transaction_run_encoding(items).len()) as nat)),
    decreases items.len(),
{
    if items.len() == 0 {
        assert(items =~= Seq::<TransactionView>::empty());
        assert(transaction_run_encoding(items) =~= Seq::<u8>::empty());
    } else {
        let head = items.drop_last();
        let last = items.last();
        assert forall|i: int| 0 <= i < head.len() implies transaction_fits(#[trigger] head[i]) by {
            assert(head[i] == items[i]);
        }
        assert(transaction_fits(items[items.len() - 1]));
        lemma_concat_assoc(transaction_run_encoding(head), transaction_encoding(last), rest);
        lemma_transaction_run_reads_back(bytes, at, head, transaction_encoding(last) + rest);
        lemma_skip_past(bytes, at, transaction_run_encoding(head), transaction_encoding(last) + rest);
        lemma_transaction_reads_back(bytes, (at + transaction_run_encoding(head).len()) as nat, last, rest);
        assert(head.push(last) =~= items);
    }
}

/// An encoded list of transactions reads back, wherever it stands.
pub proof fn lemma_transactions_read_back(bytes: Seq<u8>, at: nat, items: Seq<TransactionView>, rest: Seq<u8>)
    requires
        at <= bytes.len(),
        bytes.skip(at as int) == transactions_encoding(items) + rest,
        transactions_fit(items),
    ensures
        read_transactions(bytes, at) == Some((items, (at + transactions_encoding(items).len()) as nat)),
{
    let count = items.len() as usize;
    lemma_concat_assoc(usize_bytes(count), transaction_run_encoding(items), rest);
    lemma_usize_reads_back(bytes, at, count, transaction_run_encoding(items) + rest);
    lemma_skip_past(bytes, at, usize_bytes(count), transaction_run_encoding(items) + rest);
    lemma_transaction_run_reads_back(bytes, (at + usize_bytes(count).len()) as nat, items, rest);
}


/// The encoding tells transactions apart: two transactions with the same
/// bytes are the same transaction. So any change to a transaction changes
/// what its id and its signatures are digests of.
pub proof fn law_encoding_tells_transactions_apart(first: TransactionView, second: TransactionView)
    requires
        transaction_fits(first),
        transaction_fits(second),
        transaction_encoding(first) == transaction_encoding(second),
    ensures
        first == second,
{
    let bytes = transaction_encoding(first);
    assert(bytes.skip(0) =~= bytes + Seq::<u8>::empty());
    lemma_transaction_reads_back(bytes, 0, first, Seq::empty());
    lemma_transaction_reads_back(bytes, 0, second, Seq::empty());
}

} // verus!
