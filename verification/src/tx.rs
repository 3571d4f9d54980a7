//! Inputs and outputs, the two halves of a transfer.

use crate::address::{address_owner, decode_address, hash_pub_key};
use crate::error::LedgerError;
use crate::octets::{bytes_eq, copy_bytes};
use crate::wire::{
    bytes_bytes, bytes_fit, lemma_bytes_read_back, lemma_concat_assoc, lemma_skip_past,
    lemma_u128_reads_back, lemma_usize_reads_back, put_bytes, put_u128, put_usize, read_bytes, read_u128,
    read_usize, take_bytes, take_u128, take_usize, u128_bytes, usize_bytes,
};
use vstd::prelude::*;

verus! {

/// A reference to one output of an earlier transaction, with what unlocks it.
#[derive(Debug, PartialEq, Eq)]
pub struct TxInput {
    pub tx_id: Vec<u8>,
    pub out_idx: usize,
    pub sig: Vec<u8>,
    pub pub_key: Vec<u8>,
}

/// An amount locked to the owner of a public-key hash.
#[derive(Debug, PartialEq, Eq)]
pub struct TxOutput {
    pub amount: u128,
    pub pub_key_hash: Vec<u8>,
}

/// The outputs of one transaction that nothing has spent yet, each with the
/// position it has in that transaction.
#[derive(Debug, PartialEq, Eq)]
pub struct TxOutputs {
    pub outputs: Vec<(usize, TxOutput)>,
}

/// What an input is, as mathematics.
#[verifier::ext_equal]
pub struct TxInputView {
    pub tx_id: Seq<u8>,
    pub out_idx: usize,
    pub sig: Seq<u8>,
    pub pub_key: Seq<u8>,
}

/// What an output is, as mathematics.
#[verifier::ext_equal]
pub struct TxOutputView {
    pub amount: u128,
    pub pub_key_hash: Seq<u8>,
}

impl View for TxInput {
    type V = TxInputView;

    open spec fn view(&self) -> TxInputView {
        TxInputView { tx_id: self.tx_id@, out_idx: self.out_idx, sig: self.sig@, pub_key: self.pub_key@ }
    }
}

impl View for TxOutput {
    type V = TxOutputView;

    open spec fn view(&self) -> TxOutputView {
        TxOutputView { amount: self.amount, pub_key_hash: self.pub_key_hash@ }
    }
}

/// An input as it is encoded: its fields in order.
#[verifier::opaque]
pub open spec fn input_encoding(input: TxInputView) -> Seq<u8> {
    bytes_bytes(input.tx_id) + usize_bytes(input.out_idx) + bytes_bytes(input.sig) + bytes_bytes(input.pub_key)
}

/// An output as it is encoded: its fields in order.
#[verifier::opaque]
pub open spec fn output_encoding(output: TxOutputView) -> Seq<u8> {
    u128_bytes(output.amount) + bytes_bytes(output.pub_key_hash)
}

/// An output with its position as it is encoded: the position, then the
/// output.
#[verifier::opaque]
pub open spec fn placed_encoding(placed: (usize, TxOutputView)) -> Seq<u8> {
    usize_bytes(placed.0) + output_encoding(placed.1)
}

/// The input that stands at `at`, with the position after it.
#[verifier::opaque]
pub open spec fn read_input(bytes: Seq<u8>, at: nat) -> Option<(TxInputView, nat)> {
    match read_bytes(bytes, at) {
        None => None,
        Some((tx_id, a)) => match read_usize(bytes, a) {
            None => None,
            Some((out_idx, b)) => match read_bytes(bytes, b) {
                None => None,
                Some((sig, c)) => match read_bytes(bytes, c) {
                    None => None,
                    Some((pub_key, d)) => Some((TxInputView { tx_id, out_idx, sig, pub_key }, d)),
                },
            },
        },
    }
}

/// The output that stands at `at`, with the position after it.
#[verifier::opaque]
pub open spec fn read_output(bytes: Seq<u8>, at: nat) -> Option<(TxOutputView, nat)> {
    match read_u128(bytes, at) {
        None => None,
        Some((amount, a)) => match read_bytes(bytes, a) {
            None => None,
            Some((pub_key_hash, b)) => Some((TxOutputView { amount, pub_key_hash }, b)),
        },
    }
}

/// The output with its position that stands at `at`, with the position
/// after it.
#[verifier::opaque]
pub open spec fn read_placed(bytes: Seq<u8>, at: nat) -> Option<((usize, TxOutputView), nat)> {
    match read_usize(bytes, at) {
        None => None,
        Some((out_idx, a)) => match read_output(bytes, a) {
            None => None,
            Some((output, b)) => Some(((out_idx, output), b)),
        },
    }
}

/// The views of a list of inputs.
pub open spec fn input_views(inputs: Seq<TxInput>) -> Seq<TxInputView> {
    Seq::new(inputs.len(), |i: int| inputs[i]@)
}

/// The views of a list of outputs.
pub open spec fn output_views(outputs: Seq<TxOutput>) -> Seq<TxOutputView> {
    Seq::new(outputs.len(), |i: int| outputs[i]@)
}

/// The views of a list of outputs that carry their positions.
pub open spec fn placed_views(outputs: Seq<(usize, TxOutput)>) -> Seq<(usize, TxOutputView)> {
    Seq::new(outputs.len(), |i: int| (outputs[i].0, outputs[i].1@))
}

impl View for TxOutputs {
    type V = Seq<(usize, TxOutputView)>;

    open spec fn view(&self) -> Seq<(usize, TxOutputView)> {
        placed_views(self.outputs@)
    }
}

/// A full list of outputs, each at its own position.
pub open spec fn placed(outputs: Seq<TxOutputView>) -> Seq<(usize, TxOutputView)> {
    Seq::new(outputs.len(), |i: int| (i as usize, outputs[i]))
}

impl Clone for TxInput {
    fn clone(&self) -> (copy: Self)
        ensures
            copy@ == self@,
    {
        TxInput {
            tx_id: copy_bytes(self.tx_id.as_slice()),
            out_idx: self.out_idx,
            sig: copy_bytes(self.sig.as_slice()),
            pub_key: copy_bytes(self.pub_key.as_slice()),
        }
    }
}

impl Clone for TxOutput {
    fn clone(&self) -> (copy: Self)
        ensures
            copy@ == self@,
    {
        TxOutput { amount: self.amount, pub_key_hash: copy_bytes(self.pub_key_hash.as_slice()) }
    }
}

impl TxOutputs {
    /// The record of a transaction none of whose outputs is spent: every
    /// output, at its own position.
    pub fn new(outputs: Vec<TxOutput>) -> (record: Self)
        ensures
            record@ == placed(output_views(outputs@)),
    {
        let mut placed_outputs: Vec<(usize, TxOutput)> = Vec::new();
        let mut i: usize = 0;
        while i < outputs.len()
            invariant
                i <= outputs@.len(),
                placed_outputs@.len() == i,
                forall|k: int|
                    0 <= k < i ==> (#[trigger] placed_outputs@[k]).0 == k && placed_outputs@[k].1@
                        == outputs@[k]@,
            decreases outputs@.len() - i,
        {
            placed_outputs.push((i, outputs[i].clone()));
            i = i + 1;
        }
        let record = TxOutputs { outputs: placed_outputs };
        assert(record@ =~= placed(output_views(outputs@)));
        record
    }

    /// Adds an output that stands at `out_idx` in its transaction.
    pub fn push(&mut self, out_idx: usize, output: TxOutput)
        ensures
            final(self)@ == old(self)@.push((out_idx, output@)),
    {
        self.outputs.push((out_idx, output));
        assert(self@ =~= old(self)@.push((out_idx, output@)));
    }
}

impl Default for TxOutputs {
    fn default() -> (record: Self)
        ensures
            record@ == Seq::<(usize, TxOutputView)>::empty(),
    {
        let record = TxOutputs { outputs: Vec::new() };
        assert(record@ =~= Seq::<(usize, TxOutputView)>::empty());
        record
    }
}

impl TxOutput {
    /// An output of `amount` locked to the owner that `address` names. Fails
    /// with `DecodeError` when the address names none.
    pub fn new(amount: u128, address: String) -> (output: Result<Self, LedgerError>)
        ensures
            match output {
                Ok(o) => address_owner(address@) == Some(o.pub_key_hash@) && o.amount
                    == amount,
                Err(e) => address_owner(address@).is_none() && e == LedgerError::DecodeError,
            },
    {
        match decode_address(address.as_str()) {
            Ok(hash) => Ok(TxOutput { amount, pub_key_hash: hash }),
            Err(e) => Err(e),
        }
    }

    /// Whether the output is locked to `pub_key_hash`.
    pub fn belongs_to(&self, pub_key_hash: &[u8]) -> (owned: bool)
        ensures
            owned == (self.pub_key_hash@ == pub_key_hash@),
    {
        bytes_eq(self.pub_key_hash.as_slice(), pub_key_hash)
    }
}

impl TxInput {
    /// The input that spends output `out_idx` of transaction `tx_id`.
    pub fn new(tx_id: Vec<u8>, out_idx: usize, pub_key: Vec<u8>, sig: Vec<u8>) -> (input: Self)
        ensures
            input.tx_id == tx_id,
            input.out_idx == out_idx,
            input.pub_key == pub_key,
            input.sig == sig,
    {
        TxInput { tx_id, out_idx, sig, pub_key }
    }

    /// Whether the key that unlocks this input hashes to `pub_key_hash`.
    pub fn spent_by(&self, pub_key_hash: &[u8]) -> (spent: bool)
        ensures
            spent == (crate::address::pub_key_hash(self.pub_key@) == pub_key_hash@),
    {
        let own = hash_pub_key(self.pub_key.as_slice());
        bytes_eq(own.as_slice(), pub_key_hash)
    }
}

/// Appends the encoding of an input.
pub fn put_input(out: &mut Vec<u8>, input: &TxInput)
    ensures
        final(out)@ == old(out)@ + input_encoding(input@),
{
    proof {
        reveal(input_encoding);
    }
    put_bytes(out, input.tx_id.as_slice());
    put_usize(out, input.out_idx);
    put_bytes(out, input.sig.as_slice());
    put_bytes(out, input.pub_key.as_slice());
    proof {
        let before = old(out)@;
        let a = bytes_bytes(input.tx_id@);
        let b = usize_bytes(input.out_idx);
        let c = bytes_bytes(input.sig@);
        let d = bytes_bytes(input.pub_key@);
        lemma_concat_assoc(before, a, b);
        lemma_concat_assoc(before, a + b, c);
        lemma_concat_assoc(before, a + b + c, d);
    }
}

/// Appends the encoding of an output.
pub fn put_output(out: &mut Vec<u8>, output: &TxOutput)
    ensures
        final(out)@ == old(out)@ + output_encoding(output@),
{
    proof {
        reveal(output_encoding);
    }
    put_u128(out, output.amount);
    put_bytes(out, output.pub_key_hash.as_slice());
    proof {
        let before = old(out)@;
        let a = u128_bytes(output.amount);
        let b = bytes_bytes(output.pub_key_hash@);
        lemma_concat_assoc(before, a, b);
    }
}

/// Appends the encoding of an output with its position.
pub fn put_placed(out: &mut Vec<u8>, placed: &(usize, TxOutput))
    ensures
        final(out)@ == old(out)@ + placed_encoding((placed.0, placed.1@)),
{
    proof {
        reveal(placed_encoding);
    }
    put_usize(out, placed.0);
    put_output(out, &placed.1);
    proof {
        let before = old(out)@;
        let a = usize_bytes(placed.0);
        let b = output_encoding(placed.1@);
        lemma_concat_assoc(before, a, b);
    }
}

/// Reads the input that stands at `at`.
pub fn take_input(src: &[u8], at: usize) -> (found: Option<(TxInput, usize)>)
    ensures
        match found {
            Some((input, next)) => read_input(src@, at as nat) == Some((input@, next as nat)) && at <= next
                <= src@.len(),
            None => read_input(src@, at as nat).is_none(),
        },
{
    proof {
        reveal(read_input);
    }
    let (tx_id, a) = match take_bytes(src, at) {
        None => {
            return None;
        },
        Some(read) => read,
    };
    let (out_idx, b) = match take_usize(src, a) {
        None => {
            return None;
        },
        Some(read) => read,
    };
    let (sig, c) = match take_bytes(src, b) {
        None => {
            return None;
        },
        Some(read) => read,
    };
    let (pub_key, d) = match take_bytes(src, c) {
        None => {
            return None;
        },
        Some(read) => read,
    };
    Some((TxInput { tx_id, out_idx, sig, pub_key }, d))
}

/// Reads the output that stands at `at`.
pub fn take_output(src: &[u8], at: usize) -> (found: Option<(TxOutput, usize)>)
    ensures
        match found {
            Some((output, next)) => read_output(src@, at as nat) == Some((output@, next as nat)) && at <= next
                <= src@.len(),
            None => read_output(src@, at as nat).is_none(),
        },
{
    proof {
        reveal(read_output);
    }
    let (amount, a) = match take_u128(src, at) {
        None => {
            return None;
        },
        Some(read) => read,
    };
    let (pub_key_hash, b) = match take_bytes(src, a) {
        None => {
            return None;
        },
        Some(read) => read,
    };
    Some((TxOutput { amount, pub_key_hash }, b))
}

/// Reads the output with its position that stands at `at`.
pub fn take_placed(src: &[u8], at: usize) -> (found: Option<((usize, TxOutput), usize)>)
    ensures
        match found {
            Some((placed, next)) => read_placed(src@, at as nat) == Some(((placed.0, placed.1@), next as nat)) && at
                <= next <= src@.len(),
            None => read_placed(src@, at as nat).is_none(),
        },
{
    proof {
        reveal(read_placed);
    }
    let (out_idx, a) = match take_usize(src, at) {
        None => {
            return None;
        },
        Some(read) => read,
    };
    let (output, b) = match take_output(src, a) {
        None => {
            return None;
        },
        Some(read) => read,
    };
    Some(((out_idx, output), b))
}

/// The encodings of inputs, one after the other.
pub open spec fn input_run_encoding(items: Seq<TxInputView>) -> Seq<u8>
    decreases items.len(),
{
    if items.len() == 0 {
        Seq::empty()
    } else {
        input_run_encoding(items.drop_last()) + input_encoding(items.last())
    }
}

/// A list of inputs as it is encoded: its length, then its items.
pub open spec fn inputs_encoding(items: Seq<TxInputView>) -> Seq<u8> {
    usize_bytes(items.len() as usize) + input_run_encoding(items)
}

/// The `count` inputs that stand one after the other from `at` on, with
/// the position after them.
pub open spec fn read_input_run(bytes: Seq<u8>, at: nat, count: nat) -> Option<(Seq<TxInputView>, nat)>
    decreases count,
{
    if count == 0 {
        Some((Seq::empty(), at))
    } else {
        match read_input_run(bytes, at, (count - 1) as nat) {
            None => None,
            Some((head, next)) => match read_input(bytes, next) {
                None => None,
                Some((last, after)) => Some((head.push(last), after)),
            },
        }
    }
}

/// The list of inputs that stands at `at`, with the position after it.
pub open spec fn read_inputs(bytes: Seq<u8>, at: nat) -> Option<(Seq<TxInputView>, nat)> {
    match read_usize(bytes, at) {
        None => None,
        Some((count, next)) => read_input_run(bytes, next, count as nat),
    }
}

/// Where fewer inputs cannot be read, more cannot either.
pub proof fn lemma_read_input_run_stops(bytes: Seq<u8>, at: nat, fewer: nat, more: nat)
    requires
        fewer <= more,
        read_input_run(bytes, at, fewer).is_none(),
    ensures
        read_input_run(bytes, at, more).is_none(),
    decreases more - fewer,
{
    if fewer < more {
        lemma_read_input_run_stops(bytes, at, fewer, (more - 1) as nat);
    }
}

/// Appends the encoding of a list of inputs.
pub fn put_inputs(out: &mut Vec<u8>, items: &Vec<TxInput>)
    ensures
        final(out)@ == old(out)@ + inputs_encoding(input_views(items@)),
{
    let ghost before = out@;
    let ghost all = input_views(items@);
    put_usize(out, items.len());
    let ghost head = out@;
    let mut i: usize = 0;
    assert(all.take(0) =~= Seq::<TxInputView>::empty());
    assert(out@ =~= head + input_run_encoding(all.take(0)));
    while i < items.len()
        invariant
            i <= items@.len(),
            all == input_views(items@),
            out@ == head + input_run_encoding(all.take(i as int)),
        decreases items@.len() - i,
    {
        assert(all.take(i + 1).drop_last() =~= all.take(i as int));
        assert(all.take(i + 1).last() == items@[i as int]@);
        put_input(out, &items[i]);
        assert(out@ =~= head + input_run_encoding(all.take(i + 1)));
        i = i + 1;
    }
    assert(all.take(items@.len() as int) =~= all);
    assert(out@ =~= before + inputs_encoding(all));
}

/// Reads the list of inputs that stands at `at`.
pub fn take_inputs(src: &[u8], at: usize) -> (found: Option<(Vec<TxInput>, usize)>)
    ensures
        match found {
            Some((items, next)) => read_inputs(src@, at as nat) == Some((input_views(items@), next as nat)) && at
                <= next <= src@.len(),
            None => read_inputs(src@, at as nat).is_none(),
        },
{
    let (count, start) = match take_usize(src, at) {
        None => {
            return None;
        },
        Some(read) => read,
    };
    let mut items: Vec<TxInput> = Vec::new();
    let mut next: usize = start;
    let mut i: usize = 0;
    assert(input_views(items@) =~= Seq::<TxInputView>::empty());
    while i < count
        invariant
            i <= count,
            at <= start <= next <= src@.len(),
            read_usize(src@, at as nat) == Some((count, start as nat)),
            read_input_run(src@, start as nat, i as nat) == Some((input_views(items@), next as nat)),
        decreases count - i,
    {
        let ghost so_far = input_views(items@);
        match take_input(src, next) {
            None => {
                proof {
                    assert(read_input_run(src@, start as nat, (i + 1) as nat).is_none());
                    lemma_read_input_run_stops(src@, start as nat, (i + 1) as nat, count as nat);
                }
                return None;
            },
            Some((item, after)) => {
                items.push(item);
                assert(input_views(items@) =~= so_far.push(item@));
                next = after;
            },
        }
        i = i + 1;
    }
    Some((items, next))
}

/// The encodings of outputs, one after the other.
pub open spec fn output_run_encoding(items: Seq<TxOutputView>) -> Seq<u8>
    decreases items.len(),
{
    if items.len() == 0 {
        Seq::empty()
    } else {
        output_run_encoding(items.drop_last()) + output_encoding(items.last())
    }
}

/// A list of outputs as it is encoded: its length, then its items.
pub open spec fn outputs_encoding(items: Seq<TxOutputView>) -> Seq<u8> {
    usize_bytes(items.len() as usize) + output_run_encoding(items)
}

/// The `count` outputs that stand one after the other from `at` on, with
/// the position after them.
pub open spec fn read_output_run(bytes: Seq<u8>, at: nat, count: nat) -> Option<(Seq<TxOutputView>, nat)>
    decreases count,
{
    if count == 0 {
        Some((Seq::empty(), at))
    } else {
        match read_output_run(bytes, at, (count - 1) as nat) {
            None => None,
            Some((head, next)) => match read_output(bytes, next) {
                None => None,
                Some((last, after)) => Some((head.push(last), after)),
            },
        }
    }
}

/// The list of outputs that stands at `at`, with the position after it.
pub open spec fn read_outputs(bytes: Seq<u8>, at: nat) -> Option<(Seq<TxOutputView>, nat)> {
    match read_usize(bytes, at) {
        None => None,
        Some((count, next)) => read_output_run(bytes, next, count as nat),
    }
}

/// Where fewer outputs cannot be read, more cannot either.
pub proof fn lemma_read_output_run_stops(bytes: Seq<u8>, at: nat, fewer: nat, more: nat)
    requires
        fewer <= more,
        read_output_run(bytes, at, fewer).is_none(),
    ensures
        read_output_run(bytes, at, more).is_none(),
    decreases more - fewer,
{
    if fewer < more {
        lemma_read_output_run_stops(bytes, at, fewer, (more - 1) as nat);
    }
}

/// Appends the encoding of a list of outputs.
pub fn put_outputs(out: &mut Vec<u8>, items: &Vec<TxOutput>)
    ensures
        final(out)@ == old(out)@ + outputs_encoding(output_views(items@)),
{
    let ghost before = out@;
    let ghost all = output_views(items@);
    put_usize(out, items.len());
    let ghost head = out@;
    let mut i: usize = 0;
    assert(all.take(0) =~= Seq::<TxOutputView>::empty());
    assert(out@ =~= head + output_run_encoding(all.take(0)));
    while i < items.len()
        invariant
            i <= items@.len(),
            all == output_views(items@),
            out@ == head + output_run_encoding(all.take(i as int)),
        decreases items@.len() - i,
    {
        assert(all.take(i + 1).drop_last() =~= all.take(i as int));
        assert(all.take(i + 1).last() == items@[i as int]@);
        put_output(out, &items[i]);
        assert(out@ =~= head + output_run_encoding(all.take(i + 1)));
        i = i + 1;
    }
    assert(all.take(items@.len() as int) =~= all);
    assert(out@ =~= before + outputs_encoding(all));
}

/// Reads the list of outputs that stands at `at`.
pub fn take_outputs(src: &[u8], at: usize) -> (found: Option<(Vec<TxOutput>, usize)>)
    ensures
        match found {
            Some((items, next)) => read_outputs(src@, at as nat) == Some((output_views(items@), next as nat)) && at
                <= next <= src@.len(),
            None => read_outputs(src@, at as nat).is_none(),
        },
{
    let (count, start) = match take_usize(src, at) {
        None => {
            return None;
        },
        Some(read) => read,
    };
    let mut items: Vec<TxOutput> = Vec::new();
    let mut next: usize = start;
    let mut i: usize = 0;
    assert(output_views(items@) =~= Seq::<TxOutputView>::empty());
    while i < count
        invariant
            i <= count,
            at <= start <= next <= src@.len(),
            read_usize(src@, at as nat) == Some((count, start as nat)),
            read_output_run(src@, start as nat, i as nat) == Some((output_views(items@), next as nat)),
        decreases count - i,
    {
        let ghost so_far = output_views(items@);
        match take_output(src, next) {
            None => {
                proof {
                    assert(read_output_run(src@, start as nat, (i + 1) as nat).is_none());
                    lemma_read_output_run_stops(src@, start as nat, (i + 1) as nat, count as nat);
                }
                return None;
            },
            Some((item, after)) => {
                items.push(item);
                assert(output_views(items@) =~= so_far.push(item@));
                next = after;
            },
        }
        i = i + 1;
    }
    Some((items, next))
}

/// The encodings of outputs with their positions, one after the other.
pub open spec fn placed_run_encoding(items: Seq<(usize, TxOutputView)>) -> Seq<u8>
    decreases items.len(),
{
    if items.len() == 0 {
        Seq::empty()
    } else {
        placed_run_encoding(items.drop_last()) + placed_encoding(items.last())
    }
}

/// A list of outputs with their positions as it is encoded: its length, then its items.
pub open spec fn placed_outputs_encoding(items: Seq<(usize, TxOutputView)>) -> Seq<u8> {
    usize_bytes(items.len() as usize) + placed_run_encoding(items)
}

/// The `count` outputs with their positions that stand one after the other from `at` on, with
/// the position after them.
pub open spec fn read_placed_run(bytes: Seq<u8>, at: nat, count: nat) -> Option<(Seq<(usize, TxOutputView)>, nat)>
    decreases count,
{
    if count == 0 {
        Some((Seq::empty(), at))
    } else {
        match read_placed_run(bytes, at, (count - 1) as nat) {
            None => None,
            Some((head, next)) => match read_placed(bytes, next) {
                None => None,
                Some((last, after)) => Some((head.push(last), after)),
            },
        }
    }
}

/// The list of outputs with their positions that stands at `at`, with the position after it.
pub open spec fn read_placed_outputs(bytes: Seq<u8>, at: nat) -> Option<(Seq<(usize, TxOutputView)>, nat)> {
    match read_usize(bytes, at) {
        None => None,
        Some((count, next)) => read_placed_run(bytes, next, count as nat),
    }
}

/// Where fewer outputs with their positions cannot be read, more cannot either.
pub proof fn lemma_read_placed_run_stops(bytes: Seq<u8>, at: nat, fewer: nat, more: nat)
    requires
        fewer <= more,
        read_placed_run(bytes, at, fewer).is_none(),
    ensures
        read_placed_run(bytes, at, more).is_none(),
    decreases more - fewer,
{
    if fewer < more {
        lemma_read_placed_run_stops(bytes, at, fewer, (more - 1) as nat);
    }
}

/// Appends the encoding of a list of outputs with their positions.
pub fn put_placed_outputs(out: &mut Vec<u8>, items: &Vec<(usize, TxOutput)>)
    ensures
        final(out)@ == old(out)@ + placed_outputs_encoding(placed_views(items@)),
{
    let ghost before = out@;
    let ghost all = placed_views(items@);
    put_usize(out, items.len());
    let ghost head = out@;
    let mut i: usize = 0;
    assert(all.take(0) =~= Seq::<(usize, TxOutputView)>::empty());
    assert(out@ =~= head + placed_run_encoding(all.take(0)));
    while i < items.len()
        invariant
            i <= items@.len(),
            all == placed_views(items@),
            out@ == head + placed_run_encoding(all.take(i as int)),
        decreases items@.len() - i,
    {
        assert(all.take(i + 1).drop_last() =~= all.take(i as int));
        assert(all.take(i + 1).last() == (items@[i as int].0, items@[i as int].1@));
        put_placed(out, &items[i]);
        assert(out@ =~= head + placed_run_encoding(all.take(i + 1)));
        i = i + 1;
    }
    assert(all.take(items@.len() as int) =~= all);
    assert(out@ =~= before + placed_outputs_encoding(all));
}

/// Reads the list of outputs with their positions that stands at `at`.
pub fn take_placed_outputs(src: &[u8], at: usize) -> (found: Option<(Vec<(usize, TxOutput)>, usize)>)
    ensures
        match found {
            Some((items, next)) => read_placed_outputs(src@, at as nat) == Some((placed_views(items@), next as nat)) && at
                <= next <= src@.len(),
            None => read_placed_outputs(src@, at as nat).is_none(),
        },
{
    let (count, start) = match take_usize(src, at) {
        None => {
            return None;
        },
        Some(read) => read,
    };
    let mut items: Vec<(usize, TxOutput)> = Vec::new();
    let mut next: usize = start;
    let mut i: usize = 0;
    assert(placed_views(items@) =~= Seq::<(usize, TxOutputView)>::empty());
    while i < count
        invariant
            i <= count,
            at <= start <= next <= src@.len(),
            read_usize(src@, at as nat) == Some((count, start as nat)),
            read_placed_run(src@, start as nat, i as nat) == Some((placed_views(items@), next as nat)),
        decreases count - i,
    {
        let ghost so_far = placed_views(items@);
        match take_placed(src, next) {
            None => {
                proof {
                    assert(read_placed_run(src@, start as nat, (i + 1) as nat).is_none());
                    lemma_read_placed_run_stops(src@, start as nat, (i + 1) as nat, count as nat);
                }
                return None;
            },
            Some((item, after)) => {
                items.push(item);
                assert(placed_views(items@) =~= so_far.push((item.0, item.1@)));
                next = after;
            },
        }
        i = i + 1;
    }
    Some((items, next))
}

/// Whether an input can be encoded: its byte strings have lengths that fit.
pub open spec fn input_fits(input: TxInputView) -> bool {
    bytes_fit(input.tx_id) && bytes_fit(input.sig) && bytes_fit(input.pub_key)
}

/// Whether an output can be encoded: its byte string has a length that
/// fits.
pub open spec fn output_fits(output: TxOutputView) -> bool {
    bytes_fit(output.pub_key_hash)
}

/// Whether an output with its position can be encoded.
pub open spec fn placed_fits(placed: (usize, TxOutputView)) -> bool {
    output_fits(placed.1)
}

/// An encoded input reads back, wherever it stands.
pub proof fn lemma_input_reads_back(bytes: Seq<u8>, at: nat, value: TxInputView, rest: Seq<u8>)
    requires
        at <= bytes.len(),
        bytes.skip(at as int) == input_encoding(value) + rest,
        input_fits(value),
    ensures
        read_input(bytes, at) == Some((value, (at + input_encoding(value).len()) as nat)),
{
    reveal(input_encoding);
    reveal(read_input);
    let a = bytes_bytes(value.tx_id);
    let b = usize_bytes(value.out_idx);
    let c = bytes_bytes(value.sig);
    let d = bytes_bytes(value.pub_key);
    let past_c = d + rest;
    let past_b = c + past_c;
    let past_a = b + past_b;
    let at_b = (at + a.len()) as nat;
    let at_c = (at_b + b.len()) as nat;
    let at_d = (at_c + c.len()) as nat;
    lemma_concat_assoc(a + b + c, d, rest);
    lemma_concat_assoc(a + b, c, past_c);
    lemma_concat_assoc(a, b, past_b);
    lemma_bytes_read_back(bytes, at, value.tx_id, past_a);
    lemma_skip_past(bytes, at, a, past_a);
    lemma_usize_reads_back(bytes, at_b, value.out_idx, past_b);
    lemma_skip_past(bytes, at_b, b, past_b);
    lemma_bytes_read_back(bytes, at_c, value.sig, past_c);
    lemma_skip_past(bytes, at_c, c, past_c);
    lemma_bytes_read_back(bytes, at_d, value.pub_key, rest);
    lemma_skip_past(bytes, at_d, d, rest);
}

/// An encoded output reads back, wherever it stands.
pub proof fn lemma_output_reads_back(bytes: Seq<u8>, at: nat, value: TxOutputView, rest: Seq<u8>)
    requires
        at <= bytes.len(),
        bytes.skip(at as int) == output_encoding(value) + rest,
        output_fits(value),
    ensures
        read_output(bytes, at) == Some((value, (at + output_encoding(value).len()) as nat)),
{
    reveal(output_encoding);
    reveal(read_output);
    let a = u128_bytes(value.amount);
    let b = bytes_bytes(value.pub_key_hash);
    let past_a = b + rest;
    let at_b = (at + a.len()) as nat;
    lemma_concat_assoc(a, b, rest);
    lemma_u128_reads_back(bytes, at, value.amount, past_a);
    lemma_skip_past(bytes, at, a, past_a);
    lemma_bytes_read_back(bytes, at_b, value.pub_key_hash, rest);
    lemma_skip_past(bytes, at_b, b, rest);
}

/// An encoded output with its position reads back, wherever it stands.
pub proof fn lemma_placed_reads_back(bytes: Seq<u8>, at: nat, value: (usize, TxOutputView), rest: Seq<u8>)
    requires
        at <= bytes.len(),
        bytes.skip(at as int) == placed_encoding(value) + rest,
        placed_fits(value),
    ensures
        read_placed(bytes, at) == Some((value, (at + placed_encoding(value).len()) as nat)),
{
    reveal(placed_encoding);
    reveal(read_placed);
    let a = usize_bytes(value.0);
    let b = output_encoding(value.1);
    let past_a = b + rest;
    let at_b = (at + a.len()) as nat;
    lemma_concat_assoc(a, b, rest);
    lemma_usize_reads_back(bytes, at, value.0, past_a);
    lemma_skip_past(bytes, at, a, past_a);
    lemma_output_reads_back(bytes, at_b, value.1, rest);
    lemma_skip_past(bytes, at_b, b, rest);
}

/// Whether a list of inputs can be encoded: its length and every item
/// fit.
pub open spec fn inputs_fit(items: Seq<TxInputView>) -> bool {
    &&& items.len() <= usize::MAX
    &&& forall|i: int| 0 <= i < items.len() ==> input_fits(#[trigger] items[i])
}

/// Encoded inputs read back one after the other, wherever they stand.
pub proof fn lemma_input_run_reads_back(bytes: Seq<u8>, at: nat, items: Seq<TxInputView>, rest: Seq<u8>)
    requires
        at <= bytes.len(),
        bytes.skip(at as int) == input_run_encoding(items) + rest,
        forall|i: int| 0 <= i < items.len() ==> input_fits(#[trigger] items[i]),
    ensures
        read_input_run(bytes, at, items.len()) == Some((items, (at + input_run_encoding(items).len()) as nat)),
    decreases items.len(),
{
    if items.len() == 0 {
        assert(items =~= Seq::<TxInputView>::empty());
        assert(input_run_encoding(items) =~= Seq::<u8>::empty());
    } else {
        let head = items.drop_last();
        let last = items.last();
        assert forall|i: int| 0 <= i < head.len() implies input_fits(#[trigger] head[i]) by {
            assert(head[i] == items[i]);
        }
        assert(input_fits(items[items.len() - 1]));
        lemma_concat_assoc(input_run_encoding(head), input_encoding(last), rest);
        lemma_input_run_reads_back(bytes, at, head, input_encoding(last) + rest);
        lemma_skip_past(bytes, at, input_run_encoding(head), input_encoding(last) + rest);
        lemma_input_reads_back(bytes, (at + input_run_encoding(head).len()) as nat, last, rest);
        assert(head.push(last) =~= items);
    }
}

/// An encoded list of inputs reads back, wherever it stands.
pub proof fn lemma_inputs_read_back(bytes: Seq<u8>, at: nat, items: Seq<TxInputView>, rest: Seq<u8>)
    requires
        at <= bytes.len(),
        bytes.skip(at as int) == inputs_encoding(items) + rest,
        inputs_fit(items),
    ensures
        read_inputs(bytes, at) == Some((items, (at + inputs_encoding(items).len()) as nat)),
{
    let count = items.len() as usize;
    lemma_concat_assoc(usize_bytes(count), input_run_encoding(items), rest);
    lemma_usize_reads_back(bytes, at, count, input_run_encoding(items) + rest);
    lemma_skip_past(bytes, at, usize_bytes(count), input_run_encoding(items) + rest);
    lemma_input_run_reads_back(bytes, (at + usize_bytes(count).len()) as nat, items, rest);
}

/// Whether a list of outputs can be encoded: its length and every item
/// fit.
pub open spec fn outputs_fit(items: Seq<TxOutputView>) -> bool {
    &&& items.len() <= usize::MAX
    &&& forall|i: int| 0 <= i < items.len() ==> output_fits(#[trigger] items[i])
}

/// Encoded outputs read back one after the other, wherever they stand.
pub proof fn lemma_output_run_reads_back(bytes: Seq<u8>, at: nat, items: Seq<TxOutputView>, rest: Seq<u8>)
    requires
        at <= bytes.len(),
        bytes.skip(at as int) == output_run_encoding(items) + rest,
        forall|i: int| 0 <= i < items.len() ==> output_fits(#[trigger] items[i]),
    ensures
        read_output_run(bytes, at, items.len()) == Some((items, (at + output_run_encoding(items).len()) as nat)),
    decreases items.len(),
{
    if items.len() == 0 {
        assert(items =~= Seq::<TxOutputView>::empty());
        assert(output_run_encoding(items) =~= Seq::<u8>::empty());
    } else {
        let head = items.drop_last();
        let last = items.last();
        assert forall|i: int| 0 <= i < head.len() implies output_fits(#[trigger] head[i]) by {
            assert(head[i] == items[i]);
        }
        assert(output_fits(items[items.len() - 1]));
        lemma_concat_assoc(output_run_encoding(head), output_encoding(last), rest);
        lemma_output_run_reads_back(bytes, at, head, output_encoding(last) + rest);
        lemma_skip_past(bytes, at, output_run_encoding(head), output_encoding(last) + rest);
        lemma_output_reads_back(bytes, (at + output_run_encoding(head).len()) as nat, last, rest);
        assert(head.push(last) =~= items);
    }
}

/// An encoded list of outputs reads back, wherever it stands.
pub proof fn lemma_outputs_read_back(bytes: Seq<u8>, at: nat, items: Seq<TxOutputView>, rest: Seq<u8>)
    requires
        at <= bytes.len(),
        bytes.skip(at as int) == outputs_encoding(items) + rest,
        outputs_fit(items),
    ensures
        read_outputs(bytes, at) == Some((items, (at + outputs_encoding(items).len()) as nat)),
{
    let count = items.len() as usize;
    lemma_concat_assoc(usize_bytes(count), output_run_encoding(items), rest);
    lemma_usize_reads_back(bytes, at, count, output_run_encoding(items) + rest);
    lemma_skip_past(bytes, at, usize_bytes(count), output_run_encoding(items) + rest);
    lemma_output_run_reads_back(bytes, (at + usize_bytes(count).len()) as nat, items, rest);
}

/// Whether a list of outputs with their positions can be encoded: its length and every item
/// fit.
pub open spec fn placed_outputs_fit(items: Seq<(usize, TxOutputView)>) -> bool {
    &&& items.len() <= usize::MAX
    &&& forall|i: int| 0 <= i < items.len() ==> placed_fits(#[trigger] items[i])
}

/// Encoded outputs with their positions read back one after the other, wherever they stand.
pub proof fn lemma_placed_run_reads_back(bytes: Seq<u8>, at: nat, items: Seq<(usize, TxOutputView)>, rest: Seq<u8>)
    requires
        at <= bytes.len(),
        bytes.skip(at as int) == placed_run_encoding(items) + rest,
        forall|i: int| 0 <= i < items.len() ==> placed_fits(#[trigger] items[i]),
    ensures
        read_placed_run(bytes, at, items.len()) == Some((items, (at + placed_run_encoding(items).len()) as nat)),
    decreases items.len(),
{
    if items.len() == 0 {
        assert(items =~= Seq::<(usize, TxOutputView)>::empty());
        assert(placed_run_encoding(items) =~= Seq::<u8>::empty());
    } else {
        let head = items.drop_last();
        let last = items.last();
        assert forall|i: int| 0 <= i < head.len() implies placed_fits(#[trigger] head[i]) by {
            assert(head[i] == items[i]);
        }
        assert(placed_fits(items[items.len() - 1]));
        lemma_concat_assoc(placed_run_encoding(head), placed_encoding(last), rest);
        lemma_placed_run_reads_back(bytes, at, head, placed_encoding(last) + rest);
        lemma_skip_past(bytes, at, placed_run_encoding(head), placed_encoding(last) + rest);
        lemma_placed_reads_back(bytes, (at + placed_run_encoding(head).len()) as nat, last, rest);
        assert(head.push(last) =~= items);
    }
}

/// An encoded list of outputs with their positions reads back, wherever it stands.
pub proof fn lemma_placed_outputs_read_back(bytes: Seq<u8>, at: nat, items: Seq<(usize, TxOutputView)>, rest: Seq<u8>)
    requires
        at <= bytes.len(),
        bytes.skip(at as int) == placed_outputs_encoding(items) + rest,
        placed_outputs_fit(items),
    ensures
        read_placed_outputs(bytes, at) == Some((items, (at + placed_outputs_encoding(items).len()) as nat)),
{
    let count = items.len() as usize;
    lemma_concat_assoc(usize_bytes(count), placed_run_encoding(items), rest);
    lemma_usize_reads_back(bytes, at, count, placed_run_encoding(items) + rest);
    lemma_skip_past(bytes, at, usize_bytes(count), placed_run_encoding(items) + rest);
    lemma_placed_run_reads_back(bytes, (at + usize_bytes(count).len()) as nat, items, rest);
}

} // verus!
