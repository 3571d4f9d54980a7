use k256::ecdsa::signature::Verifier;
use powchain::blockchain::Blockchain;
use powchain::error::LedgerError;
use powchain::transaction::{
    encode_transaction, find_prior, owner_of, take_transaction, Transaction, SUBSIDY,
};
use powchain::tx::{TxInput, TxOutput, TxOutputs};
use powchain::utxo::UTXOSet;
use powchain::wallet::Wallet;
use sha2::{Digest, Sha256};

fn wallet(seed: u8) -> Wallet {
    Wallet::from_private_key(vec![seed; 32]).unwrap()
}

fn encoding(tx: &Transaction) -> Vec<u8> {
    let inputs: Vec<(Vec<u8>, usize, Vec<u8>, Vec<u8>)> =
        tx.inputs.iter().map(|i| (i.tx_id.clone(), i.out_idx, i.sig.clone(), i.pub_key.clone())).collect();
    let outputs: Vec<(u128, Vec<u8>)> = tx.outputs.iter().map(|o| (o.amount, o.pub_key_hash.clone())).collect();
    bincode::encode_to_vec((tx.id.clone(), inputs, outputs), bincode::config::standard()).unwrap()
}

fn founded(owner: &Wallet) -> (Blockchain, UTXOSet) {
    let ledger = Blockchain::init(owner.address(), false).unwrap();
    let index = UTXOSet::new(&ledger);
    (ledger, index)
}

#[test]
fn subsidy_is_one_hundred() {
    assert_eq!(SUBSIDY, 100);
}

#[test]
fn coinbase_has_one_empty_input_and_pays_the_reward() {
    let a = wallet(1);
    let tx = Transaction::coinbase_tx(a.address()).unwrap();
    assert!(tx.is_coinbase());
    assert_eq!(tx.inputs.len(), 1);
    assert_eq!(tx.inputs[0], TxInput::new(Vec::new(), 0, b"Coinbase".to_vec(), Vec::new()));
    assert_eq!(tx.outputs, vec![TxOutput { amount: 100, pub_key_hash: a.owner() }]);
    let mut unnamed = tx.clone();
    unnamed.id = Vec::new();
    assert_eq!(tx.id, Sha256::digest(encoding(&unnamed)).to_vec());
}

#[test]
fn coinbase_to_a_bad_address_fails() {
    assert_eq!(Transaction::coinbase_tx("0OIl".to_string()), Err(LedgerError::DecodeError));
}

#[test]
fn is_coinbase_needs_exactly_one_input_without_id() {
    let mut tx = Transaction { id: vec![], inputs: vec![], outputs: vec![] };
    assert!(!tx.is_coinbase());
    tx.inputs.push(TxInput::new(vec![], 3, vec![1], vec![2]));
    assert!(tx.is_coinbase());
    tx.inputs.push(TxInput::new(vec![], 0, vec![], vec![]));
    assert!(!tx.is_coinbase());
    tx.inputs = vec![TxInput::new(vec![9], 0, vec![], vec![])];
    assert!(!tx.is_coinbase());
}

#[test]
fn set_id_is_the_digest_of_the_encoding_as_it_stands() {
    let mut tx = Transaction {
        id: vec![5, 5],
        inputs: vec![TxInput::new(vec![1, 2], 300, vec![3], vec![4, 4])],
        outputs: vec![TxOutput { amount: 1 << 70, pub_key_hash: vec![8; 20] }],
    };
    let expected = Sha256::digest(encoding(&tx)).to_vec();
    tx.set_id();
    assert_eq!(tx.id, expected);
    assert_eq!(tx.id.len(), 32);
}

#[test]
fn trimmed_copy_clears_signatures_and_keys_only() {
    let tx = Transaction {
        id: vec![7],
        inputs: vec![TxInput::new(vec![1], 2, vec![3], vec![4]), TxInput::new(vec![5], 6, vec![7], vec![8])],
        outputs: vec![TxOutput { amount: 9, pub_key_hash: vec![10] }],
    };
    let copy = tx.trimmed_copy();
    assert_eq!(copy.id, tx.id);
    assert_eq!(copy.outputs, tx.outputs);
    assert_eq!(
        copy.inputs,
        vec![TxInput::new(vec![1], 2, vec![], vec![]), TxInput::new(vec![5], 6, vec![], vec![])]
    );
}

#[test]
fn input_digest_pins_the_referenced_owner_at_its_own_input() {
    let tx = Transaction {
        id: vec![7],
        inputs: vec![TxInput::new(vec![1], 2, vec![3], vec![4]), TxInput::new(vec![5], 6, vec![7], vec![8])],
        outputs: vec![TxOutput { amount: 9, pub_key_hash: vec![10] }],
    };
    let mut form = tx.trimmed_copy();
    form.inputs[1].pub_key = vec![42, 43];
    assert_eq!(tx.input_digest(1, &[42, 43]), Sha256::digest(encoding(&form)).to_vec());
    assert_ne!(tx.input_digest(0, &[42, 43]), tx.input_digest(1, &[42, 43]));
}

#[test]
fn tx_output_new_takes_the_owner_from_the_address() {
    let a = wallet(1);
    let output = TxOutput::new(12, a.address()).unwrap();
    assert_eq!(output.amount, 12);
    assert_eq!(output.pub_key_hash, a.owner());
    assert!(output.belongs_to(&a.owner()));
    assert!(!output.belongs_to(&wallet(2).owner()));
    assert_eq!(TxOutput::new(12, "!".to_string()), Err(LedgerError::DecodeError));
}

#[test]
fn tx_input_spent_by_goes_by_the_hash_of_its_key() {
    let a = wallet(1);
    let input = TxInput::new(vec![1], 0, a.pub_key.clone(), vec![]);
    assert!(input.spent_by(&a.owner()));
    assert!(!input.spent_by(&wallet(2).owner()));
    assert_eq!(input.tx_id, vec![1]);
    assert_eq!(input.out_idx, 0);
    assert_eq!(input.pub_key, a.pub_key);
    assert!(input.sig.is_empty());
}

#[test]
fn tx_outputs_tag_each_output_with_its_position() {
    let first = TxOutput { amount: 1, pub_key_hash: vec![1] };
    let second = TxOutput { amount: 2, pub_key_hash: vec![2] };
    let mut record = TxOutputs::new(vec![first.clone(), second.clone()]);
    assert_eq!(record.outputs, vec![(0, first.clone()), (1, second.clone())]);
    record.push(7, first.clone());
    assert_eq!(record.outputs, vec![(0, first.clone()), (1, second), (7, first)]);
    assert!(TxOutputs::default().outputs.is_empty());
}

#[test]
fn find_prior_gives_the_first_with_the_id() {
    let one = Transaction { id: vec![1], inputs: vec![], outputs: vec![TxOutput { amount: 1, pub_key_hash: vec![1] }] };
    let two = Transaction { id: vec![2], inputs: vec![], outputs: vec![] };
    let again = Transaction { id: vec![1], inputs: vec![], outputs: vec![] };
    let all = vec![one.clone(), two.clone(), again];
    assert_eq!(find_prior(&all, &[1]), Some(&one));
    assert_eq!(find_prior(&all, &[2]), Some(&two));
    assert_eq!(find_prior(&all, &[3]), None);
    assert_eq!(owner_of(&all, &TxInput::new(vec![1], 0, vec![], vec![])), Ok(&vec![1u8]));
    assert_eq!(owner_of(&all, &TxInput::new(vec![1], 1, vec![], vec![])), Err(LedgerError::UnknownPriorOutput));
    assert_eq!(owner_of(&all, &TxInput::new(vec![3], 0, vec![], vec![])), Err(LedgerError::UnknownPriorTransaction));
}

#[test]
fn new_builds_inputs_amount_and_change() {
    let a = wallet(1);
    let b = wallet(2);
    let (ledger, index) = founded(&a);
    let genesis_tx = ledger.blocks[0].transactions[0].clone();
    let tx = Transaction::new(&a, &b.address(), 40, &index, &ledger).unwrap();
    assert_eq!(tx.inputs.len(), 1);
    assert_eq!(tx.inputs[0].tx_id, genesis_tx.id);
    assert_eq!(tx.inputs[0].out_idx, 0);
    assert_eq!(tx.inputs[0].pub_key, a.pub_key);
    assert_eq!(tx.inputs[0].sig.len(), 64);
    assert_eq!(
        tx.outputs,
        vec![
            TxOutput { amount: 40, pub_key_hash: b.owner() },
            TxOutput { amount: 60, pub_key_hash: a.owner() },
        ]
    );
    let mut unsigned = tx.clone();
    unsigned.id = Vec::new();
    unsigned.inputs[0].sig = Vec::new();
    assert_eq!(tx.id, Sha256::digest(encoding(&unsigned)).to_vec());
}

#[test]
fn new_without_change_when_the_amount_is_exact() {
    let a = wallet(1);
    let b = wallet(2);
    let (ledger, index) = founded(&a);
    let tx = Transaction::new(&a, &b.address(), 100, &index, &ledger).unwrap();
    assert_eq!(tx.outputs, vec![TxOutput { amount: 100, pub_key_hash: b.owner() }]);
}

#[test]
fn new_fails_on_insufficient_funds_and_bad_addresses() {
    let a = wallet(1);
    let b = wallet(2);
    let (ledger, index) = founded(&a);
    assert_eq!(Transaction::new(&a, &b.address(), 101, &index, &ledger), Err(LedgerError::InsufficientFunds));
    assert_eq!(Transaction::new(&b, &a.address(), 1, &index, &ledger), Err(LedgerError::InsufficientFunds));
    assert_eq!(Transaction::new(&a, "0OIl", 1, &index, &ledger), Err(LedgerError::DecodeError));
}

#[test]
fn new_with_a_broken_key_fails_to_sign() {
    let a = wallet(1);
    let b = wallet(2);
    let (ledger, index) = founded(&a);
    let broken = Wallet { pub_key: a.pub_key.clone(), priv_key: vec![0u8; 32] };
    assert_eq!(Transaction::new(&broken, &b.address(), 40, &index, &ledger), Err(LedgerError::InvalidKey));
}

#[test]
fn sign_then_verify_round_trip() {
    let a = wallet(1);
    let b = wallet(2);
    let (ledger, index) = founded(&a);
    let tx = Transaction::new(&a, &b.address(), 40, &index, &ledger).unwrap();
    assert!(!tx.is_coinbase());
    let prev_txs = ledger.all_transactions();
    assert_eq!(tx.verity(&prev_txs), Ok(true));
    assert_eq!(ledger.verify_transaction(&tx), Ok(true));
}

#[test]
fn signing_is_what_the_key_collaborator_signs_over_the_input_digest() {
    let a = wallet(1);
    let b = wallet(2);
    let (ledger, index) = founded(&a);
    let tx = Transaction::new(&a, &b.address(), 40, &index, &ledger).unwrap();
    let digest = tx.input_digest(0, &a.owner());
    let key = k256::ecdsa::VerifyingKey::from_sec1_bytes(&a.pub_key).unwrap();
    let signature = k256::ecdsa::Signature::from_slice(&tx.inputs[0].sig).unwrap();
    assert!(key.verify(&digest, &signature).is_ok());
    assert_ne!(tx.inputs[0].sig, digest);
}

#[test]
fn flipping_any_bit_of_the_signature_fails_verification() {
    let a = wallet(1);
    let b = wallet(2);
    let (ledger, index) = founded(&a);
    let tx = Transaction::new(&a, &b.address(), 40, &index, &ledger).unwrap();
    let prev_txs = ledger.all_transactions();
    for byte in 0..tx.inputs[0].sig.len() {
        for bit in 0..8 {
            let mut forged = tx.clone();
            forged.inputs[0].sig[byte] ^= 1 << bit;
            assert_eq!(forged.verity(&prev_txs), Ok(false));
        }
    }
}

#[test]
fn flipping_any_bit_of_the_referenced_owner_fails_verification() {
    let a = wallet(1);
    let b = wallet(2);
    let (ledger, index) = founded(&a);
    let tx = Transaction::new(&a, &b.address(), 40, &index, &ledger).unwrap();
    let prev_txs = ledger.all_transactions();
    for byte in 0..20 {
        for bit in 0..8 {
            let mut changed = prev_txs.clone();
            changed[0].outputs[0].pub_key_hash[byte] ^= 1 << bit;
            assert_eq!(tx.verity(&changed), Ok(false));
        }
    }
}

#[test]
fn a_signature_by_another_key_or_a_truncated_one_fails() {
    let a = wallet(1);
    let b = wallet(2);
    let (ledger, index) = founded(&a);
    let tx = Transaction::new(&a, &b.address(), 40, &index, &ledger).unwrap();
    let prev_txs = ledger.all_transactions();
    let mut other = tx.clone();
    other.sign(&b.priv_key, &prev_txs).unwrap();
    assert_eq!(other.verity(&prev_txs), Ok(false));
    let mut short = tx.clone();
    short.inputs[0].sig.pop();
    assert_eq!(short.verity(&prev_txs), Ok(false));
    let mut keyless = tx.clone();
    keyless.inputs[0].pub_key = vec![1, 2, 3];
    assert_eq!(keyless.verity(&prev_txs), Ok(false));
}

#[test]
fn each_input_is_signed_on_its_own() {
    let a = wallet(1);
    let prior = Transaction {
        id: vec![1],
        inputs: vec![],
        outputs: vec![
            TxOutput { amount: 5, pub_key_hash: a.owner() },
            TxOutput { amount: 6, pub_key_hash: vec![9; 20] },
        ],
    };
    let mut tx = Transaction {
        id: vec![2],
        inputs: vec![
            TxInput::new(vec![1], 0, a.pub_key.clone(), vec![]),
            TxInput::new(vec![1], 1, a.pub_key.clone(), vec![]),
        ],
        outputs: vec![TxOutput { amount: 11, pub_key_hash: vec![3; 20] }],
    };
    let prev_txs = vec![prior];
    tx.sign(&a.priv_key, &prev_txs).unwrap();
    assert_eq!(tx.inputs[0].sig.len(), 64);
    assert_eq!(tx.inputs[1].sig.len(), 64);
    assert_ne!(tx.inputs[0].sig, tx.inputs[1].sig);
    assert_eq!(tx.inputs[0].pub_key, a.pub_key);
    assert_eq!(tx.verity(&prev_txs), Ok(true));
    let mut swapped = tx.clone();
    swapped.inputs[0].sig = tx.inputs[1].sig.clone();
    swapped.inputs[1].sig = tx.inputs[0].sig.clone();
    assert_eq!(swapped.verity(&prev_txs), Ok(false));
    let mut again = tx.clone();
    again.sign(&a.priv_key, &prev_txs).unwrap();
    assert_eq!(again, tx);
}

#[test]
fn sign_and_verify_need_the_prior_transactions() {
    let a = wallet(1);
    let mut tx = Transaction {
        id: vec![2],
        inputs: vec![TxInput::new(vec![1], 0, a.pub_key.clone(), vec![])],
        outputs: vec![],
    };
    let before = tx.clone();
    assert_eq!(tx.sign(&a.priv_key, &Vec::new()), Err(LedgerError::UnknownPriorTransaction));
    assert_eq!(tx, before);
    assert_eq!(tx.verity(&Vec::new()), Err(LedgerError::UnknownPriorTransaction));
    let prior = Transaction { id: vec![1], inputs: vec![], outputs: vec![] };
    assert_eq!(tx.sign(&a.priv_key, &vec![prior.clone()]), Err(LedgerError::UnknownPriorOutput));
    assert_eq!(tx, before);
    assert_eq!(tx.verity(&vec![prior]), Err(LedgerError::UnknownPriorOutput));
}

#[test]
fn sign_with_bytes_that_are_no_key_changes_nothing() {
    let a = wallet(1);
    let prior = Transaction {
        id: vec![1],
        inputs: vec![],
        outputs: vec![TxOutput { amount: 5, pub_key_hash: a.owner() }],
    };
    let mut tx = Transaction {
        id: vec![2],
        inputs: vec![TxInput::new(vec![1], 0, a.pub_key.clone(), vec![])],
        outputs: vec![],
    };
    let before = tx.clone();
    assert_eq!(tx.sign(&[0u8; 32], &vec![prior]), Err(LedgerError::InvalidKey));
    assert_eq!(tx, before);
}

#[test]
fn coinbase_is_valid_as_it_stands() {
    let a = wallet(1);
    let tx = Transaction::coinbase_tx(a.address()).unwrap();
    assert_eq!(tx.verity(&Vec::new()), Ok(true));
}

#[test]
fn to_text_shows_id_inputs_and_outputs() {
    let tx = Transaction {
        id: vec![0xab, 0x01],
        inputs: vec![TxInput::new(vec![1], 2, vec![4, 5], vec![3]), TxInput::new(vec![], 10, vec![], vec![0xff])],
        outputs: vec![TxOutput { amount: 900, pub_key_hash: vec![0x0a] }],
    };
    let expected = format!(
        "{}{}{}{}",
        "--- Transaction ab01:",
        "    Input 0:        Tx ID:      01        Out:        2        Signature:  03        Scipt:      0405",
        "    Input 1:        Tx ID:              Out:        10        Signature:  ff        Scipt:      ",
        "    Output  0:        Value: 900        Script: 0a"
    );
    assert_eq!(tx.to_text(), expected);
    let empty = Transaction { id: vec![], inputs: vec![], outputs: vec![] };
    assert_eq!(empty.to_text(), "--- Transaction :");
}

#[test]
fn encoding_is_the_fields_in_order_and_reads_back() {
    let tx = Transaction {
        id: vec![7; 32],
        inputs: vec![TxInput::new(vec![1], 2, vec![3], vec![4]), TxInput::new(vec![5; 300], 1 << 40, vec![], vec![8])],
        outputs: vec![TxOutput { amount: u128::MAX, pub_key_hash: vec![10] }],
    };
    let bytes = encode_transaction(&tx);
    assert_eq!(bytes, encoding(&tx));
    assert_eq!(take_transaction(&bytes, 0), Some((tx.clone(), bytes.len())));
    let mut shifted = vec![0u8, 0];
    shifted.extend_from_slice(&bytes);
    shifted.push(99);
    assert_eq!(take_transaction(&shifted, 2), Some((tx, shifted.len() - 1)));
    assert_eq!(take_transaction(&bytes[..bytes.len() - 1], 0), None);
    assert_eq!(take_transaction(&bytes, bytes.len() + 1), None);
}
