use powchain::blockchain::Blockchain;
use powchain::block::Block;
use powchain::store::{
    block_key, block_value, latest_hash_key, outputs_value, pointer_hash, pointer_value, stored_block,
    stored_outputs, utxo_key,
};
use powchain::transaction::Transaction;
use powchain::tx::TxInput;
use powchain::tx::{TxOutput, TxOutputs};
use powchain::utxo::{UTXOSet, Utxo};
use powchain::wallet::Wallet;

fn out(amount: u128, owner: u8) -> TxOutput {
    TxOutput { amount, pub_key_hash: vec![owner; 20] }
}

fn entry(tx_id: u8, out_idx: usize, amount: u128, owner: u8) -> Utxo {
    Utxo { tx_id: vec![tx_id], out_idx, output: out(amount, owner) }
}

#[test]
fn keys_of_the_store() {
    assert_eq!(latest_hash_key(), "lsh");
    assert_eq!(utxo_key(&[0x0a, 0xff]), "utxo-0aff");
    assert_eq!(utxo_key(&[]), "utxo-");
    assert_eq!(block_key(&"00ab".to_string()), "00ab");
}

#[test]
fn pointer_is_kept_as_the_bytes_of_the_hash() {
    let wallet = Wallet::from_private_key(vec![1u8; 32]).unwrap();
    let mut ledger = Blockchain::init(wallet.address(), false).unwrap();
    let bytes = pointer_value(&ledger).unwrap();
    assert_eq!(bytes.len(), 32);
    assert_eq!(bytes, hex::decode(&ledger.latest_hash).unwrap());
    assert_eq!(pointer_hash(&bytes), ledger.latest_hash);
    assert_eq!(pointer_hash(&[0xAB, 0x01]), "ab01");
    ledger.latest_hash = "no hex".to_string();
    assert_eq!(pointer_value(&ledger), None);
}

#[test]
fn records_group_the_entries_by_transaction() {
    let index = UTXOSet {
        entries: vec![entry(1, 0, 30, 7), entry(2, 0, 12, 7), entry(1, 2, 5, 8), entry(3, 1, 1, 9), entry(2, 4, 2, 9)],
    };
    assert_eq!(index.count_tx(), 3);
    assert_eq!(
        index.records(),
        vec![
            (vec![1], TxOutputs { outputs: vec![(0, out(30, 7)), (2, out(5, 8))] }),
            (vec![2], TxOutputs { outputs: vec![(0, out(12, 7)), (4, out(2, 9))] }),
            (vec![3], TxOutputs { outputs: vec![(1, out(1, 9))] }),
        ]
    );
    let empty = UTXOSet { entries: vec![] };
    assert_eq!(empty.count_tx(), 0);
    assert!(empty.records().is_empty());
}

#[test]
fn from_records_lays_the_records_out_in_order() {
    let records = vec![
        (vec![1], TxOutputs { outputs: vec![(0, out(30, 7)), (2, out(5, 8))] }),
        (vec![2], TxOutputs { outputs: vec![] }),
        (vec![3], TxOutputs { outputs: vec![(1, out(1, 9))] }),
    ];
    let index = UTXOSet::from_records(&records);
    assert_eq!(index.entries, vec![entry(1, 0, 30, 7), entry(1, 2, 5, 8), entry(3, 1, 1, 9)]);
    assert_eq!(UTXOSet::from_records(&index.records()), index);
}

#[test]
fn a_stored_index_comes_back_with_the_same_balances() {
    let a = Wallet::from_private_key(vec![1u8; 32]).unwrap();
    let b = Wallet::from_private_key(vec![2u8; 32]).unwrap();
    let mut ledger = Blockchain::init(a.address(), false).unwrap();
    let mut index = UTXOSet::new(&ledger);
    for amount in [40u128, 10, 25] {
        let tx = powchain::transaction::Transaction::new(&a, &b.address(), amount, &index, &ledger).unwrap();
        let block = ledger.mine_block(vec![tx]).unwrap();
        index.update(&block);
    }
    let loaded = UTXOSet::from_records(&index.records());
    assert_eq!(loaded.balance(&a.owner()), Ok(25));
    assert_eq!(loaded.balance(&b.owner()), Ok(75));
    assert_eq!(loaded.count_tx(), index.count_tx());
}

#[test]
fn a_block_is_stored_as_its_fields_in_order() {
    let tx = Transaction {
        id: vec![1, 2, 3],
        inputs: vec![TxInput::new(vec![4, 5], 70000, vec![6], vec![7, 8, 9])],
        outputs: vec![out(1 << 100, 3), out(0, 4)],
    };
    let block = Block {
        prev_hash: "00ab".to_string(),
        transactions: vec![tx.clone(), Transaction { id: vec![], inputs: vec![], outputs: vec![] }],
        hash: "cdef".to_string(),
        nonce: 300,
        height: 5,
        timestamp: 1 << 40,
    };
    let txs: Vec<(Vec<u8>, Vec<(Vec<u8>, usize, Vec<u8>, Vec<u8>)>, Vec<(u128, Vec<u8>)>)> = block
        .transactions
        .iter()
        .map(|t| {
            (
                t.id.clone(),
                t.inputs.iter().map(|i| (i.tx_id.clone(), i.out_idx, i.sig.clone(), i.pub_key.clone())).collect(),
                t.outputs.iter().map(|o| (o.amount, o.pub_key_hash.clone())).collect(),
            )
        })
        .collect();
    let fields = (block.prev_hash.clone(), txs, block.hash.clone(), block.nonce, block.height, block.timestamp);
    let expected = bincode::encode_to_vec(fields, bincode::config::standard()).unwrap();
    let value = block_value(&block);
    assert_eq!(value, expected);
    assert_eq!(stored_block(&value), Some(block));
    assert_eq!(stored_block(&value[..value.len() - 1]), None);
    assert_eq!(stored_block(&[]), None);
}

#[test]
fn unspent_outputs_are_stored_with_their_positions() {
    let record = TxOutputs { outputs: vec![(0, out(30, 7)), (2, out(5, 8))] };
    let plain: Vec<(usize, (u128, Vec<u8>))> =
        record.outputs.iter().map(|(at, o)| (*at, (o.amount, o.pub_key_hash.clone()))).collect();
    let expected = bincode::encode_to_vec(plain, bincode::config::standard()).unwrap();
    let value = outputs_value(&record);
    assert_eq!(value, expected);
    assert_eq!(stored_outputs(&value), Some(record));
    assert_eq!(stored_outputs(&[5]), None);
}
