use powchain::block::Block;
use powchain::blockchain::Blockchain;
use powchain::error::LedgerError;
use powchain::proof_of_work::ProofOfWork;
use powchain::transaction::Transaction;
use powchain::tx::{TxInput, TxOutput};
use powchain::utxo::UTXOSet;
use powchain::wallet::Wallet;

fn wallet(seed: u8) -> Wallet {
    Wallet::from_private_key(vec![seed; 32]).unwrap()
}

fn copy_of(ledger: &Blockchain) -> Blockchain {
    Blockchain { latest_hash: ledger.latest_hash.clone(), blocks: ledger.blocks.clone() }
}

fn foreign(hash: &str, prev_hash: &str, height: u128) -> Block {
    Block {
        prev_hash: prev_hash.to_string(),
        transactions: vec![],
        hash: hash.to_string(),
        nonce: 0,
        height,
        timestamp: 0,
    }
}

#[test]
fn init_founds_a_ledger_of_height_zero() {
    let a = wallet(1);
    let ledger = Blockchain::init(a.address(), false).unwrap();
    assert_eq!(ledger.get_height(), 0);
    assert_eq!(ledger.blocks.len(), 1);
    assert_eq!(ledger.latest_hash, ledger.blocks[0].hash);
    assert_eq!(ledger.blocks[0].prev_hash, "");
    assert_eq!(ledger.blocks[0].transactions, vec![Transaction::coinbase_tx(a.address()).unwrap()]);
    assert!(ProofOfWork::new(&ledger.blocks[0]).unwrap().validate());
}

#[test]
fn init_fails_when_a_ledger_exists_or_the_address_is_bad() {
    let a = wallet(1);
    assert_eq!(Blockchain::init(a.address(), true), Err(LedgerError::StoreError));
    assert_eq!(Blockchain::init("0OIl".to_string(), false), Err(LedgerError::DecodeError));
    assert_eq!(Blockchain::init("0OIl".to_string(), true), Err(LedgerError::StoreError));
}

#[test]
fn continue_chain_needs_a_pointer_to_a_stored_block() {
    let a = wallet(1);
    let ledger = Blockchain::init(a.address(), false).unwrap();
    let hash = ledger.latest_hash.clone();
    let again = Blockchain::continue_chain(Some(hash.clone()), ledger.blocks.clone()).unwrap();
    assert_eq!(again, ledger);
    assert_eq!(Blockchain::continue_chain(None, ledger.blocks.clone()), Err(LedgerError::StoreError));
    assert_eq!(Blockchain::continue_chain(Some(hash), Vec::new()), Err(LedgerError::StoreError));
    assert_eq!(
        Blockchain::continue_chain(Some("ff".to_string()), ledger.blocks.clone()),
        Err(LedgerError::StoreError)
    );
    let twice = vec![ledger.blocks[0].clone(), foreign("0a", "", 1), ledger.blocks[0].clone()];
    assert_eq!(
        Blockchain::continue_chain(Some(ledger.latest_hash.clone()), twice),
        Err(LedgerError::StoreError)
    );
    let once = vec![foreign("0a", "", 1), ledger.blocks[0].clone()];
    let opened = Blockchain::continue_chain(Some(ledger.latest_hash.clone()), once).unwrap();
    assert!(opened.no_hash_twice());
    assert_eq!(opened.get_height(), 0);
}

#[test]
fn mine_block_stands_one_higher_than_the_tip() {
    let a = wallet(1);
    let b = wallet(2);
    let mut ledger = Blockchain::init(a.address(), false).unwrap();
    let mut index = UTXOSet::new(&ledger);
    for expected in 1..=3u128 {
        let tip = ledger.latest_hash.clone();
        let tx = Transaction::new(&a, &b.address(), 10, &index, &ledger).unwrap();
        let block = ledger.mine_block(vec![tx.clone()]).unwrap();
        index.update(&block);
        assert_eq!(block.height, expected);
        assert_eq!(block.prev_hash, tip);
        assert_eq!(block.transactions, vec![tx]);
        assert_eq!(ledger.latest_hash, block.hash);
        assert_eq!(ledger.get_height(), expected);
        assert!(ProofOfWork::new(&block).unwrap().validate());
        assert_eq!(ledger.get_block(&hex::decode(&block.hash).unwrap()), Some(block));
    }
    assert_eq!(ledger.blocks.len(), 4);
}

#[test]
fn mine_block_at_uses_the_time_it_is_given() {
    let a = wallet(1);
    let b = wallet(2);
    let mut ledger = Blockchain::init(a.address(), false).unwrap();
    let index = UTXOSet::new(&ledger);
    let tx = Transaction::new(&a, &b.address(), 10, &index, &ledger).unwrap();
    let block = ledger.mine_block_at(vec![tx], 1234).unwrap();
    assert_eq!(block.timestamp, 1234);
    assert_eq!(block.height, 1);
}

#[test]
fn mine_block_refuses_invalid_transactions_and_changes_nothing() {
    let a = wallet(1);
    let b = wallet(2);
    let mut ledger = Blockchain::init(a.address(), false).unwrap();
    let index = UTXOSet::new(&ledger);
    let before = copy_of(&ledger);
    let good = Transaction::new(&a, &b.address(), 10, &index, &ledger).unwrap();
    let mut forged = good.clone();
    forged.inputs[0].sig[0] ^= 1;
    assert_eq!(ledger.mine_block(vec![good.clone(), forged]), Err(LedgerError::InvalidSignature));
    assert_eq!(ledger, before);
    let dangling = Transaction {
        id: vec![1],
        inputs: vec![TxInput::new(vec![7; 32], 0, a.pub_key.clone(), vec![0; 64])],
        outputs: vec![TxOutput { amount: 1, pub_key_hash: b.owner() }],
    };
    assert_eq!(ledger.mine_block(vec![dangling]), Err(LedgerError::UnknownPriorTransaction));
    let mut out_of_range = good.clone();
    out_of_range.inputs[0].out_idx = 5;
    assert_eq!(ledger.mine_block(vec![out_of_range]), Err(LedgerError::UnknownPriorOutput));
    assert_eq!(ledger.mine_block(Vec::new()), Err(LedgerError::EmptyBlock));
    assert_eq!(ledger, before);
}

#[test]
fn mine_block_at_the_top_of_the_height_range_overflows() {
    let a = wallet(1);
    let mut ledger = Blockchain::init(a.address(), false).unwrap();
    ledger.add_block(foreign("aa", "", u128::MAX));
    assert_eq!(ledger.get_height(), u128::MAX);
    let coinbase = Transaction::coinbase_tx(a.address()).unwrap();
    assert_eq!(ledger.mine_block(vec![coinbase]), Err(LedgerError::Overflow));
}

#[test]
fn add_block_advances_the_pointer_only_for_a_higher_block() {
    let a = wallet(1);
    let mut ledger = Blockchain::init(a.address(), false).unwrap();
    let genesis_hash = ledger.latest_hash.clone();
    ledger.add_block(foreign("0a", &genesis_hash, 0));
    assert_eq!(ledger.latest_hash, genesis_hash);
    assert_eq!(ledger.blocks.len(), 2);
    ledger.add_block(foreign("0b", &genesis_hash, 2));
    assert_eq!(ledger.latest_hash, "0b");
    assert_eq!(ledger.get_height(), 2);
    ledger.add_block(foreign("0c", &genesis_hash, 2));
    assert_eq!(ledger.latest_hash, "0b");
    ledger.add_block(foreign("0d", &genesis_hash, 1));
    assert_eq!(ledger.latest_hash, "0b");
    assert_eq!(ledger.blocks.len(), 5);
    ledger.add_block(foreign("0e", "0b", 3));
    assert_eq!(ledger.latest_hash, "0e");
    assert_eq!(ledger.get_height(), 3);
}

#[test]
fn add_block_is_idempotent_by_hash() {
    let a = wallet(1);
    let mut ledger = Blockchain::init(a.address(), false).unwrap();
    let genesis_hash = ledger.latest_hash.clone();
    ledger.add_block(foreign("0a", &genesis_hash, 1));
    let once = copy_of(&ledger);
    ledger.add_block(foreign("0a", &genesis_hash, 1));
    assert_eq!(ledger, once);
    ledger.add_block(foreign("0a", "ff", 9));
    assert_eq!(ledger, once);
}

#[test]
fn iterator_walks_from_the_tip_to_the_first_block_and_restarts() {
    let a = wallet(1);
    let mut ledger = Blockchain::init(a.address(), false).unwrap();
    let genesis_hash = ledger.latest_hash.clone();
    ledger.add_block(foreign("0a", &genesis_hash, 1));
    ledger.add_block(foreign("0b", "0a", 2));
    ledger.add_block(foreign("0c", "0a", 1));
    let mut walker = ledger.iterator();
    let mut seen = Vec::new();
    while let Some(block) = walker.next() {
        seen.push(block.hash);
    }
    assert_eq!(seen, vec!["0b".to_string(), "0a".to_string(), genesis_hash.clone()]);
    assert_eq!(walker.next(), None);
    assert_eq!(ledger.iterator().next().unwrap().hash, "0b");
    assert_eq!(ledger.get_block_hashes(), seen);
    let heights: Vec<u128> = ledger.get_blocks().iter().map(|block| block.height).collect();
    assert_eq!(heights, vec![2, 1, 0]);
}

#[test]
fn iterator_stops_at_a_missing_block_and_in_a_cycle() {
    let a = wallet(1);
    let mut ledger = Blockchain::init(a.address(), false).unwrap();
    ledger.add_block(foreign("0b", "0a", 5));
    assert_eq!(ledger.get_block_hashes(), vec!["0b".to_string()]);
    let mut looped = Blockchain::init(a.address(), false).unwrap();
    looped.add_block(foreign("01", "02", 5));
    looped.add_block(foreign("02", "01", 4));
    assert_eq!(looped.get_block_hashes(), vec!["01".to_string(), "02".to_string(), "01".to_string()]);
}

#[test]
fn get_block_goes_by_the_hex_of_the_hash_bytes() {
    let a = wallet(1);
    let mut ledger = Blockchain::init(a.address(), false).unwrap();
    ledger.add_block(foreign("0aff", "", 0));
    assert_eq!(ledger.get_block(&[0x0a, 0xff]).unwrap().hash, "0aff");
    assert_eq!(ledger.get_block(&[0x0a]), None);
    assert_eq!(ledger.find_block(&"0aff".to_string()).unwrap().hash, "0aff");
    assert!(ledger.find_block(&"0AFF".to_string()).is_none());
}

#[test]
fn find_transaction_scans_the_chain_from_the_tip() {
    let a = wallet(1);
    let b = wallet(2);
    let mut ledger = Blockchain::init(a.address(), false).unwrap();
    let index = UTXOSet::new(&ledger);
    let coinbase = ledger.blocks[0].transactions[0].clone();
    let tx = Transaction::new(&a, &b.address(), 40, &index, &ledger).unwrap();
    ledger.mine_block(vec![tx.clone()]).unwrap();
    assert_eq!(ledger.find_transaction(&tx.id), Ok(tx.clone()));
    assert_eq!(ledger.find_transaction(&coinbase.id), Ok(coinbase.clone()));
    assert_eq!(ledger.find_transaction(&[1, 2, 3]), Err(LedgerError::UnknownPriorTransaction));
    assert_eq!(ledger.all_transactions(), vec![tx, coinbase]);
}

#[test]
fn sign_and_verify_against_the_chain() {
    let a = wallet(1);
    let b = wallet(2);
    let ledger = Blockchain::init(a.address(), false).unwrap();
    let coinbase = ledger.blocks[0].transactions[0].clone();
    let mut tx = Transaction {
        id: vec![],
        inputs: vec![TxInput::new(coinbase.id.clone(), 0, a.pub_key.clone(), vec![])],
        outputs: vec![TxOutput { amount: 100, pub_key_hash: b.owner() }],
    };
    tx.set_id();
    assert_eq!(ledger.verify_transaction(&tx), Ok(false));
    assert_eq!(ledger.sign_transaction(&mut tx, &a.priv_key), Ok(()));
    assert_eq!(ledger.verify_transaction(&tx), Ok(true));
    assert_eq!(ledger.verify_transaction(&coinbase), Ok(true));
    let mut stranger = tx.clone();
    stranger.inputs[0].tx_id = vec![9];
    assert_eq!(ledger.sign_transaction(&mut stranger, &a.priv_key), Err(LedgerError::UnknownPriorTransaction));
    assert_eq!(ledger.verify_transaction(&stranger), Err(LedgerError::UnknownPriorTransaction));
}

#[test]
fn a_sends_forty_to_b_and_mines() {
    let a = wallet(1);
    let b = wallet(2);
    let mut ledger = Blockchain::init(a.address(), false).unwrap();
    let mut index = UTXOSet::new(&ledger);
    assert_eq!(index.balance(&a.owner()), Ok(100));
    assert_eq!(index.balance(&b.owner()), Ok(0));
    let tx = Transaction::new(&a, &b.address(), 40, &index, &ledger).unwrap();
    let block = ledger.mine_block(vec![tx]).unwrap();
    index.update(&block);
    assert_eq!(index.balance(&a.owner()), Ok(60));
    assert_eq!(index.balance(&b.owner()), Ok(40));
    assert_eq!(ledger.get_height(), 1);
}
