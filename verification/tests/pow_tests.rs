use powchain::block::Block;
use powchain::error::LedgerError;
use powchain::proof_of_work::{ProofOfWork, DIFFICULTY};
use powchain::transaction::Transaction;
use powchain::wallet::Wallet;
use sha2::{Digest, Sha256};

fn coinbase() -> Transaction {
    let wallet = Wallet::from_private_key(vec![3u8; 32]).unwrap();
    Transaction::coinbase_tx(wallet.address()).unwrap()
}

fn digest_for(work: &ProofOfWork, nonce: u32) -> Vec<u8> {
    let mut data = work.prev_hash.clone();
    data.extend_from_slice(&work.merkle_root);
    data.extend_from_slice(&nonce.to_be_bytes());
    data.push(work.difficulty);
    Sha256::digest(&data).to_vec()
}

// Whether the digest, as a big-endian number, is below 2^(256 - difficulty):
// its first `difficulty` bits are zero.
fn below_target(digest: &[u8], difficulty: u8) -> bool {
    let mut bits = difficulty as usize;
    for byte in digest {
        if bits == 0 {
            return true;
        }
        if bits >= 8 {
            if *byte != 0 {
                return false;
            }
            bits -= 8;
        } else {
            return (*byte >> (8 - bits)) == 0;
        }
    }
    true
}

#[test]
fn difficulty_is_one_bit() {
    assert_eq!(DIFFICULTY, 1);
}

#[test]
fn preimage_is_prev_hash_root_nonce_difficulty() {
    let block = Block::create_block_at("00ff".to_string(), vec![coinbase()], 1, 5).unwrap();
    let work = ProofOfWork::new(&block).unwrap();
    assert_eq!(work.prev_hash, vec![0x00, 0xff]);
    assert_eq!(work.merkle_root, block.hash_transactions().unwrap());
    assert_eq!(work.nonce, block.nonce);
    assert_eq!(work.digest(7), digest_for(&work, 7));
    let data = work.init_data(0x01020304);
    let mut expected = vec![0x00u8, 0xff];
    expected.extend_from_slice(&work.merkle_root);
    expected.extend_from_slice(&[1, 2, 3, 4, 1]);
    assert_eq!(data, expected);
}

#[test]
fn run_finds_the_first_winning_nonce() {
    let block = Block::create_block_at(String::new(), vec![coinbase()], 0, 5).unwrap();
    let work = ProofOfWork::new(&block).unwrap();
    let (nonce, hash) = work.run().unwrap();
    assert!(nonce >= 1);
    assert_eq!(nonce, block.nonce);
    for earlier in 1..nonce {
        assert!(!below_target(&digest_for(&work, earlier), DIFFICULTY));
    }
    let digest = digest_for(&work, nonce);
    assert!(below_target(&digest, DIFFICULTY));
    assert_eq!(hash, hex::encode(&digest));
    assert_eq!(block.hash, hash);
    assert_eq!(hash.len(), 64);
}

#[test]
fn validate_agrees_with_the_inequality_for_many_nonces() {
    let block = Block::create_block_at(String::new(), vec![coinbase()], 0, 5).unwrap();
    for difficulty in [0u8, 1, 2, 3, 7, 8, 9, 16] {
        let mut work = ProofOfWork::with_difficulty(&block, difficulty).unwrap();
        let mut seen_true = false;
        let mut seen_false = false;
        for nonce in 0..400u32 {
            work.nonce = nonce;
            let expected = below_target(&digest_for(&work, nonce), difficulty);
            assert_eq!(work.validate(), expected);
            assert_eq!(work.wins(nonce), expected);
            seen_true |= expected;
            seen_false |= !expected;
        }
        assert_eq!(seen_false, difficulty > 0);
        if difficulty <= 3 {
            assert!(seen_true);
        }
    }
}

#[test]
fn validate_at_the_hardest_difficulty_is_false_here() {
    let block = Block::create_block_at(String::new(), vec![coinbase()], 0, 5).unwrap();
    let work = ProofOfWork::with_difficulty(&block, 255).unwrap();
    assert!(!work.validate());
}

#[test]
fn mined_block_validates_and_a_losing_nonce_does_not() {
    let mut block = Block::create_block_at(String::new(), vec![coinbase()], 0, 5).unwrap();
    assert!(ProofOfWork::new(&block).unwrap().validate());
    let work = ProofOfWork::new(&block).unwrap();
    let losing = (0..1000u32).find(|nonce| !below_target(&digest_for(&work, *nonce), DIFFICULTY)).unwrap();
    block.nonce = losing;
    assert!(!ProofOfWork::new(&block).unwrap().validate());
}

#[test]
fn work_needs_a_hex_predecessor_and_a_transaction() {
    assert!(matches!(
        Block::create_block_at("zz".to_string(), vec![coinbase()], 1, 5),
        Err(LedgerError::DecodeError)
    ));
    assert!(matches!(
        Block::create_block_at("abc".to_string(), vec![coinbase()], 1, 5),
        Err(LedgerError::DecodeError)
    ));
    assert!(matches!(Block::create_block_at(String::new(), Vec::new(), 1, 5), Err(LedgerError::EmptyBlock)));
    assert!(matches!(Block::create_block_at("zz".to_string(), Vec::new(), 1, 5), Err(LedgerError::DecodeError)));
}

#[test]
fn upper_case_predecessor_hash_is_read_too() {
    let lower = Block::create_block_at("ab".to_string(), vec![coinbase()], 1, 5).unwrap();
    let upper = Block::create_block_at("AB".to_string(), vec![coinbase()], 1, 5).unwrap();
    assert_eq!(lower.hash, upper.hash);
}

#[test]
fn genesis_has_height_zero_and_no_predecessor() {
    let block = Block::genesis(coinbase()).unwrap();
    assert_eq!(block.height, 0);
    assert_eq!(block.prev_hash, "");
    assert_eq!(block.transactions.len(), 1);
    assert!(block.transactions[0].is_coinbase());
    assert!(ProofOfWork::new(&block).unwrap().validate());
}

#[test]
fn create_block_keeps_what_it_was_given() {
    let block = Block::create_block("0a".to_string(), vec![coinbase()], 9).unwrap();
    assert_eq!(block.height, 9);
    assert_eq!(block.prev_hash, "0a");
    assert_eq!(block.transactions[0].id, coinbase().id);
    let at = Block::create_block_at("0a".to_string(), vec![coinbase()], 9, 77).unwrap();
    assert_eq!(at.timestamp, 77);
    assert_eq!(at.hash, block.hash);
    assert_eq!(at.nonce, block.nonce);
}

#[test]
fn hash_transactions_is_the_merkle_root_of_the_encodings() {
    let tx = coinbase();
    let inputs: Vec<(Vec<u8>, usize, Vec<u8>, Vec<u8>)> =
        tx.inputs.iter().map(|i| (i.tx_id.clone(), i.out_idx, i.sig.clone(), i.pub_key.clone())).collect();
    let outputs: Vec<(u128, Vec<u8>)> = tx.outputs.iter().map(|o| (o.amount, o.pub_key_hash.clone())).collect();
    let encoded = bincode::encode_to_vec((tx.id.clone(), inputs, outputs), bincode::config::standard()).unwrap();
    let leaf = Sha256::digest(&encoded).to_vec();
    let mut both = leaf.clone();
    both.extend_from_slice(&leaf);
    let block = Block::create_block_at(String::new(), vec![tx], 0, 5).unwrap();
    assert_eq!(block.hash_transactions().unwrap(), Sha256::digest(&both).to_vec());
}
