use base58::{FromBase58, ToBase58};
use powchain::address::{
    checksum, checksum_matches, decode_address, encode_address, hash_pub_key, payload_of, validate_address,
};
use powchain::error::LedgerError;
use powchain::wallet::Wallet;
use powchain::wallets::Wallets;
use ripemd::Ripemd160;
use sha2::{Digest, Sha256};

#[test]
fn hash_pub_key_is_ripemd_of_sha() {
    let key = b"some public key";
    let expected = Ripemd160::digest(Sha256::digest(key)).to_vec();
    assert_eq!(hash_pub_key(key), expected);
    assert_eq!(hash_pub_key(key).len(), 20);
}

#[test]
fn checksum_is_first_four_bytes_of_double_sha() {
    let body = [0u8, 1, 2, 3];
    let expected = Sha256::digest(Sha256::digest(body)).to_vec()[..4].to_vec();
    assert_eq!(checksum(&body), expected);
}

#[test]
fn address_is_version_hash_checksum_in_base58() {
    let hash = [7u8; 20];
    let mut raw = vec![0u8];
    raw.extend_from_slice(&hash);
    let sum = Sha256::digest(Sha256::digest(&raw)).to_vec()[..4].to_vec();
    raw.extend_from_slice(&sum);
    let text = encode_address(&hash).unwrap();
    assert_eq!(text, raw.to_base58());
    assert_eq!(text.from_base58().unwrap(), raw);
    assert!(validate_address(&text));
    assert_eq!(decode_address(&text), Ok(hash.to_vec()));
}

#[test]
fn encode_address_rejects_long_hashes() {
    assert!(encode_address(&[1u8; 65]).is_none());
    assert!(encode_address(&[1u8; 64]).is_some());
}

#[test]
fn payload_needs_more_than_a_checksum() {
    assert_eq!(payload_of(&[1, 2, 3, 4]), None);
    assert_eq!(payload_of(&[9, 1, 2, 3, 4]), Some(vec![]));
    assert_eq!(payload_of(&[9, 8, 7, 1, 2, 3, 4]), Some(vec![8, 7]));
}

#[test]
fn wrong_checksum_is_no_address() {
    let mut raw = vec![0u8; 21];
    raw.extend_from_slice(&[1, 2, 3, 4]);
    assert!(!checksum_matches(&raw));
    assert!(!validate_address(&raw.to_base58()));
    assert!(!checksum_matches(&[1, 2, 3]));
}

#[test]
fn malformed_addresses_do_not_decode() {
    assert_eq!(decode_address("0OIl"), Err(LedgerError::DecodeError));
    assert_eq!(decode_address(""), Err(LedgerError::DecodeError));
    assert_eq!(decode_address("11"), Err(LedgerError::DecodeError));
    let long = "1".repeat(133);
    assert_eq!(decode_address(&long), Err(LedgerError::DecodeError));
    assert!(!validate_address(&long));
    assert!(!validate_address("not base58 !"));
}

#[test]
fn wallet_address_is_valid_and_names_its_owner() {
    let wallet = Wallet::new();
    assert_eq!(wallet.priv_key.len(), 32);
    assert_eq!(wallet.pub_key.len(), 33);
    let address = wallet.address();
    assert!(validate_address(&address));
    assert_eq!(decode_address(&address), Ok(wallet.owner()));
    assert_eq!(Wallet::hash_pub_key(&wallet.pub_key), wallet.owner());
}

#[test]
fn wallet_from_private_key() {
    let wallet = Wallet::from_private_key(vec![1u8; 32]).unwrap();
    let again = Wallet::from_private_key(vec![1u8; 32]).unwrap();
    assert_eq!(wallet.pub_key, again.pub_key);
    assert_ne!(wallet.pub_key, vec![1u8; 32]);
    assert!(Wallet::from_private_key(vec![0u8; 32]).is_none());
    assert!(Wallet::from_private_key(vec![1u8; 40]).is_none());
}

#[test]
fn two_wallets_differ() {
    assert_ne!(Wallet::new().priv_key, Wallet::new().priv_key);
}

#[test]
fn wallets_keep_each_wallet_under_its_address() {
    let mut wallets = Wallets::new();
    assert!(wallets.get_all_addresses().is_empty());
    let first = wallets.add_wallet();
    let second = wallets.add_wallet();
    assert_eq!(wallets.get_all_addresses(), vec![first.as_str(), second.as_str()]);
    assert_eq!(wallets.get_wallet(&first).unwrap().address(), first);
    assert_eq!(wallets.get_wallet(&second).unwrap().address(), second);
    assert!(wallets.get_wallet("nobody").is_none());
    assert!(wallets.get_wallet_mut("nobody").is_none());
    let key = wallets.get_wallet(&second).unwrap().priv_key.clone();
    wallets.get_wallet_mut(&second).unwrap().priv_key = vec![9; 32];
    assert_eq!(wallets.wallets[1].1.priv_key, vec![9; 32]);
    assert_ne!(wallets.wallets[0].1.priv_key, vec![9; 32]);
    assert_ne!(key, vec![9; 32]);
}
