//! A wallet is a key pair; its address names the owner of its coins.

use crate::address::{address_bytes, base58_encoding, encode_address, hash_pub_key, pub_key_hash};
use crate::signature::{ecdsa_public_key, public_key_of, random_private_key};
use vstd::prelude::*;

verus! {

/// A private key and the compressed public key that belongs to it.
#[derive(Debug, PartialEq, Eq)]
pub struct Wallet {
    pub pub_key: Vec<u8>,
    pub priv_key: Vec<u8>,
}

impl Wallet {
    /// A wallet is well formed when its public key is that of its private
    /// key.
    pub open spec fn wf(&self) -> bool {
        ecdsa_public_key(self.priv_key@) == Some(self.pub_key@)
    }

    /// A wallet over a key that the operating system's generator drew.
    pub fn new() -> (wallet: Self)
        ensures
            wallet.wf(),
    {
        let priv_key = random_private_key();
        match public_key_of(priv_key.as_slice()) {
            Some(pub_key) => Wallet { pub_key, priv_key },
            None => Wallet { pub_key: Vec::new(), priv_key },
        }
    }

    /// The wallet of a given private key; `None` when the bytes are no
    /// private key.
    pub fn from_private_key(priv_key: Vec<u8>) -> (wallet: Option<Self>)
        ensures
            match wallet {
                Some(w) => w.wf() && w.priv_key == priv_key,
                None => ecdsa_public_key(priv_key@).is_none(),
            },
    {
        match public_key_of(priv_key.as_slice()) {
            Some(pub_key) => Some(Wallet { pub_key, priv_key }),
            None => None,
        }
    }

    /// The text of this wallet's address.
    pub open spec fn address_text(&self) -> Seq<char> {
        base58_encoding(address_bytes(pub_key_hash(self.pub_key@)))
    }

    /// The hash that names this wallet as an owner.
    pub fn owner(&self) -> (hash: Vec<u8>)
        ensures
            hash@ == pub_key_hash(self.pub_key@),
    {
        hash_pub_key(self.pub_key.as_slice())
    }

    /// The address of this wallet: the base58 text of version byte, public
    /// key hash and checksum.
    pub fn address(&self) -> (text: String)
        ensures
            text@ == self.address_text(),
    {
        let hash = hash_pub_key(self.pub_key.as_slice());
        match encode_address(hash.as_slice()) {
            Some(text) => text,
            None => String::new(),
        }
    }

    /// Hashes a public key down to what names its owner.
    pub fn hash_pub_key(pub_key: &Vec<u8>) -> (hash: Vec<u8>)
        ensures
            hash@ == pub_key_hash(pub_key@),
    {
        hash_pub_key(pub_key.as_slice())
    }
}

} // verus!
