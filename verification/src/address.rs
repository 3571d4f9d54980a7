//! Addresses: a version byte, a public-key hash and a four-byte checksum, in
//! base58 text.

use crate::digest::{ripemd160, ripemd160_digest, sha256, sha256_digest};
use crate::error::LedgerError;
use crate::octets::{append_bytes, bytes_eq, copy_range};
use base58::{FromBase58, ToBase58};
use vstd::prelude::*;

verus! {

/// The version byte every address starts with.
pub const VERSION: u8 = 0;

/// Number of checksum bytes at the end of an address.
pub const CHECK_SUM_LENGTH: usize = 4;

/// The longest address text that is decoded; longer ones are rejected.
pub const MAX_ADDRESS_TEXT: usize = 132;

/// The longest byte string that is given a base58 text.
pub const MAX_ADDRESS_BYTES: usize = 96;

/// The base58 text of a byte string.
pub uninterp spec fn base58_encoding(data: Seq<u8>) -> Seq<char>;

/// The bytes a base58 text stands for; `None` when it is not base58.
pub uninterp spec fn base58_decoding(text: Seq<char>) -> Option<Seq<u8>>;

/// Calls `base58::ToBase58::to_base58`. Trusted: the text is a function of
/// the bytes alone.
#[verifier::external_body]
pub(crate) fn base58_encode(data: &[u8]) -> (text: String)
    requires
        data@.len() <= MAX_ADDRESS_BYTES,
    ensures
        text@ == base58_encoding(data@),
{
    data.to_base58()
}

/// Calls `base58::FromBase58::from_base58`. Trusted: the outcome is a
/// function of the text alone. Texts of more than 132 bytes are left out:
/// on some of them the call does not return.
#[verifier::external_body]
pub(crate) fn base58_decode(text: &str) -> (out: Option<Vec<u8>>)
    requires
        text.len() <= MAX_ADDRESS_TEXT,
    ensures
        match out {
            Some(bytes) => base58_decoding(text@) == Some(bytes@),
            None => base58_decoding(text@).is_none(),
        },
{
    text.from_base58().ok()
}

/// The number of bytes a text takes in UTF-8, as `str::len` reports it.
pub open spec fn text_len(text: Seq<char>) -> usize {
    vstd::utf8::encode_utf8(text).len() as usize
}

/// The hash that names a public key's owner: RIPEMD-160 over SHA-256.
pub open spec fn pub_key_hash(pub_key: Seq<u8>) -> Seq<u8> {
    ripemd160(sha256(pub_key))
}

/// The first four bytes of the double SHA-256 of a versioned hash.
pub open spec fn checksum_of(versioned: Seq<u8>) -> Seq<u8> {
    sha256(sha256(versioned)).subrange(0, CHECK_SUM_LENGTH as int)
}

/// The bytes of the address of a public-key hash.
pub open spec fn address_bytes(hash: Seq<u8>) -> Seq<u8> {
    seq![VERSION] + hash + checksum_of(seq![VERSION] + hash)
}

/// The public-key hash inside decoded address bytes: what stands between the
/// version byte and the checksum. `None` when the bytes are too few.
pub open spec fn address_payload(raw: Seq<u8>) -> Option<Seq<u8>> {
    if raw.len() > CHECK_SUM_LENGTH {
        Some(raw.subrange(1, raw.len() - CHECK_SUM_LENGTH))
    } else {
        None
    }
}

/// Whether decoded address bytes end in the checksum of what precedes it.
pub open spec fn checksum_holds(raw: Seq<u8>) -> bool {
    &&& raw.len() > CHECK_SUM_LENGTH
    &&& raw.subrange(raw.len() - CHECK_SUM_LENGTH, raw.len() as int) == checksum_of(
        raw.subrange(0, raw.len() - CHECK_SUM_LENGTH),
    )
}

/// The public-key hash an address text names.
pub open spec fn address_owner(text: Seq<char>) -> Option<Seq<u8>> {
    if text_len(text) <= MAX_ADDRESS_TEXT {
        match base58_decoding(text) {
            Some(raw) => address_payload(raw),
            None => None,
        }
    } else {
        None
    }
}

/// Whether an address text decodes to bytes whose checksum holds.
pub open spec fn address_is_valid(text: Seq<char>) -> bool {
    &&& text_len(text) <= MAX_ADDRESS_TEXT
    &&& base58_decoding(text) matches Some(raw)
    &&& checksum_holds(raw)
}

/// Hashes a public key down to the 20 bytes that name its owner.
pub fn hash_pub_key(pub_key: &[u8]) -> (hash: Vec<u8>)
    ensures
        hash@ == pub_key_hash(pub_key@),
        hash@.len() == 20,
{
    let first = sha256_digest(pub_key);
    ripemd160_digest(first.as_slice())
}

/// The four checksum bytes of a versioned hash.
pub fn checksum(versioned: &[u8]) -> (sum: Vec<u8>)
    ensures
        sum@ == checksum_of(versioned@),
        sum@.len() == CHECK_SUM_LENGTH,
{
    let once = sha256_digest(versioned);
    let twice = sha256_digest(once.as_slice());
    copy_range(twice.as_slice(), 0, CHECK_SUM_LENGTH)
}

/// Cuts the public-key hash out of decoded address bytes.
pub fn payload_of(raw: &[u8]) -> (hash: Option<Vec<u8>>)
    ensures
        match hash {
            Some(h) => address_payload(raw@) == Some(h@),
            None => address_payload(raw@).is_none(),
        },
{
    if raw.len() > CHECK_SUM_LENGTH {
        Some(copy_range(raw, 1, raw.len() - CHECK_SUM_LENGTH))
    } else {
        None
    }
}

/// Whether decoded address bytes carry the right checksum.
pub fn checksum_matches(raw: &[u8]) -> (ok: bool)
    ensures
        ok == checksum_holds(raw@),
{
    if raw.len() <= CHECK_SUM_LENGTH {
        return false;
    }
    let split: usize = raw.len() - CHECK_SUM_LENGTH;
    let body = copy_range(raw, 0, split);
    let tail = copy_range(raw, split, raw.len());
    let expected = checksum(body.as_slice());
    bytes_eq(tail.as_slice(), expected.as_slice())
}

/// The address text of a public-key hash of at most 64 bytes; `None` for a
/// longer one.
pub fn encode_address(hash: &[u8]) -> (text: Option<String>)
    ensures
        match text {
            Some(t) => hash@.len() <= 64 && t@ == base58_encoding(address_bytes(hash@)),
            None => hash@.len() > 64,
        },
{
    if hash.len() > 64 {
        return None;
    }
    let mut raw: Vec<u8> = Vec::new();
    raw.push(VERSION);
    append_bytes(&mut raw, hash);
    let sum = checksum(raw.as_slice());
    assert(raw@ =~= seq![VERSION] + hash@);
    append_bytes(&mut raw, sum.as_slice());
    Some(base58_encode(raw.as_slice()))
}

/// The public-key hash an address names. Fails with `DecodeError` when the
/// text is too long, is not base58, or decodes to too few bytes.
pub fn decode_address(text: &str) -> (hash: Result<Vec<u8>, LedgerError>)
    ensures
        match hash {
            Ok(h) => address_owner(text@) == Some(h@),
            Err(e) => address_owner(text@).is_none() && e == LedgerError::DecodeError,
        },
{
    if text.len() > MAX_ADDRESS_TEXT {
        return Err(LedgerError::DecodeError);
    }
    match base58_decode(text) {
        Some(raw) => match payload_of(raw.as_slice()) {
            Some(h) => Ok(h),
            None => Err(LedgerError::DecodeError),
        },
        None => Err(LedgerError::DecodeError),
    }
}

/// Whether a text is an address: base58 of bytes that end in their checksum.
pub fn validate_address(text: &str) -> (ok: bool)
    ensures
        ok == address_is_valid(text@),
{
    if text.len() > MAX_ADDRESS_TEXT {
        return false;
    }
    match base58_decode(text) {
        Some(raw) => checksum_matches(raw.as_slice()),
        None => false,
    }
}

} // verus!
