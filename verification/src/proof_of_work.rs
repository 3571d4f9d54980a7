//! Proof of work: the search for a nonce whose digest falls below the target,
//! and the check that a stored nonce did.

use crate::block::{merkle_root_of, Block};
use crate::digest::{sha256, sha256_digest};
use crate::error::LedgerError;
use crate::hexcode::{hex_decode, hex_decoding, hex_encode, hex_encoding};
use crate::octets::{append_bytes, be_bytes, push_be_bytes};
use crate::transaction::tx_views;
use ethereum_types::U256;
use vstd::arithmetic::power2::pow2;
use vstd::prelude::*;

verus! {

/// The number of leading zero bits a block's digest must show.
pub const DIFFICULTY: u8 = 1;

/// The number a byte string stands for, most significant byte first.
pub open spec fn be_value(bytes: Seq<u8>) -> nat
    decreases bytes.len(),
{
    if bytes.len() == 0 {
        0
    } else {
        be_value(bytes.drop_last()) * 256 + bytes.last() as nat
    }
}

/// What is hashed for a candidate nonce.
pub open spec fn preimage(prev_hash: Seq<u8>, merkle_root: Seq<u8>, nonce: u32, difficulty: u8) -> Seq<u8> {
    prev_hash + merkle_root + be_bytes(nonce) + seq![difficulty]
}

/// The bound a digest must stay under: 2^(256 - difficulty).
pub open spec fn target(difficulty: u8) -> nat {
    pow2((256 - difficulty) as nat)
}

/// Whether the digest for `nonce`, read as a big-endian number, is under the
/// target.
pub open spec fn nonce_wins(prev_hash: Seq<u8>, merkle_root: Seq<u8>, nonce: u32, difficulty: u8) -> bool {
    be_value(sha256(preimage(prev_hash, merkle_root, nonce, difficulty))) < target(difficulty)
}

/// Whether `nonce` is the first, counting from 1 and short of `u32::MAX`,
/// that wins.
pub open spec fn first_win(prev_hash: Seq<u8>, merkle_root: Seq<u8>, nonce: u32, difficulty: u8) -> bool {
    &&& 1 <= nonce < u32::MAX
    &&& nonce_wins(prev_hash, merkle_root, nonce, difficulty)
    &&& forall|earlier: u32| 1 <= earlier < nonce ==> !nonce_wins(prev_hash, merkle_root, earlier, difficulty)
}

/// Whether no nonce from 1 and short of `u32::MAX` wins.
pub open spec fn exhausted(prev_hash: Seq<u8>, merkle_root: Seq<u8>, difficulty: u8) -> bool {
    forall|nonce: u32| 1 <= nonce < u32::MAX ==> !nonce_wins(prev_hash, merkle_root, nonce, difficulty)
}

/// A byte string of `n` bytes stands for a number below 2^(8n).
pub proof fn lemma_be_value_bound(bytes: Seq<u8>)
    ensures
        be_value(bytes) < pow2(8 * bytes.len()),
    decreases bytes.len(),
{
    vstd::arithmetic::power2::lemma2_to64();
    if bytes.len() > 0 {
        let shorter = bytes.drop_last();
        lemma_be_value_bound(shorter);
        vstd::arithmetic::power2::lemma_pow2_adds(8 * shorter.len(), 8);
        assert(8 * shorter.len() + 8 == 8 * bytes.len());
        assert(be_value(bytes) < pow2(8 * shorter.len()) * 256) by (nonlinear_arith)
            requires
                be_value(bytes) == be_value(shorter) * 256 + bytes.last() as nat,
                be_value(shorter) < pow2(8 * shorter.len()),
                bytes.last() < 256,
        ;
    }
}

/// Calls `U256::from_big_endian`, shifts `U256::one()` left and compares.
/// Trusted: the bytes are read as a big-endian number, the shift gives
/// 2^bits for `bits` below 256, and `<` compares the numbers. Strings over
/// 32 bytes are left out: the conversion panics on them.
#[verifier::external_body]
pub(crate) fn below_power_of_two(bytes: &[u8], bits: u32) -> (below: bool)
    requires
        bytes@.len() <= 32,
        bits < 256,
    ensures
        below == (be_value(bytes@) < pow2(bits as nat)),
{
    U256::from_big_endian(bytes) < (U256::one() << bits)
}

/// The work on one block: what precedes the nonce in its preimage, the nonce
/// it stores, and the difficulty.
#[derive(Debug, PartialEq, Eq)]
pub struct ProofOfWork {
    pub difficulty: u8,
    pub prev_hash: Vec<u8>,
    pub merkle_root: Vec<u8>,
    pub nonce: u32,
}

impl ProofOfWork {
    /// The work on `block` at the ledger's difficulty. Fails with
    /// `DecodeError` when the predecessor's hash is not hexadecimal, with
    /// `EmptyBlock` when the block holds no transaction.
    pub fn new(block: &Block) -> (work: Result<Self, LedgerError>)
        ensures
            match work {
                Ok(w) => {
                    &&& hex_decoding(block.prev_hash@) == Some(w.prev_hash@)
                    &&& block.transactions@.len() > 0
                    &&& w.merkle_root@ == merkle_root_of(tx_views(block.transactions@))
                    &&& w.nonce == block.nonce
                    &&& w.difficulty == DIFFICULTY
                },
                Err(e) => if hex_decoding(block.prev_hash@).is_none() {
                    e == LedgerError::DecodeError
                } else {
                    block.transactions@.len() == 0 && e == LedgerError::EmptyBlock
                },
            },
    {
        Self::with_difficulty(block, DIFFICULTY)
    }

    /// The work on `block` at a difficulty given in bits.
    pub fn with_difficulty(block: &Block, difficulty: u8) -> (work: Result<Self, LedgerError>)
        ensures
            match work {
                Ok(w) => {
                    &&& hex_decoding(block.prev_hash@) == Some(w.prev_hash@)
                    &&& block.transactions@.len() > 0
                    &&& w.merkle_root@ == merkle_root_of(tx_views(block.transactions@))
                    &&& w.nonce == block.nonce
                    &&& w.difficulty == difficulty
                },
                Err(e) => if hex_decoding(block.prev_hash@).is_none() {
                    e == LedgerError::DecodeError
                } else {
                    block.transactions@.len() == 0 && e == LedgerError::EmptyBlock
                },
            },
    {
        match hex_decode(block.prev_hash.as_str()) {
            None => Err(LedgerError::DecodeError),
            Some(prev_hash) => match block.hash_transactions() {
                Err(e) => Err(e),
                Ok(merkle_root) => Ok(ProofOfWork { difficulty, prev_hash, merkle_root, nonce: block.nonce }),
            },
        }
    }

    /// The preimage for a candidate nonce.
    pub fn init_data(&self, nonce: u32) -> (data: Vec<u8>)
        ensures
            data@ == preimage(self.prev_hash@, self.merkle_root@, nonce, self.difficulty),
    {
        let mut data: Vec<u8> = Vec::new();
        append_bytes(&mut data, self.prev_hash.as_slice());
        append_bytes(&mut data, self.merkle_root.as_slice());
        push_be_bytes(&mut data, nonce);
        data.push(self.difficulty);
        assert(data@ =~= preimage(self.prev_hash@, self.merkle_root@, nonce, self.difficulty));
        data
    }

    /// The digest for a candidate nonce.
    pub fn digest(&self, nonce: u32) -> (digest: Vec<u8>)
        ensures
            digest@ == sha256(preimage(self.prev_hash@, self.merkle_root@, nonce, self.difficulty)),
            digest@.len() == 32,
    {
        let data = self.init_data(nonce);
        sha256_digest(data.as_slice())
    }

    /// Whether a digest, read as a big-endian number, is under the target.
    fn under_target(&self, digest: &[u8]) -> (under: bool)
        requires
            digest@.len() == 32,
        ensures
            under == (be_value(digest@) < target(self.difficulty)),
    {
        if self.difficulty == 0 {
            proof {
                lemma_be_value_bound(digest@);
            }
            return true;
        }
        let bits: u32 = 256 - self.difficulty as u32;
        below_power_of_two(digest, bits)
    }

    /// Whether the digest for `nonce` is under the target.
    pub fn wins(&self, nonce: u32) -> (won: bool)
        ensures
            won == nonce_wins(self.prev_hash@, self.merkle_root@, nonce, self.difficulty),
    {
        let digest = self.digest(nonce);
        self.under_target(digest.as_slice())
    }

    /// Tries the nonces from 1 on and stops at the first that wins, which it
    /// returns with the hexadecimal text of its digest. `None` when no nonce
    /// short of `u32::MAX` wins.
    pub fn run(&self) -> (found: Option<(u32, String)>)
        ensures
            match found {
                Some((nonce, hash)) => {
                    &&& first_win(self.prev_hash@, self.merkle_root@, nonce, self.difficulty)
                    &&& hash@ == hex_encoding(
                        sha256(preimage(self.prev_hash@, self.merkle_root@, nonce, self.difficulty)),
                    )
                    &&& hash@.len() == 64
                },
                None => exhausted(self.prev_hash@, self.merkle_root@, self.difficulty),
            },
    {
        let mut nonce: u32 = 1;
        while nonce < u32::MAX
            invariant
                1 <= nonce,
                forall|earlier: u32|
                    1 <= earlier < nonce ==> !nonce_wins(
                        self.prev_hash@,
                        self.merkle_root@,
                        earlier,
                        self.difficulty,
                    ),
            decreases u32::MAX - nonce,
        {
            let digest = self.digest(nonce);
            if self.under_target(digest.as_slice()) {
                return Some((nonce, hex_encode(digest.as_slice())));
            }
            nonce = nonce + 1;
        }
        None
    }

    /// Whether the stored nonce wins: the digest of its preimage, read as a
    /// big-endian number, is below 2^(256 - difficulty).
    pub fn validate(&self) -> (valid: bool)
        ensures
            valid == (be_value(
                sha256(preimage(self.prev_hash@, self.merkle_root@, self.nonce, self.difficulty)),
            ) < pow2((256 - self.difficulty) as nat)),
    {
        self.wins(self.nonce)
    }
}

} // verus!
