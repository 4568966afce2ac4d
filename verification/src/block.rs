//! Blocks: the record, its mathematical view, hashing and proof of work.

use crate::clock::now_millis;
use crate::codec::{put_fields, spec_encode_block, text_fits};
use crate::error::BlockError;
use crate::hash::{sha256, sha256_digest};
use crate::text::{has_zero_prefix, hex, lemma_hex_len, starts_with_zeros, to_hex};
use vstd::prelude::*;
use vstd::utf8::*;

verus! {

/// What a block is, mathematically: two numbers that place and date it, the
/// texts that link and fill it, and the nonce and hash that seal it.
#[verifier::ext_equal]
pub struct BlockView {
    pub id: u64,
    pub hash: Seq<char>,
    pub previous_hash: Seq<char>,
    pub timestamp: u64,
    pub data: Seq<char>,
    pub nonce: u64,
}

impl BlockView {
    /// The block with its hash blanked: what the hash is computed from.
    pub open spec fn unsealed(self) -> BlockView {
        BlockView { hash: Seq::empty(), ..self }
    }

    /// The block with another nonce.
    pub open spec fn with_nonce(self, nonce: u64) -> BlockView {
        BlockView { nonce, ..self }
    }

    /// The block with another hash.
    pub open spec fn with_hash(self, hash: Seq<char>) -> BlockView {
        BlockView { hash, ..self }
    }
}

/// One record of the chain, linked to its predecessor by hash.
#[derive(Debug)]
pub struct Block {
    pub id: u64,
    pub hash: String,
    pub previous_hash: String,
    pub timestamp: u64,
    pub data: String,
    pub nonce: u64,
}

impl View for Block {
    type V = BlockView;

    open spec fn view(&self) -> BlockView {
        BlockView {
            id: self.id,
            hash: self.hash@,
            previous_hash: self.previous_hash@,
            timestamp: self.timestamp,
            data: self.data@,
            nonce: self.nonce,
        }
    }
}

impl DeepView for Block {
    type V = BlockView;

    open spec fn deep_view(&self) -> BlockView {
        self@
    }
}

impl Clone for Block {
    fn clone(&self) -> (copy: Block)
        ensures
            copy == *self,
    {
        Block {
            id: self.id,
            hash: self.hash.clone(),
            previous_hash: self.previous_hash.clone(),
            timestamp: self.timestamp,
            data: self.data.clone(),
            nonce: self.nonce,
        }
    }
}

/// The hash of a block: the lowercase hexadecimal SHA-256 digest of the
/// binary form of the block with its hash blanked.
pub open spec fn block_hash(b: BlockView) -> Seq<char> {
    hex(sha256(spec_encode_block(b.unsealed())))
}

/// Whether nonce `n` solves the proof of work for `b` at difficulty `d`: the
/// hash of `b` with that nonce begins with `d` zeros.
pub open spec fn solves(b: BlockView, n: u64, d: nat) -> bool {
    has_zero_prefix(block_hash(b.with_nonce(n)), d)
}

/// The rule, if any, by which `b` fails to link to `previous`.
pub open spec fn link_error(b: BlockView, previous: BlockView) -> Option<BlockError> {
    if b.previous_hash != previous.hash {
        Some(BlockError::PreviousHash)
    } else if b.id != previous.id + 1 {
        Some(BlockError::Id)
    } else {
        None
    }
}

/// Whether the hash of `b` is the hash of its other fields. A block whose
/// texts do not fit the binary form has no hash.
pub open spec fn hash_matches(b: BlockView) -> bool {
    b.encodable() && b.hash == block_hash(b)
}

/// Whether `n` is the first nonce above that of `b` to solve the proof of
/// work for `b` at difficulty `d`.
pub open spec fn first_solution(b: BlockView, n: u64, d: nat) -> bool {
    &&& b.nonce < n
    &&& solves(b, n, d)
    &&& forall|m: u64| b.nonce < m < n ==> !#[trigger] solves(b, m, d)
}

/// The block `b` sealed with nonce `n`: the nonce set, and the hash that
/// follows from it.
pub open spec fn sealed_with(b: BlockView, n: u64) -> BlockView {
    b.with_nonce(n).with_hash(block_hash(b.with_nonce(n)))
}

/// No two nonces are both the first to solve a block.
pub proof fn lemma_first_solution_unique(b: BlockView, n: u64, m: u64, d: nat)
    requires
        first_solution(b, n, d),
        first_solution(b, m, d),
    ensures
        n == m,
{
}

/// The first rule, if any, by which `b` fails to be a valid successor of
/// `previous` at difficulty `d`: link, id, hash, proof of work, in this order.
pub open spec fn successor_error(b: BlockView, previous: BlockView, d: nat) -> Option<BlockError> {
    if link_error(b, previous) is Some {
        link_error(b, previous)
    } else if !hash_matches(b) {
        Some(BlockError::Hash)
    } else if !has_zero_prefix(b.hash, d) {
        Some(BlockError::ProofOfWork)
    } else {
        None
    }
}

/// The hash covers every field but `hash`: blocks that differ in nothing
/// else have the same hash.
pub proof fn law_hash_ignores_hash_field(a: BlockView, b: BlockView)
    requires
        a.id == b.id,
        a.previous_hash == b.previous_hash,
        a.timestamp == b.timestamp,
        a.data == b.data,
        a.nonce == b.nonce,
    ensures
        block_hash(a) == block_hash(b),
{
    assert(a.unsealed() =~= b.unsealed());
}

/// The hexadecimal form of a 32-byte digest is 64 characters long and fits
/// the binary form.
proof fn lemma_block_hash_fits(b: BlockView)
    requires
        sha256(spec_encode_block(b.unsealed())).len() == 32,
    ensures
        block_hash(b).len() == 64,
        text_fits(block_hash(b)),
{
    lemma_hex_len(sha256(spec_encode_block(b.unsealed())));
}

impl Block {
    /// A block that is not yet mined, dated by the clock: no nonce, no hash.
    pub fn new(id: u64, previous_hash: String, data: String) -> (b: Block)
        ensures
            b@ == (BlockView {
                id,
                hash: Seq::empty(),
                previous_hash: previous_hash@,
                timestamp: b.timestamp,
                data: data@,
                nonce: 0,
            }),
    {
        Block::with_timestamp(id, previous_hash, data, now_millis())
    }

    /// A block that is not yet mined, dated `timestamp`: no nonce, no hash.
    pub fn with_timestamp(id: u64, previous_hash: String, data: String, timestamp: u64) -> (b:
        Block)
        ensures
            b@ == (BlockView {
                id,
                hash: Seq::empty(),
                previous_hash: previous_hash@,
                timestamp,
                data: data@,
                nonce: 0,
            }),
    {
        Block { id, hash: String::new(), previous_hash, timestamp, data, nonce: 0 }
    }

    /// The hash of the block's fields other than `hash`.
    pub fn calculate_hash(&self) -> (h: String)
        requires
            self@.hashable(),
        ensures
            h@ == block_hash(self@),
            h@.len() == 64,
            text_fits(h@),
    {
        let blank = String::new();
        let mut bytes: Vec<u8> = Vec::new();
        assert(text_fits(blank@)) by {
            assert(encode_utf8(blank@) =~= Seq::<u8>::empty());
        }
        put_fields(
            &mut bytes,
            self.id,
            blank.as_str(),
            self.previous_hash.as_str(),
            self.timestamp,
            self.data.as_str(),
            self.nonce,
        );
        let digest = sha256_digest(bytes.as_slice());
        proof {
            assert(bytes@ =~= spec_encode_block(self@.unsealed()));
            lemma_block_hash_fits(self@);
        }
        to_hex(digest.as_slice())
    }

    /// Searches the nonces above the block's own, in order, for the first
    /// whose hash begins with `difficulty` zeros, and seals the block with it.
    /// Returns `false`, and leaves the block as it was, where no nonce up to
    /// the largest solves it.
    pub fn mine(&mut self, difficulty: usize) -> (mined: bool)
        requires
            old(self)@.hashable(),
        ensures
            mined ==> ({
                &&& first_solution(old(self)@, final(self).nonce, difficulty as nat)
                &&& final(self)@ == sealed_with(old(self)@, final(self).nonce)
                &&& hash_matches(final(self)@)
                &&& has_zero_prefix(final(self).hash@, difficulty as nat)
            }),
            !mined ==> ({
                &&& final(self)@ == old(self)@
                &&& forall|n: u64|
                    old(self).nonce < n ==> !#[trigger] solves(old(self)@, n, difficulty as nat)
            }),
    {
        let start: u64 = self.nonce;
        let ghost entry = self@;
        assert(self@ =~= entry.with_nonce(self.nonce));
        while self.nonce < u64::MAX
            invariant
                start <= self.nonce,
                start == entry.nonce,
                entry == old(self)@,
                entry.hashable(),
                self@ == entry.with_nonce(self.nonce),
                forall|n: u64|
                    start < n <= self.nonce ==> !#[trigger] solves(entry, n, difficulty as nat),
            decreases u64::MAX - self.nonce,
        {
            self.nonce = self.nonce + 1;
            assert(self@ =~= entry.with_nonce(self.nonce));
            let h = self.calculate_hash();
            if starts_with_zeros(h.as_str(), difficulty) {
                self.hash = h;
                proof {
                    let sealed = entry.with_nonce(self.nonce);
                    assert(self@ =~= sealed.with_hash(block_hash(sealed)));
                    assert(self@.unsealed() =~= sealed.unsealed());
                }
                return true;
            }
        }
        self.nonce = start;
        assert(self@ =~= entry);
        false
    }

    /// Checks the block's link to `previous`: the hash it names, then its id.
    pub fn validate(&self, previous: &Block) -> (r: Result<(), BlockError>)
        ensures
            (match r {
                Ok(_) => link_error(self@, previous@) is None,
                Err(e) => link_error(self@, previous@) == Some(e),
            }),
    {
        if self.previous_hash != previous.hash {
            return Err(BlockError::PreviousHash);
        }
        if previous.id == u64::MAX || self.id != previous.id + 1 {
            return Err(BlockError::Id);
        }
        Ok(())
    }

    /// Checks that the block is a valid successor of `previous`: its link,
    /// its id, its hash, and its proof of work at `difficulty`.
    pub fn validate_successor(&self, previous: &Block, difficulty: usize) -> (r: Result<
        (),
        BlockError,
    >)
        ensures
            (match r {
                Ok(_) => successor_error(self@, previous@, difficulty as nat) is None,
                Err(e) => successor_error(self@, previous@, difficulty as nat) == Some(e),
            }),
    {
        match self.validate(previous) {
            Err(e) => { return Err(e); },
            Ok(_) => {},
        }
        if !self.is_hashable() {
            return Err(BlockError::Hash);
        }
        let h = self.calculate_hash();
        if self.hash != h {
            return Err(BlockError::Hash);
        }
        if !starts_with_zeros(self.hash.as_str(), difficulty) {
            return Err(BlockError::ProofOfWork);
        }
        Ok(())
    }
}

} // verus!
