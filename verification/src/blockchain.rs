//! The chain store's rules, on the bytes of the chain file: which chain is
//! kept, what may be appended, and what a new block looks like.

use crate::block::{
    first_solution, lemma_first_solution_unique, link_error, sealed_with, successor_error, Block,
    BlockView,
};
use crate::chain::{
    appended, chain_valid, first_failure, law_append_keeps_valid, lemma_failure_is_invalid,
};
use crate::clock::now_millis;
use crate::codec::{
    chain_encodable, encode_chain, lemma_encoding_is_not_empty, spec_encode_chain, text_fits,
};
use crate::decode::{decode_chain, law_decode_encode, law_encode_decode, spec_decode_chain};
use crate::error::ChainError;
use crate::p2p::Event;
use vstd::prelude::*;
use vstd::slice::slice_to_vec;
use vstd::utf8::*;

verus! {

/// The chain store: the proof-of-work difficulty that its chains obey.
#[derive(Clone, Copy, Debug)]
pub struct Blockchain {
    pub difficulty: usize,
}

/// The chain that a chain file with the bytes `stored` holds: none where
/// the file is empty, else the chain that the bytes are the binary form of,
/// if there is one.
pub open spec fn spec_read_all(stored: Seq<u8>) -> Option<Seq<BlockView>> {
    if stored.len() == 0 {
        Some(Seq::empty())
    } else {
        spec_decode_chain(stored)
    }
}

/// Reads the chain that a chain file with the bytes `stored` holds. An empty
/// file holds the chain of no blocks. Fails with `Decode` where the file is
/// not empty and its bytes are not the binary form of a chain.
pub fn read_all(stored: &[u8]) -> (r: Result<Vec<Block>, ChainError>)
    ensures
        (match r {
            Ok(chain) => spec_read_all(stored@) == Some(chain.deep_view()),
            Err(e) => e == ChainError::Decode && spec_read_all(stored@) is None,
        }),
{
    if stored.len() == 0 {
        let chain: Vec<Block> = Vec::new();
        assert(chain.deep_view() =~= Seq::<BlockView>::empty());
        Ok(chain)
    } else {
        decode_chain(stored)
    }
}

/// What is read from a chain file can be written back as it is.
pub proof fn lemma_read_is_encodable(stored: Seq<u8>)
    requires
        spec_read_all(stored) is Some,
    ensures
        chain_encodable(spec_read_all(stored).unwrap()),
{
    if stored.len() > 0 {
        law_encode_decode(stored);
    }
}

/// Whether `bytes` is the binary form of a chain that is valid at
/// difficulty `d`.
pub open spec fn valid_bytes(bytes: Seq<u8>, d: nat) -> bool {
    spec_decode_chain(bytes) is Some && chain_valid(spec_decode_chain(bytes).unwrap(), d)
}

/// The number of blocks of the chain that `bytes` is the binary form of.
pub open spec fn block_count(bytes: Seq<u8>) -> nat
    recommends
        spec_decode_chain(bytes) is Some,
{
    spec_decode_chain(bytes).unwrap().len()
}

/// The chain to keep, of the local one and one received. Where both are
/// valid, the strictly longer, and the local one where neither is longer.
/// Where one is valid, that one. Where neither is, the local one; but where
/// neither is even the binary form of a chain, none.
pub open spec fn spec_choose_chain(local: Seq<u8>, remote: Seq<u8>, d: nat) -> Option<Seq<u8>> {
    if valid_bytes(local, d) && valid_bytes(remote, d) {
        if block_count(remote) > block_count(local) {
            Some(remote)
        } else {
            Some(local)
        }
    } else if valid_bytes(local, d) {
        Some(local)
    } else if valid_bytes(remote, d) {
        Some(remote)
    } else if spec_decode_chain(local) is None && spec_decode_chain(remote) is None {
        None
    } else {
        Some(local)
    }
}

/// Between two valid chains of different lengths the choice does not depend
/// on which of them is the local one.
pub proof fn law_choice_commutes(a: Seq<u8>, b: Seq<u8>, d: nat)
    requires
        valid_bytes(a, d),
        valid_bytes(b, d),
        block_count(a) != block_count(b),
    ensures
        spec_choose_chain(a, b, d) == spec_choose_chain(b, a, d),
{
}

/// Between two valid chains of the same length the local one is kept,
/// whichever of them it is.
pub proof fn law_tie_keeps_local(a: Seq<u8>, b: Seq<u8>, d: nat)
    requires
        valid_bytes(a, d),
        valid_bytes(b, d),
        block_count(a) == block_count(b),
    ensures
        spec_choose_chain(a, b, d) == Some(a),
        spec_choose_chain(b, a, d) == Some(b),
{
}

/// A valid chain chosen against itself is kept.
pub proof fn law_choice_is_idempotent(a: Seq<u8>, d: nat)
    requires
        valid_bytes(a, d),
    ensures
        spec_choose_chain(a, a, d) == Some(a),
{
}

/// A received chain that is not valid is never adopted: the local bytes are
/// kept, as long as one of the two inputs is the binary form of a chain.
pub proof fn law_invalid_remote_keeps_local(local: Seq<u8>, remote: Seq<u8>, d: nat)
    requires
        !valid_bytes(remote, d),
        spec_decode_chain(local) is Some || spec_decode_chain(remote) is Some,
    ensures
        spec_choose_chain(local, remote, d) == Some(local),
{
}

/// What is chosen is one of the two inputs, is valid where either of them
/// is, and is then no shorter than any valid input.
pub proof fn law_choice_is_longest_valid(local: Seq<u8>, remote: Seq<u8>, d: nat)
    requires
        spec_choose_chain(local, remote, d) is Some,
    ensures
        ({
            let kept = spec_choose_chain(local, remote, d).unwrap();
            &&& kept == local || kept == remote
            &&& valid_bytes(local, d) || valid_bytes(remote, d) ==> valid_bytes(kept, d)
            &&& valid_bytes(local, d) ==> block_count(kept) >= block_count(local)
            &&& valid_bytes(remote, d) ==> block_count(kept) >= block_count(remote)
        }),
{
}

/// Offering the same chain again changes nothing: what was kept is kept.
pub proof fn law_choice_is_stable(local: Seq<u8>, remote: Seq<u8>, d: nat)
    requires
        spec_choose_chain(local, remote, d) is Some,
    ensures
        spec_choose_chain(spec_choose_chain(local, remote, d).unwrap(), remote, d)
            == spec_choose_chain(local, remote, d),
{
}

/// Two offers made to a valid local chain end at a valid chain of the same
/// length in whichever order they are made: the length of the longest valid
/// chain among the three.
pub proof fn law_offers_in_any_order(local: Seq<u8>, a: Seq<u8>, b: Seq<u8>, d: nat)
    requires
        valid_bytes(local, d),
    ensures
        ({
            let one = spec_choose_chain(spec_choose_chain(local, a, d).unwrap(), b, d);
            let other = spec_choose_chain(spec_choose_chain(local, b, d).unwrap(), a, d);
            &&& one is Some && other is Some
            &&& valid_bytes(one.unwrap(), d) && valid_bytes(other.unwrap(), d)
            &&& block_count(one.unwrap()) == block_count(other.unwrap())
            &&& block_count(one.unwrap()) >= block_count(local)
            &&& valid_bytes(a, d) ==> block_count(one.unwrap()) >= block_count(a)
            &&& valid_bytes(b, d) ==> block_count(one.unwrap()) >= block_count(b)
        }),
{
}

/// The chain file after an attempt to append `candidate` to the chain in
/// `stored`, or why nothing is appended.
pub open spec fn spec_append_if_valid(stored: Seq<u8>, candidate: BlockView, d: nat) -> Result<
    Seq<u8>,
    ChainError,
> {
    match spec_read_all(stored) {
        None => Err(ChainError::Decode),
        Some(chain) => if chain.len() == 0 {
            Err(ChainError::NotFound)
        } else if successor_error(candidate, chain.last(), d) is Some {
            Err(ChainError::InvalidBlock(successor_error(candidate, chain.last(), d).unwrap()))
        } else if chain.len() >= u32::MAX {
            Err(ChainError::TooLong)
        } else {
            Ok(spec_encode_chain(chain.push(candidate)))
        },
    }
}

/// Appending to the bytes of a valid chain gives the bytes of a valid chain,
/// one block longer, that ends in the candidate.
pub proof fn law_append_keeps_bytes_valid(stored: Seq<u8>, candidate: BlockView, d: nat)
    requires
        valid_bytes(stored, d),
        spec_append_if_valid(stored, candidate, d) is Ok,
    ensures
        ({
            let bytes = spec_append_if_valid(stored, candidate, d)->Ok_0;
            &&& valid_bytes(bytes, d)
            &&& spec_decode_chain(bytes) == Some(spec_decode_chain(stored).unwrap().push(candidate))
        }),
{
    let chain = spec_decode_chain(stored).unwrap();
    law_encode_decode(stored);
    lemma_encoding_is_not_empty(chain);
    let longer = chain.push(candidate);
    assert(chain_encodable(longer)) by {
        assert forall|i: int| 0 <= i < longer.len() implies (#[trigger] longer[i]).encodable() by {
            if i < chain.len() {
                assert(longer[i] == chain[i]);
            }
        }
    }
    law_decode_encode(longer);
    assert(longer == appended(chain, candidate, d));
    law_append_keeps_valid(chain, candidate, d);
}

/// The block to mine on top of `chain` for the payload `data`: next in
/// number, linked to the tip, dated `timestamp`, not yet sealed.
pub open spec fn candidate_for(chain: Seq<BlockView>, data: Seq<char>, timestamp: u64) -> BlockView {
    BlockView {
        id: chain.len() as u64,
        hash: Seq::empty(),
        previous_hash: chain.last().hash,
        timestamp,
        data,
        nonce: 0,
    }
}

/// The chain file's bytes after a block for `data` was mined on top of the
/// chain in `stored`, or why none is mined. The block is sealed with the
/// first nonce that solves it.
pub open spec fn spec_add_block(stored: Seq<u8>, data: Seq<char>, timestamp: u64, d: nat) -> Result<
    Seq<u8>,
    ChainError,
> {
    match spec_read_all(stored) {
        None => Err(ChainError::Decode),
        Some(chain) => {
            let candidate = candidate_for(chain, data, timestamp);
            if chain.len() == 0 {
                Err(ChainError::NotFound)
            } else if link_error(candidate, chain.last()) is Some {
                Err(ChainError::InvalidBlock(link_error(candidate, chain.last()).unwrap()))
            } else if !text_fits(data) {
                Err(ChainError::TooLong)
            } else if !(exists|n: u64| first_solution(candidate, n, d)) {
                Err(ChainError::Unsolved)
            } else if chain.len() >= u32::MAX {
                Err(ChainError::TooLong)
            } else {
                Ok(
                    spec_encode_chain(
                        chain.push(
                            sealed_with(candidate, choose|n: u64| first_solution(candidate, n, d)),
                        ),
                    ),
                )
            }
        },
    }
}

/// Whether `r` reports `expected`: the same error, or the event that a block
/// was mined, with the expected bytes.
pub open spec fn reports(r: Result<Event, ChainError>, expected: Result<Seq<u8>, ChainError>) -> bool {
    match r {
        Ok(event) => event matches Event::BlockMined(bytes) && expected == Ok::<
            Seq<u8>,
            ChainError,
        >(bytes@),
        Err(e) => expected == Err::<Seq<u8>, ChainError>(e),
    }
}

/// The first block of every chain, dated `timestamp`. Its hash is the
/// sentinel `0`: it is not computed, and no proof of work is asked of it.
pub open spec fn genesis_view(timestamp: u64) -> BlockView {
    BlockView {
        id: 0,
        hash: "0"@,
        previous_hash: Seq::empty(),
        timestamp,
        data: "Genesis"@,
        nonce: 0,
    }
}

/// Whether a chain file with the bytes `stored` still lacks its first block:
/// it holds the chain of no blocks.
pub open spec fn needs_genesis(stored: Seq<u8>) -> bool {
    spec_read_all(stored) == Some(Seq::<BlockView>::empty())
}

/// A text of ASCII characters takes one byte each.
proof fn lemma_ascii_text_fits(text: Seq<char>)
    requires
        is_ascii_chars(text),
        text.len() <= u32::MAX,
    ensures
        text_fits(text),
{
    is_ascii_chars_encode_utf8(text);
}

/// What is known of chain bytes once they were read: whether they decode,
/// whether the chain is valid, and how many blocks it has.
pub(crate) struct Reading {
    pub(crate) decodes: bool,
    pub(crate) valid: bool,
    pub(crate) count: usize,
}

impl Blockchain {
    /// A chain store for chains of the given difficulty.
    pub fn new(difficulty: usize) -> (store: Blockchain)
        ensures
            store.difficulty == difficulty,
    {
        Blockchain { difficulty }
    }

    pub(crate) fn read(&self, bytes: &[u8]) -> (reading: Reading)
        ensures
            reading.decodes == (spec_decode_chain(bytes@) is Some),
            reading.valid == valid_bytes(bytes@, self.difficulty as nat),
            reading.decodes ==> reading.count == block_count(bytes@),
    {
        match decode_chain(bytes) {
            Err(_) => Reading { decodes: false, valid: false, count: 0 },
            Ok(chain) => {
                let count: usize = chain.len();
                match Block::validate_all(&chain, self.difficulty) {
                    Ok(_) => Reading { decodes: true, valid: true, count },
                    Err(e) => {
                        proof {
                            match e {
                                ChainError::InvalidChain { index, reason } => {
                                    lemma_failure_is_invalid(
                                        chain.deep_view(),
                                        self.difficulty as nat,
                                        index as int,
                                        reason,
                                    );
                                },
                                _ => {},
                            }
                        }
                        Reading { decodes: true, valid: false, count }
                    },
                }
            },
        }
    }

    /// Chooses between the local chain and one received, by the
    /// longest-valid-chain rule, and gives the bytes of the one to keep.
    /// Fails with `InvalidInput` exactly where neither input is the binary
    /// form of a chain.
    pub fn choose_chain(&self, local: &[u8], remote: &[u8]) -> (r: Result<Vec<u8>, ChainError>)
        ensures
            (match r {
                Ok(kept) => spec_choose_chain(local@, remote@, self.difficulty as nat) == Some(
                    kept@,
                ),
                Err(e) => e == ChainError::InvalidInput && spec_choose_chain(
                    local@,
                    remote@,
                    self.difficulty as nat,
                ) is None,
            }),
    {
        let ours = self.read(local);
        let theirs = self.read(remote);
        if ours.valid && theirs.valid {
            if theirs.count > ours.count {
                Ok(slice_to_vec(remote))
            } else {
                Ok(slice_to_vec(local))
            }
        } else if ours.valid {
            Ok(slice_to_vec(local))
        } else if theirs.valid {
            Ok(slice_to_vec(remote))
        } else if !ours.decodes && !theirs.decodes {
            Err(ChainError::InvalidInput)
        } else {
            Ok(slice_to_vec(local))
        }
    }

    /// The last block of the chain in the chain file's bytes `stored`.
    /// Fails with `Decode` where no chain can be read from them, and with
    /// `NotFound` where the chain is empty.
    pub fn get_latest_block(&self, stored: &[u8]) -> (r: Result<Block, ChainError>)
        ensures
            (match r {
                Ok(block) => spec_read_all(stored@) is Some && spec_read_all(stored@).unwrap().len()
                    > 0 && block@ == spec_read_all(stored@).unwrap().last(),
                Err(e) => match spec_read_all(stored@) {
                    None => e == ChainError::Decode,
                    Some(chain) => e == ChainError::NotFound && chain.len() == 0,
                },
            }),
    {
        let mut chain = read_all(stored)?;
        let ghost view = chain.deep_view();
        match chain.pop() {
            Some(block) => {
                assert(block@ == view[view.len() - 1]);
                Ok(block)
            },
            None => Err(ChainError::NotFound),
        }
    }

    /// Validates the whole chain in the chain file's bytes `stored`. Fails
    /// with `Decode` where no chain can be read from them, with `NotFound`
    /// where the chain is empty, and with `InvalidChain` at the first rule
    /// broken.
    pub fn validate(&self, stored: &[u8]) -> (r: Result<(), ChainError>)
        ensures
            (match r {
                Ok(_) => valid_bytes(stored@, self.difficulty as nat) && block_count(stored@) > 0,
                Err(e) => match spec_read_all(stored@) {
                    None => e == ChainError::Decode,
                    Some(chain) => if chain.len() == 0 {
                        e == ChainError::NotFound
                    } else {
                        (e matches ChainError::InvalidChain { index, reason } && first_failure(
                            chain,
                            self.difficulty as nat,
                            index as int,
                            reason,
                        ))
                    },
                },
            }),
    {
        let chain = read_all(stored)?;
        if chain.len() == 0 {
            return Err(ChainError::NotFound);
        }
        assert(chain.deep_view().len() > 0);
        assert(spec_decode_chain(stored@) == Some(chain.deep_view()));
        Block::validate_all(&chain, self.difficulty)
    }

    /// Appends `candidate` to the chain in `stored` where it is a valid
    /// successor of the tip, and gives the bytes of the longer chain.
    pub fn append_if_valid(&self, stored: &[u8], candidate: Block) -> (r: Result<
        Vec<u8>,
        ChainError,
    >)
        ensures
            (match r {
                Ok(bytes) => spec_append_if_valid(stored@, candidate@, self.difficulty as nat)
                    == Ok::<Seq<u8>, ChainError>(bytes@),
                Err(e) => spec_append_if_valid(stored@, candidate@, self.difficulty as nat)
                    == Err::<Seq<u8>, ChainError>(e),
            }),
    {
        let mut chain = read_all(stored)?;
        let ghost before = chain.deep_view();
        proof {
            lemma_read_is_encodable(stored@);
        }
        if chain.len() == 0 {
            return Err(ChainError::NotFound);
        }
        let tip = &chain[chain.len() - 1];
        assert(tip@ == before.last());
        match candidate.validate_successor(tip, self.difficulty) {
            Err(reason) => { return Err(ChainError::InvalidBlock(reason)); },
            Ok(_) => {},
        }
        let ghost added = candidate@;
        chain.push(candidate);
        assert(chain.deep_view() =~= before.push(added));
        match encode_chain(&chain) {
            Some(bytes) => Ok(bytes),
            None => Err(ChainError::TooLong),
        }
    }

    /// Mines a block for `data` on top of the chain in `stored`, dated
    /// `timestamp`, and reports the longer chain as the event to emit.
    pub fn add_block_at(&self, stored: &[u8], data: String, timestamp: u64) -> (r: Result<
        Event,
        ChainError,
    >)
        ensures
            reports(r, spec_add_block(stored@, data@, timestamp, self.difficulty as nat)),
            r matches Ok(Event::BlockMined(bytes)) ==> ({
                &&& spec_read_all(stored@) matches Some(before)
                &&& spec_decode_chain(bytes@) matches Some(after)
                &&& after.len() == before.len() + 1
                &&& after.drop_last() == before
                &&& successor_error(after.last(), before.last(), self.difficulty as nat) is None
                &&& after.last().data == data@
                &&& after.last().timestamp == timestamp
                &&& valid_bytes(stored@, self.difficulty as nat) ==> valid_bytes(
                    bytes@,
                    self.difficulty as nat,
                )
            }),
    {
        let mut chain = read_all(stored)?;
        let ghost before = chain.deep_view();
        let ghost candidate = candidate_for(before, data@, timestamp);
        proof {
            lemma_read_is_encodable(stored@);
        }
        if chain.len() == 0 {
            return Err(ChainError::NotFound);
        }
        let tip = &chain[chain.len() - 1];
        assert(tip@ == before.last());
        let mut block = Block::with_timestamp(
            chain.len() as u64,
            tip.hash.clone(),
            data,
            timestamp,
        );
        assert(block@ =~= candidate);
        match block.validate(tip) {
            Err(reason) => { return Err(ChainError::InvalidBlock(reason)); },
            Ok(_) => {},
        }
        if !block.is_hashable() {
            return Err(ChainError::TooLong);
        }
        if !block.mine(self.difficulty) {
            return Err(ChainError::Unsolved);
        }
        proof {
            let chosen = choose|n: u64| first_solution(candidate, n, self.difficulty as nat);
            lemma_first_solution_unique(candidate, block.nonce, chosen, self.difficulty as nat);
        }
        let ghost sealed = block@;
        chain.push(block);
        let ghost after = before.push(sealed);
        assert(chain.deep_view() =~= after);
        match encode_chain(&chain) {
            Some(bytes) => {
                proof {
                    law_decode_encode(after);
                    assert(after.drop_last() =~= before);
                    assert(link_error(sealed, before.last()) is None);
                    assert(after == appended(before, sealed, self.difficulty as nat));
                    if chain_valid(before, self.difficulty as nat) {
                        law_append_keeps_valid(before, sealed, self.difficulty as nat);
                    }
                }
                Ok(Event::BlockMined(bytes))
            },
            None => Err(ChainError::TooLong),
        }
    }

    /// Mines a block for `data` on top of the chain in `stored`, dated by
    /// the clock, and reports the longer chain as the event to emit.
    pub fn add_block(&self, stored: &[u8], data: String) -> (r: Result<Event, ChainError>)
        ensures
            exists|timestamp: u64|
                reports(
                    r,
                    #[trigger] spec_add_block(stored@, data@, timestamp, self.difficulty as nat),
                ),
            r matches Ok(Event::BlockMined(bytes)) ==> ({
                &&& spec_read_all(stored@) matches Some(before)
                &&& spec_decode_chain(bytes@) matches Some(after)
                &&& after.len() == before.len() + 1
                &&& after.drop_last() == before
                &&& successor_error(after.last(), before.last(), self.difficulty as nat) is None
                &&& after.last().data == data@
                &&& valid_bytes(stored@, self.difficulty as nat) ==> valid_bytes(
                    bytes@,
                    self.difficulty as nat,
                )
            }),
    {
        let timestamp: u64 = now_millis();
        self.add_block_at(stored, data, timestamp)
    }

    /// The first block of every chain, dated `timestamp`.
    pub fn genesis(timestamp: u64) -> (block: Block)
        ensures
            block@ == genesis_view(timestamp),
            block@.encodable(),
    {
        let block = Block {
            id: 0,
            hash: "0".to_owned(),
            previous_hash: String::new(),
            timestamp,
            data: "Genesis".to_owned(),
            nonce: 0,
        };
        proof {
            reveal_strlit("0");
            reveal_strlit("Genesis");
            lemma_ascii_text_fits("0"@);
            lemma_ascii_text_fits("Genesis"@);
            lemma_ascii_text_fits(Seq::<char>::empty());
            assert(block@ =~= genesis_view(timestamp));
        }
        block
    }

    /// The bytes to write to a chain file that still lacks its first block:
    /// the chain of the one genesis block, dated `timestamp`. `None` where
    /// the file needs nothing.
    pub fn ensure_genesis_at(stored: &[u8], timestamp: u64) -> (r: Option<Vec<u8>>)
        ensures
            r is Some <==> needs_genesis(stored@),
            r matches Some(bytes) ==> bytes@ == spec_encode_chain(seq![genesis_view(timestamp)])
                && spec_decode_chain(bytes@) == Some(seq![genesis_view(timestamp)])
                && !needs_genesis(bytes@),
    {
        match read_all(stored) {
            Err(_) => { return None; },
            Ok(chain) => {
                if chain.len() > 0 {
                    assert(chain.deep_view().len() > 0);
                    return None;
                }
                assert(chain.deep_view() =~= Seq::<BlockView>::empty());
            },
        }
        let mut chain: Vec<Block> = Vec::new();
        chain.push(Blockchain::genesis(timestamp));
        proof {
            assert(chain.deep_view() =~= seq![genesis_view(timestamp)]);
            law_decode_encode(chain.deep_view());
            lemma_encoding_is_not_empty(chain.deep_view());
            assert(seq![genesis_view(timestamp)].len() > 0);
        }
        encode_chain(&chain)
    }

    /// The bytes to write to a chain file that still lacks its first block:
    /// the chain of the one genesis block, dated by the clock. `None` where
    /// the file needs nothing.
    pub fn ensure_genesis(stored: &[u8]) -> (r: Option<Vec<u8>>)
        ensures
            r is Some <==> needs_genesis(stored@),
            r matches Some(bytes) ==> !needs_genesis(bytes@) && exists|timestamp: u64|
                bytes@ == spec_encode_chain(seq![genesis_view(timestamp)]) && spec_decode_chain(
                    bytes@,
                ) == Some(seq![#[trigger] genesis_view(timestamp)]),
    {
        let timestamp: u64 = now_millis();
        Blockchain::ensure_genesis_at(stored, timestamp)
    }
}

} // verus!
