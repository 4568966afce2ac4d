//! Chains: ordered blocks, each a valid successor of the one before it.

use crate::block::{successor_error, Block, BlockView};
use crate::error::{BlockError, ChainError};
use vstd::prelude::*;

verus! {

/// Whether every block after the first is a valid successor of the block
/// before it at difficulty `d`. The first block is accepted as it is.
pub open spec fn chain_valid(chain: Seq<BlockView>, d: nat) -> bool {
    forall|i: int|
        1 <= i < chain.len() ==> successor_error(#[trigger] chain[i], chain[i - 1], d) is None
}

/// Whether `index` is the first place where `chain` breaks a rule, and
/// `reason` the first rule broken there.
pub open spec fn first_failure(chain: Seq<BlockView>, d: nat, index: int, reason: BlockError) -> bool {
    &&& 1 <= index < chain.len()
    &&& successor_error(chain[index], chain[index - 1], d) == Some(reason)
    &&& forall|j: int| 1 <= j < index ==> successor_error(#[trigger] chain[j], chain[j - 1], d) is None
}

/// A chain that breaks a rule somewhere is not valid.
pub proof fn lemma_failure_is_invalid(chain: Seq<BlockView>, d: nat, index: int, reason: BlockError)
    requires
        first_failure(chain, d, index, reason),
    ensures
        !chain_valid(chain, d),
{
    assert(successor_error(chain[index], chain[index - 1], d) is Some);
}

/// A chain breaks its first rule at one place only, and one rule first.
pub proof fn law_first_failure_is_unique(
    chain: Seq<BlockView>,
    d: nat,
    index: int,
    reason: BlockError,
    other_index: int,
    other_reason: BlockError,
)
    requires
        first_failure(chain, d, index, reason),
        first_failure(chain, d, other_index, other_reason),
    ensures
        index == other_index,
        reason == other_reason,
{
    if index < other_index {
        assert(successor_error(chain[index], chain[index - 1], d) is None);
    }
    if other_index < index {
        assert(successor_error(chain[other_index], chain[other_index - 1], d) is None);
    }
}

/// The first failure of a chain that is not valid and breaks no rule before
/// `from`.
proof fn lemma_search_first_failure(chain: Seq<BlockView>, d: nat, from: int) -> (found: (
    int,
    BlockError,
))
    requires
        !chain_valid(chain, d),
        1 <= from,
        forall|j: int|
            1 <= j < from && j < chain.len() ==> successor_error(
                #[trigger] chain[j],
                chain[j - 1],
                d,
            ) is None,
    ensures
        first_failure(chain, d, found.0, found.1),
    decreases chain.len() - from,
{
    if from >= chain.len() {
        assert(chain_valid(chain, d));
        (from, BlockError::Id)
    } else {
        match successor_error(chain[from], chain[from - 1], d) {
            Some(reason) => (from, reason),
            None => lemma_search_first_failure(chain, d, from + 1),
        }
    }
}

/// A chain is valid exactly where it breaks no rule anywhere: one that is
/// not valid has a first failure, and one that has a first failure is not
/// valid.
pub proof fn law_invalid_chains_fail_first(chain: Seq<BlockView>, d: nat)
    ensures
        !chain_valid(chain, d) <==> exists|index: int, reason: BlockError|
            first_failure(chain, d, index, reason),
{
    if !chain_valid(chain, d) {
        let found = lemma_search_first_failure(chain, d, 1);
        assert(first_failure(chain, d, found.0, found.1));
    }
    if exists|index: int, reason: BlockError| first_failure(chain, d, index, reason) {
        let (index, reason) = choose|index: int, reason: BlockError|
            first_failure(chain, d, index, reason);
        lemma_failure_is_invalid(chain, d, index, reason);
    }
}

/// The chain after an attempt to append `candidate`: one block longer where
/// the chain has a tip and `candidate` is a valid successor of it, else as
/// it was.
pub open spec fn appended(chain: Seq<BlockView>, candidate: BlockView, d: nat) -> Seq<BlockView> {
    if chain.len() > 0 && successor_error(candidate, chain.last(), d) is None {
        chain.push(candidate)
    } else {
        chain
    }
}

/// The chain after attempts to append each of `candidates` in turn.
pub open spec fn appended_all(chain: Seq<BlockView>, candidates: Seq<BlockView>, d: nat) -> Seq<
    BlockView,
>
    decreases candidates.len(),
{
    if candidates.len() == 0 {
        chain
    } else {
        appended(appended_all(chain, candidates.drop_last(), d), candidates.last(), d)
    }
}

/// Appending keeps a valid chain valid.
pub proof fn law_append_keeps_valid(chain: Seq<BlockView>, candidate: BlockView, d: nat)
    requires
        chain_valid(chain, d),
    ensures
        chain_valid(appended(chain, candidate, d), d),
{
    let after = appended(chain, candidate, d);
    assert forall|i: int| 1 <= i < after.len() implies successor_error(
        #[trigger] after[i],
        after[i - 1],
        d,
    ) is None by {
        if i < chain.len() {
            assert(after[i] == chain[i]);
        }
    }
}

/// Every chain grown from a single first block by appends is valid, whatever
/// was offered.
pub proof fn law_grown_chain_is_valid(genesis: BlockView, candidates: Seq<BlockView>, d: nat)
    ensures
        chain_valid(appended_all(seq![genesis], candidates, d), d),
    decreases candidates.len(),
{
    if candidates.len() > 0 {
        law_grown_chain_is_valid(genesis, candidates.drop_last(), d);
        law_append_keeps_valid(
            appended_all(seq![genesis], candidates.drop_last(), d),
            candidates.last(),
            d,
        );
    }
}

impl Block {
    /// Checks every block after the first against the block before it, in
    /// order, and reports the first rule broken with the place it is broken.
    pub fn validate_all(blocks: &Vec<Block>, difficulty: usize) -> (r: Result<(), ChainError>)
        ensures
            (match r {
                Ok(_) => chain_valid(blocks.deep_view(), difficulty as nat),
                Err(e) => (e matches ChainError::InvalidChain { index, reason } && first_failure(
                    blocks.deep_view(),
                    difficulty as nat,
                    index as int,
                    reason,
                )),
            }),
    {
        let ghost chain = blocks.deep_view();
        let mut i: usize = 1;
        while i < blocks.len()
            invariant
                1 <= i,
                chain == blocks.deep_view(),
                forall|j: int|
                    1 <= j < i && j < chain.len() ==> successor_error(
                        #[trigger] chain[j],
                        chain[j - 1],
                        difficulty as nat,
                    ) is None,
            decreases blocks.len() - i,
        {
            assert(chain[i as int] == blocks[i as int]@);
            assert(chain[i - 1] == blocks[i - 1]@);
            match blocks[i].validate_successor(&blocks[i - 1], difficulty) {
                Err(reason) => {
                    return Err(ChainError::InvalidChain { index: i, reason });
                },
                Ok(_) => {},
            }
            i = i + 1;
        }
        Ok(())
    }
}

} // verus!
