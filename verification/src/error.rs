//! What can go wrong with a block or a chain.

use vstd::prelude::*;

verus! {

/// The rule that a block breaks against its predecessor.
#[derive(Clone, Copy, Debug, PartialEq, Eq, Structural)]
pub enum BlockError {
    /// `previous_hash` is not the predecessor's hash.
    PreviousHash,
    /// `id` is not the predecessor's id plus one.
    Id,
    /// `hash` is not the hash of the block's other fields.
    Hash,
    /// `hash` does not begin with the required number of zeros.
    ProofOfWork,
}

/// Why an operation on chain bytes was refused.
#[derive(Clone, Copy, Debug, PartialEq, Eq, Structural)]
pub enum ChainError {
    /// The bytes are not the binary form of any chain.
    Decode,
    /// The chain holds no block.
    NotFound,
    /// A candidate block is no valid successor of the tip.
    InvalidBlock(BlockError),
    /// The block at `index` breaks a rule against the block before it.
    InvalidChain { index: usize, reason: BlockError },
    /// Neither of two inputs is the binary form of a chain.
    InvalidInput,
    /// A text or the chain is too long for its 32-bit length prefix.
    TooLong,
    /// No nonce above the block's own gives a hash with enough zeros.
    Unsolved,
}

} // verus!
