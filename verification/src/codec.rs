//! The binary form of blocks and chains.
//!
//! Integers are little-endian. A text is its UTF-8 byte count as a 32-bit
//! integer, then the bytes. A block is its fields in the order `id`, `hash`,
//! `previous_hash`, `timestamp`, `data`, `nonce`. A chain is its block count
//! as a 32-bit integer, then the blocks in order.

use crate::block::{Block, BlockView};
use crate::endian::{lemma_u32_le_round_trip, put_u32, put_u64, u32_le, u64_le};
use vstd::prelude::*;
use vstd::utf8::*;

verus! {

/// Whether the UTF-8 form of `s` is short enough for a 32-bit length prefix.
pub open spec fn text_fits(s: Seq<char>) -> bool {
    encode_utf8(s).len() <= u32::MAX
}

/// The binary form of a text.
pub open spec fn spec_encode_text(s: Seq<char>) -> Seq<u8> {
    u32_le(encode_utf8(s).len() as u32) + encode_utf8(s)
}

impl BlockView {
    /// Whether each text of the block fits its length prefix.
    pub open spec fn encodable(self) -> bool {
        text_fits(self.hash) && text_fits(self.previous_hash) && text_fits(self.data)
    }

    /// Whether the block can be hashed: each text that the hash covers fits
    /// its length prefix.
    pub open spec fn hashable(self) -> bool {
        text_fits(self.previous_hash) && text_fits(self.data)
    }
}

/// The binary form of a block.
pub open spec fn spec_encode_block(b: BlockView) -> Seq<u8> {
    u64_le(b.id) + spec_encode_text(b.hash) + spec_encode_text(b.previous_hash) + u64_le(
        b.timestamp,
    ) + spec_encode_text(b.data) + u64_le(b.nonce)
}

/// The binary forms of the blocks of `chain`, one after the other.
pub open spec fn spec_encode_blocks(chain: Seq<BlockView>) -> Seq<u8>
    decreases chain.len(),
{
    if chain.len() == 0 {
        Seq::empty()
    } else {
        spec_encode_blocks(chain.drop_last()) + spec_encode_block(chain.last())
    }
}

/// Whether a chain has a binary form: its length fits the count prefix and
/// each of its blocks can be encoded.
pub open spec fn chain_encodable(chain: Seq<BlockView>) -> bool {
    chain.len() <= u32::MAX && forall|i: int| 0 <= i < chain.len() ==> (#[trigger] chain[i]).encodable()
}

/// The binary form of a chain.
pub open spec fn spec_encode_chain(chain: Seq<BlockView>) -> Seq<u8> {
    u32_le(chain.len() as u32) + spec_encode_blocks(chain)
}

/// The binary form of a chain is never empty: it begins with the count.
pub proof fn lemma_encoding_is_not_empty(chain: Seq<BlockView>)
    ensures
        spec_encode_chain(chain).len() >= 4,
{
    lemma_u32_le_round_trip(chain.len() as u32);
}

/// Appends `src` to `out`.
pub fn put_bytes(out: &mut Vec<u8>, src: &[u8])
    ensures
        final(out)@ == old(out)@ + src@,
{
    let mut i: usize = 0;
    while i < src.len()
        invariant
            i <= src.len(),
            out@ == old(out)@ + src@.subrange(0, i as int),
        decreases src.len() - i,
    {
        out.push(src[i]);
        i = i + 1;
    }
    assert(src@.subrange(0, src.len() as int) =~= src@);
}

/// Whether the UTF-8 form of `s` fits a 32-bit length prefix.
pub fn text_is_encodable(s: &str) -> (b: bool)
    ensures
        b == text_fits(s@),
{
    s.as_bytes().len() <= 0xffff_ffff
}

/// Appends the binary form of `s` to `out`.
pub fn put_text(out: &mut Vec<u8>, s: &str)
    requires
        text_fits(s@),
    ensures
        final(out)@ == old(out)@ + spec_encode_text(s@),
{
    let bytes = s.as_bytes();
    put_u32(out, bytes.len() as u32);
    put_bytes(out, bytes);
}

impl Block {
    /// Whether each text of the block fits its length prefix.
    pub fn is_encodable(&self) -> (b: bool)
        ensures
            b == self@.encodable(),
    {
        text_is_encodable(self.hash.as_str()) && text_is_encodable(self.previous_hash.as_str())
            && text_is_encodable(self.data.as_str())
    }

    /// Whether the block can be hashed.
    pub fn is_hashable(&self) -> (b: bool)
        ensures
            b == self@.hashable(),
    {
        text_is_encodable(self.previous_hash.as_str()) && text_is_encodable(self.data.as_str())
    }
}

/// Appends the binary form of a block with the given fields to `out`.
pub fn put_fields(
    out: &mut Vec<u8>,
    id: u64,
    hash: &str,
    previous_hash: &str,
    timestamp: u64,
    data: &str,
    nonce: u64,
)
    requires
        text_fits(hash@),
        text_fits(previous_hash@),
        text_fits(data@),
    ensures
        final(out)@ == old(out)@ + spec_encode_block(
            BlockView {
                id,
                hash: hash@,
                previous_hash: previous_hash@,
                timestamp,
                data: data@,
                nonce,
            },
        ),
{
    put_u64(out, id);
    put_text(out, hash);
    put_text(out, previous_hash);
    put_u64(out, timestamp);
    put_text(out, data);
    put_u64(out, nonce);
}

/// Appends the binary form of `block` to `out`.
pub fn put_block(out: &mut Vec<u8>, block: &Block)
    requires
        block@.encodable(),
    ensures
        final(out)@ == old(out)@ + spec_encode_block(block@),
{
    put_fields(
        out,
        block.id,
        block.hash.as_str(),
        block.previous_hash.as_str(),
        block.timestamp,
        block.data.as_str(),
        block.nonce,
    );
}

/// The binary form of `chain`, or `None` where it has none: where a text
/// or the chain itself is too long for its length prefix.
pub fn encode_chain(chain: &Vec<Block>) -> (r: Option<Vec<u8>>)
    ensures
        r is Some <==> chain_encodable(chain.deep_view()),
        r matches Some(bytes) ==> bytes@ == spec_encode_chain(chain.deep_view()),
{
    if chain.len() > 0xffff_ffff {
        return None;
    }
    let ghost view = chain.deep_view();
    let mut out: Vec<u8> = Vec::new();
    put_u32(&mut out, chain.len() as u32);
    let mut i: usize = 0;
    while i < chain.len()
        invariant
            i <= chain.len() <= u32::MAX,
            view == chain.deep_view(),
            forall|j: int| 0 <= j < i ==> (#[trigger] view[j]).encodable(),
            out@ == u32_le(chain.len() as u32) + spec_encode_blocks(view.subrange(0, i as int)),
        decreases chain.len() - i,
    {
        if !chain[i].is_encodable() {
            assert(!view[i as int].encodable());
            return None;
        }
        put_block(&mut out, &chain[i]);
        proof {
            let next = view.subrange(0, i + 1);
            assert(next.drop_last() =~= view.subrange(0, i as int));
            assert(next.last() == chain[i as int]@);
        }
        i = i + 1;
    }
    assert(view.subrange(0, chain.len() as int) =~= view);
    Some(out)
}

} // verus!
