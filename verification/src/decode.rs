//! Reading chains back from their binary form.

use crate::block::{Block, BlockView};
use crate::codec::{
    chain_encodable, spec_encode_block, spec_encode_blocks, spec_encode_chain, spec_encode_text,
    text_fits,
};
use crate::endian::{
    get_u32, get_u64, lemma_u32_from_le_round_trip, lemma_u32_le_round_trip,
    lemma_u64_from_le_round_trip, lemma_u64_le_round_trip, u32_from_le, u32_le, u64_from_le, u64_le,
};
use crate::error::ChainError;
use crate::text::string_from_utf8;
use vstd::prelude::*;
use vstd::slice::{slice_subrange, slice_to_vec};
use vstd::utf8::*;

verus! {

/// Whether `bytes` is the binary form of `chain`.
pub open spec fn encodes(chain: Seq<BlockView>, bytes: Seq<u8>) -> bool {
    chain_encodable(chain) && spec_encode_chain(chain) == bytes
}

/// The chain that `bytes` is the binary form of, if there is one.
#[verifier::opaque]
pub open spec fn spec_decode_chain(bytes: Seq<u8>) -> Option<Seq<BlockView>> {
    if exists|chain: Seq<BlockView>| encodes(chain, bytes) {
        Some(choose|chain: Seq<BlockView>| encodes(chain, bytes))
    } else {
        None
    }
}

/// The 32-bit number read at `pos`, with the place where reading goes on.
#[verifier::opaque]
spec fn parse_u32(s: Seq<u8>, pos: int) -> Option<(u32, int)> {
    if 0 <= pos && pos + 4 <= s.len() {
        Some((u32_from_le(s.subrange(pos, pos + 4)), pos + 4))
    } else {
        None
    }
}

/// The 64-bit number read at `pos`, with the place where reading goes on.
#[verifier::opaque]
spec fn parse_u64(s: Seq<u8>, pos: int) -> Option<(u64, int)> {
    if 0 <= pos && pos + 8 <= s.len() {
        Some((u64_from_le(s.subrange(pos, pos + 8)), pos + 8))
    } else {
        None
    }
}

/// The text read at `pos`, with the place where reading goes on: a byte
/// count, then as many bytes of well-formed UTF-8.
#[verifier::opaque]
spec fn parse_text(s: Seq<u8>, pos: int) -> Option<(Seq<char>, int)> {
    match parse_u32(s, pos) {
        Some((n, start)) => {
            let end = start + n;
            if end <= s.len() && valid_utf8(s.subrange(start, end)) {
                Some((decode_utf8(s.subrange(start, end)), end))
            } else {
                None
            }
        },
        None => None,
    }
}

/// The block read at `pos`, with the place where reading goes on.
spec fn parse_block(s: Seq<u8>, pos: int) -> Option<(BlockView, int)> {
    match parse_u64(s, pos) {
        None => None,
        Some((id, after_id)) => match parse_text(s, after_id) {
            None => None,
            Some((hash, after_hash)) => match parse_text(s, after_hash) {
                None => None,
                Some((previous_hash, after_link)) => match parse_u64(s, after_link) {
                    None => None,
                    Some((timestamp, after_time)) => match parse_text(s, after_time) {
                        None => None,
                        Some((data, after_data)) => match parse_u64(s, after_data) {
                            None => None,
                            Some((nonce, after_nonce)) => Some(
                                (
                                    BlockView { id, hash, previous_hash, timestamp, data, nonce },
                                    after_nonce,
                                ),
                            ),
                        },
                    },
                },
            },
        },
    }
}

/// The `count` blocks read one after the other from `pos`, with the place
/// where reading goes on.
spec fn parse_blocks(s: Seq<u8>, pos: int, count: nat) -> Option<(Seq<BlockView>, int)>
    decreases count,
{
    if count == 0 {
        Some((Seq::empty(), pos))
    } else {
        match parse_blocks(s, pos, (count - 1) as nat) {
            None => None,
            Some((chain, mid)) => match parse_block(s, mid) {
                None => None,
                Some((block, end)) => Some((chain.push(block), end)),
            },
        }
    }
}

/// The chain read from the whole of `s`: a count, then as many blocks, and
/// nothing after them.
spec fn parse_chain(s: Seq<u8>) -> Option<Seq<BlockView>> {
    match parse_u32(s, 0) {
        None => None,
        Some((count, start)) => match parse_blocks(s, start, count as nat) {
            None => None,
            Some((chain, end)) => if end == s.len() {
                Some(chain)
            } else {
                None
            },
        },
    }
}

/// Whether `part` stands in `s` at `pos`.
#[verifier::opaque]
spec fn holds_at(s: Seq<u8>, pos: int, part: Seq<u8>) -> bool {
    0 <= pos && pos + part.len() <= s.len() && s.subrange(pos, pos + part.len()) == part
}

/// What stands in `s` lies within it.
proof fn lemma_holds_bounds(s: Seq<u8>, pos: int, part: Seq<u8>)
    requires
        holds_at(s, pos, part),
    ensures
        0 <= pos,
        pos + part.len() <= s.len(),
{
    reveal(holds_at);
}

/// Where two parts stand joined, each stands in its place.
proof fn lemma_holds_split(s: Seq<u8>, pos: int, a: Seq<u8>, b: Seq<u8>)
    requires
        holds_at(s, pos, a + b),
    ensures
        holds_at(s, pos, a),
        holds_at(s, pos + a.len(), b),
{
    reveal(holds_at);
    let whole = s.subrange(pos, pos + (a + b).len());
    assert(s.subrange(pos, pos + a.len()) =~= whole.subrange(0, a.len() as int));
    assert(whole.subrange(0, a.len() as int) =~= a);
    assert(s.subrange(pos + a.len(), pos + a.len() + b.len()) =~= whole.subrange(
        a.len() as int,
        (a + b).len() as int,
    ));
    assert(whole.subrange(a.len() as int, (a + b).len() as int) =~= b);
}

/// Two parts that stand one after the other stand joined.
proof fn lemma_holds_join(s: Seq<u8>, pos: int, a: Seq<u8>, b: Seq<u8>)
    requires
        holds_at(s, pos, a),
        holds_at(s, pos + a.len(), b),
    ensures
        holds_at(s, pos, a + b),
{
    reveal(holds_at);
    assert(s.subrange(pos, pos + (a + b).len()) =~= a + b);
}

/// A part stands at the start of `s` and is as long exactly where it is `s`.
proof fn lemma_holds_whole(s: Seq<u8>, part: Seq<u8>)
    ensures
        holds_at(s, 0, part) && part.len() == s.len() <==> part == s,
{
    reveal(holds_at);
    assert(s.subrange(0, s.len() as int) =~= s);
}

/// What is read as a 32-bit number stands there encoded.
proof fn lemma_parse_u32_sound(s: Seq<u8>, pos: int)
    requires
        parse_u32(s, pos) is Some,
    ensures
        holds_at(s, pos, u32_le(parse_u32(s, pos).unwrap().0)),
        u32_le(parse_u32(s, pos).unwrap().0).len() == 4,
        parse_u32(s, pos).unwrap().1 == pos + 4,
{
    reveal(holds_at);
    reveal(parse_u32);
    lemma_u32_from_le_round_trip(s.subrange(pos, pos + 4));
}

/// An encoded 32-bit number is read back where it stands.
proof fn lemma_parse_u32_complete(s: Seq<u8>, pos: int, x: u32)
    requires
        holds_at(s, pos, u32_le(x)),
    ensures
        parse_u32(s, pos) == Some((x, pos + 4)),
        u32_le(x).len() == 4,
{
    reveal(holds_at);
    reveal(parse_u32);
    lemma_u32_le_round_trip(x);
}

/// What is read as a 64-bit number stands there encoded.
proof fn lemma_parse_u64_sound(s: Seq<u8>, pos: int)
    requires
        parse_u64(s, pos) is Some,
    ensures
        holds_at(s, pos, u64_le(parse_u64(s, pos).unwrap().0)),
        u64_le(parse_u64(s, pos).unwrap().0).len() == 8,
        parse_u64(s, pos).unwrap().1 == pos + 8,
{
    reveal(holds_at);
    reveal(parse_u64);
    lemma_u64_from_le_round_trip(s.subrange(pos, pos + 8));
}

/// An encoded 64-bit number is read back where it stands.
proof fn lemma_parse_u64_complete(s: Seq<u8>, pos: int, x: u64)
    requires
        holds_at(s, pos, u64_le(x)),
    ensures
        parse_u64(s, pos) == Some((x, pos + 8)),
        u64_le(x).len() == 8,
{
    reveal(holds_at);
    reveal(parse_u64);
    lemma_u64_le_round_trip(x);
}

/// What is read as a text stands there encoded, and fits its prefix.
proof fn lemma_parse_text_sound(s: Seq<u8>, pos: int)
    requires
        parse_text(s, pos) is Some,
    ensures
        text_fits(parse_text(s, pos).unwrap().0),
        holds_at(s, pos, spec_encode_text(parse_text(s, pos).unwrap().0)),
        parse_text(s, pos).unwrap().1 == pos + spec_encode_text(parse_text(s, pos).unwrap().0).len(),
{
    reveal(parse_text);
    let (n, start) = parse_u32(s, pos).unwrap();
    let end = start + n;
    let body = s.subrange(start, end);
    let text = decode_utf8(body);
    lemma_parse_u32_sound(s, pos);
    lemma_holds_bounds(s, pos, u32_le(n));
    decode_utf8_encode_utf8(body);
    assert(encode_utf8(text) == body);
    assert(body.len() == n);
    assert(holds_at(s, pos + 4, body)) by {
        reveal(holds_at);
    }
    lemma_holds_join(s, pos, u32_le(n), body);
}

/// An encoded text is read back where it stands.
proof fn lemma_parse_text_complete(s: Seq<u8>, pos: int, text: Seq<char>)
    requires
        text_fits(text),
        holds_at(s, pos, spec_encode_text(text)),
    ensures
        parse_text(s, pos) == Some((text, pos + spec_encode_text(text).len())),
{
    reveal(parse_text);
    let body = encode_utf8(text);
    let n = body.len() as u32;
    lemma_holds_split(s, pos, u32_le(n), body);
    lemma_parse_u32_complete(s, pos, n);
    lemma_holds_bounds(s, pos + 4, body);
    assert(s.subrange(pos + 4, pos + 4 + n) == body) by {
        reveal(holds_at);
    }
    encode_utf8_valid_utf8(text);
    encode_utf8_decode_utf8(text);
}

/// What is read as a block stands there encoded, and can be encoded.
proof fn lemma_parse_block_sound(s: Seq<u8>, pos: int)
    requires
        parse_block(s, pos) is Some,
    ensures
        parse_block(s, pos).unwrap().0.encodable(),
        holds_at(s, pos, spec_encode_block(parse_block(s, pos).unwrap().0)),
        parse_block(s, pos).unwrap().1 == pos + spec_encode_block(parse_block(s, pos).unwrap().0).len(),
{
    let (id, after_id) = parse_u64(s, pos).unwrap();
    let (hash, after_hash) = parse_text(s, after_id).unwrap();
    let (previous_hash, after_link) = parse_text(s, after_hash).unwrap();
    let (timestamp, after_time) = parse_u64(s, after_link).unwrap();
    let (data, after_data) = parse_text(s, after_time).unwrap();
    let (nonce, after_nonce) = parse_u64(s, after_data).unwrap();
    lemma_parse_u64_sound(s, pos);
    lemma_parse_text_sound(s, after_id);
    lemma_parse_text_sound(s, after_hash);
    lemma_parse_u64_sound(s, after_link);
    lemma_parse_text_sound(s, after_time);
    lemma_parse_u64_sound(s, after_data);
    let e1 = u64_le(id);
    let e2 = e1 + spec_encode_text(hash);
    let e3 = e2 + spec_encode_text(previous_hash);
    let e4 = e3 + u64_le(timestamp);
    let e5 = e4 + spec_encode_text(data);
    assert(after_id == pos + e1.len());
    lemma_holds_join(s, pos, e1, spec_encode_text(hash));
    assert(after_hash == pos + e2.len());
    lemma_holds_join(s, pos, e2, spec_encode_text(previous_hash));
    assert(after_link == pos + e3.len());
    lemma_holds_join(s, pos, e3, u64_le(timestamp));
    assert(after_time == pos + e4.len());
    lemma_holds_join(s, pos, e4, spec_encode_text(data));
    assert(after_data == pos + e5.len());
    lemma_holds_join(s, pos, e5, u64_le(nonce));
}

/// An encoded block is read back where it stands.
proof fn lemma_parse_block_complete(s: Seq<u8>, pos: int, block: BlockView)
    requires
        block.encodable(),
        holds_at(s, pos, spec_encode_block(block)),
    ensures
        parse_block(s, pos) == Some((block, pos + spec_encode_block(block).len())),
{
    let e1 = u64_le(block.id);
    let e2 = e1 + spec_encode_text(block.hash);
    let e3 = e2 + spec_encode_text(block.previous_hash);
    let e4 = e3 + u64_le(block.timestamp);
    let e5 = e4 + spec_encode_text(block.data);
    lemma_holds_split(s, pos, e5, u64_le(block.nonce));
    lemma_holds_split(s, pos, e4, spec_encode_text(block.data));
    lemma_holds_split(s, pos, e3, u64_le(block.timestamp));
    lemma_holds_split(s, pos, e2, spec_encode_text(block.previous_hash));
    lemma_holds_split(s, pos, e1, spec_encode_text(block.hash));
    lemma_parse_u64_complete(s, pos, block.id);
    assert(parse_u64(s, pos) == Some((block.id, pos + e1.len())));
    lemma_parse_text_complete(s, pos + e1.len(), block.hash);
    assert(parse_text(s, pos + e1.len()) == Some((block.hash, pos + e2.len())));
    lemma_parse_text_complete(s, pos + e2.len(), block.previous_hash);
    assert(parse_text(s, pos + e2.len()) == Some((block.previous_hash, pos + e3.len())));
    lemma_parse_u64_complete(s, pos + e3.len(), block.timestamp);
    assert(parse_u64(s, pos + e3.len()) == Some((block.timestamp, pos + e4.len())));
    lemma_parse_text_complete(s, pos + e4.len(), block.data);
    assert(parse_text(s, pos + e4.len()) == Some((block.data, pos + e5.len())));
    lemma_parse_u64_complete(s, pos + e5.len(), block.nonce);
    assert(parse_u64(s, pos + e5.len()) == Some(
        (block.nonce, pos + spec_encode_block(block).len()),
    ));
    let parsed = parse_block(s, pos).unwrap().0;
    assert(parsed =~= block);
}

/// What is read as blocks stands there encoded, block after block.
proof fn lemma_parse_blocks_sound(s: Seq<u8>, pos: int, count: nat)
    requires
        0 <= pos <= s.len(),
        parse_blocks(s, pos, count) is Some,
    ensures
        parse_blocks(s, pos, count).unwrap().0.len() == count,
        forall|i: int|
            0 <= i < count ==> (#[trigger] parse_blocks(s, pos, count).unwrap().0[i]).encodable(),
        holds_at(s, pos, spec_encode_blocks(parse_blocks(s, pos, count).unwrap().0)),
        parse_blocks(s, pos, count).unwrap().1 == pos + spec_encode_blocks(
            parse_blocks(s, pos, count).unwrap().0,
        ).len(),
    decreases count,
{
    if count == 0 {
        assert(holds_at(s, pos, Seq::<u8>::empty())) by {
            reveal(holds_at);
            assert(s.subrange(pos, pos) =~= Seq::<u8>::empty());
        }
    } else {
        let (chain, mid) = parse_blocks(s, pos, (count - 1) as nat).unwrap();
        let (block, end) = parse_block(s, mid).unwrap();
        lemma_parse_blocks_sound(s, pos, (count - 1) as nat);
        lemma_parse_block_sound(s, mid);
        let all = chain.push(block);
        assert(all.drop_last() =~= chain);
        assert(all.last() == block);
        assert(spec_encode_blocks(all) == spec_encode_blocks(chain) + spec_encode_block(block));
        lemma_holds_join(s, pos, spec_encode_blocks(chain), spec_encode_block(block));
    }
}

/// Encoded blocks are read back where they stand.
proof fn lemma_parse_blocks_complete(s: Seq<u8>, pos: int, chain: Seq<BlockView>)
    requires
        forall|i: int| 0 <= i < chain.len() ==> (#[trigger] chain[i]).encodable(),
        holds_at(s, pos, spec_encode_blocks(chain)),
    ensures
        parse_blocks(s, pos, chain.len()) == Some((chain, pos + spec_encode_blocks(chain).len())),
    decreases chain.len(),
{
    if chain.len() == 0 {
        assert(chain =~= Seq::<BlockView>::empty());
    } else {
        let front = chain.drop_last();
        lemma_holds_split(s, pos, spec_encode_blocks(front), spec_encode_block(chain.last()));
        lemma_parse_blocks_complete(s, pos, front);
        lemma_parse_block_complete(s, pos + spec_encode_blocks(front).len(), chain.last());
        assert(front.push(chain.last()) =~= chain);
    }
}

/// Once the blocks cannot be read, reading more of them cannot succeed.
proof fn lemma_parse_blocks_stays_none(s: Seq<u8>, pos: int, count: nat, more: nat)
    requires
        parse_blocks(s, pos, count) is None,
        count <= more,
    ensures
        parse_blocks(s, pos, more) is None,
    decreases more,
{
    if count < more {
        lemma_parse_blocks_stays_none(s, pos, count, (more - 1) as nat);
    }
}

/// What is read as a chain has the whole of `s` as its binary form.
proof fn lemma_parse_chain_sound(s: Seq<u8>)
    requires
        parse_chain(s) is Some,
    ensures
        encodes(parse_chain(s).unwrap(), s),
{
    let (count, start) = parse_u32(s, 0).unwrap();
    let (chain, end) = parse_blocks(s, start, count as nat).unwrap();
    lemma_parse_u32_sound(s, 0);
    lemma_holds_bounds(s, 0, u32_le(count));
    lemma_parse_blocks_sound(s, start, count as nat);
    lemma_holds_join(s, 0, u32_le(count), spec_encode_blocks(chain));
    lemma_holds_whole(s, spec_encode_chain(chain));
}

/// The binary form of a chain is read back as that chain.
proof fn lemma_parse_chain_complete(chain: Seq<BlockView>, s: Seq<u8>)
    requires
        encodes(chain, s),
    ensures
        parse_chain(s) == Some(chain),
{
    let count = chain.len() as u32;
    lemma_holds_whole(s, spec_encode_chain(chain));
    lemma_holds_split(s, 0, u32_le(count), spec_encode_blocks(chain));
    lemma_parse_u32_complete(s, 0, count);
    lemma_parse_blocks_complete(s, 4, chain);
}

/// A chain can be read from `bytes` exactly where `bytes` is the binary form
/// of a chain, and what is read is that chain.
proof fn lemma_decode_is_parse(bytes: Seq<u8>)
    ensures
        spec_decode_chain(bytes) == parse_chain(bytes),
{
    reveal(spec_decode_chain);
    if parse_chain(bytes) is Some {
        lemma_parse_chain_sound(bytes);
        let chosen = choose|chain: Seq<BlockView>| encodes(chain, bytes);
        lemma_parse_chain_complete(chosen, bytes);
    } else {
        if exists|chain: Seq<BlockView>| encodes(chain, bytes) {
            let chosen = choose|chain: Seq<BlockView>| encodes(chain, bytes);
            lemma_parse_chain_complete(chosen, bytes);
        }
    }
}

/// Reads the text at `pos`.
fn get_text(bytes: &[u8], pos: usize) -> (r: Option<(String, usize)>)
    requires
        pos <= bytes.len(),
    ensures
        (match r {
            Some((text, end)) => parse_text(bytes@, pos as int) == Some((text@, end as int)) && end
                <= bytes.len(),
            None => parse_text(bytes@, pos as int) is None,
        }),
{
    proof {
        reveal(parse_text);
        reveal(parse_u32);
    }
    if bytes.len() - pos < 4 {
        return None;
    }
    let n: usize = get_u32(bytes, pos) as usize;
    let start: usize = pos + 4;
    if bytes.len() - start < n {
        return None;
    }
    let end: usize = start + n;
    let body = slice_to_vec(slice_subrange(bytes, start, end));
    match string_from_utf8(body) {
        Some(text) => Some((text, end)),
        None => None,
    }
}

/// Reads the 64-bit number at `pos`.
fn get_number(bytes: &[u8], pos: usize) -> (r: Option<(u64, usize)>)
    requires
        pos <= bytes.len(),
    ensures
        (match r {
            Some((x, end)) => parse_u64(bytes@, pos as int) == Some((x, end as int)) && end
                <= bytes.len(),
            None => parse_u64(bytes@, pos as int) is None,
        }),
{
    proof {
        reveal(parse_u64);
    }
    if bytes.len() - pos < 8 {
        return None;
    }
    Some((get_u64(bytes, pos), pos + 8))
}

/// Reads the block at `pos`.
fn get_block(bytes: &[u8], pos: usize) -> (r: Option<(Block, usize)>)
    requires
        pos <= bytes.len(),
    ensures
        (match r {
            Some((block, end)) => parse_block(bytes@, pos as int) == Some((block@, end as int))
                && end <= bytes.len(),
            None => parse_block(bytes@, pos as int) is None,
        }),
{
    let (id, after_id) = match get_number(bytes, pos) {
        Some(found) => found,
        None => { return None; },
    };
    let (hash, after_hash) = match get_text(bytes, after_id) {
        Some(found) => found,
        None => { return None; },
    };
    let (previous_hash, after_link) = match get_text(bytes, after_hash) {
        Some(found) => found,
        None => { return None; },
    };
    let (timestamp, after_time) = match get_number(bytes, after_link) {
        Some(found) => found,
        None => { return None; },
    };
    let (data, after_data) = match get_text(bytes, after_time) {
        Some(found) => found,
        None => { return None; },
    };
    let (nonce, after_nonce) = match get_number(bytes, after_data) {
        Some(found) => found,
        None => { return None; },
    };
    let block = Block { id, hash, previous_hash, timestamp, data, nonce };
    Some((block, after_nonce))
}

/// Reads a chain from its binary form. Succeeds exactly on the bytes that
/// are the binary form of a chain, and gives that chain.
pub fn decode_chain(bytes: &[u8]) -> (r: Result<Vec<Block>, ChainError>)
    ensures
        (match r {
            Ok(chain) => spec_decode_chain(bytes@) == Some(chain.deep_view()) && encodes(
                chain.deep_view(),
                bytes@,
            ),
            Err(e) => e == ChainError::Decode && spec_decode_chain(bytes@) is None,
        }),
{
    proof {
        lemma_decode_is_parse(bytes@);
        if spec_decode_chain(bytes@) is Some {
            law_encode_decode(bytes@);
        }
        reveal(parse_u32);
    }
    if bytes.len() < 4 {
        return Err(ChainError::Decode);
    }
    let announced: u32 = get_u32(bytes, 0);
    let count: usize = announced as usize;
    let mut chain: Vec<Block> = Vec::new();
    let mut pos: usize = 4;
    let mut i: usize = 0;
    assert(chain.deep_view() =~= Seq::<BlockView>::empty());
    while i < count
        invariant
            i <= count,
            pos <= bytes.len(),
            count == announced,
            parse_u32(bytes@, 0) == Some((announced, 4int)),
            spec_decode_chain(bytes@) == parse_chain(bytes@),
            spec_decode_chain(bytes@) is Some ==> encodes(spec_decode_chain(bytes@).unwrap(), bytes@),
            parse_blocks(bytes@, 4, i as nat) == Some((chain.deep_view(), pos as int)),
        decreases count - i,
    {
        let ghost before = chain.deep_view();
        match get_block(bytes, pos) {
            None => {
                proof {
                    lemma_parse_blocks_stays_none(bytes@, 4, (i + 1) as nat, count as nat);
                }
                return Err(ChainError::Decode);
            },
            Some((block, end)) => {
                chain.push(block);
                pos = end;
                assert(chain.deep_view() =~= before.push(block@));
            },
        }
        i = i + 1;
    }
    if pos != bytes.len() {
        return Err(ChainError::Decode);
    }
    Ok(chain)
}

/// Decoding the binary form of a chain gives the chain back.
pub proof fn law_decode_encode(chain: Seq<BlockView>)
    requires
        chain_encodable(chain),
    ensures
        spec_decode_chain(spec_encode_chain(chain)) == Some(chain),
{
    lemma_decode_is_parse(spec_encode_chain(chain));
    lemma_parse_chain_complete(chain, spec_encode_chain(chain));
}

/// Bytes that decode are the binary form of what they decode to.
pub proof fn law_encode_decode(bytes: Seq<u8>)
    requires
        spec_decode_chain(bytes) is Some,
    ensures
        chain_encodable(spec_decode_chain(bytes).unwrap()),
        spec_encode_chain(spec_decode_chain(bytes).unwrap()) == bytes,
        encodes(spec_decode_chain(bytes).unwrap(), bytes),
{
    reveal(spec_decode_chain);
}

/// Two chains with the same binary form are the same chain.
pub proof fn law_encoding_is_injective(a: Seq<BlockView>, b: Seq<BlockView>)
    requires
        chain_encodable(a),
        chain_encodable(b),
        spec_encode_chain(a) == spec_encode_chain(b),
    ensures
        a == b,
{
    law_decode_encode(a);
    law_decode_encode(b);
}

} // verus!
