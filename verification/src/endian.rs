//! Little-endian byte strings of fixed-width unsigned integers.

use vstd::prelude::*;

verus! {

/// The four bytes of `x`, least significant first.
#[verifier::opaque]
pub open spec fn u32_le(x: u32) -> Seq<u8> {
    let q1 = x as int / 256;
    let q2 = q1 / 256;
    let q3 = q2 / 256;
    seq![(x as int % 256) as u8, (q1 % 256) as u8, (q2 % 256) as u8, (q3 % 256) as u8]
}

/// The number that the first four bytes of `s` spell, least significant first.
#[verifier::opaque]
pub open spec fn u32_from_le(s: Seq<u8>) -> u32
    recommends
        s.len() >= 4,
{
    (s[0] as int + 256 * (s[1] as int + 256 * (s[2] as int + 256 * (s[3] as int)))) as u32
}

/// The eight bytes of `x`, least significant first.
#[verifier::opaque]
pub open spec fn u64_le(x: u64) -> Seq<u8> {
    u32_le((x as int % 0x1_0000_0000) as u32) + u32_le((x as int / 0x1_0000_0000) as u32)
}

/// The number that the first eight bytes of `s` spell, least significant first.
#[verifier::opaque]
pub open spec fn u64_from_le(s: Seq<u8>) -> u64
    recommends
        s.len() >= 8,
{
    (u32_from_le(s.subrange(0, 4)) as int + 0x1_0000_0000 * (u32_from_le(s.subrange(4, 8)) as int)) as u64
}

/// Reading back the bytes of a 32-bit number gives the number.
pub proof fn lemma_u32_le_round_trip(x: u32)
    ensures
        u32_le(x).len() == 4,
        u32_from_le(u32_le(x)) == x,
{
    reveal(u32_le);
    reveal(u32_from_le);
    let q1 = x as int / 256;
    let q2 = q1 / 256;
    let q3 = q2 / 256;
    assert(x as int == x as int % 256 + 256 * q1);
    assert(q1 == q1 % 256 + 256 * q2);
    assert(q2 == q2 % 256 + 256 * q3);
    assert(0 <= q3 < 256);
}

/// Four bytes are the bytes of the number they spell.
pub proof fn lemma_u32_from_le_round_trip(s: Seq<u8>)
    requires
        s.len() == 4,
    ensures
        u32_le(u32_from_le(s)) == s,
{
    reveal(u32_le);
    reveal(u32_from_le);
    let r2 = s[2] as int + 256 * (s[3] as int);
    let r1 = s[1] as int + 256 * r2;
    let v = s[0] as int + 256 * r1;
    assert(0 <= v <= u32::MAX);
    assert(v % 256 == s[0] as int && v / 256 == r1);
    assert(r1 % 256 == s[1] as int && r1 / 256 == r2);
    assert(r2 % 256 == s[2] as int && r2 / 256 == s[3] as int);
    assert(u32_le(u32_from_le(s)) =~= s);
}

/// Reading back the bytes of a 64-bit number gives the number.
pub proof fn lemma_u64_le_round_trip(x: u64)
    ensures
        u64_le(x).len() == 8,
        u64_from_le(u64_le(x)) == x,
{
    reveal(u64_le);
    reveal(u64_from_le);
    let lo = (x as int % 0x1_0000_0000) as u32;
    let hi = (x as int / 0x1_0000_0000) as u32;
    assert(x as int == lo as int + 0x1_0000_0000 * (hi as int));
    lemma_u32_le_round_trip(lo);
    lemma_u32_le_round_trip(hi);
    assert(u64_le(x).subrange(0, 4) =~= u32_le(lo));
    assert(u64_le(x).subrange(4, 8) =~= u32_le(hi));
}

/// Eight bytes are the bytes of the number they spell.
pub proof fn lemma_u64_from_le_round_trip(s: Seq<u8>)
    requires
        s.len() == 8,
    ensures
        u64_le(u64_from_le(s)) == s,
{
    reveal(u64_le);
    reveal(u64_from_le);
    let lo = u32_from_le(s.subrange(0, 4));
    let hi = u32_from_le(s.subrange(4, 8));
    let v = lo as int + 0x1_0000_0000 * (hi as int);
    assert(0 <= v <= u64::MAX);
    assert(v % 0x1_0000_0000 == lo as int && v / 0x1_0000_0000 == hi as int);
    lemma_u32_from_le_round_trip(s.subrange(0, 4));
    lemma_u32_from_le_round_trip(s.subrange(4, 8));
    assert(u64_from_le(s) as int == v);
    assert(u64_le(u64_from_le(s)) == s.subrange(0, 4) + s.subrange(4, 8));
    assert(s.subrange(0, 4) + s.subrange(4, 8) =~= s);
}

/// Appends the four little-endian bytes of `x` to `out`.
pub fn put_u32(out: &mut Vec<u8>, x: u32)
    ensures
        final(out)@ == old(out)@ + u32_le(x),
{
    let q1: u32 = x / 256;
    let q2: u32 = q1 / 256;
    let q3: u32 = q2 / 256;
    out.push((x % 256) as u8);
    out.push((q1 % 256) as u8);
    out.push((q2 % 256) as u8);
    out.push((q3 % 256) as u8);
    proof {
        reveal(u32_le);
    }
    assert(out@ =~= old(out)@ + u32_le(x));
}

/// Appends the eight little-endian bytes of `x` to `out`.
pub fn put_u64(out: &mut Vec<u8>, x: u64)
    ensures
        final(out)@ == old(out)@ + u64_le(x),
{
    put_u32(out, (x % 0x1_0000_0000) as u32);
    put_u32(out, (x / 0x1_0000_0000) as u32);
    proof {
        reveal(u64_le);
    }
    assert(out@ =~= old(out)@ + u64_le(x));
}

/// Reads the 32-bit number stored little-endian at `pos`.
pub fn get_u32(bytes: &[u8], pos: usize) -> (x: u32)
    requires
        pos + 4 <= bytes.len(),
    ensures
        x == u32_from_le(bytes@.subrange(pos as int, pos + 4)),
{
    let b0: u32 = bytes[pos] as u32;
    let b1: u32 = bytes[pos + 1] as u32;
    let b2: u32 = bytes[pos + 2] as u32;
    let b3: u32 = bytes[pos + 3] as u32;
    proof {
        reveal(u32_from_le);
    }
    b0 + 256 * (b1 + 256 * (b2 + 256 * b3))
}

/// Reads the 64-bit number stored little-endian at `pos`.
pub fn get_u64(bytes: &[u8], pos: usize) -> (x: u64)
    requires
        pos + 8 <= bytes.len(),
    ensures
        x == u64_from_le(bytes@.subrange(pos as int, pos + 8)),
{
    let lo: u64 = get_u32(bytes, pos) as u64;
    let hi: u64 = get_u32(bytes, pos + 4) as u64;
    proof {
        reveal(u64_from_le);
        let s = bytes@.subrange(pos as int, pos + 8);
        assert(s.subrange(0, 4) =~= bytes@.subrange(pos as int, pos + 4));
        assert(s.subrange(4, 8) =~= bytes@.subrange(pos + 4, pos + 8));
    }
    lo + 0x1_0000_0000 * hi
}

} // verus!
