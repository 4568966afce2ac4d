//! Text as bytes: UTF-8 strings from byte vectors, and lowercase hexadecimal.

use vstd::pervasive::unreached;
use vstd::prelude::*;
use vstd::utf8::*;

verus! {

/// `String::from_utf8` of std, with the error dropped. It accepts exactly the
/// byte vectors that are well-formed UTF-8, and the string it returns is the
/// text that those bytes encode.
#[verifier::external_body]
pub(crate) fn string_from_utf8(bytes: Vec<u8>) -> (r: Option<String>)
    ensures
        r is Some <==> valid_utf8(bytes@),
        r matches Some(s) ==> s@ == decode_utf8(bytes@),
{
    String::from_utf8(bytes).ok()
}

/// The text whose characters are the given ASCII codes.
pub open spec fn ascii_text(bytes: Seq<u8>) -> Seq<char> {
    Seq::new(bytes.len(), |i: int| bytes[i] as char)
}

/// Bytes below 128 are well-formed UTF-8 and encode one character each.
pub proof fn lemma_ascii_is_utf8(bytes: Seq<u8>)
    requires
        forall|i: int| 0 <= i < bytes.len() ==> bytes[i] < 128,
    ensures
        valid_utf8(bytes),
        decode_utf8(bytes) == ascii_text(bytes),
        encode_utf8(ascii_text(bytes)) == bytes,
{
    let chars = ascii_text(bytes);
    assert(is_ascii_chars(chars));
    is_ascii_chars_encode_utf8(chars);
    assert(encode_utf8(chars) =~= bytes);
    encode_utf8_valid_utf8(chars);
    encode_utf8_decode_utf8(chars);
}

/// The lowercase hexadecimal digit for `n`, as an ASCII code.
pub open spec fn hex_digit(n: int) -> u8
    recommends
        0 <= n < 16,
{
    if n < 10 {
        (0x30 + n) as u8
    } else {
        (0x57 + n) as u8
    }
}

/// The ASCII codes of the lowercase hexadecimal form of `data`: two digits
/// per byte, the high half first.
pub open spec fn hex_codes(data: Seq<u8>) -> Seq<u8> {
    Seq::new(
        2 * data.len(),
        |i: int|
            if i % 2 == 0 {
                hex_digit(data[i / 2] as int / 16)
            } else {
                hex_digit(data[i / 2] as int % 16)
            },
    )
}

/// The lowercase hexadecimal form of `data`.
pub open spec fn hex(data: Seq<u8>) -> Seq<char> {
    ascii_text(hex_codes(data))
}

/// A hexadecimal string has two ASCII characters per byte.
pub proof fn lemma_hex_len(data: Seq<u8>)
    ensures
        hex(data).len() == 2 * data.len(),
        encode_utf8(hex(data)) == hex_codes(data),
        encode_utf8(hex(data)).len() == 2 * data.len(),
{
    lemma_ascii_is_utf8(hex_codes(data));
}

fn hex_digit_of(n: u8) -> (c: u8)
    requires
        n < 16,
    ensures
        c == hex_digit(n as int),
        c < 128,
{
    if n < 10 {
        0x30 + n
    } else {
        0x57 + n
    }
}

/// Writes `data` in lowercase hexadecimal.
pub fn to_hex(data: &[u8]) -> (s: String)
    ensures
        s@ == hex(data@),
{
    let mut codes: Vec<u8> = Vec::new();
    let mut i: usize = 0;
    while i < data.len()
        invariant
            i <= data.len(),
            codes@.len() == 2 * i,
            forall|j: int| 0 <= j < codes@.len() ==> codes@[j] == hex_codes(data@)[j],
            forall|j: int| 0 <= j < codes@.len() ==> codes@[j] < 128,
        decreases data.len() - i,
    {
        let b: u8 = data[i];
        codes.push(hex_digit_of(b / 16));
        codes.push(hex_digit_of(b % 16));
        i = i + 1;
    }
    proof {
        assert(codes@ =~= hex_codes(data@));
        lemma_ascii_is_utf8(codes@);
    }
    match string_from_utf8(codes) {
        Some(s) => s,
        None => unreached(),
    }
}

/// Whether `h` begins with `d` characters `'0'`.
pub open spec fn has_zero_prefix(h: Seq<char>, d: nat) -> bool {
    d <= h.len() && forall|i: int| 0 <= i < d ==> h[i] == '0'
}

/// Tests whether `h` begins with `d` characters `'0'`.
pub fn starts_with_zeros(h: &str, d: usize) -> (b: bool)
    ensures
        b == has_zero_prefix(h@, d as nat),
{
    let n: usize = h.unicode_len();
    if n < d {
        return false;
    }
    let mut i: usize = 0;
    while i < d
        invariant
            i <= d <= n,
            n == h@.len(),
            forall|j: int| 0 <= j < i ==> h@[j] == '0',
        decreases d - i,
    {
        if h.get_char(i) != '0' {
            return false;
        }
        i = i + 1;
    }
    true
}

} // verus!
