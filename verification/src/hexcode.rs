//! Hexadecimal text: the textual form in which identifiers and signatures
//! travel inside payloads.

use vstd::prelude::*;
use vstd::utf8::*;

verus! {

/// The value of one hexadecimal digit given as an ASCII byte, in either case.
pub open spec fn digit_value(c: u8) -> Option<u8> {
    if 0x30 <= c <= 0x39 {
        Some((c - 0x30) as u8)
    } else if 0x61 <= c <= 0x66 {
        Some((c - 0x61 + 10) as u8)
    } else if 0x41 <= c <= 0x46 {
        Some((c - 0x41 + 10) as u8)
    } else {
        None
    }
}

/// Text that spells whole bytes: an even number of hexadecimal digits.
pub open spec fn is_hex(text: Seq<u8>) -> bool {
    &&& text.len() % 2 == 0
    &&& forall|i: int| 0 <= i < text.len() ==> (#[trigger] digit_value(text[i])) is Some
}

/// The byte spelled by the digit pair at position `i` of `text`.
pub open spec fn byte_at(text: Seq<u8>, i: int) -> u8 {
    (16 * digit_value(text[2 * i]).unwrap() + digit_value(text[2 * i + 1]).unwrap()) as u8
}

/// What hexadecimal text decodes to, if it decodes at all.
pub open spec fn parse_hex(text: Seq<u8>) -> Option<Seq<u8>> {
    if is_hex(text) {
        Some(Seq::new((text.len() / 2) as nat, |i: int| byte_at(text, i)))
    } else {
        None
    }
}

/// The lower-case digit for a value below sixteen.
pub open spec fn digit_char(v: u8) -> char {
    if v < 10 {
        ((0x30 + v) as u8) as char
    } else {
        ((0x61 + v - 10) as u8) as char
    }
}

/// The lower-case hexadecimal spelling of a byte string, high digit first.
pub open spec fn hex_of(bytes: Seq<u8>) -> Seq<char> {
    Seq::new(
        2 * bytes.len(),
        |i: int|
            if i % 2 == 0 {
                digit_char(bytes[i / 2] / 16)
            } else {
                digit_char(bytes[i / 2] % 16)
            },
    )
}

/// Calls `hex::decode` on the text. The crate rejects text of odd length and
/// text with a byte that is no hexadecimal digit; otherwise each pair of
/// digits gives one byte, high digit first.
#[verifier::external_body]
pub(crate) fn decode(text: &[u8]) -> (r: Option<Vec<u8>>)
    ensures
        match r {
            Some(v) => parse_hex(text@) == Some(v@),
            None => parse_hex(text@) is None,
        },
{
    ::hex::decode(text).ok()
}

/// Calls `hex::encode` on the bytes. The crate writes two lower-case digits
/// per byte, high digit first.
#[verifier::external_body]
pub(crate) fn encode(bytes: &[u8]) -> (s: String)
    ensures
        s@ == hex_of(bytes@),
{
    ::hex::encode(bytes)
}

/// Spelling a byte string in hexadecimal and reading the text back gives the
/// byte string again.
pub proof fn lemma_hex_round_trip(bytes: Seq<u8>)
    ensures
        parse_hex(encode_utf8(hex_of(bytes))) == Some(bytes),
{
    let chars = hex_of(bytes);
    assert forall|i: int| 0 <= i < chars.len() implies '\0' <= #[trigger] chars[i] <= '\u{7f}' by {
        let v: u8 = if i % 2 == 0 { bytes[i / 2] / 16 } else { bytes[i / 2] % 16 };
        assert(chars[i] == digit_char(v));
    }
    is_ascii_chars_encode_utf8(chars);
    let text = encode_utf8(chars);
    assert forall|i: int| 0 <= i < text.len() implies (#[trigger] digit_value(text[i])) is Some by {
        let v: u8 = if i % 2 == 0 { bytes[i / 2] / 16 } else { bytes[i / 2] % 16 };
        assert(chars[i] == digit_char(v));
        assert(text[i] == chars[i] as u8);
    }
    assert(is_hex(text));
    let back = parse_hex(text).unwrap();
    assert forall|k: int| 0 <= k < bytes.len() implies back[k] == bytes[k] by {
        let hi: u8 = bytes[k] / 16;
        let lo: u8 = bytes[k] % 16;
        assert(chars[2 * k] == digit_char(hi));
        assert(chars[2 * k + 1] == digit_char(lo));
        assert(text[2 * k] == chars[2 * k] as u8);
        assert(text[2 * k + 1] == chars[2 * k + 1] as u8);
        assert(digit_value(text[2 * k]) == Some(hi));
        assert(digit_value(text[2 * k + 1]) == Some(lo));
    }
    assert(back =~= bytes);
}

} // verus!
