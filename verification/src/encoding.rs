//! Hexadecimal text for byte strings.

use vstd::prelude::*;

verus! {

/// The number that a hexadecimal digit stands for, in either case.
pub open spec fn hex_digit(c: char) -> Option<nat> {
    let v = c as u32;
    if 48 <= v <= 57 {
        Some((v - 48) as nat)
    } else if 97 <= v <= 102 {
        Some((v - 87) as nat)
    } else if 65 <= v <= 70 {
        Some((v - 55) as nat)
    } else {
        None
    }
}

/// Whether a text is hexadecimal: an even number of hexadecimal digits.
pub open spec fn is_hex(text: Seq<char>) -> bool {
    text.len() % 2 == 0 && forall|i: int| 0 <= i < text.len() ==> hex_digit(#[trigger] text[i]) is Some
}

/// The bytes that a hexadecimal text stands for: one for each pair of
/// digits, the first digit of a pair being the upper half of the byte.
pub open spec fn hex_bytes(text: Seq<char>) -> Seq<u8> {
    Seq::new(
        text.len() / 2,
        |i: int| (16 * hex_digit(text[2 * i])->Some_0 + hex_digit(text[2 * i + 1])->Some_0) as u8,
    )
}

/// The lower-case hexadecimal digit for a number below sixteen.
pub open spec fn lower_hex_char(d: nat) -> char {
    if d < 10 {
        ((48 + d) as u8) as char
    } else {
        ((87 + d) as u8) as char
    }
}

/// The lower-case hexadecimal text of a byte string.
pub open spec fn hex_text(bytes: Seq<u8>) -> Seq<char> {
    Seq::new(
        2 * bytes.len(),
        |i: int|
            if i % 2 == 0 {
                lower_hex_char((bytes[i / 2] / 16) as nat)
            } else {
                lower_hex_char((bytes[i / 2] % 16) as nat)
            },
    )
}

/// The bytes of a hexadecimal text, through `decode` of the hex crate: it
/// takes digits of either case, two for each byte, and refuses a text of odd
/// length or with any other character.
#[verifier::external_body]
pub(crate) fn decode_hex(text: &str) -> (r: Option<Vec<u8>>)
    ensures
        r is Some == is_hex(text@),
        r is Some ==> r->Some_0@ == hex_bytes(text@),
{
    ::hex::decode(text).ok()
}

/// The hexadecimal text of a byte string, through `encode` of the hex crate:
/// two lower-case digits for each byte.
#[verifier::external_body]
pub(crate) fn encode_hex(bytes: &[u8]) -> (r: String)
    ensures
        r@ == hex_text(bytes@),
{
    ::hex::encode(bytes)
}

} // verus!
