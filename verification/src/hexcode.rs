//! Hexadecimal text: how digests are written and how signatures are read.

use vstd::prelude::*;
use crate::text::{lower_char, lower_text};

verus! {

/// The sixteen lower-case hexadecimal digits, by value.
pub open spec fn hex_alphabet() -> Seq<char> {
    seq!['0', '1', '2', '3', '4', '5', '6', '7', '8', '9', 'a', 'b', 'c', 'd', 'e', 'f']
}

/// The lower-case digit that stands for `nibble`.
pub open spec fn hex_digit(nibble: int) -> char
    recommends
        0 <= nibble < 16,
{
    hex_alphabet()[nibble]
}

/// The lower-case hexadecimal text of `data`: two digits per byte, the high
/// half first.
pub open spec fn hex_lower(data: Seq<u8>) -> Seq<char> {
    Seq::new(
        2 * data.len(),
        |i: int|
            if i % 2 == 0 {
                hex_digit(data[i / 2] as int / 16)
            } else {
                hex_digit(data[i / 2] as int % 16)
            },
    )
}

/// The value of one hexadecimal digit given as an ASCII byte, in either case.
pub open spec fn hex_value(digit: u8) -> Option<int> {
    if 0x30 <= digit <= 0x39 {
        Some(digit - 0x30)
    } else if 0x61 <= digit <= 0x66 {
        Some(digit - 0x61 + 10)
    } else if 0x41 <= digit <= 0x46 {
        Some(digit - 0x41 + 10)
    } else {
        None
    }
}

/// Whether `text` is an even number of hexadecimal digits.
pub open spec fn is_hex_text(text: Seq<u8>) -> bool {
    &&& text.len() % 2 == 0
    &&& forall|i: int| 0 <= i < text.len() ==> (#[trigger] hex_value(text[i])) is Some
}

/// The bytes that the hexadecimal text `text` stands for.
pub open spec fn hex_decoded(text: Seq<u8>) -> Seq<u8>
    recommends
        is_hex_text(text),
{
    Seq::new(
        text.len() / 2,
        |i: int| (16 * hex_value(text[2 * i]).unwrap() + hex_value(text[2 * i + 1]).unwrap()) as u8,
    )
}

/// Hexadecimal text as it is written here holds no upper-case letter.
pub proof fn lemma_hex_lower_is_lower_case(data: Seq<u8>)
    ensures
        lower_text(hex_lower(data)) == hex_lower(data),
{
    let text = hex_lower(data);
    assert forall|i: int| 0 <= i < text.len() implies lower_char(#[trigger] text[i])
        == text[i] by {
        let byte = data[i / 2] as int;
        let nibble = if i % 2 == 0 {
            byte / 16
        } else {
            byte % 16
        };
        assert(0 <= nibble < 16);
        assert(text[i] == hex_alphabet()[nibble]);
        assert(forall|n: int| 0 <= n < 16 ==> !('A' <= #[trigger] hex_alphabet()[n] <= 'Z'));
    }
    assert(lower_text(text) =~= text);
}

#[verifier::external_type_specification]
#[verifier::external_body]
pub struct ExFromHexError(hex::FromHexError);

/// `hex::encode` on a byte slice. The contract claims that the result is the
/// lower-case hexadecimal text of the input, two digits per byte.
#[verifier::external_body]
pub(crate) fn encode_hex(data: &[u8]) -> (text: String)
    ensures
        text@ == hex_lower(data@),
{
    hex::encode(data)
}

/// `hex::decode` on a byte slice. The contract claims that decoding succeeds
/// exactly on an even number of hexadecimal digits of either case, and that
/// each pair of digits then gives one byte, the high half first.
#[verifier::external_body]
pub(crate) fn decode_hex(text: &[u8]) -> (decoded: Result<Vec<u8>, hex::FromHexError>)
    ensures
        decoded is Ok <==> is_hex_text(text@),
        decoded matches Ok(bytes) ==> bytes@ == hex_decoded(text@),
{
    hex::decode(text)
}

} // verus!
