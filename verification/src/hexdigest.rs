//! Digests written as 40 hexadecimal digits.

use vstd::prelude::*;

verus! {

/// `c` is a hexadecimal digit in ASCII, in either case.
pub open spec fn is_hex_digit(c: u8) -> bool {
    ||| 0x30 <= c <= 0x39
    ||| 0x41 <= c <= 0x46
    ||| 0x61 <= c <= 0x66
}

/// The number that a hexadecimal digit stands for.
pub open spec fn hex_value(c: u8) -> int
    recommends
        is_hex_digit(c),
{
    if 0x30 <= c <= 0x39 {
        c - 0x30
    } else if 0x41 <= c <= 0x46 {
        c - 0x41 + 10
    } else {
        c - 0x61 + 10
    }
}

/// Every byte of `text` is a hexadecimal digit.
pub open spec fn is_hex(text: Seq<u8>) -> bool {
    forall|i: int| 0 <= i < text.len() ==> is_hex_digit(#[trigger] text[i])
}

/// The bytes that `text` spells, two digits to a byte, the higher digit first.
pub open spec fn hex_decoded(text: Seq<u8>) -> Seq<u8>
    recommends
        text.len() % 2 == 0,
        is_hex(text),
{
    Seq::new(text.len() / 2, |i: int| (hex_value(text[2 * i]) * 16 + hex_value(text[2 * i + 1])) as u8)
}

/// `text` spells a digest: it is 40 hexadecimal digits.
pub open spec fn is_digest_text(text: Seq<u8>) -> bool {
    text.len() == 40 && is_hex(text)
}

/// The error of the decoding functions of the `hex` crate. Nothing is read
/// from it.
#[verifier::external_type_specification]
#[verifier::external_body]
pub struct ExFromHexError(hex::FromHexError);

/// Calls `hex::decode_to_slice` on `text` and a buffer of twenty bytes. The
/// contract claims what that function's source shows: it succeeds where
/// `text` has 40 bytes, all of them hexadecimal digits, and on no other input;
/// and each byte that it writes is sixteen times the value of one digit plus
/// the value of the next.
#[verifier::external_body]
pub(crate) fn decode_digest(text: &[u8]) -> (decoded: Result<[u8; 20], hex::FromHexError>)
    ensures
        decoded is Ok <==> is_digest_text(text@),
        decoded matches Ok(digest) ==> digest@ == hex_decoded(text@),
{
    let mut digest: [u8; 20] = [0u8; 20];
    match hex::decode_to_slice(text, &mut digest) {
        Ok(()) => Ok(digest),
        Err(e) => Err(e),
    }
}

} // verus!
