//! The decryption key as callers give it: thirty-two hexadecimal digits that
//! spell the sixteen key bytes.

use crate::tea::TEA_KEY_LEN;
use crate::text::text_of;
use vstd::prelude::*;

verus! {

/// Value of a hexadecimal digit, in either case.
pub open spec fn hex_value(c: char) -> Option<int> {
    if '0' <= c <= '9' {
        Some(c as int - '0' as int)
    } else if 'a' <= c <= 'f' {
        Some(c as int - 'a' as int + 10)
    } else if 'A' <= c <= 'F' {
        Some(c as int - 'A' as int + 10)
    } else {
        None
    }
}

/// `text` is an even number of hexadecimal digits.
pub open spec fn is_hex(text: Seq<char>) -> bool {
    &&& text.len() % 2 == 0
    &&& forall|i: int| 0 <= i < text.len() ==> hex_value(#[trigger] text[i]) is Some
}

/// The bytes that the digit pairs of `text` spell, high digit first.
pub open spec fn hex_bytes(text: Seq<char>) -> Seq<u8>
    recommends
        is_hex(text),
{
    Seq::new(
        text.len() / 2,
        |i: int| (hex_value(text[2 * i])->0 * 16 + hex_value(text[2 * i + 1])->0) as u8,
    )
}

/// The key bytes that `key` stands for: none where no key was supplied, where
/// it is not hexadecimal, or where it does not spell exactly sixteen bytes.
pub open spec fn key_bytes(key: Option<Seq<char>>) -> Option<Seq<u8>> {
    match key {
        Some(text) => if is_hex(text) && hex_bytes(text).len() == TEA_KEY_LEN {
            Some(hex_bytes(text))
        } else {
            None
        },
        None => None,
    }
}

/// Decodes hexadecimal text with `hex::decode`. The crate rejects text of odd
/// byte length and text with a byte that is no hexadecimal digit, and
/// otherwise returns one byte for each pair of digits, the first digit in the
/// high four bits. A character outside ASCII is encoded in bytes that are no
/// digits, so the condition can be put over characters.
#[verifier::external_body]
fn hex_decode(text: &str) -> (r: Option<Vec<u8>>)
    ensures
        match r {
            Some(bytes) => is_hex(text@) && bytes@ == hex_bytes(text@),
            None => !is_hex(text@),
        },
{
    hex::decode(text).ok()
}

/// Turns the key text into key bytes, where it spells a usable key.
pub fn parse_key(key: Option<&str>) -> (r: Option<Vec<u8>>)
    ensures
        match r {
            Some(bytes) => key_bytes(text_of(key)) == Some(bytes@),
            None => key_bytes(text_of(key)) is None,
        },
{
    match key {
        None => None,
        Some(text) => match hex_decode(text) {
            None => None,
            Some(bytes) => if bytes.len() == TEA_KEY_LEN {
                Some(bytes)
            } else {
                None
            },
        },
    }
}

} // verus!
