//! Little-endian 32-bit words, as the frame header and the block cipher read
//! and write them.

use vstd::prelude::*;

verus! {

/// The unsigned integer that four bytes spell in little-endian order.
pub open spec fn le_u32(b: Seq<u8>) -> int
    recommends
        b.len() == 4,
{
    b[0] + b[1] * 0x100 + b[2] * 0x1_0000 + b[3] * 0x100_0000
}

/// The four bytes that spell `v` in little-endian order.
pub open spec fn le_bytes(v: u32) -> Seq<u8> {
    seq![
        (v % 0x100) as u8,
        (v / 0x100 % 0x100) as u8,
        (v / 0x1_0000 % 0x100) as u8,
        (v / 0x100_0000) as u8,
    ]
}

/// The bytes of a word spell the word.
pub proof fn lemma_word_of_bytes(v: u32)
    ensures
        le_bytes(v).len() == 4,
        le_u32(le_bytes(v)) == v,
{
}

/// The word that four bytes spell has those bytes.
pub proof fn lemma_bytes_of_word(b: Seq<u8>)
    requires
        b.len() == 4,
    ensures
        0 <= le_u32(b) <= u32::MAX,
        le_bytes(le_u32(b) as u32) == b,
{
    let v = le_u32(b) as u32;
    assert(v == b[0] + b[1] * 0x100 + b[2] * 0x1_0000 + b[3] * 0x100_0000);
    assert(v % 0x100 == b[0]);
    assert(v / 0x100 % 0x100 == b[1]);
    assert(v / 0x1_0000 % 0x100 == b[2]);
    assert(v / 0x100_0000 == b[3]);
    assert(le_bytes(v) =~= b);
}

/// Reads a little-endian `u32` with byteorder's
/// `ReadBytesExt::read_u32::<LittleEndian>` on a byte slice. The reader takes
/// the first four bytes and fails when fewer are left; the claim is that the
/// value is the little-endian reading of those four bytes.
#[verifier::external_body]
pub(crate) fn read_u32_le(bytes: &[u8]) -> (r: Option<u32>)
    ensures
        match r {
            Some(v) => bytes@.len() >= 4 && v == le_u32(bytes@.take(4)),
            None => bytes@.len() < 4,
        },
{
    let mut reader: &[u8] = bytes;
    byteorder::ReadBytesExt::read_u32::<byteorder::LittleEndian>(&mut reader).ok()
}

/// Assembles a word from its four little-endian bytes.
pub fn word_from_le(b0: u8, b1: u8, b2: u8, b3: u8) -> (v: u32)
    ensures
        v == le_u32(seq![b0, b1, b2, b3]),
{
    (b0 as u32) + (b1 as u32) * 0x100 + (b2 as u32) * 0x1_0000 + (b3 as u32) * 0x100_0000
}

/// Splits a word into its four little-endian bytes.
pub fn word_to_le(v: u32) -> (b: [u8; 4])
    ensures
        b@ == le_bytes(v),
{
    let b = [
        (v % 0x100) as u8,
        (v / 0x100 % 0x100) as u8,
        (v / 0x1_0000 % 0x100) as u8,
        (v / 0x100_0000) as u8,
    ];
    assert(b@ =~= le_bytes(v));
    b
}

} // verus!
