//! The stream assembler: walks the input, lets the framer, the decryptor, the
//! decompressor and the sniffer judge each candidate frame, and concatenates
//! the plaintext of the frames they accept.

use crate::codec::{
    bytes_of,
    codec_for,
    codec_of,
    decompress,
    decompressed,
    is_encrypted,
    magic_is_encrypted,
};
use crate::frame::{next_cursor, next_frame, payload_of, valid_frame, Frame};
use crate::tea::{decrypt_tea, tea_decrypted};
use vstd::prelude::*;
use vstd::slice::{slice_subrange, slice_to_vec};

verus! {

/// The byte `[`.
pub const OPEN_BRACKET: u8 = 0x5B;

/// The byte `]`.
pub const CLOSE_BRACKET: u8 = 0x5D;

/// A plaintext looks like log text: it is not empty and holds both kinds of
/// bracket.
pub open spec fn looks_like_log(text: Seq<u8>) -> bool {
    &&& text.len() > 0
    &&& text.contains(OPEN_BRACKET)
    &&& text.contains(CLOSE_BRACKET)
}

/// The payload sniffer.
pub fn sniff(text: &[u8]) -> (ok: bool)
    ensures
        ok == looks_like_log(text@),
{
    let mut open = false;
    let mut close = false;
    let mut i: usize = 0;
    while i < text.len()
        invariant
            i <= text@.len(),
            open == text@.take(i as int).contains(OPEN_BRACKET),
            close == text@.take(i as int).contains(CLOSE_BRACKET),
        decreases text@.len() - i,
    {
        let b = text[i];
        proof {
            let before = text@.take(i as int);
            let after = text@.take(i + 1);
            assert(after =~= before.push(b));
            assert(after[i as int] == b);
            assert forall|x: u8| after.contains(x) <==> (before.contains(x) || x == b) by {
                if before.contains(x) {
                    let j = choose|j: int| 0 <= j < before.len() && before[j] == x;
                    assert(after[j] == x);
                }
            }
        }
        if b == OPEN_BRACKET {
            open = true;
        }
        if b == CLOSE_BRACKET {
            close = true;
        }
        i = i + 1;
    }
    assert(text@.take(i as int) =~= text@);
    open && close
}

/// The key as a byte sequence.
pub open spec fn key_of(key: Option<&[u8]>) -> Option<Seq<u8>> {
    match key {
        Some(k) => Some(k@),
        None => None,
    }
}

/// The payload after the decryptor: decrypted where the magic marks it
/// encrypted and a key is at hand, untouched otherwise.
pub open spec fn cleared(magic: u8, payload: Seq<u8>, key: Option<Seq<u8>>) -> Seq<u8> {
    match key {
        Some(k) if is_encrypted(magic) => tea_decrypted(payload, k),
        _ => payload,
    }
}

/// What the sniffer lets through of a decompressor's result.
pub open spec fn accepted(decoded: Option<Seq<u8>>) -> Option<Seq<u8>> {
    match decoded {
        Some(text) if looks_like_log(text) => Some(text),
        _ => None,
    }
}

/// The plaintext that the frame at `cursor` contributes: none where no valid
/// frame starts there, where its codec fails, or where the sniffer rejects
/// what came out.
pub open spec fn block_text(buf: Seq<u8>, key: Option<Seq<u8>>, cursor: int) -> Option<Seq<u8>> {
    if valid_frame(buf, cursor) {
        accepted(
            decompressed(codec_of(buf[cursor]), cleared(buf[cursor], payload_of(buf, cursor), key)),
        )
    } else {
        None
    }
}

/// Where the assembler looks next after `cursor`: past the whole frame where
/// it was accepted, one byte on where it was not.
pub open spec fn step_target(buf: Seq<u8>, key: Option<Seq<u8>>, cursor: int) -> int {
    if block_text(buf, key, cursor) is Some {
        next_cursor(buf, cursor)
    } else {
        cursor + 1
    }
}

/// The plaintext assembled from `cursor` to the end of the input.
pub open spec fn assembled_from(buf: Seq<u8>, key: Option<Seq<u8>>, cursor: int) -> Seq<u8>
    decreases buf.len() + 1 - cursor,
{
    if 0 <= cursor < buf.len() {
        match block_text(buf, key, cursor) {
            Some(text) => text + assembled_from(buf, key, next_cursor(buf, cursor)),
            None => assembled_from(buf, key, cursor + 1),
        }
    } else {
        Seq::empty()
    }
}

/// The plaintext of a whole input: the accepted blocks in file order.
pub open spec fn assembled(buf: Seq<u8>, key: Option<Seq<u8>>) -> Seq<u8> {
    assembled_from(buf, key, 0)
}

/// Lets the sniffer judge a decompressor's result and appends it to the
/// plaintext where it passes.
pub fn absorb(plain: &mut Vec<u8>, decoded: Option<Vec<u8>>) -> (taken: bool)
    ensures
        taken == accepted(bytes_of(decoded)) is Some,
        final(plain)@ == match accepted(bytes_of(decoded)) {
            Some(text) => old(plain)@ + text,
            None => old(plain)@,
        },
{
    match decoded {
        None => false,
        Some(text) => {
            if sniff(text.as_slice()) {
                let mut text = text;
                plain.append(&mut text);
                true
            } else {
                false
            }
        },
    }
}

/// The decrypted and decompressed payload of an accepted frame.
fn read_block(buf: &[u8], key: Option<&[u8]>, cursor: usize, frame: &Frame) -> (r: Option<Vec<u8>>)
    requires
        valid_frame(buf@, cursor as int),
        frame.describes(buf@, cursor as int),
    ensures
        bytes_of(r) == decompressed(
            codec_of(buf@[cursor as int]),
            cleared(buf@[cursor as int], payload_of(buf@, cursor as int), key_of(key)),
        ),
{
    let len = buf.len();
    let start = cursor + frame.header_len;
    let end = start + frame.payload_len;
    assert(end <= len);
    let mut block = slice_to_vec(slice_subrange(buf, start, end));
    match key {
        Some(k) => {
            if magic_is_encrypted(frame.magic) {
                decrypt_tea(block.as_mut_slice(), k);
            }
        },
        None => {},
    }
    decompress(codec_for(frame.magic), block)
}

/// One iteration of the assembler at `cursor`: appends what the frame there
/// contributes and returns where to look next. The cursor always moves
/// forward: by one byte past a rejected candidate and to the byte after the
/// sentinel of an accepted frame, or to the end of the input where the frame
/// ends there.
pub fn scan_step(buf: &[u8], key: Option<&[u8]>, cursor: usize, plain: &mut Vec<u8>) -> (next:
    usize)
    requires
        cursor < buf@.len(),
    ensures
        cursor < next <= buf@.len(),
        next == if step_target(buf@, key_of(key), cursor as int) <= buf@.len() {
            step_target(buf@, key_of(key), cursor as int)
        } else {
            buf@.len() as int
        },
        final(plain)@ == match block_text(buf@, key_of(key), cursor as int) {
            Some(text) => old(plain)@ + text,
            None => old(plain)@,
        },
{
    let len = buf.len();
    match next_frame(buf, cursor) {
        None => cursor + 1,
        Some(frame) => {
            let decoded = read_block(buf, key, cursor, &frame);
            if absorb(plain, decoded) {
                let end = cursor + frame.header_len + frame.payload_len;
                if end < len {
                    end + 1
                } else {
                    end
                }
            } else {
                cursor + 1
            }
        },
    }
}

/// Runs the assembler over a whole input. `key` is the decryption key in
/// bytes; encrypted frames are decrypted under its first sixteen bytes, and
/// pass on as they are where there is no key or the key is shorter.
pub fn assemble(buf: &[u8], key: Option<&[u8]>) -> (plain: Vec<u8>)
    ensures
        plain@ == assembled(buf@, key_of(key)),
{
    let mut plain: Vec<u8> = Vec::new();
    let mut cursor: usize = 0;
    while cursor < buf.len()
        invariant
            cursor <= buf@.len(),
            plain@ + assembled_from(buf@, key_of(key), cursor as int) == assembled(
                buf@,
                key_of(key),
            ),
        decreases buf@.len() - cursor,
    {
        let ghost before = plain@;
        let ghost rest = assembled_from(buf@, key_of(key), cursor as int);
        let next = scan_step(buf, key, cursor, &mut plain);
        proof {
            let target = step_target(buf@, key_of(key), cursor as int);
            assert(assembled_from(buf@, key_of(key), next as int) == assembled_from(
                buf@,
                key_of(key),
                target,
            ));
            match block_text(buf@, key_of(key), cursor as int) {
                Some(text) => {
                    assert((before + text) + assembled_from(buf@, key_of(key), target) =~= before
                        + rest);
                },
                None => {},
            }
        }
        cursor = next;
    }
    assert(plain@ + Seq::<u8>::empty() =~= plain@);
    plain
}

} // verus!
