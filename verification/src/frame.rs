//! The block framer: recognises a frame header at a cursor and validates the
//! lengths it declares against the buffer.

use crate::endian::{le_u32, read_u32_le};
use vstd::prelude::*;
use vstd::slice::slice_subrange;

verus! {

/// Bytes in a header before the crypt-key material: magic, sequence number,
/// begin attribute, level attribute and payload length.
pub const FIXED_HEADER_LEN: usize = 9;

/// A byte that may open a frame.
pub open spec fn is_magic(b: u8) -> bool {
    0x01 <= b <= 0x0D
}

/// Length of the crypt-key material that follows the fixed header fields.
pub open spec fn key_material_len(magic: u8) -> int {
    if magic <= 0x05 {
        4
    } else {
        64
    }
}

/// Total header length of a frame that opens with `magic`.
pub open spec fn header_len(magic: u8) -> int {
    FIXED_HEADER_LEN + key_material_len(magic)
}

/// The payload length that the header at `cursor` declares.
pub open spec fn declared_len(buf: Seq<u8>, cursor: int) -> int
    recommends
        0 <= cursor,
        cursor + FIXED_HEADER_LEN <= buf.len(),
{
    le_u32(buf.subrange(cursor + 5, cursor + 9))
}

/// A frame starts at `cursor`: the magic is known, the header fits, and the
/// declared payload is non-empty and fits. The byte after the payload is not
/// examined; any value is tolerated there.
pub open spec fn valid_frame(buf: Seq<u8>, cursor: int) -> bool {
    &&& 0 <= cursor < buf.len()
    &&& is_magic(buf[cursor])
    &&& cursor + header_len(buf[cursor]) <= buf.len()
    &&& declared_len(buf, cursor) != 0
    &&& cursor + header_len(buf[cursor]) + declared_len(buf, cursor) <= buf.len()
}

/// Offset of the first payload byte of the frame at `cursor`.
pub open spec fn payload_start(buf: Seq<u8>, cursor: int) -> int {
    cursor + header_len(buf[cursor])
}

/// Offset one past the last payload byte of the frame at `cursor`; the
/// sentinel byte, when present, sits here.
pub open spec fn payload_end(buf: Seq<u8>, cursor: int) -> int {
    payload_start(buf, cursor) + declared_len(buf, cursor)
}

/// Where the next frame is looked for after the frame at `cursor` was
/// consumed: one past the sentinel.
pub open spec fn next_cursor(buf: Seq<u8>, cursor: int) -> int {
    payload_end(buf, cursor) + 1
}

/// The payload bytes of the frame at `cursor`.
pub open spec fn payload_of(buf: Seq<u8>, cursor: int) -> Seq<u8> {
    buf.subrange(payload_start(buf, cursor), payload_end(buf, cursor))
}

/// What the framer reports of a frame it accepted.
#[derive(Clone, Copy, Debug, PartialEq, Eq)]
pub struct Frame {
    pub magic: u8,
    pub header_len: usize,
    pub payload_len: usize,
}

impl Frame {
    /// This report describes the frame that starts at `cursor` in `buf`.
    pub open spec fn describes(self, buf: Seq<u8>, cursor: int) -> bool {
        &&& self.magic == buf[cursor]
        &&& self.header_len == header_len(buf[cursor])
        &&& self.payload_len == declared_len(buf, cursor)
    }
}

/// Validates a candidate frame at `cursor`.
pub fn next_frame(buf: &[u8], cursor: usize) -> (r: Option<Frame>)
    ensures
        r is Some <==> valid_frame(buf@, cursor as int),
        r matches Some(f) ==> f.describes(buf@, cursor as int),
{
    let len = buf.len();
    if cursor >= len {
        return None;
    }
    let magic = buf[cursor];
    if magic < 0x01 || magic > 0x0D {
        return None;
    }
    let header_len: usize = if magic <= 0x05 {
        FIXED_HEADER_LEN + 4
    } else {
        FIXED_HEADER_LEN + 64
    };
    if header_len > len - cursor {
        return None;
    }
    let field = slice_subrange(buf, cursor + 5, cursor + 9);
    assert(field@.take(4) == field@);
    let declared: u32 = match read_u32_le(field) {
        Some(v) => v,
        None => 0,
    };
    let payload_len = declared as usize;
    if payload_len == 0 || payload_len > len - cursor - header_len {
        return None;
    }
    Some(Frame { magic, header_len, payload_len })
}

/// `count` frames follow one another from `cursor`, each valid, each starting
/// one past the sentinel of the one before. A frame that the buffer ends
/// before is not there, so a chain that reaches the end early is refused. A
/// `count` below one asks for one frame.
pub open spec fn good_log_buf(buf: Seq<u8>, cursor: int, count: int) -> bool
    decreases count,
{
    valid_frame(buf, cursor) && (count <= 1 || good_log_buf(
        buf,
        next_cursor(buf, cursor),
        count - 1,
    ))
}

/// Multi-frame validator: checks `count` consecutive frames from `offset`.
pub fn is_good_log_buf(buf: &[u8], offset: usize, count: i32) -> (ok: bool)
    ensures
        ok == good_log_buf(buf@, offset as int, count as int),
{
    let len = buf.len();
    let mut cursor = offset;
    let mut left = count;
    loop
        invariant
            len == buf@.len(),
            good_log_buf(buf@, offset as int, count as int) == good_log_buf(
                buf@,
                cursor as int,
                left as int,
            ),
        decreases left,
    {
        match next_frame(buf, cursor) {
            None => {
                return false;
            },
            Some(f) => {
                if left <= 1 {
                    return true;
                }
                let end = cursor + f.header_len + f.payload_len;
                if end >= len {
                    // No further frame can start at or past the end.
                    assert(!good_log_buf(buf@, next_cursor(buf@, cursor as int), left - 1));
                    return false;
                }
                cursor = end + 1;
                left = left - 1;
            },
        }
    }
}

/// A log may start at `pos`: the magic there belongs to the formats that are
/// probed for, and `count` frames chain from it.
pub open spec fn starts_log(buf: Seq<u8>, pos: int, count: int) -> bool {
    &&& 0 <= pos < buf.len()
    &&& 0x03 <= buf[pos] <= 0x0D
    &&& good_log_buf(buf, pos, count)
}

/// First offset at which a log may start, if there is one.
pub fn get_log_start_pos(buf: &[u8], count: i32) -> (r: Option<usize>)
    ensures
        match r {
            Some(pos) => starts_log(buf@, pos as int, count as int) && forall|q: int|
                0 <= q < pos ==> !starts_log(buf@, q, count as int),
            None => forall|q: int| 0 <= q < buf@.len() ==> !starts_log(buf@, q, count as int),
        },
{
    let len = buf.len();
    let mut offset: usize = 0;
    while offset < len
        invariant
            len == buf@.len(),
            offset <= len,
            forall|q: int| 0 <= q < offset ==> !starts_log(buf@, q, count as int),
        decreases len - offset,
    {
        let magic = buf[offset];
        if magic >= 0x03 && magic <= 0x0D {
            if is_good_log_buf(buf, offset, count) {
                return Some(offset);
            }
        }
        offset = offset + 1;
    }
    None
}

} // verus!
