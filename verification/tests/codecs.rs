use std::io::Write;
use xlog_core::assemble::{absorb, assemble, scan_step, sniff};
use xlog_core::codec::{codec_for, decompress, magic_is_encrypted, Codec};

fn deflate_stream(data: &[u8]) -> Vec<u8> {
    let mut enc = flate2::write::DeflateEncoder::new(Vec::new(), flate2::Compression::default());
    enc.write_all(data).unwrap();
    enc.finish().unwrap()
}

fn zlib_stream(data: &[u8]) -> Vec<u8> {
    let mut enc = flate2::write::ZlibEncoder::new(Vec::new(), flate2::Compression::default());
    enc.write_all(data).unwrap();
    enc.finish().unwrap()
}

fn zstd_stream(data: &[u8]) -> Vec<u8> {
    zstd::stream::encode_all(data, 0).unwrap()
}

fn block(magic: u8, payload: &[u8]) -> Vec<u8> {
    let key_len = if magic <= 0x05 { 4 } else { 64 };
    let mut out = vec![magic, 0x00, 0x00, 0x00, 0x00];
    out.extend_from_slice(&(payload.len() as u32).to_le_bytes());
    out.extend(std::iter::repeat(0x00).take(key_len));
    out.extend_from_slice(payload);
    out.push(0x00);
    out
}

#[test]
fn each_magic_has_its_codec() {
    let expected = [
        (0x01, Codec::Plain),
        (0x02, Codec::Plain),
        (0x03, Codec::Plain),
        (0x04, Codec::Deflate),
        (0x05, Codec::Deflate),
        (0x06, Codec::Plain),
        (0x07, Codec::Deflate),
        (0x08, Codec::Plain),
        (0x09, Codec::Deflate),
        (0x0A, Codec::Zstd),
        (0x0B, Codec::Zstd),
        (0x0C, Codec::Zstd),
        (0x0D, Codec::Zstd),
    ];
    for (magic, codec) in expected {
        assert_eq!(codec_for(magic), codec);
    }
}

#[test]
fn four_magics_are_encrypted() {
    for magic in 0x01u8..=0x0D {
        let expected = matches!(magic, 0x06 | 0x08 | 0x0B | 0x0D);
        assert_eq!(magic_is_encrypted(magic), expected);
    }
}

#[test]
fn plain_payload_passes_through() {
    assert_eq!(decompress(Codec::Plain, b"as it is".to_vec()), Some(b"as it is".to_vec()));
    assert_eq!(decompress(Codec::Plain, Vec::new()), Some(Vec::new()));
}

#[test]
fn raw_deflate_is_inflated() {
    let text = b"[deflate] some text some text some text".to_vec();
    let packed = deflate_stream(&text);
    assert_ne!(packed, text);
    assert_eq!(decompress(Codec::Deflate, packed), Some(text));
}

#[test]
fn zlib_is_the_fallback_of_deflate() {
    let text = b"[zlib] some text some text some text".to_vec();
    let packed = zlib_stream(&text);
    assert_ne!(packed, deflate_stream(&text));
    assert_eq!(decompress(Codec::Deflate, packed), Some(text));
}

#[test]
fn zstd_is_decoded() {
    let text = b"[zstd] some text some text some text".to_vec();
    let packed = zstd_stream(&text);
    assert_ne!(packed, text);
    assert_eq!(decompress(Codec::Zstd, packed), Some(text));
}

#[test]
fn codec_errors_give_nothing() {
    assert_eq!(decompress(Codec::Zstd, b"this is no zstd frame".to_vec()), None);
    assert_eq!(decompress(Codec::Deflate, vec![0xFF; 40]), None);
    assert_eq!(decompress(Codec::Zstd, deflate_stream(b"[wrong codec]")), None);
}

#[test]
fn sniffer_wants_both_brackets() {
    assert!(sniff(b"[]"));
    assert!(sniff(b"]["));
    assert!(sniff(b"text [with] brackets"));
    assert!(!sniff(b""));
    assert!(!sniff(b"["));
    assert!(!sniff(b"]"));
    assert!(!sniff(b"no brackets at all"));
    assert!(!sniff(b"[[[[ only opening"));
    assert!(!sniff(&[0xFF, 0x00, 0x5C, 0x5E]));
}

#[test]
fn absorb_appends_what_the_sniffer_accepts() {
    let mut plain = b"before|".to_vec();
    assert!(absorb(&mut plain, Some(b"[x]".to_vec())));
    assert_eq!(plain, b"before|[x]");
    assert!(!absorb(&mut plain, Some(b"no brackets".to_vec())));
    assert_eq!(plain, b"before|[x]");
    assert!(!absorb(&mut plain, Some(Vec::new())));
    assert!(!absorb(&mut plain, None));
    assert_eq!(plain, b"before|[x]");
}

#[test]
fn accepted_frame_moves_the_cursor_past_its_sentinel() {
    let mut buf = block(0x01, b"[a]");
    let first = buf.len();
    buf.extend(block(0x01, b"[b]"));
    let mut plain = Vec::new();
    assert_eq!(scan_step(&buf, None, 0, &mut plain), first);
    assert_eq!(plain, b"[a]");
    assert_eq!(scan_step(&buf, None, first, &mut plain), buf.len());
    assert_eq!(plain, b"[a][b]");
}

#[test]
fn rejected_candidate_moves_the_cursor_by_one() {
    // A frame that frames but holds no log text.
    let mut buf = block(0x01, b"nothing here");
    buf.extend(block(0x01, b"[b]"));
    let mut plain = Vec::new();
    assert_eq!(scan_step(&buf, None, 0, &mut plain), 1);
    assert!(plain.is_empty());
    // A byte that is no magic.
    assert_eq!(scan_step(&[0xEE, 0xEE], None, 0, &mut plain), 1);
    // A frame whose codec fails.
    let broken = block(0x0A, b"[not zstd]");
    assert_eq!(scan_step(&broken, None, 0, &mut plain), 1);
    assert!(plain.is_empty());
}

#[test]
fn frame_that_ends_the_input_moves_the_cursor_to_the_end() {
    let mut buf = block(0x01, b"[a]");
    buf.pop();
    let mut plain = Vec::new();
    assert_eq!(scan_step(&buf, None, 0, &mut plain), buf.len());
    assert_eq!(plain, b"[a]");
}

#[test]
fn cursor_always_moves_forward() {
    let mut buf = vec![0x01u8, 0x0D, 0x04, 0x00, 0xFF];
    buf.extend(block(0x04, &deflate_stream(b"[a] text")));
    buf.extend_from_slice(&[0x03, 0x02, 0x01]);
    let mut plain = Vec::new();
    let mut cursor = 0;
    let mut steps = 0;
    while cursor < buf.len() {
        let next = scan_step(&buf, None, cursor, &mut plain);
        assert!(next > cursor);
        assert!(next <= buf.len());
        cursor = next;
        steps += 1;
    }
    assert!(steps <= buf.len());
    assert_eq!(plain, b"[a] text");
    assert_eq!(assemble(&buf, None), plain);
}

#[test]
fn blocks_are_assembled_in_file_order() {
    let mut buf = block(0x01, b"[1]");
    buf.extend(block(0x04, &deflate_stream(b"[2]")));
    buf.extend(block(0x05, &zlib_stream(b"[3]")));
    buf.extend(block(0x0A, &zstd_stream(b"[4]")));
    buf.extend(block(0x06, b"[5]"));
    assert_eq!(assemble(&buf, None), b"[1][2][3][4][5]");
}

#[test]
fn rejected_frames_leave_no_trace() {
    let mut buf = block(0x01, b"[1]");
    buf.extend(block(0x02, b"plain text without brackets"));
    buf.extend(block(0x0C, b"[not zstd]"));
    buf.extend(block(0x03, b"[2]"));
    assert_eq!(assemble(&buf, None), b"[1][2]");
}

#[test]
fn payload_that_frames_inside_a_rejected_frame_is_found() {
    // The outer frame is rejected for its codec; the scan goes on one byte
    // later and finds the frame that its payload holds.
    let inner = block(0x01, b"[inner]");
    let buf = block(0x0A, &inner);
    assert_eq!(assemble(&buf, None), b"[inner]");
}

#[test]
fn empty_input_assembles_to_nothing() {
    assert_eq!(assemble(&[], None), Vec::<u8>::new());
    assert_eq!(assemble(&[0u8; 100], None), Vec::<u8>::new());
}
