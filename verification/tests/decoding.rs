use std::io::Write;
use xlog_core::decode::{decode, parse_plain, parse_xlog};
use xlog_core::line::{parse_lines, LogEntry};

const KEY_HEX: &str = "00112233445566778899aabbccddeeff";
const PLAIN_LINE: &[u8] = b"[I][2024-01-01 +8.0 00:00:00.000][10, 20][Tag][]hello\n";

fn record(level: i32, tag: &str, message: &str, pid: i64, tid: i64, time_ms: i64) -> LogEntry {
    LogEntry { level, tag: tag.to_string(), message: message.to_string(), pid, tid, time_ms }
}

fn hello() -> LogEntry {
    record(2, "Tag", "hello", 10, 20, 1704067200000)
}

fn xlog_frame(magic: u8, payload: &[u8]) -> Vec<u8> {
    let key_len = if magic <= 0x05 { 4 } else { 64 };
    let mut out = vec![magic, 0x01, 0x00, 0x00, 0x02];
    out.extend_from_slice(&(payload.len() as u32).to_le_bytes());
    out.extend(std::iter::repeat(0xEE).take(key_len));
    out.extend_from_slice(payload);
    out.push(0x00);
    out
}

fn deflated(data: &[u8]) -> Vec<u8> {
    let mut enc = flate2::write::DeflateEncoder::new(Vec::new(), flate2::Compression::default());
    enc.write_all(data).unwrap();
    enc.finish().unwrap()
}

fn zstd_packed(data: &[u8]) -> Vec<u8> {
    zstd::stream::encode_all(data, 0).unwrap()
}

/// The inverse of the block decryption.
fn tea_encrypted(clear: &[u8], key: &[u8; 16]) -> Vec<u8> {
    let delta: u32 = 0x9E37_79B9;
    let k: Vec<u32> = key
        .chunks(4)
        .map(|c| u32::from_le_bytes([c[0], c[1], c[2], c[3]]))
        .collect();
    let mut data = clear.to_vec();
    let mut i = 0;
    while i + 8 <= data.len() {
        let mut v0 = u32::from_le_bytes([data[i], data[i + 1], data[i + 2], data[i + 3]]);
        let mut v1 = u32::from_le_bytes([data[i + 4], data[i + 5], data[i + 6], data[i + 7]]);
        let mut sum = delta.wrapping_mul(16);
        for _ in 0..16 {
            sum = sum.wrapping_add(delta);
            v0 = v0.wrapping_add(
                (v1 << 4).wrapping_add(k[0]) ^ v1.wrapping_add(sum) ^ (v1 >> 5).wrapping_add(k[1]),
            );
            v1 = v1.wrapping_add(
                (v0 << 4).wrapping_add(k[2]) ^ v0.wrapping_add(sum) ^ (v0 >> 5).wrapping_add(k[3]),
            );
        }
        data[i..i + 4].copy_from_slice(&v0.to_le_bytes());
        data[i + 4..i + 8].copy_from_slice(&v1.to_le_bytes());
        i += 8;
    }
    data
}

fn key_bytes() -> [u8; 16] {
    [
        0x00, 0x11, 0x22, 0x33, 0x44, 0x55, 0x66, 0x77, 0x88, 0x99, 0xaa, 0xbb, 0xcc, 0xdd, 0xee,
        0xff,
    ]
}

/// A fixed sequence of bytes that looks random.
fn noise(len: usize, mut seed: u64) -> Vec<u8> {
    let mut out = Vec::with_capacity(len);
    for _ in 0..len {
        seed = seed.wrapping_mul(6364136223846793005).wrapping_add(1442695040888963407);
        out.push((seed >> 33) as u8);
    }
    out
}

#[test]
fn plain_single_frame() {
    let file = xlog_frame(0x01, PLAIN_LINE);
    assert_eq!(decode(&file, ""), vec![hello()]);
    assert_eq!(parse_xlog(&file, None), vec![hello()]);
}

#[test]
fn deflate_frame() {
    let line = b"[E][2024-06-15 -3.0 12:34:56.789][7, 42*][Net][]boom\n";
    let file = xlog_frame(0x04, &deflated(line));
    // The piece "-3.0" begins with no plus sign, so it stays in the time
    // text and the date does not parse.
    assert_eq!(decode(&file, ""), vec![record(4, "Net", "boom", 7, 42, 0)]);
}

#[test]
fn deflate_frame_with_positive_offset() {
    let line = b"[E][2024-06-15 +3.0 12:34:56.789][7, 42*][Net][]boom\n";
    let file = xlog_frame(0x04, &deflated(line));
    assert_eq!(decode(&file, ""), vec![record(4, "Net", "boom", 7, 42, 1718454896789)]);
}

#[test]
fn zstd_and_tea_frame() {
    let line = b"[W][2024-01-01 +0.0 00:00:01.000][1, 1][T][]x\n";
    let payload = tea_encrypted(&zstd_packed(line), &key_bytes());
    let file = xlog_frame(0x0D, &payload);
    let entries = decode(&file, KEY_HEX);
    assert_eq!(entries, vec![record(3, "T", "x", 1, 1, 1704067201000)]);
    assert_eq!(decode(&file, ""), vec![]);
    assert_eq!(parse_xlog(&file, None), vec![]);
}

#[test]
fn encrypted_plain_frames_are_decrypted() {
    let mut clear = PLAIN_LINE.to_vec();
    while clear.len() % 8 != 0 {
        clear.push(b'\n');
    }
    for magic in [0x06u8, 0x08] {
        let file = xlog_frame(magic, &tea_encrypted(&clear, &key_bytes()));
        assert_eq!(decode(&file, KEY_HEX), vec![hello()]);
        assert_eq!(decode(&file, &KEY_HEX.to_uppercase()), vec![hello()]);
    }
}

#[test]
fn key_is_not_applied_to_frames_that_are_not_encrypted() {
    for magic in [0x01u8, 0x02, 0x03] {
        let file = xlog_frame(magic, PLAIN_LINE);
        assert_eq!(decode(&file, KEY_HEX), vec![hello()]);
    }
    for magic in [0x04u8, 0x05, 0x07, 0x09] {
        let file = xlog_frame(magic, &deflated(PLAIN_LINE));
        assert_eq!(decode(&file, KEY_HEX), vec![hello()]);
    }
    for magic in [0x0Au8, 0x0C] {
        let file = xlog_frame(magic, &zstd_packed(PLAIN_LINE));
        assert_eq!(decode(&file, KEY_HEX), vec![hello()]);
    }
}

#[test]
fn wrong_key_drops_the_frame() {
    let payload = tea_encrypted(&zstd_packed(PLAIN_LINE), &key_bytes());
    let file = xlog_frame(0x0B, &payload);
    assert_eq!(decode(&file, KEY_HEX), vec![hello()]);
    assert_eq!(decode(&file, "ffeeddccbbaa99887766554433221100"), vec![]);
}

#[test]
fn corrupt_leading_bytes() {
    let mut garbage = noise(100, 7);
    for b in garbage.iter_mut() {
        if (0x01..=0x0D).contains(b) {
            *b = 0xF0;
        }
    }
    let mut file = garbage;
    file.extend(xlog_frame(0x01, PLAIN_LINE));
    assert_eq!(decode(&file, ""), vec![hello()]);
}

#[test]
fn broken_frame() {
    let mut file = xlog_frame(0x01, PLAIN_LINE);
    let declared = (PLAIN_LINE.len() as u32 + 1000).to_le_bytes();
    file[5..9].copy_from_slice(&declared);
    assert_eq!(decode(&file, ""), vec![]);
}

#[test]
fn truncated_frame_gives_nothing() {
    let file = xlog_frame(0x01, PLAIN_LINE);
    for cut in [1, 5, 9, 13, 20, file.len() - 2] {
        assert_eq!(decode(&file[..cut], ""), vec![]);
    }
    // Only the sentinel is missing: the frame still counts.
    assert_eq!(decode(&file[..file.len() - 1], ""), vec![hello()]);
}

#[test]
fn unusable_keys_decode_like_no_key() {
    let mut file = xlog_frame(0x01, PLAIN_LINE);
    file.extend(xlog_frame(0x0D, &tea_encrypted(&zstd_packed(PLAIN_LINE), &key_bytes())));
    file.extend(xlog_frame(0x06, &tea_encrypted(b"[secret] 8 bytes", &key_bytes())));
    file.extend(xlog_frame(0x04, &deflated(PLAIN_LINE)));
    let without = decode(&file, "");
    assert_eq!(without, vec![hello(), hello()]);
    assert_eq!(decode(&file, "not_hex"), without);
    assert_eq!(decode(&file, &"00".repeat(15)), without);
    assert_eq!(decode(&file, &"00".repeat(17)), without);
    assert_eq!(parse_xlog(&file, None), without);
    assert_eq!(parse_xlog(&file, Some("")), without);
    assert_eq!(decode(&file, KEY_HEX).len(), 3);
}

#[test]
fn deflate_frames_round_trip() {
    let lines = [
        "[I][2024-01-01 +8.0 00:00:00.000][10, 20][Tag][]hello\n",
        "[E][2024-06-15 +3.0 12:34:56.789][7, 42*][Net][]boom\n[D][2024-06-15 12:34:57.000][7, 43][Net][]again\n",
        "[W][2024-01-01 +0.0 00:00:01.000][1, 1][T][]x\n",
    ];
    let mut file = Vec::new();
    let mut text = String::new();
    for l in lines {
        file.extend(xlog_frame(0x04, &deflated(l.as_bytes())));
        text.push_str(l);
    }
    let entries = decode(&file, "");
    assert_eq!(entries.len(), 4);
    assert_eq!(entries, parse_lines(&text));
}

#[test]
fn text_cut_at_line_ends_gives_one_record_for_each_line() {
    let lines = [
        "[I][2024-01-01 +8.0 00:00:00.000][10, 20][Tag][]hello",
        "[E][2024-06-15 +3.0 12:34:56.789][7, 42*][Net][]boom",
        "[D][2024-06-15 12:34:57.000][7, 43][Net][]caf\u{e9}",
        "[W][2024-01-01 +0.0 00:00:01.000][1, 1][T][]x",
        "[V][2024-01-01 00:00:02.000][2, 3][T][]last",
    ];
    let expected: Vec<LogEntry> =
        lines.iter().map(|l| xlog_core::line::parse_log_line(l).unwrap()).collect();
    // Every way of cutting the five lines into chunks of whole lines.
    for cuts in 0u32..16 {
        let mut file = Vec::new();
        let mut chunk = String::new();
        for (i, l) in lines.iter().enumerate() {
            chunk.push_str(l);
            chunk.push('\n');
            if i == lines.len() - 1 || cuts & (1 << i) != 0 {
                file.extend(xlog_frame(0x04, &deflated(chunk.as_bytes())));
                chunk.clear();
            }
        }
        assert_eq!(parse_xlog(&file, None), expected);
    }
}

#[test]
fn line_split_over_two_frames_is_joined() {
    let mut file = xlog_frame(0x01, b"[I][2024-01-01 +8.0 00:00:00.000][10, ");
    file.extend(xlog_frame(0x01, b"20][Tag][]hello\n"));
    assert_eq!(decode(&file, ""), vec![hello()]);
}

#[test]
fn garbage_between_and_after_frames_is_skipped() {
    let mut file = vec![0xFFu8; 3];
    file.extend(xlog_frame(0x01, PLAIN_LINE));
    file.extend_from_slice(&[0x00, 0xF1, 0x0E, 0x20]);
    file.extend(xlog_frame(0x0A, &zstd_packed(PLAIN_LINE)));
    file.extend_from_slice(&[0x01, 0x02]);
    assert_eq!(decode(&file, ""), vec![hello(), hello()]);
}

#[test]
fn garbage_with_magic_bytes_that_frame_nothing_is_skipped() {
    let garbage = [0x01u8, 0x0D, 0x04, 0x0A, 0x03, 0x06];
    let mut file = garbage.to_vec();
    file.extend(xlog_frame(0x01, PLAIN_LINE));
    assert_eq!(decode(&file, ""), vec![hello()]);
}

#[test]
fn arbitrary_bytes_decode_without_failure() {
    for seed in 0..40u64 {
        let file = noise(300 + (seed as usize) * 17, seed);
        for key in ["", "not_hex", KEY_HEX] {
            for e in decode(&file, key) {
                assert!((0..=5).contains(&e.level));
            }
        }
    }
    // Many candidate frames, none with a payload that decodes.
    for magic in 0x01u8..=0x0D {
        let file = vec![magic; 500];
        assert_eq!(decode(&file, KEY_HEX), vec![]);
    }
    assert_eq!(decode(&[], ""), vec![]);
}

#[test]
fn garbage_payloads_decode_without_failure() {
    for magic in 0x01u8..=0x0D {
        for seed in 0..12u64 {
            let file = xlog_frame(magic, &noise(64 + seed as usize * 31, seed * 13 + magic as u64));
            for key in ["", KEY_HEX] {
                let first = decode(&file, key);
                let second = decode(&file, key);
                assert_eq!(first, second);
                for e in first {
                    assert!((0..=5).contains(&e.level));
                }
            }
        }
    }
}

#[test]
fn records_imply_brackets_in_the_plaintext() {
    let mut file = noise(50, 3);
    file.extend(xlog_frame(0x04, &deflated(PLAIN_LINE)));
    let entries = decode(&file, "");
    assert!(!entries.is_empty());
    let plain = xlog_core::assemble::assemble(&file, None);
    assert!(plain.contains(&b'['));
    assert!(plain.contains(&b']'));
}

#[test]
fn frame_without_brackets_gives_no_record() {
    let file = xlog_frame(0x01, b"just text, no header\n");
    assert_eq!(decode(&file, ""), vec![]);
}

#[test]
fn plaintext_is_read_as_lossy_text() {
    assert_eq!(parse_plain(b""), vec![]);
    assert_eq!(parse_plain(PLAIN_LINE), vec![hello()]);
    let mut bytes = b"[I][2024-01-01 00:00:00.000][1, 2][T".to_vec();
    bytes.push(0xFF);
    bytes.extend_from_slice(b"][]caf\xC3\xA9 \xC3\n");
    assert_eq!(
        parse_plain(&bytes),
        vec![record(2, "T\u{fffd}", "caf\u{e9} \u{fffd}", 1, 2, 1704067200000)]
    );
}

#[test]
fn test_parse_punch_mmap3() {
    // A log as a device writes it: zstd frames of the newest format.
    let mut file = Vec::new();
    for n in 0..8 {
        let line = format!(
            "[I][2026-02-05 +8.0 19:06:0{}.656][12464, {}*][Punch][, , 0][ entry {}\n",
            n, n, n
        );
        file.extend(xlog_frame(0x0C, &zstd_packed(line.as_bytes())));
    }
    let entries = parse_xlog(&file, None);
    println!("Test: Found {} entries", entries.len());
    for (i, entry) in entries.iter().enumerate().take(5) {
        println!(
            "Entry {}: Level={}, Time={}, PID={}, TID={}, Tag={}, Msg={}",
            i, entry.level, entry.time_ms, entry.pid, entry.tid, entry.tag, entry.message
        );
    }
    assert!(!entries.is_empty());
    assert_eq!(entries.len(), 8);
    assert_eq!(entries[3], record(2, "Punch", "[ entry 3", 12464, 3, 1770318363656));
}
