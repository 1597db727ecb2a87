use xlog_core::frame::{get_log_start_pos, is_good_log_buf, next_frame, Frame};

fn build_frame(magic: u8, payload: &[u8], sentinel: Option<u8>) -> Vec<u8> {
    let key_len = if magic <= 0x05 { 4 } else { 64 };
    let mut out = vec![magic, 0x07, 0x00, 0x01, 0x02];
    out.extend_from_slice(&(payload.len() as u32).to_le_bytes());
    out.extend(std::iter::repeat(0xAB).take(key_len));
    out.extend_from_slice(payload);
    if let Some(b) = sentinel {
        out.push(b);
    }
    out
}

#[test]
fn short_header_magics_have_thirteen_byte_headers() {
    for magic in 0x01u8..=0x05 {
        let buf = build_frame(magic, b"abc", Some(0));
        assert_eq!(
            next_frame(&buf, 0),
            Some(Frame { magic, header_len: 13, payload_len: 3 })
        );
    }
}

#[test]
fn long_header_magics_have_seventy_three_byte_headers() {
    for magic in 0x06u8..=0x0D {
        let buf = build_frame(magic, b"abcde", Some(0));
        assert_eq!(
            next_frame(&buf, 0),
            Some(Frame { magic, header_len: 73, payload_len: 5 })
        );
    }
}

#[test]
fn unknown_magic_is_rejected() {
    for magic in [0x00u8, 0x0E, 0x0F, 0x7F, 0xFF] {
        let buf = build_frame(magic, b"abc", Some(0));
        assert_eq!(next_frame(&buf, 0), None);
    }
}

#[test]
fn cursor_at_or_past_the_end_is_rejected() {
    let buf = build_frame(0x01, b"abc", Some(0));
    assert_eq!(next_frame(&buf, buf.len()), None);
    assert_eq!(next_frame(&buf, buf.len() + 10), None);
    assert_eq!(next_frame(&[], 0), None);
}

#[test]
fn payload_length_is_read_little_endian() {
    let payload = vec![0x55u8; 0x0102];
    let buf = build_frame(0x03, &payload, Some(0));
    assert_eq!(&buf[5..9], &[0x02, 0x01, 0x00, 0x00]);
    assert_eq!(
        next_frame(&buf, 0),
        Some(Frame { magic: 0x03, header_len: 13, payload_len: 0x0102 })
    );
}

#[test]
fn zero_length_payload_is_rejected() {
    let buf = build_frame(0x02, b"", Some(0));
    assert_eq!(next_frame(&buf, 0), None);
}

#[test]
fn truncated_header_is_rejected() {
    let buf = build_frame(0x06, b"abc", Some(0));
    assert_eq!(next_frame(&buf[..72], 0), None);
    let short = build_frame(0x01, b"abc", Some(0));
    assert_eq!(next_frame(&short[..12], 0), None);
}

#[test]
fn payload_past_the_end_is_rejected() {
    let buf = build_frame(0x01, b"abcdef", None);
    assert!(next_frame(&buf, 0).is_some());
    assert_eq!(next_frame(&buf[..buf.len() - 1], 0), None);
    let mut huge = build_frame(0x01, b"abcdef", Some(0));
    huge[5..9].copy_from_slice(&0xFFFF_FFFFu32.to_le_bytes());
    assert_eq!(next_frame(&huge, 0), None);
}

#[test]
fn sentinel_mismatch_is_tolerated() {
    let buf = build_frame(0x01, b"abc", Some(0x99));
    assert_eq!(
        next_frame(&buf, 0),
        Some(Frame { magic: 0x01, header_len: 13, payload_len: 3 })
    );
}

#[test]
fn missing_sentinel_at_end_of_input_is_tolerated() {
    let buf = build_frame(0x0A, b"abc", None);
    assert_eq!(
        next_frame(&buf, 0),
        Some(Frame { magic: 0x0A, header_len: 73, payload_len: 3 })
    );
}

#[test]
fn frame_is_found_at_an_inner_cursor() {
    let mut buf = vec![0xFFu8; 7];
    buf.extend(build_frame(0x04, b"xyz", Some(0)));
    assert_eq!(next_frame(&buf, 0), None);
    assert_eq!(
        next_frame(&buf, 7),
        Some(Frame { magic: 0x04, header_len: 13, payload_len: 3 })
    );
}

#[test]
fn good_log_buf_accepts_one_frame() {
    let buf = build_frame(0x03, b"abc", Some(0));
    assert!(is_good_log_buf(&buf, 0, 1));
    assert!(is_good_log_buf(&buf, 0, 0));
    assert!(is_good_log_buf(&buf, 0, -4));
}

#[test]
fn good_log_buf_rejects_a_bad_start() {
    let buf = build_frame(0x03, b"abc", Some(0));
    assert!(!is_good_log_buf(&buf, 1, 1));
    let empty_payload = build_frame(0x03, b"", Some(0));
    assert!(!is_good_log_buf(&empty_payload, 0, 1));
}

#[test]
fn good_log_buf_chains_frames() {
    let mut buf = build_frame(0x03, b"abc", Some(0));
    buf.extend(build_frame(0x09, b"defg", Some(0)));
    buf.extend(build_frame(0x01, b"h", Some(0)));
    assert!(is_good_log_buf(&buf, 0, 1));
    assert!(is_good_log_buf(&buf, 0, 2));
    assert!(is_good_log_buf(&buf, 0, 3));
    assert!(is_good_log_buf(&buf[..buf.len() - 1], 0, 3));
}

#[test]
fn good_log_buf_rejects_a_chain_that_ends_early() {
    let mut buf = build_frame(0x03, b"abc", Some(0));
    buf.extend(build_frame(0x09, b"defg", Some(0)));
    buf.extend(build_frame(0x01, b"h", Some(0)));
    // Three frames are there; a fourth is not.
    assert!(!is_good_log_buf(&buf, 0, 4));
    assert!(!is_good_log_buf(&buf, 0, 7));
    // One frame that ends the buffer, with and without its sentinel.
    let one = [0x03u8, 0, 0, 0, 0, 1, 0, 0, 0, 0, 0, 0, 0, 0x41, 0x00];
    assert!(is_good_log_buf(&one, 0, 1));
    assert!(!is_good_log_buf(&one, 0, 2));
    assert!(is_good_log_buf(&one[..14], 0, 1));
    assert!(!is_good_log_buf(&one[..14], 0, 2));
}

#[test]
fn good_log_buf_rejects_a_broken_chain() {
    let mut buf = build_frame(0x03, b"abc", Some(0));
    buf.extend_from_slice(&[0xFF, 0xFF, 0xFF]);
    assert!(is_good_log_buf(&buf, 0, 1));
    assert!(!is_good_log_buf(&buf, 0, 2));
}

#[test]
fn good_log_buf_rejects_a_cursor_at_or_past_the_end() {
    let buf = build_frame(0x03, b"abc", Some(0));
    assert!(!is_good_log_buf(&buf, buf.len(), 1));
    assert!(!is_good_log_buf(&buf, buf.len() + 5, 3));
    assert!(!is_good_log_buf(&[], 0, 1));
    assert!(!is_good_log_buf(&[], 0, 0));
}

#[test]
fn log_start_is_the_first_position_that_frames() {
    let mut buf = vec![0x00u8, 0x03, 0xFF, 0x0E];
    buf.extend(build_frame(0x07, b"abc", Some(0)));
    // Offset 1 holds a magic but its header declares a payload that does
    // not fit.
    assert_eq!(get_log_start_pos(&buf, 1), Some(4));
}

#[test]
fn log_start_skips_the_two_oldest_magics() {
    let buf = build_frame(0x01, b"abc", Some(0));
    assert_eq!(get_log_start_pos(&buf, 1), None);
    let buf = build_frame(0x02, b"abc", Some(0));
    assert_eq!(get_log_start_pos(&buf, 1), None);
    let buf = build_frame(0x03, b"abc", Some(0));
    assert_eq!(get_log_start_pos(&buf, 1), Some(0));
}

#[test]
fn log_start_of_empty_or_frameless_input_is_none() {
    assert_eq!(get_log_start_pos(&[], 1), None);
    assert_eq!(get_log_start_pos(&[0u8; 64], 1), None);
    assert_eq!(get_log_start_pos(&[0x03u8; 12], 1), None);
}
