use xlog_core::export::{export_lines, format_entry, push_decimal};
use xlog_core::line::{parse_log_line, LogEntry};

fn item(level: i32, tag: &str, message: &str, pid: i64, tid: i64, time_ms: i64) -> LogEntry {
    LogEntry { level, tag: tag.to_string(), message: message.to_string(), pid, tid, time_ms }
}

#[test]
fn entry_is_exported_in_the_fixed_form() {
    assert_eq!(
        format_entry(&item(2, "Tag", "hello", 10, 20, 1704067200000)),
        "[1704067200000] [2] [10/20] [Tag] : hello\n"
    );
}

#[test]
fn nothing_is_escaped_on_export() {
    assert_eq!(
        format_entry(&item(5, "a]b", "x [y] : z\tw", 0, 0, 0)),
        "[0] [5] [0/0] [a]b] : x [y] : z\tw\n"
    );
    assert_eq!(format_entry(&item(0, "", "", 1, 2, 3)), "[3] [0] [1/2] [] : \n");
    assert_eq!(
        format_entry(&item(3, "\u{65e5}\u{5fd7}", "caf\u{e9}", 1, 2, 3)),
        "[3] [3] [1/2] [\u{65e5}\u{5fd7}] : caf\u{e9}\n"
    );
}

#[test]
fn negative_and_extreme_numbers_are_written_in_full() {
    assert_eq!(
        format_entry(&item(-1, "t", "m", i64::MIN, i64::MAX, -1)),
        "[-1] [-1] [-9223372036854775808/9223372036854775807] [t] : m\n"
    );
    assert_eq!(
        format_entry(&item(i32::MAX, "t", "m", -10, 100, i64::MIN)),
        "[-9223372036854775808] [2147483647] [-10/100] [t] : m\n"
    );
}

#[test]
fn decimal_form_matches_the_usual_one() {
    let values = [
        0i64, 1, 9, 10, 11, 99, 100, 101, 1000, 12345, -1, -9, -10, -99, -100, 1704067200000,
        i64::MAX, i64::MIN, i64::MAX - 1, i64::MIN + 1,
    ];
    for v in values {
        let mut out = String::from("n=");
        push_decimal(&mut out, v);
        assert_eq!(out, format!("n={}", v));
    }
}

#[test]
fn export_has_one_line_for_each_entry_in_order() {
    let entries = vec![
        item(2, "A", "first", 1, 2, 3),
        item(4, "B", "second", 4, 5, 6),
        item(0, "C", "third", 7, 8, 9),
    ];
    assert_eq!(
        export_lines(&entries),
        Some(vec![
            "[3] [2] [1/2] [A] : first\n".to_string(),
            "[6] [4] [4/5] [B] : second\n".to_string(),
            "[9] [0] [7/8] [C] : third\n".to_string(),
        ])
    );
}

#[test]
fn export_of_no_entries_is_nothing() {
    assert_eq!(export_lines(&[]), None);
}

#[test]
fn exported_line_is_no_log_line() {
    let exported = format_entry(&item(2, "Tag", "hello", 10, 20, 1704067200000));
    assert_eq!(parse_log_line(exported.trim_end()), None);
}
