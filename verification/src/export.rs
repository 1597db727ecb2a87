//! The text exporter: one line of text for each record, in a fixed form.

use crate::line::{LogEntry, Record};
use vstd::prelude::*;

verus! {

/// The character of a decimal digit.
pub open spec fn digit_char(d: int) -> char
    recommends
        0 <= d <= 9,
{
    if d == 0 {
        '0'
    } else if d == 1 {
        '1'
    } else if d == 2 {
        '2'
    } else if d == 3 {
        '3'
    } else if d == 4 {
        '4'
    } else if d == 5 {
        '5'
    } else if d == 6 {
        '6'
    } else if d == 7 {
        '7'
    } else if d == 8 {
        '8'
    } else {
        '9'
    }
}

/// The decimal digits of a natural number, without leading zeros.
pub open spec fn natural_digits(n: nat) -> Seq<char>
    decreases n,
{
    if n < 10 {
        seq![digit_char(n as int)]
    } else {
        natural_digits(n / 10).push(digit_char((n % 10) as int))
    }
}

/// The decimal form of an integer, with a minus sign where it is negative.
pub open spec fn decimal(n: int) -> Seq<char> {
    if n < 0 {
        seq!['-'] + natural_digits((-n) as nat)
    } else {
        natural_digits(n as nat)
    }
}

/// The exported line of a record:
/// `[<time_ms>] [<level>] [<pid>/<tid>] [<tag>] : <message>` and a newline.
/// Nothing is escaped.
pub open spec fn export_line(r: Record) -> Seq<char> {
    seq!['['] + decimal(r.time_ms) + seq![']', ' ', '['] + decimal(r.level) + seq![']', ' ', '[']
        + decimal(r.pid) + seq!['/'] + decimal(r.tid) + seq![']', ' ', '['] + r.tag + seq![
        ']',
        ' ',
        ':',
        ' ',
    ] + r.message + seq!['\n']
}

/// The character of a decimal digit.
fn digit_for(d: u64) -> (c: char)
    requires
        d <= 9,
    ensures
        c == digit_char(d as int),
{
    if d == 0 {
        '0'
    } else if d == 1 {
        '1'
    } else if d == 2 {
        '2'
    } else if d == 3 {
        '3'
    } else if d == 4 {
        '4'
    } else if d == 5 {
        '5'
    } else if d == 6 {
        '6'
    } else if d == 7 {
        '7'
    } else if d == 8 {
        '8'
    } else {
        '9'
    }
}

/// Appends the decimal form of `v` to `out`.
pub fn push_decimal(out: &mut String, v: i64)
    ensures
        final(out)@ == old(out)@ + decimal(v as int),
{
    let mut magnitude: u64 = if v < 0 {
        out.push('-');
        ((-(v + 1)) as u64) + 1
    } else {
        v as u64
    };
    let ghost whole = magnitude as nat;
    let ghost base = out@;
    assert(base == old(out)@ + decimal(v as int).take(decimal(v as int).len() - natural_digits(
        whole,
    ).len()));
    // Digits from the least significant up.
    let mut low: Vec<char> = Vec::new();
    while magnitude >= 10
        invariant
            natural_digits(whole) == natural_digits(magnitude as nat) + low@.reverse(),
        decreases magnitude,
    {
        let c = digit_for(magnitude % 10);
        proof {
            let m = magnitude as nat;
            assert(natural_digits(m) == natural_digits(m / 10).push(c));
            assert(low@.push(c).reverse() =~= seq![c] + low@.reverse());
            assert(natural_digits(m / 10).push(c) + low@.reverse() =~= natural_digits(m / 10) + (
            seq![c] + low@.reverse()));
        }
        low.push(c);
        magnitude = magnitude / 10;
    }
    out.push(digit_for(magnitude));
    let mut left: usize = low.len();
    while left > 0
        invariant
            left <= low@.len(),
            out@ == base + natural_digits(magnitude as nat) + low@.reverse().take(
                low@.len() - left,
            ),
        decreases left,
    {
        left = left - 1;
        out.push(low[left]);
        proof {
            let r = low@.reverse();
            let n = low@.len() - left;
            assert(r.take(n) =~= r.take(n - 1).push(r[n - 1]));
            assert(r[n - 1] == low@[left as int]);
        }
    }
    proof {
        let r = low@.reverse();
        assert(r.take(low@.len() as int) =~= r);
        assert(out@ =~= old(out)@ + decimal(v as int));
    }
}

/// Appends the characters of `s` to `out`.
fn push_text(out: &mut String, s: &String)
    ensures
        final(out)@ == old(out)@ + s@,
{
    vstd::string::StringExecFns::append(out, s.as_str());
}

/// The exported line of an entry.
pub fn format_entry(entry: &LogEntry) -> (line: String)
    ensures
        line@ == export_line(entry@),
{
    let mut line = String::new();
    line.push('[');
    push_decimal(&mut line, entry.time_ms);
    line.push(']');
    line.push(' ');
    line.push('[');
    push_decimal(&mut line, entry.level as i64);
    line.push(']');
    line.push(' ');
    line.push('[');
    push_decimal(&mut line, entry.pid);
    line.push('/');
    push_decimal(&mut line, entry.tid);
    line.push(']');
    line.push(' ');
    line.push('[');
    push_text(&mut line, &entry.tag);
    line.push(']');
    line.push(' ');
    line.push(':');
    line.push(' ');
    push_text(&mut line, &entry.message);
    line.push('\n');
    assert(line@ =~= export_line(entry@));
    line
}

/// The lines of an export, one for each entry and in their order; nothing
/// where there is no entry to export.
pub fn export_lines(entries: &[LogEntry]) -> (r: Option<Vec<String>>)
    ensures
        r is Some <==> entries@.len() > 0,
        r matches Some(lines) ==> lines@.len() == entries@.len() && forall|k: int|
            0 <= k < lines@.len() ==> (#[trigger] lines@[k])@ == export_line(entries@[k]@),
{
    if entries.len() == 0 {
        return None;
    }
    let mut lines: Vec<String> = Vec::new();
    let mut k: usize = 0;
    while k < entries.len()
        invariant
            k <= entries@.len(),
            lines@.len() == k,
            forall|n: int| 0 <= n < k ==> (#[trigger] lines@[n])@ == export_line(entries@[n]@),
        decreases entries@.len() - k,
    {
        lines.push(format_entry(&entries[k]));
        k = k + 1;
    }
    Some(lines)
}

} // verus!
