//! The line parser: splits a log line into its five bracketed header fields
//! and the message, and turns them into a record.

use crate::text::{
    chars_of,
    joined,
    parse_i64,
    parsed_i64,
    spans_cover,
    split,
    split_spans,
    string_of,
    strip_trailing,
    trim,
    trimmed,
    without_trailing,
    word_spans,
    words,
    Span,
};
use vstd::prelude::*;
use vstd::slice::slice_subrange;

verus! {

/// Number of bracketed fields in the header of a line.
pub const FIELD_COUNT: usize = 5;

/// Level given to a line whose level field is not recognised.
pub const DEFAULT_LEVEL: i32 = 2;

/// One decoded log record.
#[derive(Clone, Debug, PartialEq, Eq)]
pub struct LogEntry {
    /// Ordinal of the severity, from 0 (verbose) to 5 (fatal).
    pub level: i32,
    pub tag: String,
    pub message: String,
    pub pid: i64,
    pub tid: i64,
    /// Milliseconds since the Unix epoch, or 0 where the time did not parse.
    pub time_ms: i64,
}

/// The mathematical content of a record.
pub struct Record {
    pub level: int,
    pub tag: Seq<char>,
    pub message: Seq<char>,
    pub pid: int,
    pub tid: int,
    pub time_ms: int,
}

impl Record {
    /// The level is one of the six levels, and neither id is negative.
    pub open spec fn well_formed(self) -> bool {
        &&& 0 <= self.level <= 5
        &&& 0 <= self.pid
        &&& 0 <= self.tid
    }
}

impl View for LogEntry {
    type V = Record;

    open spec fn view(&self) -> Record {
        Record {
            level: self.level as int,
            tag: self.tag@,
            message: self.message@,
            pid: self.pid as int,
            tid: self.tid as int,
            time_ms: self.time_ms as int,
        }
    }
}

/// The records that a vector of entries stands for.
pub open spec fn records_of(entries: Seq<LogEntry>) -> Seq<Record> {
    entries.map_values(|e: LogEntry| e@)
}

/// Position of the bracket that opened the field which is open after the
/// first `n` characters of `line`, if one is open there. A field opens at an
/// opening bracket, starts again at another opening bracket, and is closed by
/// the next closing bracket.
pub open spec fn open_field(line: Seq<char>, n: int) -> Option<int>
    decreases n,
{
    if n <= 0 {
        None
    } else if line[n - 1] == '[' {
        Some(n - 1)
    } else if line[n - 1] == ']' {
        None
    } else {
        open_field(line, n - 1)
    }
}

/// Positions before `n` of the brackets that close a field, in increasing
/// order. A closing bracket outside a field closes nothing.
pub open spec fn closes_before(line: Seq<char>, n: int) -> Seq<int>
    decreases n,
{
    if n <= 0 {
        Seq::empty()
    } else if line[n - 1] == ']' && open_field(line, n - 1) is Some {
        closes_before(line, n - 1).push(n - 1)
    } else {
        closes_before(line, n - 1)
    }
}

/// Positions of the brackets that close the fields of `line`.
pub open spec fn closes(line: Seq<char>) -> Seq<int> {
    closes_before(line, line.len() as int)
}

/// The field that the bracket at `close` closes: the characters after the
/// bracket that opened it.
pub open spec fn field_closed_at(line: Seq<char>, close: int) -> Seq<char>
    recommends
        open_field(line, close) is Some,
{
    line.subrange(open_field(line, close)->0 + 1, close)
}

/// The `k`-th field of `line`.
pub open spec fn header_field(line: Seq<char>, k: int) -> Seq<char>
    recommends
        0 <= k < closes(line).len(),
{
    field_closed_at(line, closes(line)[k])
}

/// `line` opens with a bracket and closes at least five fields.
pub open spec fn has_header(line: Seq<char>) -> bool {
    &&& line.len() > 0
    &&& line[0] == '['
    &&& closes(line).len() >= FIELD_COUNT
}

/// Position of the bracket that closes the fifth field.
pub open spec fn header_end(line: Seq<char>) -> int
    recommends
        closes(line).len() >= FIELD_COUNT,
{
    closes(line)[FIELD_COUNT - 1]
}

/// The message of `line`: what follows the header, trimmed.
pub open spec fn message_of(line: Seq<char>) -> Seq<char>
    recommends
        closes(line).len() >= FIELD_COUNT,
{
    trimmed(line.skip(header_end(line) + 1))
}

/// The level that a level field stands for: the letters V, D, I, W, E, F in
/// either case count from 0 to 5, and anything else is taken as info.
pub open spec fn level_of(field: Seq<char>) -> int {
    if field.len() != 1 {
        DEFAULT_LEVEL as int
    } else if field[0] == 'V' || field[0] == 'v' {
        0
    } else if field[0] == 'D' || field[0] == 'd' {
        1
    } else if field[0] == 'W' || field[0] == 'w' {
        3
    } else if field[0] == 'E' || field[0] == 'e' {
        4
    } else if field[0] == 'F' || field[0] == 'f' {
        5
    } else {
        DEFAULT_LEVEL as int
    }
}

/// A word of a time field that marks a time-zone offset: it begins with a
/// plus sign.
pub open spec fn is_offset(piece: Seq<char>) -> bool {
    piece.len() > 0 && piece[0] == '+'
}

/// The words that are no offset markers, in order.
pub open spec fn without_offsets(pieces: Seq<Seq<char>>) -> Seq<Seq<char>>
    decreases pieces.len(),
{
    if pieces.len() == 0 {
        Seq::empty()
    } else if is_offset(pieces.last()) {
        without_offsets(pieces.drop_last())
    } else {
        without_offsets(pieces.drop_last()).push(pieces.last())
    }
}

/// The text of a time field that is handed to the date parser: its words,
/// without the offset markers, joined by single spaces.
pub open spec fn time_text(field: Seq<char>) -> Seq<char> {
    joined(without_offsets(words(field)), ' ')
}

/// The format in which the date parser reads the time text: date, time of
/// day and milliseconds.
pub const TIME_FORMAT: &'static str = "%Y-%m-%d %H:%M:%S%.3f";

/// What the date parser makes of `text` under `format`: the milliseconds
/// since the Unix epoch of the date and time it reads, taken as UTC, or
/// nothing where it reports an error.
pub uninterp spec fn timestamp_millis(text: Seq<char>, format: Seq<char>) -> Option<i64>;

/// The id that `text` spells: the number it reads as, where it reads as one
/// that is not negative, and 0 otherwise.
pub open spec fn id_of(text: Seq<char>) -> int {
    match parsed_i64(text) {
        Some(v) if v >= 0 => v,
        _ => 0,
    }
}

/// The process id in an id field: the id that the piece before the first
/// comma spells once it is trimmed.
pub open spec fn pid_of(field: Seq<char>) -> int {
    id_of(trimmed(split(field, ',')[0]))
}

/// The thread id in an id field: the id that the piece after the first comma
/// spells once it is trimmed and freed of trailing asterisks, or 0 where
/// there is no such piece.
pub open spec fn tid_of(field: Seq<char>) -> int {
    let pieces = split(field, ',');
    if pieces.len() > 1 {
        id_of(without_trailing(trimmed(pieces[1]), '*'))
    } else {
        0
    }
}

/// The record made of the fields of a line and of what the date parser made
/// of its time field.
pub open spec fn record_of(
    level: Seq<char>,
    time: Option<i64>,
    ids: Seq<char>,
    tag: Seq<char>,
    message: Seq<char>,
) -> Record {
    Record {
        level: level_of(level),
        tag,
        message,
        pid: pid_of(ids),
        tid: tid_of(ids),
        time_ms: match time {
            Some(ms) => ms as int,
            None => 0,
        },
    }
}

/// The record that `line` holds, if it has a header. The fifth field is not
/// kept.
pub open spec fn line_record(line: Seq<char>) -> Option<Record> {
    if has_header(line) {
        Some(
            record_of(
                header_field(line, 0),
                timestamp_millis(time_text(header_field(line, 1)), TIME_FORMAT@),
                header_field(line, 2),
                header_field(line, 3),
                message_of(line),
            ),
        )
    } else {
        None
    }
}

/// The records of some lines, in order; lines without a record are dropped.
pub open spec fn lines_records(lines: Seq<Seq<char>>) -> Seq<Record>
    decreases lines.len(),
{
    if lines.len() == 0 {
        Seq::empty()
    } else {
        match line_record(lines.last()) {
            Some(record) => lines_records(lines.drop_last()).push(record),
            None => lines_records(lines.drop_last()),
        }
    }
}

/// The records of a text: those of its lines, split at each newline.
pub open spec fn text_records(text: Seq<char>) -> Seq<Record> {
    lines_records(split(text, '\n'))
}

/// While a field is open it holds no bracket: the bracket that opened it is
/// the last bracket of either kind.
pub proof fn lemma_open_field(line: Seq<char>, n: int)
    requires
        0 <= n <= line.len(),
    ensures
        open_field(line, n) matches Some(open) ==> {
            &&& 0 <= open < n
            &&& line[open] == '['
            &&& forall|j: int| open < j < n ==> line[j] != '[' && line[j] != ']'
        },
    decreases n,
{
    if n > 0 && line[n - 1] != '[' && line[n - 1] != ']' {
        lemma_open_field(line, n - 1);
    }
}

/// Every field of a line stands between an opening and a closing bracket
/// and holds no bracket itself, and the fields follow one another.
pub proof fn lemma_fields_are_bracketed(line: Seq<char>, n: int)
    requires
        0 <= n <= line.len(),
    ensures
        forall|k: int|
            0 <= k < closes_before(line, n).len() ==> {
                let close = #[trigger] closes_before(line, n)[k];
                &&& 0 <= close < n
                &&& line[close] == ']'
                &&& open_field(line, close) matches Some(open)
                &&& 0 <= open < close
                &&& line[open] == '['
                &&& forall|j: int| open < j < close ==> line[j] != '[' && line[j] != ']'
            },
        forall|k: int, m: int|
            0 <= k < m < closes_before(line, n).len() ==> closes_before(line, n)[k]
                < closes_before(line, n)[m],
    decreases n,
{
    if n > 0 {
        lemma_fields_are_bracketed(line, n - 1);
        lemma_open_field(line, n - 1);
    }
}

/// The closing brackets before a position are the first of those before a
/// later position.
pub proof fn lemma_closes_prefix(line: Seq<char>, n: int, m: int)
    requires
        0 <= n <= m,
    ensures
        closes_before(line, n).len() <= closes_before(line, m).len(),
        forall|k: int|
            0 <= k < closes_before(line, n).len() ==> closes_before(line, m)[k] == closes_before(
                line,
                n,
            )[k],
    decreases m - n,
{
    if n < m {
        lemma_closes_prefix(line, n, m - 1);
    }
}

/// Reads a level field.
pub fn level_for(field: &[char]) -> (level: i32)
    ensures
        level == level_of(field@),
        0 <= level <= 5,
{
    if field.len() != 1 {
        return DEFAULT_LEVEL;
    }
    let c = field[0];
    if c == 'V' || c == 'v' {
        0
    } else if c == 'D' || c == 'd' {
        1
    } else if c == 'W' || c == 'w' {
        3
    } else if c == 'E' || c == 'e' {
        4
    } else if c == 'F' || c == 'f' {
        5
    } else {
        DEFAULT_LEVEL
    }
}

/// The characters of a slice that a span covers.
fn cut<'a>(s: &'a [char], span: &Span) -> (piece: &'a [char])
    requires
        span.within(s@.len()),
    ensures
        piece@ == span.of(s@),
{
    slice_subrange(s, span.start, span.end)
}

/// Reads an id: a number that is not negative, or 0 for anything else.
pub fn id_for(text: &[char]) -> (id: i64)
    ensures
        id == id_of(text@),
        0 <= id,
{
    match parse_i64(text) {
        Some(v) => if v >= 0 {
            v
        } else {
            0
        },
        None => 0,
    }
}

/// Reads the process id and the thread id of an id field.
pub fn ids_for(field: &[char]) -> (ids: (i64, i64))
    ensures
        ids.0 == pid_of(field@),
        ids.1 == tid_of(field@),
        0 <= ids.0,
        0 <= ids.1,
{
    let spans = split_spans(field, ',');
    let pid = id_for(trim(cut(field, &spans[0])));
    let tid = if spans.len() > 1 {
        id_for(strip_trailing(trim(cut(field, &spans[1])), '*'))
    } else {
        0
    };
    (pid, tid)
}

/// Prepares a time field for the date parser.
pub fn time_text_for(field: &[char]) -> (text: String)
    ensures
        text@ == time_text(field@),
{
    let spans = word_spans(field);
    let ghost pieces = words(field@);
    let mut text = String::new();
    let mut any = false;
    let mut k: usize = 0;
    while k < spans.len()
        invariant
            k <= spans@.len(),
            spans_cover(spans@, field@, pieces),
            text@ == joined(without_offsets(pieces.take(k as int)), ' '),
            any == (without_offsets(pieces.take(k as int)).len() > 0),
        decreases spans@.len() - k,
    {
        let piece = cut(field, &spans[k]);
        proof {
            assert(pieces.take(k + 1).drop_last() =~= pieces.take(k as int));
            assert(pieces.take(k + 1).last() == piece@);
        }
        if !(piece.len() > 0 && piece[0] == '+') {
            let ghost kept = without_offsets(pieces.take(k as int));
            assert(kept.push(piece@).drop_last() =~= kept);
            if any {
                text.push(' ');
            }
            let ghost base = text@;
            let mut j: usize = 0;
            while j < piece.len()
                invariant
                    j <= piece@.len(),
                    text@ == base + piece@.take(j as int),
                decreases piece@.len() - j,
            {
                text.push(piece[j]);
                assert(piece@.take(j + 1) =~= piece@.take(j as int).push(piece@[j as int]));
                j = j + 1;
            }
            assert(piece@.take(j as int) =~= piece@);
            assert(Seq::<char>::empty() + piece@ =~= piece@);
            any = true;
        }
        k = k + 1;
    }
    assert(pieces.take(k as int) =~= pieces);
    text
}

/// Reads a date and time with chrono's `NaiveDateTime::parse_from_str` and
/// converts it with `and_utc().timestamp_millis()`. The parser either reads
/// a date and time out of the text or reports an error; the conversion
/// counts the milliseconds from the Unix epoch, taking the time as UTC. The
/// result is a function of the text and the format; it is named, not
/// described.
#[verifier::external_body]
fn parse_timestamp(text: &str, format: &str) -> (r: Option<i64>)
    ensures
        r == timestamp_millis(text@, format@),
{
    match chrono::NaiveDateTime::parse_from_str(text, format) {
        Ok(time) => Some(time.and_utc().timestamp_millis()),
        Err(_) => None,
    }
}

/// Builds the record of a line from its fields and from what the date parser
/// made of its time field.
pub fn build_entry(
    level: &[char],
    time: Option<i64>,
    ids: &[char],
    tag: &[char],
    message: &[char],
) -> (entry: LogEntry)
    ensures
        entry@ == record_of(level@, time, ids@, tag@, message@),
        entry@.well_formed(),
{
    let (pid, tid) = ids_for(ids);
    LogEntry {
        level: level_for(level),
        tag: string_of(tag),
        message: string_of(message),
        pid,
        tid,
        time_ms: match time {
            Some(ms) => ms,
            None => 0,
        },
    }
}

/// The five header fields of a line and the position of the bracket that
/// closes the last of them.
pub struct Header {
    pub fields: Vec<Span>,
    pub end: usize,
}

impl Header {
    /// The header is that of `line`.
    pub open spec fn describes(self, line: Seq<char>) -> bool {
        &&& closes(line).len() >= FIELD_COUNT
        &&& self.end == header_end(line)
        &&& self.end < line.len()
        &&& self.fields@.len() == FIELD_COUNT
        &&& forall|k: int|
            0 <= k < FIELD_COUNT ==> (#[trigger] self.fields@[k]).within(line.len())
                && self.fields@[k].of(line) == header_field(line, k)
    }
}

/// Walks a line and collects its first five bracketed fields.
pub fn scan_header(line: &[char]) -> (r: Option<Header>)
    ensures
        match r {
            Some(header) => header.describes(line@),
            None => closes(line@).len() < FIELD_COUNT,
        },
{
    let len = line.len();
    let mut fields: Vec<Span> = Vec::new();
    // Where the open field starts, if one is open.
    let mut open: Option<usize> = None;
    let mut i: usize = 0;
    while i < len
        invariant
            len == line@.len(),
            i <= len,
            fields@.len() == closes_before(line@, i as int).len(),
            fields@.len() < FIELD_COUNT,
            forall|k: int|
                0 <= k < fields@.len() ==> (#[trigger] fields@[k]).within(line@.len())
                    && fields@[k].of(line@) == field_closed_at(
                    line@,
                    closes_before(line@, i as int)[k],
                ),
            match open {
                Some(start) => open_field(line@, i as int) == Some(start - 1) && 1 <= start <= i,
                None => open_field(line@, i as int) is None,
            },
        decreases len - i,
    {
        let c = line[i];
        if c == '[' {
            open = Some(i + 1);
        } else if c == ']' {
            match open {
                Some(start) => {
                    fields.push(Span { start, end: i });
                    proof {
                        let before = closes_before(line@, i as int);
                        let now = closes_before(line@, i + 1);
                        assert(now == before.push(i as int));
                        assert(Span { start, end: i }.of(line@) == field_closed_at(
                            line@,
                            i as int,
                        ));
                        assert forall|k: int| 0 <= k < fields@.len() implies (
                        #[trigger] fields@[k]).within(line@.len()) && fields@[k].of(line@)
                            == field_closed_at(line@, now[k]) by {
                            if k < before.len() {
                                assert(now[k] == before[k]);
                            }
                        }
                    }
                    if fields.len() == FIELD_COUNT {
                        proof {
                            lemma_closes_prefix(line@, i + 1, len as int);
                        }
                        return Some(Header { fields, end: i });
                    }
                    open = None;
                },
                None => {},
            }
        }
        i = i + 1;
    }
    None
}

/// Parses the characters of one line.
pub fn parse_chars(line: &[char]) -> (r: Option<LogEntry>)
    ensures
        match r {
            Some(entry) => line_record(line@) == Some(entry@) && entry@.well_formed(),
            None => line_record(line@) is None,
        },
{
    if line.len() == 0 || line[0] != '[' {
        return None;
    }
    match scan_header(line) {
        None => None,
        Some(header) => {
            let level = cut(line, &header.fields[0]);
            let time = cut(line, &header.fields[1]);
            let ids = cut(line, &header.fields[2]);
            let tag = cut(line, &header.fields[3]);
            let message = trim(slice_subrange(line, header.end + 1, line.len()));
            let text = time_text_for(time);
            let stamp = parse_timestamp(text.as_str(), TIME_FORMAT);
            Some(build_entry(level, stamp, ids, tag, message))
        },
    }
}

/// Parses one line of log text.
pub fn parse_log_line(line: &str) -> (r: Option<LogEntry>)
    ensures
        match r {
            Some(entry) => line_record(line@) == Some(entry@) && entry@.well_formed(),
            None => line_record(line@) is None,
        },
{
    let chars = chars_of(line);
    parse_chars(chars.as_slice())
}

/// Parses a text line by line and returns the records in the order of their
/// lines.
pub fn parse_lines(text: &str) -> (entries: Vec<LogEntry>)
    ensures
        records_of(entries@) == text_records(text@),
        forall|k: int| 0 <= k < entries@.len() ==> (#[trigger] entries@[k])@.well_formed(),
{
    let chars = chars_of(text);
    let spans = split_spans(chars.as_slice(), '\n');
    let ghost lines = split(text@, '\n');
    let mut entries: Vec<LogEntry> = Vec::new();
    let mut k: usize = 0;
    while k < spans.len()
        invariant
            k <= spans@.len(),
            chars@ == text@,
            spans_cover(spans@, chars@, lines),
            records_of(entries@) == lines_records(lines.take(k as int)),
            forall|n: int| 0 <= n < entries@.len() ==> (#[trigger] entries@[n])@.well_formed(),
        decreases spans@.len() - k,
    {
        let line = cut(chars.as_slice(), &spans[k]);
        proof {
            assert(lines.take(k + 1).drop_last() =~= lines.take(k as int));
            assert(lines.take(k + 1).last() == line@);
        }
        match parse_chars(line) {
            Some(entry) => {
                assert(records_of(entries@.push(entry)) =~= records_of(entries@).push(entry@));
                entries.push(entry);
            },
            None => {},
        }
        k = k + 1;
    }
    assert(lines.take(k as int) =~= lines);
    entries
}

} // verus!
