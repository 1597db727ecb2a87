//! Laws of the decoder, proved over the functions that define its results:
//! what an unusable key does, how the cursor moves, what garbage and
//! well-formed frames contribute, and what holds of every record.

use crate::assemble::{
    accepted,
    assembled,
    assembled_from,
    block_text,
    looks_like_log,
    step_target,
    CLOSE_BRACKET,
    OPEN_BRACKET,
};
use crate::codec::{codec_of, decompressed, deflate_decoded, is_encrypted, zstd_decoded};
use crate::decode::{decoded, plain_records, plain_text, supplied_key};
use crate::frame::{
    declared_len,
    header_len,
    is_magic,
    next_cursor,
    payload_of,
    valid_frame,
};
use crate::key::{is_hex, key_bytes};
use crate::line::{
    closes,
    closes_before,
    has_header,
    header_end,
    header_field,
    lemma_fields_are_bracketed,
    line_record,
    lines_records,
    open_field,
    text_records,
    FIELD_COUNT,
};
use crate::text::{is_whitespace, lemma_first_index, split, trimmed, trimmed_start};
use crate::tea::{lemma_decrypt_undoes_encrypt, tea_encrypted, TEA_KEY_LEN};
use vstd::prelude::*;
use vstd::utf8::{decode_utf8, encode_utf8, encode_utf8_decode_utf8, encode_utf8_valid_utf8};

verus! {

/// A key that is not hexadecimal text, or that does not spell exactly
/// sixteen bytes, decodes every file as no key does; and so does the empty
/// key.
pub proof fn lemma_unusable_key_is_no_key(buf: Seq<u8>, key: Seq<char>)
    requires
        !is_hex(key) || key.len() != 2 * TEA_KEY_LEN,
    ensures
        decoded(buf, Some(key)) == decoded(buf, None),
        decoded(buf, supplied_key(key)) == decoded(buf, None),
{
    assert(key_bytes(Some(key)) is None);
}

/// At every position inside the input the assembler's next cursor lies
/// strictly ahead, and at most one past the end of the input.
pub proof fn lemma_step_advances(buf: Seq<u8>, key: Option<Seq<u8>>, cursor: int)
    requires
        0 <= cursor < buf.len(),
    ensures
        cursor < step_target(buf, key, cursor) <= buf.len() + 1,
{
}

/// Number of iterations that the assembler makes from `cursor` to the end of
/// the input.
pub open spec fn steps_from(buf: Seq<u8>, key: Option<Seq<u8>>, cursor: int) -> nat
    decreases buf.len() + 1 - cursor,
{
    if 0 <= cursor < buf.len() {
        1 + steps_from(buf, key, step_target(buf, key, cursor))
    } else {
        0
    }
}

/// The assembler makes no more iterations than bytes are left; over a whole
/// input, no more than it has bytes.
pub proof fn lemma_steps_bounded(buf: Seq<u8>, key: Option<Seq<u8>>, cursor: int)
    requires
        0 <= cursor,
    ensures
        cursor <= buf.len() ==> steps_from(buf, key, cursor) <= buf.len() - cursor,
        cursor > buf.len() ==> steps_from(buf, key, cursor) == 0,
    decreases buf.len() + 1 - cursor,
{
    if cursor < buf.len() {
        lemma_step_advances(buf, key, cursor);
        lemma_steps_bounded(buf, key, step_target(buf, key, cursor));
    }
}

/// A frame is judged by the bytes from its start on: bytes put before the
/// input move it and change nothing else.
pub proof fn lemma_frame_shift(before: Seq<u8>, buf: Seq<u8>, key: Option<Seq<u8>>, cursor: int)
    requires
        0 <= cursor,
    ensures
        valid_frame(before + buf, before.len() + cursor) == valid_frame(buf, cursor),
        block_text(before + buf, key, before.len() + cursor) == block_text(buf, key, cursor),
        valid_frame(buf, cursor) ==> next_cursor(before + buf, before.len() + cursor)
            == before.len() + next_cursor(buf, cursor),
{
    let whole = before + buf;
    let moved = before.len() + cursor;
    if cursor < buf.len() {
        assert(whole[moved] == buf[cursor]);
        if cursor + header_len(buf[cursor]) <= buf.len() {
            assert(whole.subrange(moved + 5, moved + 9) =~= buf.subrange(cursor + 5, cursor + 9));
            assert(declared_len(whole, moved) == declared_len(buf, cursor));
            if valid_frame(buf, cursor) {
                assert(payload_of(whole, moved) =~= payload_of(buf, cursor));
            }
        }
    }
}

/// What is assembled from a position on does not depend on the bytes before
/// it.
pub proof fn lemma_assembled_shift(
    before: Seq<u8>,
    buf: Seq<u8>,
    key: Option<Seq<u8>>,
    cursor: int,
)
    requires
        0 <= cursor,
    ensures
        assembled_from(before + buf, key, before.len() + cursor) == assembled_from(
            buf,
            key,
            cursor,
        ),
    decreases buf.len() + 1 - cursor,
{
    if cursor < buf.len() {
        lemma_frame_shift(before, buf, key, cursor);
        if block_text(buf, key, cursor) is Some {
            lemma_assembled_shift(before, buf, key, next_cursor(buf, cursor));
        } else {
            lemma_assembled_shift(before, buf, key, cursor + 1);
        }
    }
}

/// A valid frame stays the same frame when bytes are put after the input.
pub proof fn lemma_frame_extend(buf: Seq<u8>, after: Seq<u8>, key: Option<Seq<u8>>, cursor: int)
    requires
        valid_frame(buf, cursor),
    ensures
        valid_frame(buf + after, cursor),
        block_text(buf + after, key, cursor) == block_text(buf, key, cursor),
        next_cursor(buf + after, cursor) == next_cursor(buf, cursor),
{
    let whole = buf + after;
    assert(whole[cursor] == buf[cursor]);
    assert(whole.subrange(cursor + 5, cursor + 9) =~= buf.subrange(cursor + 5, cursor + 9));
    assert(payload_of(whole, cursor) =~= payload_of(buf, cursor));
}

/// Garbage before a file is skipped: where no position in `garbage` starts a
/// block that the decoder accepts, the file decodes as it does alone.
pub proof fn lemma_garbage_prefix(garbage: Seq<u8>, file: Seq<u8>, key: Option<Seq<u8>>)
    requires
        forall|c: int| 0 <= c < garbage.len() ==> block_text(garbage + file, key, c) is None,
    ensures
        assembled(garbage + file, key) == assembled(file, key),
{
    lemma_skip_rejected(garbage + file, key, 0, garbage.len() as int);
    lemma_assembled_shift(garbage, file, key, 0);
}

/// Garbage before a file leaves its records as they are, under the same
/// condition.
pub proof fn lemma_garbage_prefix_records(
    garbage: Seq<u8>,
    file: Seq<u8>,
    key: Option<Seq<char>>,
)
    requires
        forall|c: int|
            0 <= c < garbage.len() ==> block_text(garbage + file, key_bytes(key), c) is None,
    ensures
        decoded(garbage + file, key) == decoded(file, key),
{
    lemma_garbage_prefix(garbage, file, key_bytes(key));
}

/// Positions that start no accepted block contribute nothing.
proof fn lemma_skip_rejected(buf: Seq<u8>, key: Option<Seq<u8>>, from: int, to: int)
    requires
        0 <= from <= to <= buf.len(),
        forall|c: int| from <= c < to ==> block_text(buf, key, c) is None,
    ensures
        assembled_from(buf, key, from) == assembled_from(buf, key, to),
    decreases to - from,
{
    if from < to {
        lemma_skip_rejected(buf, key, from + 1, to);
    }
}

/// Garbage that holds no magic byte is skipped, whatever follows it.
pub proof fn lemma_magic_free_prefix(garbage: Seq<u8>, file: Seq<u8>, key: Option<Seq<u8>>)
    requires
        forall|i: int| 0 <= i < garbage.len() ==> !is_magic(#[trigger] garbage[i]),
    ensures
        assembled(garbage + file, key) == assembled(file, key),
{
    assert forall|c: int| 0 <= c < garbage.len() implies block_text(garbage + file, key, c)
        is None by {
        assert((garbage + file)[c] == garbage[c]);
    }
    lemma_garbage_prefix(garbage, file, key);
}

/// A frame that fills its buffer: header, payload and one sentinel byte.
pub open spec fn is_whole_frame(frame: Seq<u8>) -> bool {
    valid_frame(frame, 0) && next_cursor(frame, 0) == frame.len()
}

/// The sequences of `parts` one after another.
pub open spec fn concat(parts: Seq<Seq<u8>>) -> Seq<u8>
    decreases parts.len(),
{
    if parts.len() == 0 {
        Seq::empty()
    } else {
        parts.first() + concat(parts.drop_first())
    }
}

/// An accepted frame at the head of a file contributes its plaintext, and
/// the rest of the file decodes as it does alone.
pub proof fn lemma_leading_frame(
    frame: Seq<u8>,
    rest: Seq<u8>,
    key: Option<Seq<u8>>,
    text: Seq<u8>,
)
    requires
        is_whole_frame(frame),
        block_text(frame, key, 0) == Some(text),
    ensures
        assembled(frame + rest, key) == text + assembled(rest, key),
{
    lemma_frame_extend(frame, rest, key, 0);
    lemma_assembled_shift(frame, rest, key, 0);
}

/// A file made of whole frames, each of which the decoder accepts, decodes
/// to their plaintexts one after another.
pub proof fn lemma_frames_roundtrip(
    frames: Seq<Seq<u8>>,
    texts: Seq<Seq<u8>>,
    key: Option<Seq<u8>>,
)
    requires
        frames.len() == texts.len(),
        forall|i: int|
            0 <= i < frames.len() ==> is_whole_frame(#[trigger] frames[i]) && block_text(
                frames[i],
                key,
                0,
            ) == Some(texts[i]),
    ensures
        assembled(concat(frames), key) == concat(texts),
    decreases frames.len(),
{
    if frames.len() > 0 {
        let rest = frames.drop_first();
        let rest_texts = texts.drop_first();
        assert forall|i: int| 0 <= i < rest.len() implies is_whole_frame(#[trigger] rest[i])
            && block_text(rest[i], key, 0) == Some(rest_texts[i]) by {
            assert(rest[i] == frames[i + 1]);
            assert(rest_texts[i] == texts[i + 1]);
        }
        lemma_frames_roundtrip(rest, rest_texts, key);
        lemma_leading_frame(frames.first(), concat(rest), key, texts.first());
    }
}

/// A whole frame with the first deflate magic, whose payload inflates to text
/// that the sniffer accepts, contributes that text under any key.
pub proof fn lemma_deflate_frame(frame: Seq<u8>, key: Option<Seq<u8>>, text: Seq<u8>)
    requires
        is_whole_frame(frame),
        frame[0] == 0x04,
        deflate_decoded(payload_of(frame, 0)) == Some(text),
        looks_like_log(text),
    ensures
        block_text(frame, key, 0) == Some(text),
{
}

/// A file made of deflate frames around log text decodes to the records of
/// the texts put together, with or without a key.
pub proof fn lemma_deflate_frames_roundtrip(
    frames: Seq<Seq<u8>>,
    texts: Seq<Seq<u8>>,
    key: Option<Seq<char>>,
)
    requires
        frames.len() == texts.len(),
        forall|i: int|
            0 <= i < frames.len() ==> {
                &&& is_whole_frame(#[trigger] frames[i])
                &&& frames[i][0] == 0x04
                &&& deflate_decoded(payload_of(frames[i], 0)) == Some(texts[i])
                &&& looks_like_log(texts[i])
            },
    ensures
        assembled(concat(frames), key_bytes(key)) == concat(texts),
        decoded(concat(frames), key) == plain_records(concat(texts)),
{
    assert forall|i: int| 0 <= i < frames.len() implies is_whole_frame(#[trigger] frames[i])
        && block_text(frames[i], key_bytes(key), 0) == Some(texts[i]) by {
        lemma_deflate_frame(frames[i], key_bytes(key), texts[i]);
    }
    lemma_frames_roundtrip(frames, texts, key_bytes(key));
}

/// An encrypted frame whose payload is the encryption of `clear` under the
/// key contributes what `clear` decompresses to, if the sniffer accepts it.
pub proof fn lemma_encrypted_frame(frame: Seq<u8>, key: Seq<u8>, clear: Seq<u8>)
    requires
        is_whole_frame(frame),
        is_encrypted(frame[0]),
        key.len() >= TEA_KEY_LEN,
        payload_of(frame, 0) == tea_encrypted(clear, key),
    ensures
        block_text(frame, Some(key), 0) == accepted(decompressed(codec_of(frame[0]), clear)),
{
    lemma_decrypt_undoes_encrypt(clear, key);
}

/// A file of one encrypted zstd frame decodes, under the key it was
/// encrypted with, to the records of the text that was compressed.
pub proof fn lemma_encrypted_zstd_frame(
    frame: Seq<u8>,
    key: Seq<char>,
    clear: Seq<u8>,
    text: Seq<u8>,
)
    requires
        is_whole_frame(frame),
        frame[0] == 0x0B || frame[0] == 0x0D,
        key_bytes(Some(key)) is Some,
        payload_of(frame, 0) == tea_encrypted(clear, key_bytes(Some(key))->0),
        zstd_decoded(clear) == Some(text),
        looks_like_log(text),
    ensures
        assembled(frame, key_bytes(Some(key))) == text,
        decoded(frame, Some(key)) == plain_records(text),
{
    let bytes = key_bytes(Some(key))->0;
    lemma_encrypted_frame(frame, bytes, clear);
    lemma_leading_frame(frame, Seq::empty(), Some(bytes), text);
    assert(frame + Seq::<u8>::empty() =~= frame);
    assert(text + Seq::<u8>::empty() =~= text);
}

/// Some lines put one after another, each ended by a newline.
pub open spec fn lines_text(lines: Seq<Seq<char>>) -> Seq<char>
    decreases lines.len(),
{
    if lines.len() == 0 {
        Seq::empty()
    } else {
        lines.first() + seq!['\n'] + lines_text(lines.drop_first())
    }
}

/// A text that opens with a line and a newline splits into that line and the
/// pieces of the rest.
pub proof fn lemma_split_first_line(line: Seq<char>, rest: Seq<char>)
    requires
        !line.contains('\n'),
    ensures
        split(line + seq!['\n'] + rest, '\n') == seq![line] + split(rest, '\n'),
{
    let whole = line + seq!['\n'] + rest;
    let n = line.len() as int;
    assert forall|j: int| 0 <= j < n implies whole[j] != '\n' by {
        assert(whole[j] == line[j]);
    }
    assert(whole[n] == '\n');
    lemma_first_index(whole, '\n', n);
    assert(whole.take(n) =~= line);
    assert(whole.skip(n + 1) =~= rest);
}

/// The records of a line and more lines are the record of the line, if it
/// has one, and then those of the others.
pub proof fn lemma_lines_records_prepend(line: Seq<char>, rest: Seq<Seq<char>>)
    ensures
        lines_records(seq![line] + rest) == lines_records(seq![line]) + lines_records(rest),
    decreases rest.len(),
{
    let all = seq![line] + rest;
    if rest.len() == 0 {
        assert(all =~= seq![line]);
        assert(lines_records(seq![line]) + lines_records(rest) =~= lines_records(seq![line]));
    } else {
        assert(all.last() == rest.last());
        assert(all.drop_last() =~= seq![line] + rest.drop_last());
        lemma_lines_records_prepend(line, rest.drop_last());
        let head = lines_records(seq![line]);
        let inner = lines_records(rest.drop_last());
        match line_record(rest.last()) {
            Some(record) => {
                assert((head + inner).push(record) =~= head + inner.push(record));
            },
            None => {},
        }
    }
}

/// The records of the text of some lines are the records of the lines,
/// where no line holds a newline.
pub proof fn lemma_text_of_lines(lines: Seq<Seq<char>>)
    requires
        forall|i: int| 0 <= i < lines.len() ==> !(#[trigger] lines[i]).contains('\n'),
    ensures
        text_records(lines_text(lines)) == lines_records(lines),
    decreases lines.len(),
{
    if lines.len() == 0 {
        let empty = Seq::<char>::empty();
        assert(split(empty, '\n') =~= seq![empty]);
        assert(seq![empty].drop_last() =~= Seq::<Seq<char>>::empty());
        assert(seq![empty].last() == empty);
        assert(line_record(empty) is None);
        assert(lines_records(Seq::<Seq<char>>::empty()) =~= Seq::empty());
        assert(lines_records(seq![empty]) == lines_records(seq![empty].drop_last()));
    } else {
        let line = lines.first();
        let rest = lines.drop_first();
        assert forall|i: int| 0 <= i < rest.len() implies !(#[trigger] rest[i]).contains(
            '\n',
        ) by {
            assert(rest[i] == lines[i + 1]);
        }
        lemma_text_of_lines(rest);
        lemma_split_first_line(line, lines_text(rest));
        lemma_lines_records_prepend(line, split(lines_text(rest), '\n'));
        lemma_lines_records_prepend(line, rest);
        assert(lines =~= seq![line] + rest);
    }
}

/// Where every line has a record, the records are those of the lines, one
/// for each and in their order.
pub proof fn lemma_all_lines_recorded(lines: Seq<Seq<char>>)
    requires
        forall|i: int| 0 <= i < lines.len() ==> line_record(#[trigger] lines[i]) is Some,
    ensures
        lines_records(lines).len() == lines.len(),
        forall|i: int|
            0 <= i < lines.len() ==> lines_records(lines)[i] == line_record(
                #[trigger] lines[i],
            )->0,
    decreases lines.len(),
{
    if lines.len() > 0 {
        let before = lines.drop_last();
        assert forall|i: int| 0 <= i < before.len() implies line_record(
            #[trigger] before[i],
        ) is Some by {
            assert(before[i] == lines[i]);
        }
        lemma_all_lines_recorded(before);
        assert forall|i: int| 0 <= i < lines.len() implies lines_records(lines)[i]
            == line_record(#[trigger] lines[i])->0 by {
            if i < before.len() {
                assert(before[i] == lines[i]);
                assert(lines_records(lines)[i] == lines_records(before)[i]);
            }
        }
    }
}

/// A text of lines, cut into chunks that are compressed into deflate frames
/// one after another, decodes to the records of its lines: none is lost or
/// doubled where a chunk ends. The chunks are given by their bytes, which
/// together are the UTF-8 encoding of the text, and each holds both kinds of
/// bracket.
pub proof fn lemma_chunked_lines_roundtrip(
    lines: Seq<Seq<char>>,
    frames: Seq<Seq<u8>>,
    chunks: Seq<Seq<u8>>,
    key: Option<Seq<char>>,
)
    requires
        forall|i: int| 0 <= i < lines.len() ==> !(#[trigger] lines[i]).contains('\n'),
        frames.len() == chunks.len(),
        forall|i: int|
            0 <= i < frames.len() ==> {
                &&& is_whole_frame(#[trigger] frames[i])
                &&& frames[i][0] == 0x04
                &&& deflate_decoded(payload_of(frames[i], 0)) == Some(chunks[i])
                &&& looks_like_log(chunks[i])
            },
        concat(chunks) == encode_utf8(lines_text(lines)),
    ensures
        decoded(concat(frames), key) == lines_records(lines),
        (forall|i: int| 0 <= i < lines.len() ==> line_record(#[trigger] lines[i]) is Some) ==> {
            &&& decoded(concat(frames), key).len() == lines.len()
            &&& forall|i: int|
                0 <= i < lines.len() ==> decoded(concat(frames), key)[i] == line_record(
                    #[trigger] lines[i],
                )->0
        },
{
    let text = lines_text(lines);
    let plain = concat(chunks);
    lemma_deflate_frames_roundtrip(frames, chunks, key);
    lemma_text_of_lines(lines);
    encode_utf8_valid_utf8(text);
    encode_utf8_decode_utf8(text);
    if plain.len() == 0 {
        assert(decode_utf8(plain) =~= Seq::<char>::empty());
        if lines.len() > 0 {
            assert(text[lines.first().len() as int] == '\n');
        }
        assert(lines_records(lines) =~= Seq::empty());
    }
    if forall|i: int| 0 <= i < lines.len() ==> line_record(#[trigger] lines[i]) is Some {
        lemma_all_lines_recorded(lines);
    }
}

/// Whatever the assembler hands on holds both kinds of bracket, unless it is
/// empty.
pub proof fn lemma_assembled_has_brackets(buf: Seq<u8>, key: Option<Seq<u8>>, cursor: int)
    ensures
        assembled_from(buf, key, cursor).len() > 0 ==> looks_like_log(
            assembled_from(buf, key, cursor),
        ),
    decreases buf.len() + 1 - cursor,
{
    if 0 <= cursor < buf.len() {
        match block_text(buf, key, cursor) {
            Some(text) => {
                let rest = assembled_from(buf, key, next_cursor(buf, cursor));
                let i = choose|i: int| 0 <= i < text.len() && text[i] == OPEN_BRACKET;
                let j = choose|j: int| 0 <= j < text.len() && text[j] == CLOSE_BRACKET;
                assert((text + rest)[i] == OPEN_BRACKET);
                assert((text + rest)[j] == CLOSE_BRACKET);
            },
            None => {
                lemma_assembled_has_brackets(buf, key, cursor + 1);
            },
        }
    }
}

/// Where a file decodes to any record, its assembled plaintext holds an
/// opening and a closing bracket.
pub proof fn lemma_records_need_brackets(buf: Seq<u8>, key: Option<Seq<char>>)
    requires
        decoded(buf, key).len() > 0,
    ensures
        assembled(buf, key_bytes(key)).contains(OPEN_BRACKET),
        assembled(buf, key_bytes(key)).contains(CLOSE_BRACKET),
{
    lemma_assembled_has_brackets(buf, key_bytes(key), 0);
}

/// Whitespace put after a text is trimmed away with the rest.
pub proof fn lemma_trimmed_push(s: Seq<char>, c: char)
    requires
        is_whitespace(c),
    ensures
        trimmed(s.push(c)) == trimmed(s),
{
    lemma_trimmed_start_push(s, c);
    let head = trimmed_start(s);
    if head.len() > 0 {
        assert(head.push(c).drop_last() =~= head);
    }
}

/// Leading whitespace is trimmed alike with and without a character put
/// after the text.
proof fn lemma_trimmed_start_push(s: Seq<char>, c: char)
    requires
        is_whitespace(c),
    ensures
        trimmed_start(s.push(c)) == if trimmed_start(s).len() == 0 {
            Seq::<char>::empty()
        } else {
            trimmed_start(s).push(c)
        },
    decreases s.len(),
{
    let longer = s.push(c);
    if s.len() == 0 {
        assert(longer.first() == c);
        assert(longer.drop_first() =~= s);
        assert(trimmed_start(longer) == trimmed_start(s));
    } else {
        assert(longer.first() == s.first());
        if is_whitespace(s.first()) {
            assert(longer.drop_first() =~= s.drop_first().push(c));
            lemma_trimmed_start_push(s.drop_first(), c);
        }
    }
}

/// What is open and what is closed before a position depends on the
/// characters before it alone.
proof fn lemma_fields_of_prefix(a: Seq<char>, b: Seq<char>, n: int)
    requires
        0 <= n <= a.len(),
        n <= b.len(),
        forall|j: int| 0 <= j < n ==> a[j] == b[j],
    ensures
        open_field(a, n) == open_field(b, n),
        closes_before(a, n) == closes_before(b, n),
    decreases n,
{
    if n > 0 {
        lemma_fields_of_prefix(a, b, n - 1);
    }
}

/// A carriage return at the end of a line changes nothing: a text with
/// line ends of two characters holds the same records.
pub proof fn lemma_carriage_return(line: Seq<char>)
    ensures
        line_record(line.push('\r')) == line_record(line),
{
    let longer = line.push('\r');
    let len = line.len() as int;
    lemma_fields_of_prefix(longer, line, len);
    assert(closes(longer) == closes(line));
    if has_header(line) {
        lemma_fields_are_bracketed(line, len);
        assert forall|k: int| 0 <= k < FIELD_COUNT implies header_field(longer, k)
            == header_field(line, k) by {
            let close = closes_before(line, len)[k];
            assert(close == closes(line)[k]);
            lemma_fields_of_prefix(longer, line, close);
            assert(longer.subrange(open_field(line, close)->0 + 1, close) =~= line.subrange(
                open_field(line, close)->0 + 1,
                close,
            ));
        }
        let end = header_end(line);
        assert(longer.skip(end + 1) =~= line.skip(end + 1).push('\r'));
        lemma_trimmed_push(line.skip(end + 1), '\r');
    }
}

/// A line that holds a record holds an opening and a closing bracket.
pub proof fn lemma_record_line_has_brackets(line: Seq<char>)
    requires
        line_record(line) is Some,
    ensures
        line.contains('['),
        line.contains(']'),
{
    lemma_fields_are_bracketed(line, line.len() as int);
    let close = closes(line)[0];
    assert(line[0] == '[');
    assert(line[close] == ']');
}

/// The record of a line has one of the six levels and ids that are not
/// negative.
pub proof fn lemma_line_record_well_formed(line: Seq<char>)
    ensures
        line_record(line) matches Some(record) ==> record.well_formed(),
{
}

/// Every record of some lines has one of the six levels and ids that are not
/// negative.
pub proof fn lemma_lines_records_well_formed(lines: Seq<Seq<char>>)
    ensures
        forall|k: int|
            0 <= k < lines_records(lines).len() ==> (#[trigger] lines_records(
                lines,
            )[k]).well_formed(),
    decreases lines.len(),
{
    if lines.len() > 0 {
        let before = lines_records(lines.drop_last());
        lemma_lines_records_well_formed(lines.drop_last());
        lemma_line_record_well_formed(lines.last());
        assert forall|k: int| 0 <= k < lines_records(lines).len() implies (
        #[trigger] lines_records(lines)[k]).well_formed() by {
            if k < before.len() {
                assert(lines_records(lines)[k] == before[k]);
            }
        }
    }
}

/// Every record that a file decodes to has one of the six levels and ids
/// that are not negative.
pub proof fn lemma_decoded_well_formed(buf: Seq<u8>, key: Option<Seq<char>>)
    ensures
        forall|k: int|
            0 <= k < decoded(buf, key).len() ==> (#[trigger] decoded(buf, key)[k]).well_formed(),
{
    let plain = assembled(buf, key_bytes(key));
    if plain.len() > 0 {
        lemma_lines_records_well_formed(split(plain_text(plain), '\n'));
    }
}

} // verus!
