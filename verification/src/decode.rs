//! The decoder as a whole: from the bytes of a file and an optional key to
//! the records it holds.

use crate::assemble::{assemble, assembled};
use crate::key::{key_bytes, parse_key};
use crate::line::{parse_lines, records_of, text_records, LogEntry, Record};
use crate::text::text_of;
use vstd::prelude::*;
use vstd::utf8::{decode_utf8, valid_utf8};

verus! {

/// The text that `String::from_utf8_lossy` makes of `bytes`.
pub uninterp spec fn utf8_lossy(bytes: Seq<u8>) -> Seq<char>;

/// Converts bytes to text with `String::from_utf8_lossy`, which keeps what is
/// valid UTF-8 and puts U+FFFD in place of each invalid sequence. The result
/// is a function of the bytes and is named; of valid UTF-8 it is the text
/// that the bytes encode.
#[verifier::external_body]
fn lossy_text(bytes: &[u8]) -> (text: String)
    ensures
        text@ == utf8_lossy(bytes@),
        valid_utf8(bytes@) ==> text@ == decode_utf8(bytes@),
{
    String::from_utf8_lossy(bytes).into_owned()
}

/// The text of a plaintext: the text that it encodes where it is valid
/// UTF-8, and else what the lossy conversion makes of it.
pub open spec fn plain_text(plain: Seq<u8>) -> Seq<char> {
    if valid_utf8(plain) {
        decode_utf8(plain)
    } else {
        utf8_lossy(plain)
    }
}

/// The records of an assembled plaintext: none of an empty one, and else
/// those of its text.
pub open spec fn plain_records(plain: Seq<u8>) -> Seq<Record> {
    if plain.len() == 0 {
        Seq::empty()
    } else {
        text_records(plain_text(plain))
    }
}

/// The records that the file `buf` holds under `key`.
pub open spec fn decoded(buf: Seq<u8>, key: Option<Seq<char>>) -> Seq<Record> {
    plain_records(assembled(buf, key_bytes(key)))
}

/// The key that a caller means by `key`: the empty string stands for no key.
pub open spec fn supplied_key(key: Seq<char>) -> Option<Seq<char>> {
    if key.len() == 0 {
        None
    } else {
        Some(key)
    }
}

/// Parses an assembled plaintext into records. A plaintext that is valid
/// UTF-8 is read as the text it encodes.
pub fn parse_plain(plain: &[u8]) -> (entries: Vec<LogEntry>)
    ensures
        records_of(entries@) == plain_records(plain@),
        plain@.len() > 0 && valid_utf8(plain@) ==> records_of(entries@) == text_records(
            decode_utf8(plain@),
        ),
        forall|k: int| 0 <= k < entries@.len() ==> (#[trigger] entries@[k])@.well_formed(),
{
    if plain.len() == 0 {
        let entries: Vec<LogEntry> = Vec::new();
        assert(records_of(entries@) =~= Seq::<Record>::empty());
        return entries;
    }
    let text = lossy_text(plain);
    parse_lines(text.as_str())
}

/// Decodes the contents of an Xlog file. `key` is the decryption key in
/// hexadecimal; without a usable key encrypted frames are passed on as they
/// are. Bytes that frame nothing are skipped, so every input decodes, to
/// no records at worst. An assembled plaintext that is valid UTF-8 is read
/// as the text it encodes.
pub fn parse_xlog(buf: &[u8], key: Option<&str>) -> (entries: Vec<LogEntry>)
    ensures
        records_of(entries@) == decoded(buf@, text_of(key)),
        ({
            let plain = assembled(buf@, key_bytes(text_of(key)));
            plain.len() > 0 && valid_utf8(plain) ==> records_of(entries@) == text_records(
                decode_utf8(plain),
            )
        }),
        forall|k: int| 0 <= k < entries@.len() ==> (#[trigger] entries@[k])@.well_formed(),
{
    let plain = match parse_key(key) {
        Some(bytes) => assemble(buf, Some(bytes.as_slice())),
        None => assemble(buf, None),
    };
    parse_plain(plain.as_slice())
}

/// Decodes the contents of an Xlog file; an empty `key` means that no key is
/// supplied. An assembled plaintext that is valid UTF-8 is read as the text
/// it encodes.
pub fn decode(buf: &[u8], key: &str) -> (entries: Vec<LogEntry>)
    ensures
        records_of(entries@) == decoded(buf@, supplied_key(key@)),
        ({
            let plain = assembled(buf@, key_bytes(supplied_key(key@)));
            plain.len() > 0 && valid_utf8(plain) ==> records_of(entries@) == text_records(
                decode_utf8(plain),
            )
        }),
        forall|k: int| 0 <= k < entries@.len() ==> (#[trigger] entries@[k])@.well_formed(),
{
    if key.is_empty() {
        parse_xlog(buf, None)
    } else {
        parse_xlog(buf, Some(key))
    }
}

} // verus!
