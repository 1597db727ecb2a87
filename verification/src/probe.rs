//! The format probe: decides from a file's extension and its first bytes
//! whether it is shaped like an Xlog file.

use crate::frame::{get_log_start_pos, starts_log};
use crate::text::{chars_of, text_of};
use vstd::prelude::*;
use vstd::slice::slice_subrange;

verus! {

/// Number of leading bytes that the probe looks at.
pub const PROBE_WINDOW: usize = 1024;

/// Fewest bytes that the probe asks for.
pub const PROBE_MIN_LEN: usize = 10;

/// The lower-case form of an ASCII capital; any other character is itself.
pub open spec fn lower(c: char) -> char {
    if 'A' <= c <= 'Z' {
        ((c as u8) + 32) as char
    } else {
        c
    }
}

/// `text` is `name` up to the case of its letters; `name` is in lower case.
pub open spec fn spells(text: Seq<char>, name: Seq<char>) -> bool {
    &&& text.len() == name.len()
    &&& forall|i: int| 0 <= i < text.len() ==> lower(#[trigger] text[i]) == name[i]
}

/// The extension is one that Xlog files carry: `xlog`, `mmap`, `mmap2` or
/// `mmap3`, in any case.
pub open spec fn is_log_extension(ext: Seq<char>) -> bool {
    ||| spells(ext, seq!['x', 'l', 'o', 'g'])
    ||| spells(ext, seq!['m', 'm', 'a', 'p'])
    ||| spells(ext, seq!['m', 'm', 'a', 'p', '2'])
    ||| spells(ext, seq!['m', 'm', 'a', 'p', '3'])
}

/// The part of a file that the probe looks at.
pub open spec fn probe_window(head: Seq<u8>) -> Seq<u8> {
    if head.len() > PROBE_WINDOW {
        head.take(PROBE_WINDOW as int)
    } else {
        head
    }
}

/// The first bytes of a file look like the start of a log: there are enough
/// of them, and a single valid frame of a probed format starts somewhere
/// among them.
pub open spec fn looks_like_xlog(head: Seq<u8>) -> bool {
    &&& probe_window(head).len() >= PROBE_MIN_LEN
    &&& exists|pos: int| starts_log(probe_window(head), pos, 1)
}

/// A file with this extension and these first bytes is taken for an Xlog
/// file.
pub open spec fn xlog_shaped(extension: Option<Seq<char>>, head: Seq<u8>) -> bool {
    match extension {
        Some(ext) => is_log_extension(ext) && looks_like_xlog(head),
        None => false,
    }
}

/// Lower-cases an ASCII capital.
fn to_lower(c: char) -> (l: char)
    ensures
        l == lower(c),
{
    if 'A' <= c && c <= 'Z' {
        ((c as u8) + 32) as char
    } else {
        c
    }
}

/// Compares `text` with a lower-case `name`, ignoring the case of `text`.
fn spells_name(text: &[char], name: &[char]) -> (same: bool)
    ensures
        same == spells(text@, name@),
{
    if text.len() != name.len() {
        return false;
    }
    let mut i: usize = 0;
    while i < text.len()
        invariant
            text@.len() == name@.len(),
            i <= text@.len(),
            forall|j: int| 0 <= j < i ==> lower(#[trigger] text@[j]) == name@[j],
        decreases text@.len() - i,
    {
        if to_lower(text[i]) != name[i] {
            return false;
        }
        i = i + 1;
    }
    true
}

/// Tests a file extension, given without its dot.
pub fn has_log_extension(extension: &str) -> (ok: bool)
    ensures
        ok == is_log_extension(extension@),
{
    let chars = chars_of(extension);
    let xlog = ['x', 'l', 'o', 'g'];
    let mmap = ['m', 'm', 'a', 'p'];
    let mmap2 = ['m', 'm', 'a', 'p', '2'];
    let mmap3 = ['m', 'm', 'a', 'p', '3'];
    assert(xlog@ =~= seq!['x', 'l', 'o', 'g']);
    assert(mmap@ =~= seq!['m', 'm', 'a', 'p']);
    assert(mmap2@ =~= seq!['m', 'm', 'a', 'p', '2']);
    assert(mmap3@ =~= seq!['m', 'm', 'a', 'p', '3']);
    spells_name(chars.as_slice(), xlog.as_slice()) || spells_name(chars.as_slice(), mmap.as_slice())
        || spells_name(chars.as_slice(), mmap2.as_slice()) || spells_name(
        chars.as_slice(),
        mmap3.as_slice(),
    )
}

/// Probes the first bytes of a file. Bytes after the probe window are not
/// looked at.
pub fn probe(head: &[u8]) -> (ok: bool)
    ensures
        ok == looks_like_xlog(head@),
{
    let window = if head.len() > PROBE_WINDOW {
        slice_subrange(head, 0, PROBE_WINDOW)
    } else {
        head
    };
    if window.len() < PROBE_MIN_LEN {
        return false;
    }
    get_log_start_pos(window, 1).is_some()
}

/// Decides whether a file is an Xlog file from its extension, if it has one,
/// and its first bytes.
pub fn is_xlog_file(extension: Option<&str>, head: &[u8]) -> (ok: bool)
    ensures
        ok == xlog_shaped(text_of(extension), head@),
{
    match extension {
        Some(ext) => has_log_extension(ext) && probe(head),
        None => false,
    }
}

} // verus!
