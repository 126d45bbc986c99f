//! The mathematical model of the byte-level scan.
//!
//! The parser works on a byte buffer in which fields are anchored at line
//! starts.  This module defines, as spec functions, exactly what each scanning
//! primitive does: finding the next line terminator, matching a tag literal at
//! a position, hunting line by line for a tag, and delimiting one record
//! between a start-tag match and an end-tag match.  The executable code in the
//! other modules is verified against these definitions.

use vstd::prelude::*;

verus! {

/// The line terminator byte (`\n`).
pub const NL: u8 = 10;

/// The three bytes of the UTF-8 byte-order mark.
pub open spec fn bom() -> Seq<u8> {
    seq![0xefu8, 0xbbu8, 0xbfu8]
}

/// The buffer with a leading UTF-8 byte-order mark removed, if one is present.
pub open spec fn strip_bom(text: Seq<u8>) -> Seq<u8> {
    if text.len() >= 3 && text[0] == 0xefu8 && text[1] == 0xbbu8 && text[2] == 0xbfu8 {
        text.subrange(3, text.len() as int)
    } else {
        text
    }
}

/// Index of the first line terminator at or after `from`, or `text.len()` if
/// there is none.
pub open spec fn find_nl(text: Seq<u8>, from: int) -> int
    decreases text.len() - from,
{
    if from >= text.len() {
        text.len() as int
    } else if text[from] == NL {
        from
    } else {
        find_nl(text, from + 1)
    }
}

pub proof fn lemma_find_nl(text: Seq<u8>, from: int)
    requires
        0 <= from <= text.len(),
    ensures
        from <= find_nl(text, from) <= text.len(),
        find_nl(text, from) < text.len() ==> text[find_nl(text, from)] == NL,
        forall|k: int| from <= k < find_nl(text, from) ==> text[k] != NL,
    decreases text.len() - from,
{
    if from < text.len() && text[from] != NL {
        lemma_find_nl(text, from + 1);
    }
}

/// The outcome of one attempt to match a tag literal at a fixed position.
///
/// The attempt walks the tag byte by byte.  It stops as soon as the buffer
/// runs out (`Eof`), a line terminator is met (`Newline`), or a byte differs
/// from the tag (`Absent`); otherwise the whole tag matched (`Present`).
/// `next` is the position just past the byte that stopped the walk.
pub enum TagScan {
    Present { at: int },
    Newline { next: int },
    Absent { next: int },
    Eof,
}

/// One tag-match attempt, already `j` bytes into the tag.
pub open spec fn scan_tag_from(text: Seq<u8>, start: int, j: int, tag: Seq<u8>) -> TagScan
    decreases tag.len() - j,
{
    if j >= tag.len() {
        TagScan::Present { at: start }
    } else if start + j >= text.len() {
        TagScan::Eof
    } else if text[start + j] == NL {
        TagScan::Newline { next: start + j + 1 }
    } else if text[start + j] != tag[j] {
        TagScan::Absent { next: start + j + 1 }
    } else {
        scan_tag_from(text, start, j + 1, tag)
    }
}

/// One attempt to match `tag` with its first byte at `start`.
pub open spec fn scan_tag(text: Seq<u8>, start: int, tag: Seq<u8>) -> TagScan {
    scan_tag_from(text, start, 0, tag)
}

pub proof fn lemma_scan_tag_from(text: Seq<u8>, start: int, j: int, tag: Seq<u8>)
    requires
        0 <= start,
        0 <= j <= tag.len(),
        start + j <= text.len(),
    ensures
        ({
            let r = scan_tag_from(text, start, j, tag);
            &&& (r matches TagScan::Present { at } ==> at == start && start + tag.len()
                <= text.len() && (forall|k: int|
                j <= k < tag.len() ==> text[start + k] == tag[k]))
            &&& (r matches TagScan::Newline { next } ==> start + j < next <= start + tag.len()
                && next <= text.len() && text[next - 1] == NL)
            &&& (r matches TagScan::Absent { next } ==> start + j < next <= start + tag.len()
                && next <= text.len())
            &&& (r is Eof ==> start + tag.len() > text.len())
        }),
    decreases tag.len() - j,
{
    if j < tag.len() && start + j < text.len() && text[start + j] != NL && text[start + j] == tag[j] {
        lemma_scan_tag_from(text, start, j + 1, tag);
    }
}

pub proof fn lemma_scan_tag(text: Seq<u8>, start: int, tag: Seq<u8>)
    requires
        0 <= start <= text.len(),
    ensures
        ({
            let r = scan_tag(text, start, tag);
            &&& (r matches TagScan::Present { at } ==> at == start && start + tag.len()
                <= text.len() && text.subrange(start, start + tag.len() as int) == tag)
            &&& (r matches TagScan::Newline { next } ==> start < next <= start + tag.len()
                && next <= text.len())
            &&& (r matches TagScan::Absent { next } ==> start < next <= start + tag.len()
                && next <= text.len())
            &&& (r is Eof ==> start + tag.len() > text.len())
        }),
{
    lemma_scan_tag_from(text, start, 0, tag);
    match scan_tag(text, start, tag) {
        TagScan::Present { at } => {
            assert(text.subrange(start, start + tag.len() as int) =~= tag);
        },
        _ => {},
    }
}

/// Whether repeated line-skipping attempts find the tag anywhere at or after
/// `from`, and if so where.
pub enum Seek {
    Found { at: int },
    NotFound,
}

/// The hunt for a tag: try to match at `from`; on a failed attempt skip to
/// just past the next line terminator and retry; stop at the end of the
/// buffer.
pub open spec fn seek_tag(text: Seq<u8>, from: int, tag: Seq<u8>) -> Seek
    decreases text.len() - from,
{
    match scan_tag(text, from, tag) {
        TagScan::Present { at } => Seek::Found { at },
        TagScan::Eof => Seek::NotFound,
        TagScan::Newline { next } => {
            if from < next <= text.len() {
                seek_tag(text, next, tag)
            } else {
                Seek::NotFound
            }
        },
        TagScan::Absent { next } => {
            let nl = find_nl(text, next);
            if nl < text.len() && from < nl + 1 {
                seek_tag(text, nl + 1, tag)
            } else {
                Seek::NotFound
            }
        },
    }
}

pub proof fn lemma_seek_tag(text: Seq<u8>, from: int, tag: Seq<u8>)
    requires
        0 <= from <= text.len(),
    ensures
        seek_tag(text, from, tag) matches Seek::Found { at } ==> from <= at && at + tag.len()
            <= text.len() && text.subrange(at, at + tag.len() as int) == tag,
    decreases text.len() - from,
{
    lemma_scan_tag(text, from, tag);
    match scan_tag(text, from, tag) {
        TagScan::Newline { next } => {
            if from < next <= text.len() {
                lemma_seek_tag(text, next, tag);
            }
        },
        TagScan::Absent { next } => {
            lemma_find_nl(text, next);
            let nl = find_nl(text, next);
            if nl < text.len() && from < nl + 1 {
                lemma_seek_tag(text, nl + 1, tag);
            }
        },
        _ => {},
    }
}

/// One step of record delimitation, beginning at `from`:
///
/// - `Rec { lo, hi, next }`: a record was found.  It spans `text[lo..hi]`,
///   beginning at a start-tag match and running through the end of the line
///   holding the end-tag match (`hi` excludes the line terminator itself, or
///   is the end of the buffer).  `next` is where the hunt for the following
///   record begins.
/// - `Fail`: a start tag was found but no end tag follows it before the end
///   of the buffer — an unterminated record.
/// - `Done`: no start tag occurs at or after `from`; there are no more
///   records.
pub enum SplitStep {
    Rec { lo: int, hi: int, next: int },
    Fail,
    Done,
}

pub open spec fn split_step(text: Seq<u8>, from: int, start_tag: Seq<u8>, end_tag: Seq<u8>) -> SplitStep {
    match seek_tag(text, from, start_tag) {
        Seek::NotFound => SplitStep::Done,
        Seek::Found { at: lo } => {
            match seek_tag(text, lo + start_tag.len() as int, end_tag) {
                Seek::NotFound => SplitStep::Fail,
                Seek::Found { at: e } => {
                    let nl = find_nl(text, e + end_tag.len() as int);
                    if nl < text.len() {
                        SplitStep::Rec { lo, hi: nl, next: nl + 1 }
                    } else {
                        SplitStep::Rec { lo, hi: text.len() as int, next: text.len() as int }
                    }
                },
            }
        },
    }
}

pub proof fn lemma_split_step(text: Seq<u8>, from: int, start_tag: Seq<u8>, end_tag: Seq<u8>)
    requires
        0 <= from <= text.len(),
        start_tag.len() >= 1,
    ensures
        split_step(text, from, start_tag, end_tag) matches SplitStep::Rec { lo, hi, next } ==> {
            &&& from <= lo < hi <= text.len()
            &&& from < next <= text.len()
            &&& hi < next ==> next == hi + 1
        },
{
    lemma_seek_tag(text, from, start_tag);
    match seek_tag(text, from, start_tag) {
        Seek::Found { at: lo } => {
            lemma_seek_tag(text, lo + start_tag.len() as int, end_tag);
            match seek_tag(text, lo + start_tag.len() as int, end_tag) {
                Seek::Found { at: e } => {
                    lemma_find_nl(text, e + end_tag.len() as int);
                },
                Seek::NotFound => {},
            }
        },
        Seek::NotFound => {},
    }
}

/// All the records delimited at or after `from`, in source order, each as its
/// own byte sequence; or an error if the hunt ends inside an unterminated
/// record.
pub open spec fn split_all(text: Seq<u8>, from: int, start_tag: Seq<u8>, end_tag: Seq<u8>) -> Result<
    Seq<Seq<u8>>,
    (),
>
    decreases text.len() - from + 1,
{
    match split_step(text, from, start_tag, end_tag) {
        SplitStep::Done => Ok(Seq::empty()),
        SplitStep::Fail => Err(()),
        SplitStep::Rec { lo, hi, next } => {
            if from < next <= text.len() && 0 <= lo <= hi <= text.len() {
                match split_all(text, next, start_tag, end_tag) {
                    Ok(rest) => Ok(seq![text.subrange(lo, hi)].add(rest)),
                    Err(e) => Err(e),
                }
            } else {
                Ok(Seq::empty())
            }
        },
    }
}

} // verus!
