//! The record splitter: a stateful scan over the whole input buffer that
//! yields successive owned copies of the byte span of each complete record
//! (start-tag line through end-tag line, inclusive).

use vstd::prelude::*;

use crate::error::Error;
use crate::error::PResult;
use crate::scan::NL;
use crate::scan::Seek;
use crate::scan::SplitStep;
use crate::scan::TagScan;
use crate::scan::find_nl;
use crate::scan::lemma_find_nl;
use crate::scan::lemma_scan_tag;
use crate::scan::lemma_seek_tag;
use crate::scan::scan_tag;
use crate::scan::scan_tag_from;
use crate::scan::seek_tag;
use crate::scan::split_step;
use crate::scan::strip_bom;
use crate::utils::clone_bytes;
use crate::utils::copy_range;
use crate::utils::tag_bytes;
use crate::utils::tag_vec;

verus! {

/// The outcome of one attempt to match a tag at the splitter's cursor.  The
/// cursor consumes exactly the bytes the attempt examined (see
/// [`crate::scan::scan_tag`]).
#[derive(Debug, Clone, Copy, PartialEq, Eq, Structural)]
pub enum TakeTagResult {
    /// The whole tag matched; the payload is the offset of its first byte.
    Present(usize),
    /// A byte differed from the tag before any line terminator was met.
    NotPresent,
    /// A line terminator was met before the tag could fully match.
    NewLine,
    /// The buffer ran out before the tag could fully match.
    EOF,
}

/// A forward-only scan that delimits records inside a shared byte buffer.
///
/// `new` strips a leading UTF-8 byte-order mark; `next` then yields one
/// record span per call, as [`crate::scan::split_step`] describes.
#[derive(Debug, Clone)]
pub struct ReferenceIterator {
    pub start_tag: Vec<u8>,
    pub end_tag: Vec<u8>,
    pub text: Vec<u8>,
    pub cursor: usize,
}

impl ReferenceIterator {
    /// The splitter's well-formedness: non-empty tag literals and a cursor
    /// inside the buffer.
    pub open spec fn wf(&self) -> bool {
        &&& self.start_tag@.len() >= 1
        &&& self.end_tag@.len() >= 1
        &&& self.cursor <= self.text@.len()
    }

    /// The fields that `next` never changes.
    pub open spec fn same_buffer(&self, other: &Self) -> bool {
        &&& self.start_tag@ == other.start_tag@
        &&& self.end_tag@ == other.end_tag@
        &&& self.text@ == other.text@
    }

    pub fn new(start_tag: &[u8], end_tag: &[u8], text: &[u8]) -> (r: Self)
        requires
            start_tag@.len() >= 1,
            end_tag@.len() >= 1,
        ensures
            r.wf(),
            r.start_tag@ == start_tag@,
            r.end_tag@ == end_tag@,
            r.text@ == strip_bom(text@),
            r.cursor == 0,
    {
        let has_bom = text.len() >= 3 && text[0] == 0xef && text[1] == 0xbb && text[2] == 0xbf;
        let body: Vec<u8> = if has_bom {
            copy_range(text, 3, text.len())
        } else {
            copy_range(text, 0, text.len())
        };
        proof {
            assert(strip_bom(text@) == if has_bom {
                text@.subrange(3, text@.len() as int)
            } else {
                text@
            });
            if !has_bom {
                assert(text@.subrange(0, text@.len() as int) =~= text@);
            }
        }
        ReferenceIterator {
            start_tag: copy_range(start_tag, 0, start_tag.len()),
            end_tag: copy_range(end_tag, 0, end_tag.len()),
            text: body,
            cursor: 0,
        }
    }

    /// The splitter for the standard configuration: start tag `"TY  - "` and
    /// end tag `"ER  - "`.
    pub fn default(text: &[u8]) -> (r: Self)
        ensures
            r.wf(),
            r.start_tag@ == tag_bytes(84, 89),
            r.end_tag@ == tag_bytes(69, 82),
            r.text@ == strip_bom(text@),
            r.cursor == 0,
    {
        let ty = tag_vec(84, 89);
        let er = tag_vec(69, 82);
        ReferenceIterator::new(ty.as_slice(), er.as_slice(), text)
    }

    /// Moves the cursor to just past the next line terminator and returns the
    /// terminator's index, or consumes the rest of the buffer and returns
    /// `None` if no terminator remains.
    #[verifier::loop_isolation(false)]
    pub fn take_line(&mut self) -> (r: Option<usize>)
        requires
            old(self).wf(),
        ensures
            final(self).wf(),
            final(self).same_buffer(old(self)),
            ({
                let nl = find_nl(old(self).text@, old(self).cursor as int);
                if nl < old(self).text@.len() {
                    r == Some(nl as usize) && final(self).cursor == nl + 1
                } else {
                    r is None && final(self).cursor == old(self).text@.len()
                }
            }),
    {
        while self.cursor < self.text.len()
            invariant
                self.wf(),
                self.same_buffer(old(self)),
                old(self).cursor <= self.cursor,
                find_nl(self.text@, self.cursor as int) == find_nl(
                    old(self).text@,
                    old(self).cursor as int,
                ),
            decreases self.text@.len() - self.cursor,
        {
            if self.text[self.cursor] == NL {
                let idx = self.cursor;
                self.cursor = self.cursor + 1;
                return Some(idx);
            }
            self.cursor = self.cursor + 1;
        }
        None
    }

    /// One attempt to match `tag` with its first byte at the cursor.  The
    /// cursor consumes exactly the bytes examined: the whole tag on a match,
    /// or everything up to and including the byte that stopped the attempt.
    #[verifier::loop_isolation(false)]
    pub fn take_tag(&mut self, tag: &[u8]) -> (r: TakeTagResult)
        requires
            old(self).wf(),
        ensures
            final(self).wf(),
            final(self).same_buffer(old(self)),
            ({
                let s = scan_tag(old(self).text@, old(self).cursor as int, tag@);
                match s {
                    TagScan::Present { at } => r == TakeTagResult::Present(at as usize)
                        && final(self).cursor == at + tag@.len(),
                    TagScan::Newline { next } => r == TakeTagResult::NewLine && final(self).cursor
                        == next,
                    TagScan::Absent { next } => r == TakeTagResult::NotPresent && final(self).cursor
                        == next,
                    TagScan::Eof => r == TakeTagResult::EOF && final(self).cursor
                        == old(self).text@.len(),
                }
            }),
    {
        let start = self.cursor;
        let mut j: usize = 0;
        while j < tag.len()
            invariant
                self.wf(),
                self.same_buffer(old(self)),
                start == old(self).cursor,
                j <= tag@.len(),
                self.cursor == start + j,
                scan_tag(self.text@, start as int, tag@) == scan_tag_from(
                    self.text@,
                    start as int,
                    j as int,
                    tag@,
                ),
            decreases tag@.len() - j,
        {
            if self.cursor >= self.text.len() {
                self.cursor = self.text.len();
                return TakeTagResult::EOF;
            }
            let c = self.text[self.cursor];
            self.cursor = self.cursor + 1;
            if c == NL {
                return TakeTagResult::NewLine;
            }
            if c != tag[j] {
                return TakeTagResult::NotPresent;
            }
            j = j + 1;
        }
        TakeTagResult::Present(start)
    }

    /// Hunts for `tag` line by line from the cursor.  On success the cursor
    /// ends just past the match; on failure the buffer is consumed.
    #[verifier::loop_isolation(false)]
    fn seek(&mut self, tag: &Vec<u8>) -> (r: Option<usize>)
        requires
            old(self).wf(),
        ensures
            final(self).wf(),
            final(self).same_buffer(old(self)),
            ({
                let s = seek_tag(old(self).text@, old(self).cursor as int, tag@);
                match s {
                    Seek::Found { at } => r == Some(at as usize) && final(self).cursor == at
                        + tag@.len() && old(self).cursor <= at,
                    Seek::NotFound => r is None && final(self).cursor == old(self).text@.len(),
                }
            }),
    {
        loop
            invariant
                self.wf(),
                self.same_buffer(old(self)),
                old(self).cursor <= self.cursor,
                seek_tag(self.text@, self.cursor as int, tag@) == seek_tag(
                    old(self).text@,
                    old(self).cursor as int,
                    tag@,
                ),
            decreases self.text@.len() - self.cursor,
        {
            let ghost c = self.cursor as int;
            proof {
                lemma_scan_tag(self.text@, c, tag@);
            }
            match self.take_tag(tag.as_slice()) {
                TakeTagResult::EOF => {
                    return None;
                },
                TakeTagResult::Present(idx) => {
                    return Some(idx);
                },
                TakeTagResult::NewLine => {},
                TakeTagResult::NotPresent => {
                    proof {
                        lemma_find_nl(self.text@, self.cursor as int);
                    }
                    let _ = self.take_line();
                },
            }
        }
    }

    /// Delimits the next record, as [`crate::scan::split_step`] describes:
    ///
    /// - `None`: no start tag occurs at or after the cursor.
    /// - `Some(Err(Error::EOF))`: a start tag was found but no end tag
    ///   follows it — an unterminated record.
    /// - `Some(Ok(bytes))`: one record, spanning its start-tag match through
    ///   the end of its end-tag line.
    pub fn next(&mut self) -> (r: Option<PResult<Vec<u8>>>)
        requires
            old(self).wf(),
        ensures
            final(self).wf(),
            final(self).same_buffer(old(self)),
            ({
                let step = split_step(
                    old(self).text@,
                    old(self).cursor as int,
                    old(self).start_tag@,
                    old(self).end_tag@,
                );
                match step {
                    SplitStep::Done => r is None && final(self).cursor == old(self).text@.len(),
                    SplitStep::Fail => r == Some(Err::<Vec<u8>, Error>(Error::EOF))
                        && final(self).cursor == old(self).text@.len(),
                    SplitStep::Rec { lo, hi, next } => (r matches Some(res) && res matches Ok(v)
                        && v@ == old(self).text@.subrange(lo, hi)) && final(self).cursor == next,
                }
            }),
    {
        let ghost c0 = self.cursor as int;
        let ghost text = self.text@;
        let st = clone_bytes(&self.start_tag);
        let et = clone_bytes(&self.end_tag);
        proof {
            lemma_seek_tag(text, c0, st@);
        }
        let start_idx = match self.seek(&st) {
            None => {
                return None;
            },
            Some(i) => i,
        };
        proof {
            lemma_seek_tag(text, start_idx + st@.len(), et@);
        }
        match self.seek(&et) {
            None => Some(Err(Error::EOF)),
            Some(e) => {
                proof {
                    lemma_find_nl(text, e + et@.len());
                }
                match self.take_line() {
                    None => Some(Ok(copy_range(self.text.as_slice(), start_idx, self.text.len()))),
                    Some(end_idx) => Some(Ok(copy_range(self.text.as_slice(), start_idx, end_idx))),
                }
            },
        }
    }
}

} // verus!
