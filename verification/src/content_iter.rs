//! The field scanner: given one record's bytes and the set of allowed tags,
//! yields the record's (tag, content) pairs.  A field's content may span
//! several physical lines; interior line terminators are kept, and only the
//! single terminator immediately before the next recognized tag is stripped.

use vstd::prelude::*;

use crate::error::Error;
use crate::error::ErrKind;
use crate::error::PResult;
use crate::error::kind_of;
use crate::scan::NL;
use crate::scan::find_nl;
use crate::scan::lemma_find_nl;
use crate::utils::contains_tag;
use crate::utils::copy_range;
use crate::utils::in_tags;

verus! {

/// Where one field's content ends.  Starting from `c` (the first position
/// after the field's tag, or a later line start inside its content), lines
/// are consumed until one begins with a recognized tag or the buffer runs
/// out.  The result is `(end, next)`: the content spans up to `end`
/// (exclusive), and the scanner's cursor is left at `next`.
pub open spec fn field_end(text: Seq<u8>, c: int, tags: Seq<Seq<u8>>, n: int) -> (int, int)
    decreases text.len() - c,
{
    let nl = find_nl(text, c);
    if nl >= text.len() {
        (text.len() as int, text.len() as int)
    } else {
        let c2 = nl + 1;
        if c2 + n > text.len() {
            (text.len() as int, c2)
        } else if in_tags(tags, text.subrange(c2, c2 + n)) {
            (nl, c2)
        } else if c2 > c {
            field_end(text, c2, tags, n)
        } else {
            (text.len() as int, text.len() as int)
        }
    }
}

pub proof fn lemma_field_end(text: Seq<u8>, c: int, tags: Seq<Seq<u8>>, n: int)
    requires
        0 <= c <= text.len(),
        n >= 1,
    ensures
        ({
            let (end, next) = field_end(text, c, tags, n);
            &&& c <= end <= text.len()
            &&& c <= next <= text.len()
        }),
    decreases text.len() - c,
{
    lemma_find_nl(text, c);
    let nl = find_nl(text, c);
    if nl < text.len() {
        let c2 = nl + 1;
        if c2 + n > text.len() {
        } else if in_tags(tags, text.subrange(c2, c2 + n)) {
        } else {
            lemma_field_end(text, c2, tags, n);
        }
    }
}

/// The scanner's next step at position `c` of the record's bytes:
///
/// - `Fld`: an allowed tag occurs at `c`; the field's content follows it and
///   runs to `field_end`, and the scanner resumes at `next`.
/// - `Bad`: a full tag's width of bytes remains at `c`, yet no allowed tag
///   occurs there — a malformed line.
/// - `Done`: fewer than a tag's width of bytes remain; the record's pairs
///   are exhausted.
pub enum FieldStep {
    Fld { tag: Seq<u8>, content: Seq<u8>, next: int },
    Bad,
    Done,
}

pub open spec fn next_field(text: Seq<u8>, c: int, tags: Seq<Seq<u8>>, n: int) -> FieldStep {
    if c + n > text.len() {
        FieldStep::Done
    } else if !in_tags(tags, text.subrange(c, c + n)) {
        FieldStep::Bad
    } else {
        let cs = c + n;
        let e = field_end(text, cs, tags, n);
        FieldStep::Fld { tag: text.subrange(c, c + n), content: text.subrange(cs, e.0), next: e.1 }
    }
}

/// All the (tag, content) pairs of the record from position `c` on, or an
/// error if a line at a field boundary does not begin with a recognized tag.
pub open spec fn scan_fields(text: Seq<u8>, c: int, tags: Seq<Seq<u8>>, n: int) -> Result<
    Seq<(Seq<u8>, Seq<u8>)>,
    (),
>
    decreases text.len() - c + 1,
{
    match next_field(text, c, tags, n) {
        FieldStep::Done => Ok(Seq::empty()),
        FieldStep::Bad => Err(()),
        FieldStep::Fld { tag, content, next } => {
            if c < next <= text.len() {
                match scan_fields(text, next, tags, n) {
                    Ok(rest) => Ok(seq![(tag, content)].add(rest)),
                    Err(e) => Err(e),
                }
            } else {
                Ok(Seq::empty())
            }
        },
    }
}

pub proof fn lemma_next_field(text: Seq<u8>, c: int, tags: Seq<Seq<u8>>, n: int)
    requires
        0 <= c <= text.len(),
        n >= 1,
    ensures
        next_field(text, c, tags, n) matches FieldStep::Fld { tag, content, next } ==> c < next
            <= text.len(),
{
    if c + n <= text.len() && in_tags(tags, text.subrange(c, c + n)) {
        lemma_field_end(text, c + n, tags, n);
    }
}

/// The outcome of testing for an allowed tag at the scanner's cursor.
#[derive(Debug, Clone, PartialEq, Eq)]
pub enum TakeTagResult {
    /// An allowed tag occurs at the cursor; the payload is a copy of it.
    Present(Vec<u8>),
    /// A full tag's width of bytes is there, but it is not an allowed tag.
    NotPresent,
    /// Fewer than a tag's width of bytes remain.
    EOF,
}

/// A forward-only scan that yields the (tag, content) pairs of one record.
#[derive(Debug, Clone)]
pub struct ContentIterator {
    pub allowed_tags: Vec<Vec<u8>>,
    pub tag_len: usize,
    pub text: Vec<u8>,
    pub cursor: usize,
}

impl ContentIterator {
    /// The scanner's well-formedness: a positive tag width, every allowed
    /// tag of exactly that width, and a cursor inside the buffer.
    pub open spec fn wf(&self) -> bool {
        &&& self.tag_len >= 1
        &&& forall|i: int|
            0 <= i < self.allowed_tags@.len() ==> (#[trigger] self.allowed_tags@[i])@.len()
                == self.tag_len
        &&& self.cursor <= self.text@.len()
    }

    /// The fields that `next` never changes.
    pub open spec fn same_buffer(&self, other: &Self) -> bool {
        &&& self.allowed_tags.deep_view() == other.allowed_tags.deep_view()
        &&& self.tag_len == other.tag_len
        &&& self.text@ == other.text@
    }

    pub fn new(allowed_tags: &Vec<Vec<u8>>, tag_len: usize, text: &[u8]) -> (r: Self)
        requires
            tag_len >= 1,
            forall|i: int|
                0 <= i < allowed_tags@.len() ==> (#[trigger] allowed_tags@[i])@.len() == tag_len,
        ensures
            r.wf(),
            r.allowed_tags.deep_view() == allowed_tags.deep_view(),
            r.tag_len == tag_len,
            r.text@ == text@,
            r.cursor == 0,
    {
        let mut tags: Vec<Vec<u8>> = Vec::new();
        let mut i: usize = 0;
        while i < allowed_tags.len()
            invariant
                i <= allowed_tags@.len(),
                tags@.len() == i,
                forall|k: int| 0 <= k < i ==> (#[trigger] tags@[k])@ == allowed_tags@[k]@,
            decreases allowed_tags@.len() - i,
        {
            tags.push(crate::utils::clone_bytes(&allowed_tags[i]));
            i += 1;
        }
        proof {
            assert(tags.deep_view() =~= allowed_tags.deep_view());
        }
        ContentIterator { allowed_tags: tags, tag_len, text: copy_range(text, 0, text.len()), cursor: 0 }
    }

    /// Moves the cursor to just past the next line terminator, or to the end
    /// of the buffer (returning `None`) if no terminator remains.
    #[verifier::loop_isolation(false)]
    pub fn take_line(&mut self) -> (r: Option<()>)
        requires
            old(self).wf(),
        ensures
            final(self).wf(),
            final(self).same_buffer(old(self)),
            ({
                let nl = find_nl(old(self).text@, old(self).cursor as int);
                if nl < old(self).text@.len() {
                    r == Some(()) && final(self).cursor == nl + 1
                } else {
                    r is None && final(self).cursor == old(self).text@.len()
                }
            }),
    {
        while self.cursor < self.text.len()
            invariant
                self.wf(),
                self.same_buffer(old(self)),
                old(self).cursor <= self.cursor,
                find_nl(self.text@, self.cursor as int) == find_nl(
                    old(self).text@,
                    old(self).cursor as int,
                ),
            decreases self.text@.len() - self.cursor,
        {
            if self.text[self.cursor] == NL {
                self.cursor = self.cursor + 1;
                return Some(());
            }
            self.cursor = self.cursor + 1;
        }
        None
    }

    /// Tests for an allowed tag at the cursor.  The cursor is left in place.
    pub fn take_tag(&self) -> (r: TakeTagResult)
        requires
            self.wf(),
        ensures
            ({
                let c = self.cursor as int;
                let n = self.tag_len as int;
                if c + n > self.text@.len() {
                    r is EOF
                } else if in_tags(self.allowed_tags.deep_view(), self.text@.subrange(c, c + n)) {
                    r matches TakeTagResult::Present(t) && t@ == self.text@.subrange(c, c + n)
                } else {
                    r is NotPresent
                }
            }),
    {
        if self.text.len() - self.cursor < self.tag_len {
            return TakeTagResult::EOF;
        }
        let t = copy_range(self.text.as_slice(), self.cursor, self.cursor + self.tag_len);
        if contains_tag(&self.allowed_tags, t.as_slice()) {
            TakeTagResult::Present(t)
        } else {
            TakeTagResult::NotPresent
        }
    }

    /// Yields the next (tag, content) pair, as
    /// [`next_field`] describes:
    ///
    /// - `None`: fewer than a tag's width of bytes remain.
    /// - `Some(Err(_))`: the line at the cursor does not begin with an
    ///   allowed tag.
    /// - `Some(Ok((tag, content)))`: the field at the cursor; its content
    ///   runs until the next line that begins with an allowed tag (that
    ///   line's terminator stripped) or to the end of the buffer.
    #[verifier::loop_isolation(false)]
    pub fn next(&mut self) -> (r: Option<PResult<(Vec<u8>, Vec<u8>)>>)
        requires
            old(self).wf(),
        ensures
            final(self).wf(),
            final(self).same_buffer(old(self)),
            ({
                let step = next_field(
                    old(self).text@,
                    old(self).cursor as int,
                    old(self).allowed_tags.deep_view(),
                    old(self).tag_len as int,
                );
                match step {
                    FieldStep::Done => r is None && final(self).cursor == old(self).cursor,
                    FieldStep::Bad => (r matches Some(res) && res matches Err(e) && kind_of(e)
                        == ErrKind::Malformed) && final(self).cursor == old(self).cursor,
                    FieldStep::Fld { tag, content, next } => (r matches Some(res) && res matches Ok(p)
                        && p.0@ == tag && p.1@ == content) && final(self).cursor == next,
                }
            }),
    {
        let ghost text = self.text@;
        let ghost tags = self.allowed_tags.deep_view();
        let ghost n = self.tag_len as int;
        match self.take_tag() {
            TakeTagResult::EOF => None,
            TakeTagResult::NotPresent => Some(Err(Error::bad_line())),
            TakeTagResult::Present(tag) => {
                let text_len = self.text.len();
                proof {
                    assert(self.cursor + self.tag_len <= text_len);
                }
                self.cursor = self.cursor + self.tag_len;
                let content_start = self.cursor;
                loop
                    invariant
                        self.wf(),
                        self.same_buffer(old(self)),
                        content_start == old(self).cursor + old(self).tag_len,
                        content_start <= self.cursor <= self.text@.len(),
                        field_end(text, self.cursor as int, tags, n) == field_end(
                            text,
                            content_start as int,
                            tags,
                            n,
                        ),
                    decreases self.text@.len() - self.cursor,
                {
                    let ghost c_loop = self.cursor as int;
                    proof {
                        lemma_find_nl(text, c_loop);
                    }
                    match self.take_line() {
                        None => {
                            return Some(
                                Ok(
                                    (
                                        tag,
                                        copy_range(
                                            self.text.as_slice(),
                                            content_start,
                                            self.text.len(),
                                        ),
                                    ),
                                ),
                            );
                        },
                        Some(_) => {
                            match self.take_tag() {
                                TakeTagResult::Present(_) => {
                                    return Some(
                                        Ok(
                                            (
                                                tag,
                                                copy_range(
                                                    self.text.as_slice(),
                                                    content_start,
                                                    self.cursor - 1,
                                                ),
                                            ),
                                        ),
                                    );
                                },
                                TakeTagResult::NotPresent => {},
                                TakeTagResult::EOF => {
                                    return Some(
                                        Ok(
                                            (
                                                tag,
                                                copy_range(
                                                    self.text.as_slice(),
                                                    content_start,
                                                    self.text.len(),
                                                ),
                                            ),
                                        ),
                                    );
                                },
                            }
                        },
                    }
                }
            },
        }
    }
}

} // verus!
