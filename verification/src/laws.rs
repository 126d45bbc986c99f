//! The library's stated laws: properties of the parse that hold for whole
//! classes of inputs, proved once and for all against the spec-level model.

use vstd::prelude::*;

use crate::error::ErrKind;
use crate::scan::Seek;
use crate::scan::SplitStep;
use crate::scan::bom;
use crate::scan::seek_tag;
use crate::scan::split_all;
use crate::scan::split_step;
use crate::scan::strip_bom;
use crate::scan::TagScan;
use crate::scan::lemma_split_step;
use crate::scan::scan_tag;
use crate::scan::scan_tag_from;
use crate::scan::lemma_find_nl;
use crate::scan::lemma_scan_tag;
use crate::scan::lemma_seek_tag;
use crate::parser::spec_parse;
use crate::parser::spec_parse_record;
use crate::parser::parse_record_from;
use crate::parser::collect_records;
use crate::hashmap_handler::assoc_get;
use crate::hashmap_handler::assoc_idx;
use crate::hashmap_handler::assoc_idx_from;
use crate::hashmap_handler::assoc_set;
use crate::hashmap_handler::build_from;
use crate::hashmap_handler::handle_pair;
use crate::hashmap_handler::lemma_assoc_idx_from;
use crate::list_handler::build_list_from;
use crate::list_handler::handle_list_pair;
use crate::list_handler::list_append;
use crate::utils::in_tags;
use vstd::utf8::valid_utf8;
use crate::scan::NL;
use crate::scan::find_nl;
use crate::content_iter::FieldStep;
use crate::content_iter::field_end;
use crate::content_iter::next_field;
use crate::content_iter::scan_fields;
use crate::content_iter::lemma_next_field;

verus! {

broadcast use vstd::seq::group_seq_axioms, vstd::seq_lib::group_seq_lib_default;

/// Law: a leading UTF-8 byte-order mark is consumed before scanning begins,
/// so an input with the mark parses identically to the same input with the
/// mark stripped.
pub proof fn lemma_bom_ignored(
    input: Seq<u8>,
    start_tag: Seq<u8>,
    end_tag: Seq<u8>,
    allowed: Seq<Seq<u8>>,
    n: int,
)
    requires
        !(input.len() >= 3 && input[0] == 0xefu8 && input[1] == 0xbbu8 && input[2] == 0xbfu8),
    ensures
        spec_parse(bom().add(input), start_tag, end_tag, allowed, n) == spec_parse(
            input,
            start_tag,
            end_tag,
            allowed,
            n,
        ),
{
    let b = bom().add(input);
    assert(b.len() == input.len() + 3);
    assert(b[0] == 0xefu8 && b[1] == 0xbbu8 && b[2] == 0xbfu8);
    assert(b.subrange(3, b.len() as int) =~= input);
    assert(strip_bom(b) == input);
    assert(strip_bom(input) == input);
}

/// Law: an input in which a start-tag match is never followed by an end-tag
/// match before the end of the buffer fails with `EndOfInput` — an
/// unterminated record is an error, not a silently truncated record.  `s` is
/// the position of the start-tag match that the record hunt finds.
pub proof fn lemma_unterminated_record(
    input: Seq<u8>,
    start_tag: Seq<u8>,
    end_tag: Seq<u8>,
    allowed: Seq<Seq<u8>>,
    n: int,
    s: int,
)
    requires
        seek_tag(strip_bom(input), 0, start_tag) == (Seek::Found { at: s }),
        seek_tag(strip_bom(input), s + start_tag.len(), end_tag) is NotFound,
    ensures
        spec_parse(input, start_tag, end_tag, allowed, n) == Err::<
            Seq<Seq<(Seq<u8>, Seq<u8>)>>,
            ErrKind,
        >(ErrKind::EndOfInput),
{
    let t = strip_bom(input);
    assert(split_step(t, 0, start_tag, end_tag) is Fail);
    assert(split_all(t, 0, start_tag, end_tag) is Err);
}

proof fn lemma_scan_tag_from_skip(text: Seq<u8>, c: int, p: int, j: int, tag: Seq<u8>)
    requires
        0 <= c <= p,
        c <= text.len(),
        0 <= j,
    ensures
        ({
            let r1 = scan_tag_from(text, p, j, tag);
            let r2 = scan_tag_from(text.skip(c), p - c, j, tag);
            match r1 {
                TagScan::Present { at } => r2 == (TagScan::Present { at: at - c }),
                TagScan::Newline { next } => r2 == (TagScan::Newline { next: next - c }),
                TagScan::Absent { next } => r2 == (TagScan::Absent { next: next - c }),
                TagScan::Eof => r2 == TagScan::Eof,
            }
        }),
    decreases tag.len() - j,
{
    if j < tag.len() && p + j < text.len() && text[p + j] != NL && text[p + j] == tag[j] {
        lemma_scan_tag_from_skip(text, c, p, j + 1, tag);
    }
}

/// Every scanning primitive reads the buffer only from its position on, so
/// it behaves the same on the suffix that starts at `c`.
pub proof fn lemma_scan_tag_skip(text: Seq<u8>, c: int, p: int, tag: Seq<u8>)
    requires
        0 <= c <= p,
        c <= text.len(),
    ensures
        ({
            let r1 = scan_tag(text, p, tag);
            let r2 = scan_tag(text.skip(c), p - c, tag);
            match r1 {
                TagScan::Present { at } => r2 == (TagScan::Present { at: at - c }),
                TagScan::Newline { next } => r2 == (TagScan::Newline { next: next - c }),
                TagScan::Absent { next } => r2 == (TagScan::Absent { next: next - c }),
                TagScan::Eof => r2 == TagScan::Eof,
            }
        }),
{
    lemma_scan_tag_from_skip(text, c, p, 0, tag);
}

pub proof fn lemma_find_nl_skip(text: Seq<u8>, c: int, p: int)
    requires
        0 <= c <= p,
        c <= text.len(),
    ensures
        find_nl(text.skip(c), p - c) == find_nl(text, p) - c,
    decreases text.len() - p,
{
    if p < text.len() && text[p] != NL {
        lemma_find_nl_skip(text, c, p + 1);
    }
}

pub proof fn lemma_seek_tag_skip(text: Seq<u8>, c: int, p: int, tag: Seq<u8>)
    requires
        0 <= c <= p <= text.len(),
    ensures
        ({
            let r1 = seek_tag(text, p, tag);
            let r2 = seek_tag(text.skip(c), p - c, tag);
            match r1 {
                Seek::Found { at } => r2 == (Seek::Found { at: at - c }),
                Seek::NotFound => r2 == Seek::NotFound,
            }
        }),
    decreases text.len() - p,
{
    lemma_scan_tag_skip(text, c, p, tag);
    lemma_scan_tag(text, p, tag);
    match scan_tag(text, p, tag) {
        TagScan::Newline { next } => {
            if p < next <= text.len() {
                lemma_seek_tag_skip(text, c, next, tag);
            }
        },
        TagScan::Absent { next } => {
            lemma_find_nl_skip(text, c, next);
            lemma_find_nl(text, next);
            let nl = find_nl(text, next);
            if nl < text.len() && p < nl + 1 {
                lemma_seek_tag_skip(text, c, nl + 1, tag);
            }
        },
        _ => {},
    }
}

pub proof fn lemma_split_step_skip(text: Seq<u8>, c: int, p: int, st: Seq<u8>, et: Seq<u8>)
    requires
        0 <= c <= p <= text.len(),
    ensures
        ({
            let r1 = split_step(text, p, st, et);
            let r2 = split_step(text.skip(c), p - c, st, et);
            match r1 {
                SplitStep::Rec { lo, hi, next } => r2 == (SplitStep::Rec {
                    lo: lo - c,
                    hi: hi - c,
                    next: next - c,
                }),
                SplitStep::Fail => r2 == SplitStep::Fail,
                SplitStep::Done => r2 == SplitStep::Done,
            }
        }),
{
    lemma_seek_tag_skip(text, c, p, st);
    lemma_seek_tag(text, p, st);
    match seek_tag(text, p, st) {
        Seek::Found { at: lo } => {
            lemma_seek_tag_skip(text, c, lo + st.len(), et);
            lemma_seek_tag(text, lo + st.len(), et);
            match seek_tag(text, lo + st.len(), et) {
                Seek::Found { at: e } => {
                    lemma_find_nl_skip(text, c, e + et.len());
                },
                Seek::NotFound => {},
            }
        },
        Seek::NotFound => {},
    }
}

pub proof fn lemma_split_all_skip(text: Seq<u8>, c: int, p: int, st: Seq<u8>, et: Seq<u8>)
    requires
        0 <= c <= p <= text.len(),
        st.len() >= 1,
    ensures
        split_all(text, p, st, et) == split_all(text.skip(c), p - c, st, et),
    decreases text.len() - p + 1,
{
    lemma_split_step_skip(text, c, p, st, et);
    lemma_split_step(text, p, st, et);
    match split_step(text, p, st, et) {
        SplitStep::Rec { lo, hi, next } => {
            lemma_split_all_skip(text, c, next, st, et);
            assert(text.subrange(lo, hi) =~= text.skip(c).subrange(lo - c, hi - c));
            match split_all(text, next, st, et) {
                Ok(rest) => {
                    assert(seq![text.subrange(lo, hi)].add(rest) == seq![
                        text.skip(c).subrange(lo - c, hi - c),
                    ].add(rest));
                },
                Err(_) => {},
            }
        },
        _ => {},
    }
}

/// The bytes of a sequence of lines, each line followed by one terminator.
pub open spec fn unlines(lines: Seq<Seq<u8>>) -> Seq<u8>
    decreases lines.len(),
{
    if lines.len() == 0 {
        Seq::empty()
    } else {
        lines[0].push(NL).add(unlines(lines.drop_first()))
    }
}

/// The offset at which line `i` begins inside `unlines`.
pub open spec fn line_off(lines: Seq<Seq<u8>>, i: int) -> int
    decreases i,
{
    if i <= 0 {
        0
    } else {
        line_off(lines, i - 1) + lines[i - 1].len() + 1
    }
}

proof fn lemma_line_off_drop(lines: Seq<Seq<u8>>, i: int)
    requires
        lines.len() >= 1,
        0 <= i < lines.len(),
    ensures
        line_off(lines, i + 1) == lines[0].len() + 1 + line_off(lines.drop_first(), i),
    decreases i,
{
    assert(line_off(lines, 0) == 0);
    assert(line_off(lines.drop_first(), 0) == 0);
    if i > 0 {
        lemma_line_off_drop(lines, i - 1);
        assert(lines.drop_first()[i - 1] == lines[i]);
        assert(line_off(lines.drop_first(), i) == line_off(lines.drop_first(), i - 1)
            + lines[i].len() + 1);
        assert(line_off(lines, i + 1) == line_off(lines, i) + lines[i].len() + 1);
    }
}

pub proof fn lemma_line_off_nonneg(lines: Seq<Seq<u8>>, i: int)
    requires
        0 <= i,
    ensures
        line_off(lines, i) >= 0,
    decreases i,
{
    if i > 0 {
        lemma_line_off_nonneg(lines, i - 1);
    }
}

pub proof fn lemma_line_off_mono(lines: Seq<Seq<u8>>, i: int, j: int)
    requires
        0 <= i <= j,
    ensures
        line_off(lines, i) <= line_off(lines, j),
        line_off(lines, i) >= 0,
    decreases j - i,
{
    lemma_line_off_nonneg(lines, i);
    if i < j {
        lemma_line_off_mono(lines, i, j - 1);
    }
}

pub proof fn lemma_unlines_len(lines: Seq<Seq<u8>>)
    ensures
        unlines(lines).len() == line_off(lines, lines.len() as int),
    decreases lines.len(),
{
    if lines.len() > 0 {
        lemma_unlines_len(lines.drop_first());
        lemma_line_off_drop(lines, lines.len() - 1);
    }
}

/// Inside `unlines`, position `line_off(i) + k` holds byte `k` of line `i`,
/// or the line's terminator when `k` is the line's length.
pub proof fn lemma_unlines_index(lines: Seq<Seq<u8>>, i: int, k: int)
    requires
        0 <= i < lines.len(),
        0 <= k <= lines[i].len(),
    ensures
        line_off(lines, i) + k < unlines(lines).len(),
        unlines(lines)[line_off(lines, i) + k] == if k < lines[i].len() {
            lines[i][k]
        } else {
            NL
        },
    decreases i,
{
    lemma_unlines_len(lines);
    lemma_line_off_mono(lines, i + 1, lines.len() as int);
    lemma_line_off_mono(lines, 0, i);
    if i == 0 {
        assert(unlines(lines)[k] == lines[0].push(NL)[k]);
    } else {
        lemma_line_off_drop(lines, i - 1);
        lemma_unlines_index(lines.drop_first(), i - 1, k);
        assert(lines.drop_first()[i - 1] == lines[i]);
        let shift = lines[0].len() + 1;
        let x = line_off(lines.drop_first(), i - 1) + k;
        lemma_line_off_nonneg(lines.drop_first(), i - 1);
        assert(lines[0].push(NL).len() == shift);
        assert(unlines(lines) == lines[0].push(NL).add(unlines(lines.drop_first())));
        assert(unlines(lines)[shift + x] == unlines(lines.drop_first())[x]);
        assert(line_off(lines, i) + k == shift + x);
    }
}

/// A tag-match attempt over a window that holds no line terminator either
/// matches the whole tag or stops inside the window.
proof fn lemma_scan_from_no_nl(text: Seq<u8>, p: int, j: int, tag: Seq<u8>)
    requires
        0 <= p,
        0 <= j <= tag.len(),
        p + tag.len() <= text.len(),
        forall|k: int| p + j <= k < p + tag.len() ==> text[k] != NL,
    ensures
        ({
            if text.subrange(p + j, p + tag.len() as int) == tag.skip(j) {
                scan_tag_from(text, p, j, tag) == (TagScan::Present { at: p })
            } else {
                scan_tag_from(text, p, j, tag) matches TagScan::Absent { next } && p + j < next
                    <= p + tag.len()
            }
        }),
    decreases tag.len() - j,
{
    let window = text.subrange(p + j, p + tag.len() as int);
    if j == tag.len() {
        assert(window =~= tag.skip(j));
    } else {
        if text[p + j] != tag[j] {
            assert(window[0] == text[p + j]);
            assert(tag.skip(j)[0] == tag[j]);
            assert(window != tag.skip(j));
        } else {
            lemma_scan_from_no_nl(text, p, j + 1, tag);
            let window2 = text.subrange(p + j + 1, p + tag.len() as int);
            if window2 == tag.skip(j + 1) {
                assert(window =~= tag.skip(j)) by {
                    assert forall|k: int| 0 <= k < window.len() implies window[k] == tag.skip(j)[k]
                    by {
                        if k == 0 {
                            assert(window[0] == text[p + j]);
                            assert(tag.skip(j)[0] == tag[j]);
                        } else {
                            assert(window[k] == text[p + j + k]);
                            assert(window2[k - 1] == text[p + j + k]);
                            assert(window2[k - 1] == tag.skip(j + 1)[k - 1]);
                            assert(tag.skip(j + 1)[k - 1] == tag[j + k]);
                            assert(tag.skip(j)[k] == tag[j + k]);
                        }
                    }
                }
            } else {
                if window == tag.skip(j) {
                    assert(window2 =~= tag.skip(j + 1)) by {
                        assert forall|k: int| 0 <= k < window2.len() implies window2[k] == tag.skip(
                            j + 1,
                        )[k] by {
                            assert(window2[k] == text[p + j + 1 + k]);
                            assert(window[k + 1] == text[p + j + 1 + k]);
                            assert(window[k + 1] == tag.skip(j)[k + 1]);
                            assert(tag.skip(j)[k + 1] == tag[j + 1 + k]);
                            assert(tag.skip(j + 1)[k] == tag[j + 1 + k]);
                        }
                    }
                }
            }
        }
    }
}

pub proof fn lemma_scan_tag_no_nl(text: Seq<u8>, p: int, tag: Seq<u8>)
    requires
        0 <= p,
        p + tag.len() <= text.len(),
        forall|k: int| p <= k < p + tag.len() ==> text[k] != NL,
    ensures
        ({
            if text.subrange(p, p + tag.len() as int) == tag {
                scan_tag(text, p, tag) == (TagScan::Present { at: p })
            } else {
                scan_tag(text, p, tag) matches TagScan::Absent { next } && p < next <= p
                    + tag.len()
            }
        }),
{
    lemma_scan_from_no_nl(text, p, 0, tag);
    assert(text.subrange(p, p + tag.len() as int) =~= text.subrange(p + 0, p + tag.len() as int));
    assert(tag.skip(0) =~= tag);
}

/// A tag-match attempt whose window reaches a line terminator at `m` stops
/// at or before the terminator: it either reports the terminator or a
/// mismatch strictly before it.
proof fn lemma_scan_from_hits_nl(text: Seq<u8>, p: int, j: int, tag: Seq<u8>, m: int)
    requires
        0 <= p,
        0 <= j <= tag.len(),
        p + j <= m < text.len(),
        text[m] == NL,
        forall|k: int| p + j <= k < m ==> text[k] != NL,
        m < p + tag.len(),
    ensures
        ({
            match scan_tag_from(text, p, j, tag) {
                TagScan::Newline { next } => next == m + 1,
                TagScan::Absent { next } => p + j < next <= m,
                _ => false,
            }
        }),
    decreases tag.len() - j,
{
    if p + j == m {
    } else {
        if text[p + j] != NL && text[p + j] == tag[j] {
            lemma_scan_from_hits_nl(text, p, j + 1, tag, m);
        }
    }
}

pub proof fn lemma_scan_tag_hits_nl(text: Seq<u8>, p: int, tag: Seq<u8>, m: int)
    requires
        0 <= p <= m < text.len(),
        text[m] == NL,
        forall|k: int| p <= k < m ==> text[k] != NL,
        m < p + tag.len(),
    ensures
        ({
            match scan_tag(text, p, tag) {
                TagScan::Newline { next } => next == m + 1,
                TagScan::Absent { next } => p < next <= m,
                _ => false,
            }
        }),
{
    lemma_scan_from_hits_nl(text, p, 0, tag, m);
}


/// A well-formed field line: at least a tag's width, beginning with an
/// allowed tag, free of line terminators, and valid UTF-8 in both its tag
/// and its content part.
pub open spec fn wf_line(line: Seq<u8>, tags: Seq<Seq<u8>>, n: int) -> bool {
    &&& line.len() >= n
    &&& in_tags(tags, line.subrange(0, n))
    &&& forall|k: int| 0 <= k < line.len() ==> line[k] != NL
    &&& valid_utf8(line.subrange(0, n))
    &&& valid_utf8(line.subrange(n, line.len() as int))
}

/// A well-formed record, given as its lines (each implicitly followed by one
/// line terminator): a start-tag line, then field lines, then an end-tag
/// line; no earlier line carries the end tag, and the start line's content
/// does not itself begin with the end tag.
pub open spec fn wf_record_lines(
    lines: Seq<Seq<u8>>,
    st: Seq<u8>,
    et: Seq<u8>,
    tags: Seq<Seq<u8>>,
    n: int,
) -> bool {
    &&& lines.len() >= 2
    &&& forall|i: int| 0 <= i < lines.len() ==> wf_line(#[trigger] lines[i], tags, n)
    &&& lines[0].subrange(0, n) == st
    &&& lines[lines.len() - 1].subrange(0, n) == et
    &&& forall|i: int| 0 <= i < lines.len() - 1 ==> (#[trigger] lines[i]).subrange(0, n) != et
    &&& !(lines[0].len() >= n + n && lines[0].subrange(n, n + n) == et)
}

/// Whether `text` begins with the bytes of the given record's lines.
pub open spec fn has_chunk_prefix(text: Seq<u8>, lines: Seq<Seq<u8>>) -> bool {
    let l = line_off(lines, lines.len() as int);
    text.len() >= l && forall|p: int| 0 <= p < l ==> text[p] == unlines(lines)[p]
}

/// Brings the bytes of line `i` (terminator included) into `text`.
proof fn lemma_chunk_line(text: Seq<u8>, lines: Seq<Seq<u8>>, i: int)
    requires
        has_chunk_prefix(text, lines),
        0 <= i < lines.len(),
    ensures
        line_off(lines, i) >= 0,
        line_off(lines, i) + lines[i].len() < line_off(lines, lines.len() as int) <= text.len(),
        forall|k: int|
            0 <= k <= lines[i].len() ==> #[trigger] text[line_off(lines, i) + k] == (if k
                < lines[i].len() {
                lines[i][k]
            } else {
                NL
            }),
{
    lemma_unlines_len(lines);
    lemma_line_off_mono(lines, 0, i);
    assert forall|k: int| 0 <= k <= lines[i].len() implies #[trigger] text[line_off(lines, i) + k]
        == (if k < lines[i].len() {
        lines[i][k]
    } else {
        NL
    }) by {
        lemma_unlines_index(lines, i, k);
    }
    lemma_unlines_index(lines, i, lines[i].len() as int);
}

proof fn lemma_seek_end_in_record(
    text: Seq<u8>,
    lines: Seq<Seq<u8>>,
    st: Seq<u8>,
    et: Seq<u8>,
    tags: Seq<Seq<u8>>,
    n: int,
    i: int,
)
    requires
        n >= 1,
        et.len() == n,
        wf_record_lines(lines, st, et, tags, n),
        has_chunk_prefix(text, lines),
        1 <= i <= lines.len() - 1,
    ensures
        seek_tag(text, line_off(lines, i), et) == (Seek::Found {
            at: line_off(lines, lines.len() - 1),
        }),
    decreases lines.len() - i,
{
    let last = lines.len() - 1;
    let off_i = line_off(lines, i);
    let li = lines[i];
    lemma_chunk_line(text, lines, i);
    assert forall|p: int| off_i <= p < off_i + li.len() implies text[p] != NL by {
        assert(text[line_off(lines, i) + (p - off_i)] == li[p - off_i]);
    }
    assert(text[line_off(lines, i) + li.len()] == NL);
    assert(text.subrange(off_i, off_i + n) =~= li.subrange(0, n)) by {
        assert forall|k: int| 0 <= k < n implies text.subrange(off_i, off_i + n)[k] == li.subrange(
            0,
            n,
        )[k] by {
            assert(text[line_off(lines, i) + k] == li[k]);
        }
    }
    if i == last {
        lemma_scan_tag_no_nl(text, off_i, et);
        assert(scan_tag(text, off_i, et) == (TagScan::Present { at: off_i }));
    } else {
        lemma_scan_tag_no_nl(text, off_i, et);
        match scan_tag(text, off_i, et) {
            TagScan::Absent { next } => {
                let nlpos = off_i + li.len();
                lemma_find_nl_at(text, next, nlpos);
                assert(line_off(lines, i + 1) == nlpos + 1);
                lemma_seek_end_in_record(text, lines, st, et, tags, n, i + 1);
            },
            _ => {
                assert(false);
            },
        }
    }
}

proof fn lemma_seek_end_from_first(
    text: Seq<u8>,
    lines: Seq<Seq<u8>>,
    st: Seq<u8>,
    et: Seq<u8>,
    tags: Seq<Seq<u8>>,
    n: int,
)
    requires
        n >= 1,
        et.len() == n,
        wf_record_lines(lines, st, et, tags, n),
        has_chunk_prefix(text, lines),
    ensures
        seek_tag(text, n, et) == (Seek::Found { at: line_off(lines, lines.len() - 1) }),
{
    let l0 = lines[0];
    let len0 = l0.len() as int;
    lemma_chunk_line(text, lines, 0);
    assert(line_off(lines, 0) == 0);
    assert(line_off(lines, 1) == len0 + 1);
    assert forall|p: int| 0 <= p < len0 implies text[p] != NL by {
        assert(text[line_off(lines, 0) + p] == l0[p]);
    }
    assert(text[line_off(lines, 0) + l0.len()] == NL);
    assert(text[len0] == NL);
    if len0 < n + n {
        lemma_scan_tag_hits_nl(text, n, et, len0);
        match scan_tag(text, n, et) {
            TagScan::Newline { next } => {
                lemma_seek_end_in_record(text, lines, st, et, tags, n, 1);
            },
            TagScan::Absent { next } => {
                lemma_find_nl_at(text, next, len0);
                lemma_seek_end_in_record(text, lines, st, et, tags, n, 1);
            },
            _ => {
                assert(false);
            },
        }
    } else {
        assert(text.subrange(n, n + n) =~= l0.subrange(n, n + n)) by {
            assert forall|k: int| 0 <= k < n implies #[trigger] text.subrange(n, n + n)[k]
                == l0.subrange(n, n + n)[k] by {
                assert(text[line_off(lines, 0) + (n + k)] == l0[n + k]);
            }
        }
        lemma_scan_tag_no_nl(text, n, et);
        match scan_tag(text, n, et) {
            TagScan::Absent { next } => {
                lemma_find_nl_at(text, next, len0);
                lemma_seek_end_in_record(text, lines, st, et, tags, n, 1);
            },
            _ => {
                assert(false);
            },
        }
    }
}

/// One well-formed record at the head of the buffer is delimited exactly:
/// the record spans its bytes up to (not including) its final line
/// terminator, and the hunt for the next record resumes just after it.
pub proof fn lemma_split_chunk(
    text: Seq<u8>,
    lines: Seq<Seq<u8>>,
    st: Seq<u8>,
    et: Seq<u8>,
    tags: Seq<Seq<u8>>,
    n: int,
)
    requires
        n >= 1,
        st.len() == n,
        et.len() == n,
        wf_record_lines(lines, st, et, tags, n),
        has_chunk_prefix(text, lines),
    ensures
        ({
            let l = line_off(lines, lines.len() as int);
            split_step(text, 0, st, et) == (SplitStep::Rec { lo: 0, hi: l - 1, next: l })
        }),
{
    let last = lines.len() - 1;
    let l = line_off(lines, lines.len() as int);
    lemma_chunk_line(text, lines, 0);
    assert(line_off(lines, 0) == 0);
    assert forall|p: int| 0 <= p < lines[0].len() implies text[p] != NL by {
        assert(text[line_off(lines, 0) + p] == lines[0][p]);
    }
    assert(text.subrange(0, n) =~= lines[0].subrange(0, n)) by {
        assert forall|k: int| 0 <= k < n implies text.subrange(0, n)[k] == lines[0].subrange(
            0,
            n,
        )[k] by {
            assert(text[line_off(lines, 0) + k] == lines[0][k]);
        }
    }
    lemma_scan_tag_no_nl(text, 0, st);
    assert(scan_tag(text, 0, st) == (TagScan::Present { at: 0 }));
    assert(seek_tag(text, 0, st) == (Seek::Found { at: 0 }));
    lemma_seek_end_from_first(text, lines, st, et, tags, n);
    let e = line_off(lines, last);
    lemma_chunk_line(text, lines, last);
    assert(line_off(lines, last + 1) == e + lines[last].len() + 1);
    assert(e + lines[last].len() == l - 1);
    assert forall|p: int| e <= p < e + lines[last].len() implies text[p] != NL by {
        assert(text[line_off(lines, last) + (p - e)] == lines[last][p - e]);
    }
    assert(text[line_off(lines, last) + lines[last].len()] == NL);
    assert(text[l - 1] == NL);
    lemma_find_nl_at(text, e + n, l - 1);
}


/// The bytes of a sequence of records, each given as its lines.
pub open spec fn unchunks(recs: Seq<Seq<Seq<u8>>>) -> Seq<u8>
    decreases recs.len(),
{
    if recs.len() == 0 {
        Seq::empty()
    } else {
        unlines(recs[0]).add(unchunks(recs.drop_first()))
    }
}

/// The byte span the splitter yields for one record: its lines, without the
/// final line terminator.
pub open spec fn record_body(lines: Seq<Seq<u8>>) -> Seq<u8> {
    unlines(lines).subrange(0, unlines(lines).len() - 1)
}

/// A buffer holding exactly a sequence of well-formed records splits into
/// exactly those records, in source order.
pub proof fn lemma_split_wf_records(
    recs: Seq<Seq<Seq<u8>>>,
    st: Seq<u8>,
    et: Seq<u8>,
    tags: Seq<Seq<u8>>,
    n: int,
)
    requires
        n >= 1,
        st.len() == n,
        et.len() == n,
        forall|i: int| 0 <= i < recs.len() ==> wf_record_lines(#[trigger] recs[i], st, et, tags, n),
    ensures
        split_all(unchunks(recs), 0, st, et) == Ok::<Seq<Seq<u8>>, ()>(
            Seq::new(recs.len(), |i: int| record_body(recs[i])),
        ),
    decreases recs.len(),
{
    let text = unchunks(recs);
    if recs.len() == 0 {
        assert(split_all(text, 0, st, et) == Ok::<Seq<Seq<u8>>, ()>(Seq::empty()));
        assert(Seq::new(0, |i: int| record_body(recs[i])) =~= Seq::<Seq<u8>>::empty());
    } else {
        let lines = recs[0];
        let chunk = unlines(lines);
        let rest = unchunks(recs.drop_first());
        assert(text == chunk.add(rest));
        lemma_unlines_len(lines);
        let l = line_off(lines, lines.len() as int);
        assert(chunk.len() == l);
        assert(has_chunk_prefix(text, lines)) by {
            assert forall|p: int| 0 <= p < l implies text[p] == unlines(lines)[p] by {
                assert(text[p] == chunk.add(rest)[p]);
            }
        }
        lemma_split_chunk(text, lines, st, et, tags, n);
        lemma_line_off_mono(lines, 1, lines.len() as int);
        assert(line_off(lines, 0) == 0);
        assert(line_off(lines, 1) == lines[0].len() + 1);
        assert(l >= 1);
        assert(split_step(text, 0, st, et) == (SplitStep::Rec { lo: 0, hi: l - 1, next: l }));
        lemma_split_all_skip(text, l, l, st, et);
        assert(text.skip(l) =~= rest);
        assert forall|i: int| 0 <= i < recs.drop_first().len() implies wf_record_lines(
            #[trigger] recs.drop_first()[i],
            st,
            et,
            tags,
            n,
        ) by {
            assert(recs.drop_first()[i] == recs[i + 1]);
        }
        lemma_split_wf_records(recs.drop_first(), st, et, tags, n);
        assert(split_all(text, l, st, et) == Ok::<Seq<Seq<u8>>, ()>(
            Seq::new(recs.drop_first().len(), |i: int| record_body(recs.drop_first()[i])),
        ));
        assert(text.subrange(0, l - 1) =~= record_body(lines)) by {
            assert forall|p: int| 0 <= p < l - 1 implies #[trigger] text.subrange(0, l - 1)[p]
                == record_body(lines)[p] by {
                assert(text[p] == chunk.add(rest)[p]);
            }
        }
        let bodies = Seq::new(recs.len(), |i: int| record_body(recs[i]));
        assert(seq![text.subrange(0, l - 1)].add(
            Seq::new(recs.drop_first().len(), |i: int| record_body(recs.drop_first()[i])),
        ) =~= bodies) by {
            assert forall|i: int| 0 <= i < recs.len() implies seq![text.subrange(0, l - 1)].add(
                Seq::new(recs.drop_first().len(), |i2: int| record_body(recs.drop_first()[i2])),
            )[i] == bodies[i] by {
                if i > 0 {
                    assert(recs.drop_first()[i - 1] == recs[i]);
                }
            }
        }
    }
}


pub proof fn lemma_find_nl_none(text: Seq<u8>, from: int)
    requires
        0 <= from <= text.len(),
        forall|k: int| from <= k < text.len() ==> text[k] != NL,
    ensures
        find_nl(text, from) == text.len(),
    decreases text.len() - from,
{
    if from < text.len() {
        lemma_find_nl_none(text, from + 1);
    }
}

/// Brings the bytes of line `i` into the record's body (the record's bytes
/// without the final line terminator).
proof fn lemma_body_line(body: Seq<u8>, lines: Seq<Seq<u8>>, i: int)
    requires
        lines.len() >= 1,
        body.len() == line_off(lines, lines.len() as int) - 1,
        forall|p: int| 0 <= p < body.len() ==> body[p] == unlines(lines)[p],
        0 <= i < lines.len(),
    ensures
        line_off(lines, i) >= 0,
        line_off(lines, i) + lines[i].len() <= body.len(),
        forall|k: int|
            0 <= k < lines[i].len() ==> #[trigger] body[line_off(lines, i) + k] == lines[i][k],
        i < lines.len() - 1 ==> line_off(lines, i) + lines[i].len() < body.len() && body[line_off(
            lines,
            i,
        ) + lines[i].len()] == NL && line_off(lines, i + 1) == line_off(lines, i) + lines[i].len()
            + 1,
        i == lines.len() - 1 ==> line_off(lines, i) + lines[i].len() == body.len(),
{
    lemma_unlines_len(lines);
    lemma_line_off_mono(lines, 0, i);
    lemma_line_off_mono(lines, i + 1, lines.len() as int);
    assert(line_off(lines, i + 1) == line_off(lines, i) + lines[i].len() + 1);
    assert forall|k: int| 0 <= k < lines[i].len() implies #[trigger] body[line_off(lines, i) + k]
        == lines[i][k] by {
        lemma_unlines_index(lines, i, k);
    }
    if i < lines.len() - 1 {
        lemma_line_off_mono(lines, i + 2, lines.len() as int);
        assert(line_off(lines, i + 2) == line_off(lines, i + 1) + lines[i + 1].len() + 1);
        lemma_unlines_index(lines, i, lines[i].len() as int);
    }
}

/// Scanning and folding a well-formed record's body succeeds, from any line
/// of the record on and from any builder state.
proof fn lemma_record_fields_ok(
    body: Seq<u8>,
    lines: Seq<Seq<u8>>,
    st: Seq<u8>,
    et: Seq<u8>,
    tags: Seq<Seq<u8>>,
    n: int,
    i: int,
    state: Seq<(Seq<u8>, Seq<u8>)>,
)
    requires
        n >= 1,
        et.len() == n,
        wf_record_lines(lines, st, et, tags, n),
        body.len() == line_off(lines, lines.len() as int) - 1,
        forall|p: int| 0 <= p < body.len() ==> body[p] == unlines(lines)[p],
        0 <= i < lines.len(),
    ensures
        parse_record_from(body, line_off(lines, i), state, tags, et, n) is Ok,
    decreases lines.len() - i,
{
    let last = lines.len() - 1;
    let off_i = line_off(lines, i);
    let li = lines[i];
    lemma_body_line(body, lines, i);
    let tag = body.subrange(off_i, off_i + n);
    assert(tag =~= li.subrange(0, n)) by {
        assert forall|k: int| 0 <= k < n implies #[trigger] tag[k] == li.subrange(0, n)[k] by {
            assert(body[line_off(lines, i) + k] == li[k]);
        }
    }
    assert forall|p: int| off_i <= p < off_i + li.len() implies body[p] != NL by {
        assert(body[line_off(lines, i) + (p - off_i)] == li[p - off_i]);
    }
    if i < last {
        lemma_body_line(body, lines, i + 1);
        let nlpos = off_i + li.len();
        let c2 = line_off(lines, i + 1);
        lemma_find_nl_at(body, off_i + n, nlpos);
        let tag2 = body.subrange(c2, c2 + n);
        assert(tag2 =~= lines[i + 1].subrange(0, n)) by {
            assert forall|k: int| 0 <= k < n implies #[trigger] tag2[k] == lines[i + 1].subrange(
                0,
                n,
            )[k] by {
                assert(body[line_off(lines, i + 1) + k] == lines[i + 1][k]);
            }
        }
        assert(field_end(body, off_i + n, tags, n) == (nlpos, c2));
        assert(next_field(body, off_i, tags, n) == (FieldStep::Fld {
            tag,
            content: body.subrange(off_i + n, nlpos),
            next: c2,
        }));
        let content = body.subrange(off_i + n, nlpos);
        assert(content =~= li.subrange(n, li.len() as int)) by {
            assert forall|k: int| 0 <= k < li.len() - n implies #[trigger] content[k]
                == li.subrange(n, li.len() as int)[k] by {
                assert(body[line_off(lines, i) + (n + k)] == li[n + k]);
            }
        }
        assert(tag != et);
        assert(handle_pair(state, tag, content, tags, et, n) == Ok::<
            Seq<(Seq<u8>, Seq<u8>)>,
            ErrKind,
        >(assoc_set(state, tag, content)));
        lemma_record_fields_ok(body, lines, st, et, tags, n, i + 1, assoc_set(state, tag, content));
    } else {
        lemma_find_nl_none(body, off_i + n);
        assert(field_end(body, off_i + n, tags, n) == (body.len() as int, body.len() as int));
        assert(next_field(body, off_i, tags, n) == (FieldStep::Fld {
            tag,
            content: body.subrange(off_i + n, body.len() as int),
            next: body.len() as int,
        }));
        assert(tag == et);
        let content = body.subrange(off_i + n, body.len() as int);
        assert(handle_pair(state, tag, content, tags, et, n) == Ok::<
            Seq<(Seq<u8>, Seq<u8>)>,
            ErrKind,
        >(state));
        assert(next_field(body, body.len() as int, tags, n) is Done);
        assert(parse_record_from(body, body.len() as int, state, tags, et, n) == Ok::<
            Seq<(Seq<u8>, Seq<u8>)>,
            ErrKind,
        >(state));
    }
}

proof fn lemma_collect_records_ok(recs: Seq<Seq<u8>>, tags: Seq<Seq<u8>>, et: Seq<u8>, n: int)
    requires
        forall|i: int|
            0 <= i < recs.len() ==> spec_parse_record(#[trigger] recs[i], tags, et, n) is Ok,
    ensures
        collect_records(recs, tags, et, n) == Ok::<Seq<Seq<(Seq<u8>, Seq<u8>)>>, ErrKind>(
            Seq::new(recs.len(), |i: int| spec_parse_record(recs[i], tags, et, n).unwrap()),
        ),
    decreases recs.len(),
{
    if recs.len() == 0 {
        assert(Seq::new(0, |i: int| spec_parse_record(recs[i], tags, et, n).unwrap())
            =~= Seq::<Seq<(Seq<u8>, Seq<u8>)>>::empty());
    } else {
        assert forall|i: int| 0 <= i < recs.drop_first().len() implies spec_parse_record(
            #[trigger] recs.drop_first()[i],
            tags,
            et,
            n,
        ) is Ok by {
            assert(recs.drop_first()[i] == recs[i + 1]);
        }
        lemma_collect_records_ok(recs.drop_first(), tags, et, n);
        let rec0 = spec_parse_record(recs[0], tags, et, n).unwrap();
        let rest = Seq::new(
            recs.drop_first().len(),
            |i: int| spec_parse_record(recs.drop_first()[i], tags, et, n).unwrap(),
        );
        assert(seq![rec0].add(rest) =~= Seq::new(
            recs.len(),
            |i: int| spec_parse_record(recs[i], tags, et, n).unwrap(),
        )) by {
            assert forall|i: int| 0 <= i < recs.len() implies seq![rec0].add(rest)[i] == Seq::new(
                recs.len(),
                |i2: int| spec_parse_record(recs[i2], tags, et, n).unwrap(),
            )[i] by {
                if i > 0 {
                    assert(recs.drop_first()[i - 1] == recs[i]);
                }
            }
        }
    }
}

/// Law: a valid input consisting of well-formed records and nothing else
/// parses to exactly those records, in source order; each output record is
/// the successful parse of its own record's bytes.
pub proof fn lemma_well_formed_records(
    recs: Seq<Seq<Seq<u8>>>,
    st: Seq<u8>,
    et: Seq<u8>,
    tags: Seq<Seq<u8>>,
    n: int,
)
    requires
        n >= 1,
        st.len() == n,
        et.len() == n,
        st[0] != 0xefu8,
        forall|i: int| 0 <= i < recs.len() ==> wf_record_lines(#[trigger] recs[i], st, et, tags, n),
    ensures
        ({
            let out = spec_parse(unchunks(recs), st, et, tags, n);
            &&& out is Ok
            &&& out.unwrap().len() == recs.len()
            &&& forall|i: int|
                0 <= i < recs.len() ==> spec_parse_record(record_body(#[trigger] recs[i]), tags, et, n)
                    == Ok::<Seq<(Seq<u8>, Seq<u8>)>, ErrKind>(out.unwrap()[i])
        }),
{
    let input = unchunks(recs);
    if recs.len() > 0 {
        lemma_unlines_index(recs[0], 0, 0);
        assert(input[0] == unlines(recs[0]).add(unchunks(recs.drop_first()))[0]);
        assert(input[0] == unlines(recs[0])[0]);
        assert(recs[0][0].subrange(0, n)[0] == recs[0][0][0]);
        assert(input[0] == st[0]);
    }
    assert(strip_bom(input) == input);
    lemma_split_wf_records(recs, st, et, tags, n);
    let bodies = Seq::new(recs.len(), |i: int| record_body(recs[i]));
    assert forall|i: int| 0 <= i < bodies.len() implies spec_parse_record(
        #[trigger] bodies[i],
        tags,
        et,
        n,
    ) is Ok by {
        let lines = recs[i];
        let body = record_body(lines);
        lemma_unlines_len(lines);
        lemma_line_off_mono(lines, 0, lines.len() as int);
        assert(body.len() == line_off(lines, lines.len() as int) - 1);
        assert forall|p: int| 0 <= p < body.len() implies body[p] == unlines(lines)[p] by {
            assert(body[p] == unlines(lines).subrange(0, unlines(lines).len() - 1)[p]);
        }
        assert(line_off(lines, 0) == 0);
        lemma_record_fields_ok(body, lines, st, et, tags, n, 0, Seq::empty());
    }
    lemma_collect_records_ok(bodies, tags, et, n);
}

pub proof fn lemma_find_nl_at(text: Seq<u8>, from: int, pos: int)
    requires
        0 <= from <= pos < text.len(),
        text[pos] == NL,
        forall|k: int| from <= k < pos ==> text[k] != NL,
    ensures
        find_nl(text, from) == pos,
    decreases pos - from,
{
    if from < pos {
        lemma_find_nl_at(text, from + 1, pos);
    }
}

/// Law: a field whose content spans three physical lines keeps its two
/// interior line terminators verbatim, and the single terminator immediately
/// before the next recognized tag is stripped.  Here an allowed tag occurs
/// at `c`; `a`, `b` and `d` are the three line terminators after it; the two
/// lines after `a` and `b` do not begin with an allowed tag, while the line
/// after `d` does.  The field's content then runs from just past the tag up
/// to `d` exclusive — through `a` and `b`, without `d` — and the scan
/// resumes at the next tag's line.
pub proof fn lemma_multiline_field(
    text: Seq<u8>,
    c: int,
    tags: Seq<Seq<u8>>,
    n: int,
    a: int,
    b: int,
    d: int,
)
    requires
        0 <= c,
        n >= 1,
        c + n <= a < b < d < text.len(),
        in_tags(tags, text.subrange(c, c + n)),
        text[a] == NL,
        text[b] == NL,
        text[d] == NL,
        forall|k: int| c + n <= k < a ==> text[k] != NL,
        forall|k: int| a + 1 <= k < b ==> text[k] != NL,
        forall|k: int| b + 1 <= k < d ==> text[k] != NL,
        d + 1 + n <= text.len(),
        !in_tags(tags, text.subrange(a + 1, a + 1 + n)),
        !in_tags(tags, text.subrange(b + 1, b + 1 + n)),
        in_tags(tags, text.subrange(d + 1, d + 1 + n)),
    ensures
        next_field(text, c, tags, n) == (FieldStep::Fld {
            tag: text.subrange(c, c + n),
            content: text.subrange(c + n, d),
            next: d + 1,
        }),
        text.subrange(c + n, d)[a - c - n] == NL,
        text.subrange(c + n, d)[b - c - n] == NL,
{
    lemma_find_nl_at(text, c + n, a);
    lemma_find_nl_at(text, a + 1, b);
    lemma_find_nl_at(text, b + 1, d);
    assert(field_end(text, b + 1, tags, n) == (d, d + 1));
    assert(field_end(text, a + 1, tags, n) == (d, d + 1));
    assert(field_end(text, c + n, tags, n) == (d, d + 1));
}

pub proof fn lemma_assoc_idx_same_keys<V, W>(
    s1: Seq<(Seq<u8>, V)>,
    s2: Seq<(Seq<u8>, W)>,
    k: Seq<u8>,
    i: int,
)
    requires
        s1.len() == s2.len(),
        forall|j: int| 0 <= j < s1.len() ==> (#[trigger] s1[j]).0 == s2[j].0,
        0 <= i <= s1.len(),
    ensures
        assoc_idx_from(s1, k, i) == assoc_idx_from(s2, k, i),
    decreases s1.len() - i,
{
    if i < s1.len() && s1[i].0 != k {
        lemma_assoc_idx_same_keys(s1, s2, k, i + 1);
    }
}

pub proof fn lemma_assoc_idx_push<V>(s: Seq<(Seq<u8>, V)>, p: (Seq<u8>, V), k: Seq<u8>, i: int)
    requires
        0 <= i <= s.len(),
    ensures
        ({
            let r = assoc_idx_from(s, k, i);
            let r2 = assoc_idx_from(s.push(p), k, i);
            if r < s.len() {
                r2 == r
            } else if p.0 == k {
                r2 == s.len()
            } else {
                r2 == s.len() + 1
            }
        }),
    decreases s.len() - i,
{
    let ps = s.push(p);
    if i < s.len() {
        assert(ps[i] == s[i]);
        if s[i].0 != k {
            lemma_assoc_idx_push(s, p, k, i + 1);
        }
    } else {
        assert(ps[i] == p);
        if p.0 == k {
            assert(assoc_idx_from(ps, k, i) == i);
        } else {
            assert(assoc_idx_from(ps, k, i + 1) == ps.len());
            assert(assoc_idx_from(ps, k, i) == ps.len());
        }
    }
}

/// Binding a tag overwrites exactly that tag's value.
pub proof fn lemma_assoc_set_get_same(s: Seq<(Seq<u8>, Seq<u8>)>, k: Seq<u8>, v: Seq<u8>)
    ensures
        assoc_get(assoc_set(s, k, v), k) == Some(v),
{
    lemma_assoc_idx_from(s, k, 0);
    let idx = assoc_idx(s, k);
    if idx < s.len() {
        let s2 = s.update(idx, (k, v));
        lemma_assoc_idx_same_keys(s2, s, k, 0);
    } else {
        lemma_assoc_idx_push(s, (k, v), k, 0);
    }
}

/// Binding a tag leaves every other tag's value alone.
pub proof fn lemma_assoc_set_get_other(
    s: Seq<(Seq<u8>, Seq<u8>)>,
    k: Seq<u8>,
    v: Seq<u8>,
    k2: Seq<u8>,
)
    requires
        k2 != k,
    ensures
        assoc_get(assoc_set(s, k, v), k2) == assoc_get(s, k2),
{
    lemma_assoc_idx_from(s, k, 0);
    lemma_assoc_idx_from(s, k2, 0);
    let idx = assoc_idx(s, k);
    if idx < s.len() {
        let s2 = s.update(idx, (k, v));
        lemma_assoc_idx_same_keys(s2, s, k2, 0);
        lemma_assoc_idx_from(s2, k2, 0);
    } else {
        lemma_assoc_idx_push(s, (k, v), k2, 0);
    }
}

/// Appending to a list tag extends exactly that tag's contents, in order.
pub proof fn lemma_list_append_get_same(s: Seq<(Seq<u8>, Seq<Seq<u8>>)>, k: Seq<u8>, v: Seq<u8>)
    ensures
        assoc_get(list_append(s, k, v), k) == match assoc_get(s, k) {
            Some(pre) => Some(pre.push(v)),
            None => Some(seq![v]),
        },
{
    lemma_assoc_idx_from(s, k, 0);
    let idx = assoc_idx(s, k);
    if idx < s.len() {
        let s2 = s.update(idx, (k, s[idx].1.push(v)));
        lemma_assoc_idx_same_keys(s2, s, k, 0);
    } else {
        lemma_assoc_idx_push(s, (k, seq![v]), k, 0);
    }
}

/// Appending to a list tag leaves every other tag's contents alone.
pub proof fn lemma_list_append_get_other(
    s: Seq<(Seq<u8>, Seq<Seq<u8>>)>,
    k: Seq<u8>,
    v: Seq<u8>,
    k2: Seq<u8>,
)
    requires
        k2 != k,
    ensures
        assoc_get(list_append(s, k, v), k2) == assoc_get(s, k2),
{
    lemma_assoc_idx_from(s, k, 0);
    lemma_assoc_idx_from(s, k2, 0);
    let idx = assoc_idx(s, k);
    if idx < s.len() {
        let s2 = s.update(idx, (k, s[idx].1.push(v)));
        lemma_assoc_idx_same_keys(s2, s, k2, 0);
        lemma_assoc_idx_from(s2, k2, 0);
    } else {
        lemma_assoc_idx_push(s, (k, seq![v]), k2, 0);
    }
}

/// A fold over pairs in which a tag never occurs leaves that tag's value
/// alone.
pub proof fn lemma_build_from_preserves(
    state: Seq<(Seq<u8>, Seq<u8>)>,
    pairs: Seq<(Seq<u8>, Seq<u8>)>,
    allowed: Seq<Seq<u8>>,
    end_tag: Seq<u8>,
    n: int,
    k: Seq<u8>,
)
    requires
        forall|j: int| 0 <= j < pairs.len() ==> (#[trigger] pairs[j]).0 != k,
        build_from(state, pairs, allowed, end_tag, n) is Ok,
    ensures
        assoc_get(build_from(state, pairs, allowed, end_tag, n).unwrap(), k) == assoc_get(
            state,
            k,
        ),
    decreases pairs.len(),
{
    if pairs.len() > 0 {
        let s2 = handle_pair(state, pairs[0].0, pairs[0].1, allowed, end_tag, n).unwrap();
        if pairs[0].0 != end_tag && handle_pair(state, pairs[0].0, pairs[0].1, allowed, end_tag, n)
            == Ok::<Seq<(Seq<u8>, Seq<u8>)>, ErrKind>(assoc_set(state, pairs[0].0, pairs[0].1)) {
            lemma_assoc_set_get_other(state, pairs[0].0, pairs[0].1, k);
        }
        lemma_build_from_preserves(s2, pairs.drop_first(), allowed, end_tag, n, k);
    }
}

/// Parsing a record interleaves the field scan with the builder's fold; the
/// result is the same as scanning all the pairs first and folding after:
/// equal on success, and a failure in either view is a failure in the other.
pub proof fn lemma_parse_record_is_scan_then_build(
    bytes: Seq<u8>,
    c: int,
    state: Seq<(Seq<u8>, Seq<u8>)>,
    tags: Seq<Seq<u8>>,
    et: Seq<u8>,
    n: int,
)
    requires
        0 <= c <= bytes.len(),
        n >= 1,
    ensures
        ({
            match scan_fields(bytes, c, tags, n) {
                Ok(pairs) => parse_record_from(bytes, c, state, tags, et, n) == build_from(
                    state,
                    pairs,
                    tags,
                    et,
                    n,
                ),
                Err(_) => parse_record_from(bytes, c, state, tags, et, n) is Err,
            }
        }),
    decreases bytes.len() - c,
{
    lemma_next_field(bytes, c, tags, n);
    match next_field(bytes, c, tags, n) {
        FieldStep::Fld { tag, content, next } => {
            match scan_fields(bytes, next, tags, n) {
                Ok(rest) => {
                    let pairs = seq![(tag, content)].add(rest);
                    assert(pairs[0] == (tag, content));
                    assert(pairs.drop_first() =~= rest);
                    match handle_pair(state, tag, content, tags, et, n) {
                        Ok(s2) => {
                            lemma_parse_record_is_scan_then_build(bytes, next, s2, tags, et, n);
                        },
                        Err(_) => {},
                    }
                },
                Err(_) => {
                    match handle_pair(state, tag, content, tags, et, n) {
                        Ok(s2) => {
                            lemma_parse_record_is_scan_then_build(bytes, next, s2, tags, et, n);
                        },
                        Err(_) => {},
                    }
                },
            }
        },
        _ => {},
    }
}

/// Law: a record's parsed field mapping binds each scanned tag that is not
/// the end tag to the content of its *last* occurrence among the record's
/// scanned pairs.  `pairs` are the record's scanned (tag, content) pairs and
/// `i` is the index of the last occurrence of its tag.
pub proof fn lemma_record_last_write_wins(
    bytes: Seq<u8>,
    pairs: Seq<(Seq<u8>, Seq<u8>)>,
    tags: Seq<Seq<u8>>,
    et: Seq<u8>,
    n: int,
    i: int,
)
    requires
        n >= 1,
        scan_fields(bytes, 0, tags, n) == Ok::<Seq<(Seq<u8>, Seq<u8>)>, ()>(pairs),
        spec_parse_record(bytes, tags, et, n) is Ok,
        0 <= i < pairs.len(),
        pairs[i].0 != et,
        forall|j: int| i < j < pairs.len() ==> (#[trigger] pairs[j]).0 != pairs[i].0,
    ensures
        assoc_get(spec_parse_record(bytes, tags, et, n).unwrap(), pairs[i].0) == Some(pairs[i].1),
{
    lemma_parse_record_is_scan_then_build(bytes, 0, Seq::empty(), tags, et, n);
    lemma_scalar_last_write_wins(Seq::empty(), pairs, tags, et, n, i);
}

/// Law: within one record, each tag that is not a list tag keeps the content
/// of its *last* occurrence — later occurrences overwrite earlier ones.  `i`
/// is the index of the last occurrence of its tag in the record's pairs.
pub proof fn lemma_scalar_last_write_wins(
    state: Seq<(Seq<u8>, Seq<u8>)>,
    pairs: Seq<(Seq<u8>, Seq<u8>)>,
    allowed: Seq<Seq<u8>>,
    end_tag: Seq<u8>,
    n: int,
    i: int,
)
    requires
        0 <= i < pairs.len(),
        pairs[i].0 != end_tag,
        forall|j: int| i < j < pairs.len() ==> (#[trigger] pairs[j]).0 != pairs[i].0,
        build_from(state, pairs, allowed, end_tag, n) is Ok,
    ensures
        assoc_get(build_from(state, pairs, allowed, end_tag, n).unwrap(), pairs[i].0) == Some(
            pairs[i].1,
        ),
    decreases pairs.len(),
{
    let s2 = handle_pair(state, pairs[0].0, pairs[0].1, allowed, end_tag, n).unwrap();
    if i == 0 {
        lemma_assoc_set_get_same(state, pairs[0].0, pairs[0].1);
        assert forall|j: int| 0 <= j < pairs.drop_first().len() implies (#[trigger] pairs.drop_first()[j]).0
            != pairs[0].0 by {
            assert(pairs.drop_first()[j] == pairs[j + 1]);
        }
        lemma_build_from_preserves(s2, pairs.drop_first(), allowed, end_tag, n, pairs[0].0);
    } else {
        assert(pairs.drop_first()[i - 1] == pairs[i]);
        assert forall|j: int| i - 1 < j < pairs.drop_first().len() implies (#[trigger] pairs.drop_first()[j]).0
            != pairs.drop_first()[i - 1].0 by {
            assert(pairs.drop_first()[j] == pairs[j + 1]);
        }
        lemma_scalar_last_write_wins(s2, pairs.drop_first(), allowed, end_tag, n, i - 1);
    }
}

/// A list fold over pairs in which a tag never occurs leaves that tag's
/// contents alone.
pub proof fn lemma_build_list_preserves(
    scalar: Seq<(Seq<u8>, Seq<u8>)>,
    lists: Seq<(Seq<u8>, Seq<Seq<u8>>)>,
    pairs: Seq<(Seq<u8>, Seq<u8>)>,
    allowed: Seq<Seq<u8>>,
    list_tags: Seq<Seq<u8>>,
    end_tag: Seq<u8>,
    n: int,
    k: Seq<u8>,
)
    requires
        forall|j: int| 0 <= j < pairs.len() ==> (#[trigger] pairs[j]).0 != k,
        build_list_from(scalar, lists, pairs, allowed, list_tags, end_tag, n) is Ok,
    ensures
        assoc_get(
            build_list_from(scalar, lists, pairs, allowed, list_tags, end_tag, n).unwrap().1,
            k,
        ) == assoc_get(lists, k),
    decreases pairs.len(),
{
    if pairs.len() > 0 {
        let st2 = handle_list_pair(
            scalar,
            lists,
            pairs[0].0,
            pairs[0].1,
            allowed,
            list_tags,
            end_tag,
            n,
        ).unwrap();
        if st2.1 != lists {
            lemma_list_append_get_other(lists, pairs[0].0, pairs[0].1, k);
        }
        lemma_build_list_preserves(
            st2.0,
            st2.1,
            pairs.drop_first(),
            allowed,
            list_tags,
            end_tag,
            n,
            k,
        );
    }
}

/// A list fold over pairs in which a tag occurs exactly once appends that
/// occurrence's content to the tag's contents.
pub proof fn lemma_build_list_one_more(
    scalar: Seq<(Seq<u8>, Seq<u8>)>,
    lists: Seq<(Seq<u8>, Seq<Seq<u8>>)>,
    pairs: Seq<(Seq<u8>, Seq<u8>)>,
    allowed: Seq<Seq<u8>>,
    list_tags: Seq<Seq<u8>>,
    end_tag: Seq<u8>,
    n: int,
    j: int,
    pre: Seq<Seq<u8>>,
)
    requires
        0 <= j < pairs.len(),
        in_tags(list_tags, pairs[j].0),
        forall|m: int| 0 <= m < pairs.len() && m != j ==> (#[trigger] pairs[m]).0 != pairs[j].0,
        assoc_get(lists, pairs[j].0) == Some(pre),
        build_list_from(scalar, lists, pairs, allowed, list_tags, end_tag, n) is Ok,
    ensures
        assoc_get(
            build_list_from(scalar, lists, pairs, allowed, list_tags, end_tag, n).unwrap().1,
            pairs[j].0,
        ) == Some(pre.push(pairs[j].1)),
    decreases pairs.len(),
{
    let st2 = handle_list_pair(
        scalar,
        lists,
        pairs[0].0,
        pairs[0].1,
        allowed,
        list_tags,
        end_tag,
        n,
    ).unwrap();
    if j == 0 {
        lemma_list_append_get_same(lists, pairs[0].0, pairs[0].1);
        assert forall|m: int| 0 <= m < pairs.drop_first().len() implies (#[trigger] pairs.drop_first()[m]).0
            != pairs[0].0 by {
            assert(pairs.drop_first()[m] == pairs[m + 1]);
        }
        lemma_build_list_preserves(
            st2.0,
            st2.1,
            pairs.drop_first(),
            allowed,
            list_tags,
            end_tag,
            n,
            pairs[0].0,
        );
    } else {
        if st2.1 != lists {
            lemma_list_append_get_other(lists, pairs[0].0, pairs[0].1, pairs[j].0);
        }
        assert(pairs.drop_first()[j - 1] == pairs[j]);
        assert forall|m: int|
            0 <= m < pairs.drop_first().len() && m != j - 1 implies (#[trigger] pairs.drop_first()[m]).0
            != pairs.drop_first()[j - 1].0 by {
            assert(pairs.drop_first()[m] == pairs[m + 1]);
        }
        lemma_build_list_one_more(
            st2.0,
            st2.1,
            pairs.drop_first(),
            allowed,
            list_tags,
            end_tag,
            n,
            j - 1,
            pre,
        );
    }
}

/// Law: within one record, a list tag that occurs twice collects the two
/// occurrences' contents in source order.  `i` and `j` are the indices of
/// the two occurrences among the record's pairs.
pub proof fn lemma_list_tag_order(
    scalar: Seq<(Seq<u8>, Seq<u8>)>,
    lists: Seq<(Seq<u8>, Seq<Seq<u8>>)>,
    pairs: Seq<(Seq<u8>, Seq<u8>)>,
    allowed: Seq<Seq<u8>>,
    list_tags: Seq<Seq<u8>>,
    end_tag: Seq<u8>,
    n: int,
    i: int,
    j: int,
)
    requires
        0 <= i < j < pairs.len(),
        pairs[j].0 == pairs[i].0,
        in_tags(list_tags, pairs[i].0),
        forall|m: int| 0 <= m < pairs.len() && m != i && m != j ==> (#[trigger] pairs[m]).0 != pairs[i].0,
        assoc_get(lists, pairs[i].0) is None,
        build_list_from(scalar, lists, pairs, allowed, list_tags, end_tag, n) is Ok,
    ensures
        assoc_get(
            build_list_from(scalar, lists, pairs, allowed, list_tags, end_tag, n).unwrap().1,
            pairs[i].0,
        ) == Some(seq![pairs[i].1, pairs[j].1]),
    decreases pairs.len(),
{
    let st2 = handle_list_pair(
        scalar,
        lists,
        pairs[0].0,
        pairs[0].1,
        allowed,
        list_tags,
        end_tag,
        n,
    ).unwrap();
    if i == 0 {
        lemma_list_append_get_same(lists, pairs[0].0, pairs[0].1);
        assert(pairs.drop_first()[j - 1] == pairs[j]);
        assert forall|m: int|
            0 <= m < pairs.drop_first().len() && m != j - 1 implies (#[trigger] pairs.drop_first()[m]).0
            != pairs.drop_first()[j - 1].0 by {
            assert(pairs.drop_first()[m] == pairs[m + 1]);
        }
        lemma_build_list_one_more(
            st2.0,
            st2.1,
            pairs.drop_first(),
            allowed,
            list_tags,
            end_tag,
            n,
            j - 1,
            seq![pairs[0].1],
        );
        assert(seq![pairs[0].1].push(pairs[j].1) =~= seq![pairs[i].1, pairs[j].1]);
    } else {
        if st2.1 != lists {
            lemma_list_append_get_other(lists, pairs[0].0, pairs[0].1, pairs[i].0);
        }
        assert(pairs.drop_first()[i - 1] == pairs[i]);
        assert(pairs.drop_first()[j - 1] == pairs[j]);
        assert forall|m: int|
            0 <= m < pairs.drop_first().len() && m != i - 1 && m != j - 1 implies (
        #[trigger] pairs.drop_first()[m]).0 != pairs.drop_first()[i - 1].0 by {
            assert(pairs.drop_first()[m] == pairs[m + 1]);
        }
        lemma_list_tag_order(
            st2.0,
            st2.1,
            pairs.drop_first(),
            allowed,
            list_tags,
            end_tag,
            n,
            i - 1,
            j - 1,
        );
    }
}

} // verus!
