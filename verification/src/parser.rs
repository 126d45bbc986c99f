//! The parser's entry point: record splitting, then per-record field
//! extraction dispatched across a worker pool, collected in source order.
//!
//! The splitter runs sequentially, since it carries scan state across the
//! whole buffer.  Each record's bytes are then scanned and folded
//! independently: the per-record work reads only shared immutable data, so
//! the records are mapped in parallel, and the collection step re-establishes
//! source order by index.  If any record fails, the whole parse fails with
//! the first failure in source order; an unterminated record at the end of
//! the buffer fails the parse before any record is consulted.

use vstd::prelude::*;

use rayon::iter::IntoParallelRefIterator;
use rayon::iter::ParallelIterator;

use vstd::utf8::decode_utf8;
use vstd::utf8::decode_utf8_encode_utf8;
use vstd::utf8::encode_utf8;
use vstd::utf8::encode_utf8_decode_utf8;
use vstd::utf8::encode_utf8_valid_utf8;
use vstd::utf8::valid_utf8;

use crate::content_iter::ContentIterator;
use crate::content_iter::FieldStep;
use crate::content_iter::lemma_next_field;
use crate::content_iter::next_field;
use crate::error::Error;
use crate::error::ErrKind;
use crate::error::PResult;
use crate::error::kind_of;
use crate::hashmap_handler::HashMapHandler;
use crate::hashmap_handler::handle_pair;
use crate::hashmap_handler::raw_state;
use crate::ref_iter::ReferenceIterator;
use crate::scan::SplitStep;
use crate::scan::lemma_split_step;
use crate::scan::split_all;
use crate::scan::split_step;
use crate::scan::strip_bom;
use crate::utils::clone_string;
use crate::utils::tag_bytes;
use crate::utils::tag_vec;

verus! {

/// What one record's bytes parse to, over the raw model: the scan and the
/// fold interleaved, mirroring the way the scanner's pairs are fed to the
/// builder one by one.  `state` is the builder's raw state so far.
pub open spec fn parse_record_from(
    bytes: Seq<u8>,
    c: int,
    state: Seq<(Seq<u8>, Seq<u8>)>,
    allowed: Seq<Seq<u8>>,
    end_tag: Seq<u8>,
    n: int,
) -> Result<Seq<(Seq<u8>, Seq<u8>)>, ErrKind>
    decreases bytes.len() - c + 1,
{
    match next_field(bytes, c, allowed, n) {
        FieldStep::Done => Ok(state),
        FieldStep::Bad => Err(ErrKind::Malformed),
        FieldStep::Fld { tag, content, next } => {
            if c < next <= bytes.len() {
                match handle_pair(state, tag, content, allowed, end_tag, n) {
                    Err(k) => Err(k),
                    Ok(s2) => parse_record_from(bytes, next, s2, allowed, end_tag, n),
                }
            } else {
                Ok(state)
            }
        },
    }
}

/// What one record's bytes parse to, starting from an empty builder.
pub open spec fn spec_parse_record(
    bytes: Seq<u8>,
    allowed: Seq<Seq<u8>>,
    end_tag: Seq<u8>,
    n: int,
) -> Result<Seq<(Seq<u8>, Seq<u8>)>, ErrKind> {
    parse_record_from(bytes, 0, Seq::empty(), allowed, end_tag, n)
}

/// The per-record results in source order: the records' raw field mappings,
/// or the first failure.
pub open spec fn collect_records(
    recs: Seq<Seq<u8>>,
    allowed: Seq<Seq<u8>>,
    end_tag: Seq<u8>,
    n: int,
) -> Result<Seq<Seq<(Seq<u8>, Seq<u8>)>>, ErrKind>
    decreases recs.len(),
{
    if recs.len() == 0 {
        Ok(Seq::empty())
    } else {
        match spec_parse_record(recs[0], allowed, end_tag, n) {
            Err(k) => Err(k),
            Ok(rec) => match collect_records(recs.drop_first(), allowed, end_tag, n) {
                Ok(rest) => Ok(seq![rec].add(rest)),
                Err(k) => Err(k),
            },
        }
    }
}

/// What the whole input parses to: strip a leading byte-order mark, delimit
/// the records, then parse each record, all over the raw byte model.
pub open spec fn spec_parse(
    input: Seq<u8>,
    start_tag: Seq<u8>,
    end_tag: Seq<u8>,
    allowed: Seq<Seq<u8>>,
    n: int,
) -> Result<Seq<Seq<(Seq<u8>, Seq<u8>)>>, ErrKind> {
    let t = strip_bom(input);
    match split_all(t, 0, start_tag, end_tag) {
        Err(_) => Err(ErrKind::EndOfInput),
        Ok(recs) => collect_records(recs, allowed, end_tag, n),
    }
}

/// How an executable record (decoded strings) realizes a raw record (byte
/// pairs): same length, every raw pair valid UTF-8, and each string the
/// decoding of its raw bytes.
pub open spec fn rec_matches(v: Seq<(String, String)>, s: Seq<(Seq<u8>, Seq<u8>)>) -> bool {
    &&& v.len() == s.len()
    &&& forall|i: int|
        0 <= i < s.len() ==> {
            &&& valid_utf8((#[trigger] s[i]).0)
            &&& valid_utf8(s[i].1)
            &&& v[i].0@ == decode_utf8(s[i].0)
            &&& v[i].1@ == decode_utf8(s[i].1)
        }
}

/// How an executable per-record result realizes a raw one.
pub open spec fn rec_result_matches(
    r: PResult<Vec<(String, String)>>,
    s: Result<Seq<(Seq<u8>, Seq<u8>)>, ErrKind>,
) -> bool {
    match r {
        Ok(v) => s matches Ok(sv) && rec_matches(v@, sv),
        Err(e) => s matches Err(k) && kind_of(e) == k,
    }
}

/// How the executable parse result realizes the raw one.
pub open spec fn parse_result_matches(
    r: PResult<Vec<Vec<(String, String)>>>,
    s: Result<Seq<Seq<(Seq<u8>, Seq<u8>)>>, ErrKind>,
) -> bool {
    match r {
        Ok(v) => s matches Ok(sv) && v@.len() == sv.len() && (forall|i: int|
            0 <= i < sv.len() ==> rec_matches((#[trigger] v@[i])@, sv[i])),
        Err(e) => s matches Err(k) && kind_of(e) == k,
    }
}

/// The standard allowed-tag vocabulary, in the order the parser declares it.
pub open spec fn default_allowed_tags() -> Seq<Seq<u8>> {
    seq![
        tag_bytes(84, 89),
        tag_bytes(65, 49),
        tag_bytes(65, 50),
        tag_bytes(65, 51),
        tag_bytes(65, 52),
        tag_bytes(65, 66),
        tag_bytes(65, 68),
        tag_bytes(65, 78),
        tag_bytes(65, 85),
        tag_bytes(67, 49),
        tag_bytes(67, 50),
        tag_bytes(67, 51),
        tag_bytes(67, 52),
        tag_bytes(67, 53),
        tag_bytes(67, 54),
        tag_bytes(67, 55),
        tag_bytes(67, 56),
        tag_bytes(67, 65),
        tag_bytes(67, 78),
        tag_bytes(67, 89),
        tag_bytes(68, 65),
        tag_bytes(68, 66),
        tag_bytes(68, 79),
        tag_bytes(68, 80),
        tag_bytes(69, 84),
        tag_bytes(69, 80),
        tag_bytes(73, 68),
        tag_bytes(73, 83),
        tag_bytes(74, 50),
        tag_bytes(74, 65),
        tag_bytes(74, 70),
        tag_bytes(74, 79),
        tag_bytes(75, 87),
        tag_bytes(76, 49),
        tag_bytes(76, 50),
        tag_bytes(76, 52),
        tag_bytes(76, 65),
        tag_bytes(76, 66),
        tag_bytes(77, 49),
        tag_bytes(77, 51),
        tag_bytes(78, 49),
        tag_bytes(78, 50),
        tag_bytes(78, 86),
        tag_bytes(79, 80),
        tag_bytes(80, 66),
        tag_bytes(80, 89),
        tag_bytes(82, 73),
        tag_bytes(82, 78),
        tag_bytes(82, 80),
        tag_bytes(83, 69),
        tag_bytes(83, 78),
        tag_bytes(83, 80),
        tag_bytes(83, 84),
        tag_bytes(84, 49),
        tag_bytes(84, 50),
        tag_bytes(84, 51),
        tag_bytes(84, 65),
        tag_bytes(84, 73),
        tag_bytes(84, 84),
        tag_bytes(85, 82),
        tag_bytes(86, 76),
        tag_bytes(89, 49),
        tag_bytes(89, 50),
        tag_bytes(85, 75),
        tag_bytes(69, 82)
    ]
}

/// An `Error` with the same kind as `e` (the message is carried over too).
fn clone_error(e: &Error) -> (r: Error)
    ensures
        kind_of(r) == kind_of(*e),
{
    match e {
        Error::EOF => Error::EOF,
        Error::UnknownTag(s) => Error::UnknownTag(clone_string(s)),
        Error::ParserError(s) => Error::ParserError(clone_string(s)),
    }
}

/// Relies on rayon's `par_iter`/`map`/`collect` over a `Vec`: the collected
/// vector holds the closure's result for each element, in the order of the
/// inputs.  The closure only calls the verified `parse_reference`, whose
/// contract pins each result down.
#[verifier::external_body]
fn par_map_records(parser: &RisParser, records: &Vec<Vec<u8>>) -> (r: Vec<
    PResult<Vec<(String, String)>>,
>)
    requires
        parser.wf(),
    ensures
        r@.len() == records@.len(),
        forall|i: int|
            0 <= i < records@.len() ==> rec_result_matches(
                #[trigger] r@[i],
                spec_parse_record(
                    records@[i]@,
                    parser.allowed_tags.deep_view(),
                    parser.end_tag@,
                    parser.start_tag@.len() as int,
                ),
            ),
{
    records.par_iter().map(|rec| parser.parse_reference(rec.as_slice())).collect()
}

/// The parser: a start tag, an end tag, and the allowed-tag vocabulary, all
/// of one width.
#[derive(Debug, Clone)]
pub struct RisParser {
    pub start_tag: Vec<u8>,
    pub end_tag: Vec<u8>,
    pub allowed_tags: Vec<Vec<u8>>,
}

impl RisParser {
    /// The tag width this parser is configured for.
    pub open spec fn n(&self) -> int {
        self.start_tag@.len() as int
    }

    /// Well-formedness: a positive shared tag width.
    pub open spec fn wf(&self) -> bool {
        &&& self.start_tag@.len() >= 1
        &&& self.end_tag@.len() == self.n()
        &&& forall|i: int|
            0 <= i < self.allowed_tags@.len() ==> (#[trigger] self.allowed_tags@[i])@.len()
                == self.n()
    }

    /// Parses one record's bytes into its field mapping: the record's (tag,
    /// content) pairs are scanned in order and folded scalar-wise (last
    /// write wins, end tag discarded), exactly as
    /// [`spec_parse_record`] describes over the raw model.
    #[verifier::loop_isolation(false)]
    pub fn parse_reference(&self, input: &[u8]) -> (r: PResult<Vec<(String, String)>>)
        requires
            self.wf(),
        ensures
            rec_result_matches(
                r,
                spec_parse_record(
                    input@,
                    self.allowed_tags.deep_view(),
                    self.end_tag@,
                    self.n(),
                ),
            ),
    {
        let ghost tags = self.allowed_tags.deep_view();
        let ghost et = self.end_tag@;
        let ghost n = self.n();
        let mut handler = HashMapHandler::new(
            self.start_tag.as_slice(),
            self.end_tag.as_slice(),
            &self.allowed_tags,
        );
        let mut it = ContentIterator::new(&self.allowed_tags, self.start_tag.len(), input);
        proof {
            assert(raw_state(handler.state@) =~= Seq::<(Seq<u8>, Seq<u8>)>::empty());
        }
        loop
            invariant
                it.wf(),
                handler.wf(),
                it.allowed_tags.deep_view() == tags,
                it.tag_len == self.start_tag@.len(),
                it.text@ == input@,
                handler.start_tag@ == self.start_tag@,
                handler.end_tag@ == et,
                handler.allowed_tags.deep_view() == tags,
                spec_parse_record(input@, tags, et, n) == parse_record_from(
                    input@,
                    it.cursor as int,
                    raw_state(handler.state@),
                    tags,
                    et,
                    n,
                ),
            decreases it.text@.len() - it.cursor,
        {
            let ghost c = it.cursor as int;
            let ghost state0 = raw_state(handler.state@);
            proof {
                lemma_next_field(input@, c, tags, n);
            }
            match it.next() {
                None => {
                    break ;
                },
                Some(res) => {
                    match res {
                        Err(e) => {
                            return Err(e);
                        },
                        Ok((tag, content)) => {
                            match handler.handle(tag.as_slice(), content.as_slice()) {
                                Err(e) => {
                                    return Err(e);
                                },
                                Ok(()) => {},
                            }
                        },
                    }
                },
            }
        }
        let ghost state = handler.state@;
        let out = handler.finish();
        proof {
            assert forall|i: int| 0 <= i < state.len() implies {
                &&& valid_utf8((#[trigger] raw_state(state)[i]).0)
                &&& valid_utf8(raw_state(state)[i].1)
                &&& out@[i].0@ == decode_utf8(raw_state(state)[i].0)
                &&& out@[i].1@ == decode_utf8(raw_state(state)[i].1)
            } by {
                encode_utf8_valid_utf8(state[i].content@);
                encode_utf8_decode_utf8(state[i].content@);
            }
        }
        Ok(out)
    }

    /// The public entry point.  Splits the input into records, parses the
    /// records in parallel, and collects the field mappings in source order;
    /// fails with the first failure in source order, or with `Error::EOF` if
    /// the final record is unterminated, exactly as [`spec_parse`] describes
    /// over the raw model.
    #[verifier::loop_isolation(false)]
    pub fn parse(&self, input: &[u8]) -> (r: PResult<Vec<Vec<(String, String)>>>)
        requires
            self.wf(),
        ensures
            parse_result_matches(
                r,
                spec_parse(
                    input@,
                    self.start_tag@,
                    self.end_tag@,
                    self.allowed_tags.deep_view(),
                    self.n(),
                ),
            ),
    {
        let ghost st = self.start_tag@;
        let ghost et = self.end_tag@;
        let ghost tags = self.allowed_tags.deep_view();
        let ghost n = self.n();
        let mut it = ReferenceIterator::new(
            self.start_tag.as_slice(),
            self.end_tag.as_slice(),
            input,
        );
        let ghost text = it.text@;
        let mut raw: Vec<Vec<u8>> = Vec::new();
        let ghost mut full: Seq<Seq<u8>> = Seq::empty();
        let mut done = false;
        while !done
            invariant
                it.wf(),
                it.start_tag@ == st,
                it.end_tag@ == et,
                it.text@ == text,
                text == strip_bom(input@),
                raw@.len() == full.len(),
                forall|k: int| 0 <= k < full.len() ==> (#[trigger] raw@[k])@ == full[k],
                ({
                    match split_all(text, it.cursor as int, st, et) {
                        Ok(rest) => split_all(text, 0, st, et) == Ok::<Seq<Seq<u8>>, ()>(
                            full.add(rest),
                        ),
                        Err(e) => split_all(text, 0, st, et) is Err,
                    }
                }),
                done ==> split_all(text, 0, st, et) == Ok::<Seq<Seq<u8>>, ()>(full),
            decreases it.text@.len() - it.cursor + if done {
                0int
            } else {
                1int
            },
        {
            let ghost c = it.cursor as int;
            proof {
                lemma_split_step(text, c, st, et);
            }
            match it.next() {
                None => {
                    proof {
                        assert(split_all(text, c, st, et) == Ok::<Seq<Seq<u8>>, ()>(
                            Seq::empty(),
                        ));
                        assert(full.add(Seq::<Seq<u8>>::empty()) =~= full);
                    }
                    done = true;
                },
                Some(res) => {
                    match res {
                        Err(e) => {
                            return Err(e);
                        },
                        Ok(rec) => {
                            let ghost prev = full;
                            proof {
                                full = full.push(rec@);
                            }
                            raw.push(rec);
                            proof {
                                match split_step(text, c, st, et) {
                                    SplitStep::Rec { lo, hi, next } => {
                                        assert(rec@ == text.subrange(lo, hi));
                                        match split_all(text, next, st, et) {
                                            Ok(rest2) => {
                                                assert(split_all(text, c, st, et) == Ok::<
                                                    Seq<Seq<u8>>,
                                                    (),
                                                >(seq![text.subrange(lo, hi)].add(rest2)));
                                                assert(full.add(rest2) =~= prev.add(
                                                    seq![text.subrange(lo, hi)].add(rest2),
                                                ));
                                            },
                                            Err(_) => {},
                                        }
                                    },
                                    _ => {},
                                }
                            }
                        },
                    }
                },
            }
        }
        let results = par_map_records(self, &raw);
        proof {
            assert forall|k: int| 0 <= k < full.len() implies rec_result_matches(
                #[trigger] results@[k],
                spec_parse_record(full[k], tags, et, n),
            ) by {
                assert(raw@[k]@ == full[k]);
            }
        }
        let mut out: Vec<Vec<(String, String)>> = Vec::new();
        let ghost mut acc: Seq<Seq<(Seq<u8>, Seq<u8>)>> = Seq::empty();
        proof {
            assert(full.skip(0) =~= full);
            match collect_records(full, tags, et, n) {
                Ok(rest) => {
                    assert(Seq::<Seq<(Seq<u8>, Seq<u8>)>>::empty().add(rest) =~= rest);
                },
                Err(_) => {},
            }
        }
        let mut i: usize = 0;
        while i < results.len()
            invariant
                i <= results@.len(),
                results@.len() == full.len(),
                forall|k: int|
                    0 <= k < full.len() ==> rec_result_matches(
                        #[trigger] results@[k],
                        spec_parse_record(full[k], tags, et, n),
                    ),
                out@.len() == i,
                acc.len() == i,
                forall|k: int|
                    0 <= k < i ==> spec_parse_record(full[k], tags, et, n) == Ok::<
                        Seq<(Seq<u8>, Seq<u8>)>,
                        ErrKind,
                    >(acc[k]),
                forall|k: int| 0 <= k < i ==> rec_matches((#[trigger] out@[k])@, acc[k]),
                ({
                    match collect_records(full.skip(i as int), tags, et, n) {
                        Ok(rest) => collect_records(full, tags, et, n) == Ok::<
                            Seq<Seq<(Seq<u8>, Seq<u8>)>>,
                            ErrKind,
                        >(acc.add(rest)),
                        Err(k) => collect_records(full, tags, et, n) == Err::<
                            Seq<Seq<(Seq<u8>, Seq<u8>)>>,
                            ErrKind,
                        >(k),
                    }
                }),
            decreases results@.len() - i,
        {
            let ghost sk = full.skip(i as int);
            proof {
                assert(sk.len() == full.len() - i);
                assert(sk[0] == full[i as int]);
                assert(sk.drop_first() =~= full.skip(i as int + 1));
            }
            match &results[i] {
                Err(e) => {
                    return Err(clone_error(e));
                },
                Ok(rec) => {
                    let mut copy: Vec<(String, String)> = Vec::new();
                    let mut j: usize = 0;
                    while j < rec.len()
                        invariant
                            0 <= i < results@.len(),
                            results@[i as int] matches Ok(rv) && rv == *rec,
                            j <= rec@.len(),
                            copy@.len() == j,
                            forall|k: int|
                                0 <= k < j ==> (#[trigger] copy@[k]).0@ == rec@[k].0@
                                    && copy@[k].1@ == rec@[k].1@,
                        decreases rec@.len() - j,
                    {
                        copy.push((clone_string(&rec[j].0), clone_string(&rec[j].1)));
                        j += 1;
                    }
                    out.push(copy);
                    proof {
                        match spec_parse_record(full[i as int], tags, et, n) {
                            Ok(srec) => {
                                let prev_acc = acc;
                                acc = acc.push(srec);
                                assert(full.skip(i as int + 1) =~= sk.drop_first());
                                match collect_records(full.skip(i as int + 1), tags, et, n) {
                                    Ok(rest2) => {
                                        assert(acc.add(rest2) =~= prev_acc.add(
                                            seq![srec].add(rest2),
                                        ));
                                    },
                                    Err(_) => {},
                                }
                            },
                            Err(_) => {},
                        }
                    }
                },
            }
            i += 1;
        }
        proof {
            assert(full.skip(i as int) =~= Seq::<Seq<u8>>::empty());
            assert(collect_records(full, tags, et, n) == Ok::<
                Seq<Seq<(Seq<u8>, Seq<u8>)>>,
                ErrKind,
            >(acc));
        }
        Ok(out)
    }
}

impl Default for RisParser {
    /// The standard parser: start tag `"TY  - "`, end tag `"ER  - "`, and
    /// the standard allowed-tag vocabulary.
    #[verifier::rlimit(100)]
    fn default() -> (r: Self)
        ensures
            r.wf(),
            r.start_tag@ == tag_bytes(84, 89),
            r.end_tag@ == tag_bytes(69, 82),
            r.allowed_tags.deep_view() == default_allowed_tags(),
    {
        let mut tags: Vec<Vec<u8>> = Vec::new();
        tags.push(tag_vec(84, 89));
        tags.push(tag_vec(65, 49));
        tags.push(tag_vec(65, 50));
        tags.push(tag_vec(65, 51));
        tags.push(tag_vec(65, 52));
        tags.push(tag_vec(65, 66));
        tags.push(tag_vec(65, 68));
        tags.push(tag_vec(65, 78));
        tags.push(tag_vec(65, 85));
        tags.push(tag_vec(67, 49));
        tags.push(tag_vec(67, 50));
        tags.push(tag_vec(67, 51));
        tags.push(tag_vec(67, 52));
        tags.push(tag_vec(67, 53));
        tags.push(tag_vec(67, 54));
        tags.push(tag_vec(67, 55));
        tags.push(tag_vec(67, 56));
        tags.push(tag_vec(67, 65));
        tags.push(tag_vec(67, 78));
        tags.push(tag_vec(67, 89));
        tags.push(tag_vec(68, 65));
        tags.push(tag_vec(68, 66));
        tags.push(tag_vec(68, 79));
        tags.push(tag_vec(68, 80));
        tags.push(tag_vec(69, 84));
        tags.push(tag_vec(69, 80));
        tags.push(tag_vec(73, 68));
        tags.push(tag_vec(73, 83));
        tags.push(tag_vec(74, 50));
        tags.push(tag_vec(74, 65));
        tags.push(tag_vec(74, 70));
        tags.push(tag_vec(74, 79));
        tags.push(tag_vec(75, 87));
        tags.push(tag_vec(76, 49));
        tags.push(tag_vec(76, 50));
        tags.push(tag_vec(76, 52));
        tags.push(tag_vec(76, 65));
        tags.push(tag_vec(76, 66));
        tags.push(tag_vec(77, 49));
        tags.push(tag_vec(77, 51));
        tags.push(tag_vec(78, 49));
        tags.push(tag_vec(78, 50));
        tags.push(tag_vec(78, 86));
        tags.push(tag_vec(79, 80));
        tags.push(tag_vec(80, 66));
        tags.push(tag_vec(80, 89));
        tags.push(tag_vec(82, 73));
        tags.push(tag_vec(82, 78));
        tags.push(tag_vec(82, 80));
        tags.push(tag_vec(83, 69));
        tags.push(tag_vec(83, 78));
        tags.push(tag_vec(83, 80));
        tags.push(tag_vec(83, 84));
        tags.push(tag_vec(84, 49));
        tags.push(tag_vec(84, 50));
        tags.push(tag_vec(84, 51));
        tags.push(tag_vec(84, 65));
        tags.push(tag_vec(84, 73));
        tags.push(tag_vec(84, 84));
        tags.push(tag_vec(85, 82));
        tags.push(tag_vec(86, 76));
        tags.push(tag_vec(89, 49));
        tags.push(tag_vec(89, 50));
        tags.push(tag_vec(85, 75));
        tags.push(tag_vec(69, 82));
        proof {
            assert(tags.deep_view() =~~= default_allowed_tags());
        }
        RisParser { start_tag: tag_vec(84, 89), end_tag: tag_vec(69, 82), allowed_tags: tags }
    }
}

} // verus!
