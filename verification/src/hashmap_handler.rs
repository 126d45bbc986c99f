//! The record builder: folds a record's (tag, content) pairs into a field
//! mapping in which each tag holds at most one value, later occurrences
//! overwriting earlier ones (last write wins).
//!
//! The mapping is held as a vector of entries with pairwise-distinct tags, in
//! first-insertion order; an overwrite replaces the value in place.  The
//! contracts model it as a sequence of raw (tag bytes, content bytes) pairs —
//! [`raw_state`] — and each operation is pinned down over that model.

use vstd::prelude::*;

use vstd::slice::slice_to_vec;
use vstd::utf8::decode_utf8;
use vstd::utf8::decode_utf8_encode_utf8;
use vstd::utf8::encode_utf8;
use vstd::utf8::valid_utf8;

use crate::error::Error;
use crate::error::ErrKind;
use crate::error::PResult;
use crate::error::kind_of;
use crate::utils::clone_bytes;
use crate::utils::clone_string;
use crate::utils::contains_tag;
use crate::utils::eq_bytes;
use crate::utils::in_tags;
use crate::utils::utf8_to_string;

verus! {

/// The index of the first pair in `s` whose tag is `k`, looking from `i` on;
/// `s.len()` if there is none.
pub open spec fn assoc_idx_from<V>(s: Seq<(Seq<u8>, V)>, k: Seq<u8>, i: int) -> int
    decreases s.len() - i,
{
    if i < 0 || i >= s.len() {
        s.len() as int
    } else if s[i].0 == k {
        i
    } else {
        assoc_idx_from(s, k, i + 1)
    }
}

/// The index of the first pair in `s` whose tag is `k`, or `s.len()` if none.
pub open spec fn assoc_idx<V>(s: Seq<(Seq<u8>, V)>, k: Seq<u8>) -> int {
    assoc_idx_from(s, k, 0)
}

/// Binds `v` to the tag `k`: overwrites the value of the pair already
/// holding `k`, or appends a new pair.
pub open spec fn assoc_set(s: Seq<(Seq<u8>, Seq<u8>)>, k: Seq<u8>, v: Seq<u8>) -> Seq<
    (Seq<u8>, Seq<u8>),
> {
    if assoc_idx(s, k) < s.len() {
        s.update(assoc_idx(s, k), (k, v))
    } else {
        s.push((k, v))
    }
}

/// The value bound to `k` in `s`, if any.
pub open spec fn assoc_get<V>(s: Seq<(Seq<u8>, V)>, k: Seq<u8>) -> Option<V> {
    if assoc_idx(s, k) < s.len() {
        Some(s[assoc_idx(s, k)].1)
    } else {
        None
    }
}

pub proof fn lemma_assoc_idx_from<V>(s: Seq<(Seq<u8>, V)>, k: Seq<u8>, i: int)
    requires
        0 <= i <= s.len(),
    ensures
        ({
            let r = assoc_idx_from(s, k, i);
            &&& i <= r <= s.len()
            &&& r < s.len() ==> s[r].0 == k
            &&& forall|j: int| i <= j < r ==> s[j].0 != k
        }),
    decreases s.len() - i,
{
    if i < s.len() && s[i].0 != k {
        lemma_assoc_idx_from(s, k, i + 1);
    }
}

/// What the builder does with one (tag, content) pair, over the raw model:
/// reject a tag of the wrong width or outside the allowed set; discard the
/// end tag; reject a tag or content span that is not valid UTF-8; otherwise
/// bind the content to the tag, overwriting any earlier value.
pub open spec fn handle_pair(
    s: Seq<(Seq<u8>, Seq<u8>)>,
    tag: Seq<u8>,
    content: Seq<u8>,
    allowed: Seq<Seq<u8>>,
    end_tag: Seq<u8>,
    n: int,
) -> Result<Seq<(Seq<u8>, Seq<u8>)>, ErrKind> {
    if tag.len() != n {
        Err(ErrKind::BadTag)
    } else if !in_tags(allowed, tag) {
        Err(ErrKind::BadTag)
    } else if tag == end_tag {
        Ok(s)
    } else if !valid_utf8(tag) {
        Err(ErrKind::Malformed)
    } else if !valid_utf8(content) {
        Err(ErrKind::Malformed)
    } else {
        Ok(assoc_set(s, tag, content))
    }
}

/// The builder's fold over a whole sequence of pairs, starting from state
/// `s`: the final state, or the first error.
pub open spec fn build_from(
    s: Seq<(Seq<u8>, Seq<u8>)>,
    pairs: Seq<(Seq<u8>, Seq<u8>)>,
    allowed: Seq<Seq<u8>>,
    end_tag: Seq<u8>,
    n: int,
) -> Result<Seq<(Seq<u8>, Seq<u8>)>, ErrKind>
    decreases pairs.len(),
{
    if pairs.len() == 0 {
        Ok(s)
    } else {
        match handle_pair(s, pairs[0].0, pairs[0].1, allowed, end_tag, n) {
            Err(k) => Err(k),
            Ok(s2) => build_from(s2, pairs.drop_first(), allowed, end_tag, n),
        }
    }
}

/// One field held by the builder: the tag's raw bytes beside the decoded
/// tag and content strings.
#[derive(Debug, Clone)]
pub struct FieldEntry {
    pub tag_bytes: Vec<u8>,
    pub tag: String,
    pub content: String,
}

/// The raw model of the builder's state: each entry as its (tag bytes,
/// content bytes) pair, the content re-encoded from the held string.
pub open spec fn raw_state(s: Seq<FieldEntry>) -> Seq<(Seq<u8>, Seq<u8>)> {
    Seq::new(s.len(), |i: int| (s[i].tag_bytes@, encode_utf8(s[i].content@)))
}

/// The record builder, configured with a start tag, an end tag and the set
/// of allowed tags, all of one width.
#[derive(Debug, Clone)]
pub struct HashMapHandler {
    pub start_tag: Vec<u8>,
    pub end_tag: Vec<u8>,
    pub allowed_tags: Vec<Vec<u8>>,
    pub state: Vec<FieldEntry>,
}

impl HashMapHandler {
    /// The tag width this builder is configured for.
    pub open spec fn n(&self) -> int {
        self.start_tag@.len() as int
    }

    /// Well-formedness: the tags share one width, and every held entry's
    /// strings are the decodings of valid UTF-8 bytes.
    pub open spec fn wf(&self) -> bool {
        &&& self.end_tag@.len() == self.n()
        &&& forall|i: int|
            0 <= i < self.allowed_tags@.len() ==> (#[trigger] self.allowed_tags@[i])@.len()
                == self.n()
        &&& forall|i: int|
            0 <= i < self.state@.len() ==> {
                &&& valid_utf8((#[trigger] self.state@[i]).tag_bytes@)
                &&& self.state@[i].tag@ == decode_utf8(self.state@[i].tag_bytes@)
            }
    }

    /// The configuration fields, which `handle` never changes.
    pub open spec fn same_config(&self, other: &Self) -> bool {
        &&& self.start_tag@ == other.start_tag@
        &&& self.end_tag@ == other.end_tag@
        &&& self.allowed_tags.deep_view() == other.allowed_tags.deep_view()
    }

    pub fn new(start_tag: &[u8], end_tag: &[u8], allowed_tags: &Vec<Vec<u8>>) -> (r: Self)
        requires
            end_tag@.len() == start_tag@.len(),
            forall|i: int|
                0 <= i < allowed_tags@.len() ==> (#[trigger] allowed_tags@[i])@.len()
                    == start_tag@.len(),
        ensures
            r.wf(),
            r.start_tag@ == start_tag@,
            r.end_tag@ == end_tag@,
            r.allowed_tags.deep_view() == allowed_tags.deep_view(),
            r.state@.len() == 0,
    {
        let mut tags: Vec<Vec<u8>> = Vec::new();
        let mut i: usize = 0;
        while i < allowed_tags.len()
            invariant
                i <= allowed_tags@.len(),
                tags@.len() == i,
                forall|k: int| 0 <= k < i ==> (#[trigger] tags@[k])@ == allowed_tags@[k]@,
            decreases allowed_tags@.len() - i,
        {
            tags.push(clone_bytes(&allowed_tags[i]));
            i += 1;
        }
        proof {
            assert(tags.deep_view() =~= allowed_tags.deep_view());
        }
        HashMapHandler {
            start_tag: slice_to_vec(start_tag),
            end_tag: slice_to_vec(end_tag),
            allowed_tags: tags,
            state: Vec::new(),
        }
    }

    pub fn start_tag(&self) -> (r: &Vec<u8>)
        ensures
            r@ == self.start_tag@,
    {
        &self.start_tag
    }

    pub fn end_tag(&self) -> (r: &Vec<u8>)
        ensures
            r@ == self.end_tag@,
    {
        &self.end_tag
    }

    pub fn allowed_tags(&self) -> (r: &Vec<Vec<u8>>)
        ensures
            r.deep_view() == self.allowed_tags.deep_view(),
    {
        &self.allowed_tags
    }

    /// Feeds one (tag, content) pair to the builder, exactly as
    /// [`handle_pair`] describes over the raw model.
    #[verifier::loop_isolation(false)]
    pub fn handle(&mut self, tag: &[u8], content: &[u8]) -> (r: PResult<()>)
        requires
            old(self).wf(),
        ensures
            final(self).wf(),
            final(self).same_config(old(self)),
            ({
                let step = handle_pair(
                    raw_state(old(self).state@),
                    tag@,
                    content@,
                    old(self).allowed_tags.deep_view(),
                    old(self).end_tag@,
                    old(self).n(),
                );
                match step {
                    Ok(s2) => r is Ok && raw_state(final(self).state@) == s2,
                    Err(k) => (r matches Err(e) && kind_of(e) == k) && final(self).state@ == old(
                        self,
                    ).state@,
                }
            }),
    {
        let ghost raw0 = raw_state(self.state@);
        if tag.len() != self.start_tag.len() {
            return Err(Error::unknown_width());
        }
        if !contains_tag(&self.allowed_tags, tag) {
            return Err(Error::unknown_tag());
        }
        if eq_bytes(tag, self.end_tag.as_slice()) {
            return Ok(());
        }
        let tag_string = match utf8_to_string(tag) {
            None => {
                return Err(Error::invalid_text());
            },
            Some(s) => s,
        };
        let content_string = match utf8_to_string(content) {
            None => {
                return Err(Error::invalid_text());
            },
            Some(s) => s,
        };
        proof {
            decode_utf8_encode_utf8(tag@);
            decode_utf8_encode_utf8(content@);
        }
        let mut i: usize = 0;
        while i < self.state.len()
            invariant
                i <= self.state@.len(),
                *self == *old(self),
                raw0 == raw_state(self.state@),
                raw0.len() == self.state@.len(),
                assoc_idx(raw0, tag@) == assoc_idx_from(raw0, tag@, i as int),
            decreases self.state@.len() - i,
        {
            if eq_bytes(self.state[i].tag_bytes.as_slice(), tag) {
                proof {
                    assert(raw0[i as int].0 == tag@);
                    assert(assoc_idx(raw0, tag@) == i);
                }
                self.state[i] = FieldEntry {
                    tag_bytes: slice_to_vec(tag),
                    tag: tag_string,
                    content: content_string,
                };
                proof {
                    assert(raw_state(self.state@) =~= assoc_set(raw0, tag@, content@));
                }
                return Ok(());
            }
            proof {
                assert(raw0[i as int].0 == self.state@[i as int].tag_bytes@);
            }
            i += 1;
        }
        proof {
            assert(assoc_idx(raw0, tag@) == raw0.len());
        }
        self.state.push(
            FieldEntry { tag_bytes: slice_to_vec(tag), tag: tag_string, content: content_string },
        );
        proof {
            assert(raw_state(self.state@) =~= assoc_set(raw0, tag@, content@));
        }
        Ok(())
    }

    /// Yields the completed record: the held (tag, content) strings, in
    /// first-insertion order.
    pub fn finish(self) -> (r: Vec<(String, String)>)
        ensures
            r@.len() == self.state@.len(),
            forall|i: int|
                0 <= i < self.state@.len() ==> (#[trigger] r@[i]).0@ == self.state@[i].tag@
                    && r@[i].1@ == self.state@[i].content@,
    {
        let mut out: Vec<(String, String)> = Vec::new();
        let mut i: usize = 0;
        while i < self.state.len()
            invariant
                i <= self.state@.len(),
                out@.len() == i,
                forall|k: int|
                    0 <= k < i ==> (#[trigger] out@[k]).0@ == self.state@[k].tag@ && out@[k].1@
                        == self.state@[k].content@,
            decreases self.state@.len() - i,
        {
            out.push((clone_string(&self.state[i].tag), clone_string(&self.state[i].content)));
            i += 1;
        }
        out
    }
}

} // verus!
