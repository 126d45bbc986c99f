//! The record builder's list variant: tags declared as *list tags* collect
//! every occurrence's content in source order, while all other tags keep the
//! scalar last-write-wins policy of [`crate::hashmap_handler::HashMapHandler`].

use vstd::prelude::*;

use vstd::slice::slice_to_vec;
use vstd::utf8::decode_utf8;
use vstd::utf8::decode_utf8_encode_utf8;
use vstd::utf8::encode_utf8;
use vstd::utf8::valid_utf8;

use crate::error::Error;
use crate::error::ErrKind;
use crate::error::PResult;
use crate::error::kind_of;
use crate::hashmap_handler::HashMapHandler;
use crate::hashmap_handler::assoc_idx;
use crate::hashmap_handler::assoc_idx_from;
use crate::hashmap_handler::handle_pair;
use crate::hashmap_handler::raw_state;
use crate::utils::clone_bytes;
use crate::utils::clone_string;
use crate::utils::contains_tag;
use crate::utils::eq_bytes;
use crate::utils::in_tags;
use crate::utils::utf8_to_string;

verus! {

/// A field value as a consumer sees it: a single content string for a scalar
/// tag, or the ordered contents of a repeated list tag.
#[derive(Debug, Clone, PartialEq, Eq)]
pub enum ListOrItem<T> {
    List(Vec<T>),
    Item(T),
}

/// Appends `v` to the ordered contents bound to the list tag `k`: extends the
/// pair already holding `k`, or appends a new pair holding only `v`.
pub open spec fn list_append(
    s: Seq<(Seq<u8>, Seq<Seq<u8>>)>,
    k: Seq<u8>,
    v: Seq<u8>,
) -> Seq<(Seq<u8>, Seq<Seq<u8>>)> {
    if assoc_idx(s, k) < s.len() {
        s.update(assoc_idx(s, k), (k, s[assoc_idx(s, k)].1.push(v)))
    } else {
        s.push((k, seq![v]))
    }
}

/// What the list builder does with one (tag, content) pair, over the raw
/// models of the scalar state and the list state: a tag of the wrong width is
/// rejected; a list tag's content is appended to its ordered list (after
/// UTF-8 validation); any other tag is handed to the scalar builder.
pub open spec fn handle_list_pair(
    scalar: Seq<(Seq<u8>, Seq<u8>)>,
    lists: Seq<(Seq<u8>, Seq<Seq<u8>>)>,
    tag: Seq<u8>,
    content: Seq<u8>,
    allowed: Seq<Seq<u8>>,
    list_tags: Seq<Seq<u8>>,
    end_tag: Seq<u8>,
    n: int,
) -> Result<(Seq<(Seq<u8>, Seq<u8>)>, Seq<(Seq<u8>, Seq<Seq<u8>>)>), ErrKind> {
    if tag.len() != n {
        Err(ErrKind::BadTag)
    } else if in_tags(list_tags, tag) {
        if !valid_utf8(tag) {
            Err(ErrKind::Malformed)
        } else if !valid_utf8(content) {
            Err(ErrKind::Malformed)
        } else {
            Ok((scalar, list_append(lists, tag, content)))
        }
    } else {
        match handle_pair(scalar, tag, content, allowed, end_tag, n) {
            Ok(s2) => Ok((s2, lists)),
            Err(k) => Err(k),
        }
    }
}

/// The list builder's fold over a whole sequence of (tag, content) pairs,
/// starting from the given scalar and list states: the final states, or the
/// first error.
pub open spec fn build_list_from(
    scalar: Seq<(Seq<u8>, Seq<u8>)>,
    lists: Seq<(Seq<u8>, Seq<Seq<u8>>)>,
    pairs: Seq<(Seq<u8>, Seq<u8>)>,
    allowed: Seq<Seq<u8>>,
    list_tags: Seq<Seq<u8>>,
    end_tag: Seq<u8>,
    n: int,
) -> Result<(Seq<(Seq<u8>, Seq<u8>)>, Seq<(Seq<u8>, Seq<Seq<u8>>)>), ErrKind>
    decreases pairs.len(),
{
    if pairs.len() == 0 {
        Ok((scalar, lists))
    } else {
        match handle_list_pair(
            scalar,
            lists,
            pairs[0].0,
            pairs[0].1,
            allowed,
            list_tags,
            end_tag,
            n,
        ) {
            Err(k) => Err(k),
            Ok(st2) => build_list_from(
                st2.0,
                st2.1,
                pairs.drop_first(),
                allowed,
                list_tags,
                end_tag,
                n,
            ),
        }
    }
}

/// One list field held by the builder: the tag's raw bytes beside the
/// decoded tag and the ordered decoded contents.
#[derive(Debug, Clone)]
pub struct ListEntry {
    pub tag_bytes: Vec<u8>,
    pub tag: String,
    pub contents: Vec<String>,
}

/// The raw model of the list state: each entry as its tag bytes beside the
/// re-encoded bytes of each held content string.
pub open spec fn raw_lists(s: Seq<ListEntry>) -> Seq<(Seq<u8>, Seq<Seq<u8>>)> {
    Seq::new(
        s.len(),
        |i: int|
            (
                s[i].tag_bytes@,
                Seq::new(s[i].contents@.len(), |j: int| encode_utf8(s[i].contents@[j]@)),
            ),
    )
}

/// The list-aware record builder: a scalar builder together with the set of
/// list tags and their collected contents.
#[derive(Debug, Clone)]
pub struct ListHandler {
    pub handler: HashMapHandler,
    pub list_tags: Vec<Vec<u8>>,
    pub lists: Vec<ListEntry>,
}

impl ListHandler {
    /// Well-formedness: the scalar builder is well-formed, the list tags
    /// share its tag width, and every held list entry's strings are the
    /// decodings of valid UTF-8 bytes.
    pub open spec fn wf(&self) -> bool {
        &&& self.handler.wf()
        &&& forall|i: int|
            0 <= i < self.list_tags@.len() ==> (#[trigger] self.list_tags@[i])@.len()
                == self.handler.n()
        &&& forall|i: int|
            0 <= i < self.lists@.len() ==> {
                &&& valid_utf8((#[trigger] self.lists@[i]).tag_bytes@)
                &&& self.lists@[i].tag@ == decode_utf8(self.lists@[i].tag_bytes@)
            }
    }

    /// The configuration fields, which `handle` never changes.
    pub open spec fn same_config(&self, other: &Self) -> bool {
        &&& self.handler.same_config(&other.handler)
        &&& self.list_tags.deep_view() == other.list_tags.deep_view()
    }

    pub fn new(handler: HashMapHandler, list_tags: &Vec<Vec<u8>>) -> (r: Self)
        requires
            handler.wf(),
            forall|i: int|
                0 <= i < list_tags@.len() ==> (#[trigger] list_tags@[i])@.len() == handler.n(),
        ensures
            r.wf(),
            r.handler == handler,
            r.list_tags.deep_view() == list_tags.deep_view(),
            r.lists@.len() == 0,
    {
        let mut tags: Vec<Vec<u8>> = Vec::new();
        let mut i: usize = 0;
        while i < list_tags.len()
            invariant
                i <= list_tags@.len(),
                tags@.len() == i,
                forall|k: int| 0 <= k < i ==> (#[trigger] tags@[k])@ == list_tags@[k]@,
            decreases list_tags@.len() - i,
        {
            tags.push(clone_bytes(&list_tags[i]));
            i += 1;
        }
        proof {
            assert(tags.deep_view() =~= list_tags.deep_view());
        }
        ListHandler { handler, list_tags: tags, lists: Vec::new() }
    }

    pub fn start_tag(&self) -> (r: &Vec<u8>)
        ensures
            r@ == self.handler.start_tag@,
    {
        self.handler.start_tag()
    }

    pub fn end_tag(&self) -> (r: &Vec<u8>)
        ensures
            r@ == self.handler.end_tag@,
    {
        self.handler.end_tag()
    }

    pub fn allowed_tags(&self) -> (r: &Vec<Vec<u8>>)
        ensures
            r.deep_view() == self.handler.allowed_tags.deep_view(),
    {
        self.handler.allowed_tags()
    }

    /// Feeds one (tag, content) pair to the builder, exactly as
    /// [`handle_list_pair`] describes over the raw models.
    #[verifier::loop_isolation(false)]
    pub fn handle(&mut self, tag: &[u8], content: &[u8]) -> (r: PResult<()>)
        requires
            old(self).wf(),
        ensures
            final(self).wf(),
            final(self).same_config(old(self)),
            ({
                let step = handle_list_pair(
                    raw_state(old(self).handler.state@),
                    raw_lists(old(self).lists@),
                    tag@,
                    content@,
                    old(self).handler.allowed_tags.deep_view(),
                    old(self).list_tags.deep_view(),
                    old(self).handler.end_tag@,
                    old(self).handler.n(),
                );
                match step {
                    Ok(s2) => r is Ok && raw_state(final(self).handler.state@) == s2.0 && raw_lists(
                        final(self).lists@,
                    ) == s2.1,
                    Err(k) => (r matches Err(e) && kind_of(e) == k) && final(self).handler.state@
                        == old(self).handler.state@ && final(self).lists@ == old(self).lists@,
                }
            }),
    {
        let ghost raw0 = raw_lists(self.lists@);
        if tag.len() != self.handler.start_tag.len() {
            return Err(Error::unknown_width());
        }
        if !contains_tag(&self.list_tags, tag) {
            return self.handler.handle(tag, content);
        }
        let tag_string = match utf8_to_string(tag) {
            None => {
                return Err(Error::invalid_text());
            },
            Some(s) => s,
        };
        let content_string = match utf8_to_string(content) {
            None => {
                return Err(Error::invalid_text());
            },
            Some(s) => s,
        };
        proof {
            decode_utf8_encode_utf8(tag@);
            decode_utf8_encode_utf8(content@);
        }
        let mut i: usize = 0;
        while i < self.lists.len()
            invariant
                i <= self.lists@.len(),
                *self == *old(self),
                raw0 == raw_lists(self.lists@),
                raw0.len() == self.lists@.len(),
                assoc_idx(raw0, tag@) == assoc_idx_from(raw0, tag@, i as int),
            decreases self.lists@.len() - i,
        {
            if eq_bytes(self.lists[i].tag_bytes.as_slice(), tag) {
                proof {
                    assert(raw0[i as int].0 == tag@);
                    assert(assoc_idx(raw0, tag@) == i);
                }
                let mut contents: Vec<String> = Vec::new();
                let mut j: usize = 0;
                while j < self.lists[i].contents.len()
                    invariant
                        0 <= i < self.lists@.len(),
                        j <= self.lists@[i as int].contents@.len(),
                        contents@.len() == j,
                        *self == *old(self),
                        forall|k: int|
                            0 <= k < j ==> (#[trigger] contents@[k])@
                                == self.lists@[i as int].contents@[k]@,
                    decreases self.lists@[i as int].contents@.len() - j,
                {
                    contents.push(clone_string(&self.lists[i].contents[j]));
                    j += 1;
                }
                contents.push(content_string);
                self.lists[i] = ListEntry {
                    tag_bytes: slice_to_vec(tag),
                    tag: tag_string,
                    contents,
                };
                proof {
                    assert(raw_lists(self.lists@) =~= list_append(raw0, tag@, content@)) by {
                        assert(raw_lists(self.lists@)[i as int].1 =~= raw0[i as int].1.push(
                            content@,
                        ));
                    }
                }
                return Ok(());
            }
            proof {
                assert(raw0[i as int].0 == self.lists@[i as int].tag_bytes@);
            }
            i += 1;
        }
        proof {
            assert(assoc_idx(raw0, tag@) == raw0.len());
        }
        let mut contents: Vec<String> = Vec::new();
        contents.push(content_string);
        self.lists.push(ListEntry { tag_bytes: slice_to_vec(tag), tag: tag_string, contents });
        proof {
            assert(raw_lists(self.lists@) =~= list_append(raw0, tag@, content@)) by {
                assert(raw_lists(self.lists@)[raw0.len() as int].1 =~= seq![content@]);
            }
        }
        Ok(())
    }

    /// Yields the completed record: the scalar fields in first-insertion
    /// order, each as an `Item`, followed by the list fields in
    /// first-occurrence order, each as a `List` of its contents in source
    /// order.
    pub fn finish(self) -> (r: Vec<(String, ListOrItem<String>)>)
        ensures
            r@.len() == self.handler.state@.len() + self.lists@.len(),
            forall|i: int|
                0 <= i < self.handler.state@.len() ==> (#[trigger] r@[i]).0@
                    == self.handler.state@[i].tag@ && (r@[i].1 matches ListOrItem::Item(v) && v@
                    == self.handler.state@[i].content@),
            forall|j: int|
                0 <= j < self.lists@.len() ==> (#[trigger] r@[self.handler.state@.len() + j]).0@
                    == self.lists@[j].tag@ && (r@[self.handler.state@.len() + j].1 matches
                    ListOrItem::List(vs) && vs.deep_view() == self.lists@[j].contents.deep_view()),
    {
        let ghost hs = self.handler.state@;
        let ghost ls = self.lists@;
        let scalars = self.handler.finish();
        let mut out: Vec<(String, ListOrItem<String>)> = Vec::new();
        let mut i: usize = 0;
        while i < scalars.len()
            invariant
                i <= scalars@.len(),
                out@.len() == i,
                scalars@.len() == hs.len(),
                forall|k: int|
                    0 <= k < scalars@.len() ==> (#[trigger] scalars@[k]).0@ == hs[k].tag@
                        && scalars@[k].1@ == hs[k].content@,
                forall|k: int|
                    0 <= k < i ==> (#[trigger] out@[k]).0@ == hs[k].tag@ && (out@[k].1 matches
                    ListOrItem::Item(v) && v@ == hs[k].content@),
            decreases scalars@.len() - i,
        {
            out.push((clone_string(&scalars[i].0), ListOrItem::Item(clone_string(&scalars[i].1))));
            i += 1;
        }
        let mut j: usize = 0;
        while j < self.lists.len()
            invariant
                j <= ls.len(),
                self.lists@ == ls,
                out@.len() == hs.len() + j,
                forall|k: int|
                    0 <= k < hs.len() ==> (#[trigger] out@[k]).0@ == hs[k].tag@ && (out@[k].1
                    matches ListOrItem::Item(v) && v@ == hs[k].content@),
                forall|k: int|
                    0 <= k < j ==> (#[trigger] out@[hs.len() + k]).0@ == ls[k].tag@ && (out@[hs.len()
                        + k].1 matches ListOrItem::List(vs) && vs.deep_view()
                        == ls[k].contents.deep_view()),
            decreases ls.len() - j,
        {
            let mut contents: Vec<String> = Vec::new();
            let mut m: usize = 0;
            while m < self.lists[j].contents.len()
                invariant
                    0 <= j < ls.len(),
                    self.lists@ == ls,
                    m <= ls[j as int].contents@.len(),
                    contents@.len() == m,
                    forall|k: int|
                        0 <= k < m ==> (#[trigger] contents@[k])@ == ls[j as int].contents@[k]@,
                decreases ls[j as int].contents@.len() - m,
            {
                contents.push(clone_string(&self.lists[j].contents[m]));
                m += 1;
            }
            proof {
                assert(contents.deep_view() =~= ls[j as int].contents.deep_view());
            }
            out.push((clone_string(&self.lists[j].tag), ListOrItem::List(contents)));
            j += 1;
        }
        out
    }
}

} // verus!
