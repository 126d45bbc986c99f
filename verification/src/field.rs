//! One (tag, content) association within a record.

use vstd::prelude::*;

verus! {

/// A single field: a tag and the content bound to it.
#[derive(Debug, Clone, PartialEq, Eq)]
pub struct Field {
    pub tag: String,
    pub content: String,
}

impl Field {
    pub fn new(tag: String, content: String) -> (r: Self)
        ensures
            r.tag@ == tag@,
            r.content@ == content@,
    {
        Self { tag, content }
    }

    pub fn tag(&self) -> (r: &String)
        ensures
            r@ == self.tag@,
    {
        &self.tag
    }

    pub fn content(&self) -> (r: &String)
        ensures
            r@ == self.content@,
    {
        &self.content
    }
}

} // verus!
