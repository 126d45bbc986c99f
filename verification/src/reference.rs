//! One bibliographic entry: its type (the start tag's content) and its
//! fields in source order.

use vstd::prelude::*;

use crate::field::Field;

verus! {

/// A record as a typed view: the reference type carried by the start tag,
/// and the (tag, content) fields.
#[derive(Debug, Clone, PartialEq, Eq)]
pub struct Reference {
    pub ref_type: String,
    pub fields: Vec<Field>,
}

impl Reference {
    pub fn new(ref_type: String, fields: Vec<Field>) -> (r: Self)
        ensures
            r.ref_type@ == ref_type@,
            r.fields@ == fields@,
    {
        Self { ref_type, fields }
    }

    pub fn fields(&self) -> (r: &Vec<Field>)
        ensures
            r@ == self.fields@,
    {
        &self.fields
    }

    pub fn ref_type(&self) -> (r: &String)
        ensures
            r@ == self.ref_type@,
    {
        &self.ref_type
    }
}

} // verus!
