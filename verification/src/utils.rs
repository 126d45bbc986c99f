//! Small byte and string helpers shared by the scanner and the builders.

use vstd::prelude::*;
use vstd::slice::slice_subrange;
use vstd::slice::slice_to_vec;
use vstd::utf8::decode_utf8;
use vstd::utf8::valid_utf8;

verus! {

/// Whether `t` is one of the tags in `tags`.
pub open spec fn in_tags(tags: Seq<Seq<u8>>, t: Seq<u8>) -> bool {
    exists|i: int| 0 <= i < tags.len() && tags[i] == t
}

/// The six bytes of a tag literal: two tag characters followed by the fixed
/// separator `"  - "`.
pub open spec fn tag_bytes(a: u8, b: u8) -> Seq<u8> {
    seq![a, b, 32u8, 32u8, 45u8, 32u8]
}

/// Builds the six-byte tag literal for the two tag characters `a` and `b`.
pub fn tag_vec(a: u8, b: u8) -> (r: Vec<u8>)
    ensures
        r@ == tag_bytes(a, b),
{
    let mut r: Vec<u8> = Vec::new();
    r.push(a);
    r.push(b);
    r.push(32);
    r.push(32);
    r.push(45);
    r.push(32);
    assert(r@ =~= tag_bytes(a, b));
    r
}

/// Byte-for-byte equality of two slices.
pub fn eq_bytes(a: &[u8], b: &[u8]) -> (r: bool)
    ensures
        r == (a@ == b@),
{
    if a.len() != b.len() {
        assert(a@ != b@);
        return false;
    }
    let mut i: usize = 0;
    while i < a.len()
        invariant
            i <= a.len(),
            a@.len() == b@.len(),
            forall|k: int| 0 <= k < i ==> a@[k] == b@[k],
        decreases a@.len() - i,
    {
        if a[i] != b[i] {
            return false;
        }
        i += 1;
    }
    assert(a@ =~= b@);
    true
}

/// Whether the byte sequence `t` is one of the tags in `tags`.
pub fn contains_tag(tags: &Vec<Vec<u8>>, t: &[u8]) -> (r: bool)
    ensures
        r == in_tags(tags.deep_view(), t@),
{
    let mut i: usize = 0;
    while i < tags.len()
        invariant
            i <= tags@.len(),
            forall|k: int| 0 <= k < i ==> tags.deep_view()[k] != t@,
        decreases tags@.len() - i,
    {
        if eq_bytes(tags[i].as_slice(), t) {
            assert(tags.deep_view()[i as int] == t@);
            return true;
        }
        assert(tags.deep_view()[i as int] == tags@[i as int]@);
        i += 1;
    }
    false
}

/// An owned copy of `v[lo..hi]`.
pub fn copy_range(v: &[u8], lo: usize, hi: usize) -> (r: Vec<u8>)
    requires
        lo <= hi <= v@.len(),
    ensures
        r@ == v@.subrange(lo as int, hi as int),
{
    slice_to_vec(slice_subrange(v, lo, hi))
}

/// An owned copy of a byte vector.
pub fn clone_bytes(v: &Vec<u8>) -> (r: Vec<u8>)
    ensures
        r@ == v@,
{
    let r = slice_to_vec(v.as_slice());
    assert(r@ =~= v@);
    r
}

/// An owned copy of a string.
pub fn clone_string(s: &String) -> (r: String)
    ensures
        r@ == s@,
{
    s.as_str().to_owned()
}

/// Relies on std's `String::from_utf8`: it returns `Ok` exactly when the
/// input is valid UTF-8, and the string it returns then holds the decoded
/// characters of the input bytes (vstd's `decode_utf8`).
#[verifier::external_body]
pub fn utf8_to_string(v: &[u8]) -> (r: Option<String>)
    ensures
        r is Some <==> valid_utf8(v@),
        r matches Some(s) ==> s@ == decode_utf8(v@),
{
    match String::from_utf8(v.to_vec()) {
        Ok(s) => Some(s),
        Err(_) => None,
    }
}

} // verus!
