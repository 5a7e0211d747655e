//! Escaped characters and character entities, turned back into the characters.
use crate::rewrite::{rewrite, rewritten, rules_of};
use vstd::prelude::*;
use vstd::string::*;
use vstd::utf8::encode_utf8;

verus! {

/// The escaped characters and the entities, each with the character that it
/// stands for, in the order in which they are replaced: the escaped `&lt;`
/// before the plain one, and `&amp;` after the angle brackets.
pub const ENTITIES: [(&'static str, &'static str); 9] = [
    ("\\[", "["),
    ("\\]", "]"),
    ("\\<", "<"),
    ("\\>", ">"),
    ("\\&lt;", "<"),
    ("&lt;", "<"),
    ("&gt;", ">"),
    ("&amp;", "&"),
    ("&#39;", "'"),
];

/// `text` with its escaped characters and entities replaced, one kind after
/// the other.
pub open spec fn decoded(text: Seq<u8>) -> Seq<u8> {
    rewritten(text, rules_of(ENTITIES@))
}

/// Replaces the escaped characters and the entities of `text`.
pub fn decode(text: &str) -> (r: String)
    ensures
        encode_utf8(r@) == decoded(text.spec_bytes()),
{
    rewrite(text, ENTITIES.as_slice())
}

} // verus!
