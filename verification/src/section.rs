//! The part of a page that holds the quote of the week.
use crate::search::{find, first_match, lemma_first_match, occurs, occurs_at};
use vstd::prelude::*;
use vstd::string::*;
use vstd::utf8::is_ascii_chars_encode_utf8;

verus! {

/// The text of the heading that the section follows.
pub const SECTION_HEADING: &'static str = "Quote of the Week";

/// The number of bytes between the text of the heading and the section:
/// the tags that close the heading, and a line break.
pub const HEADING_TAIL: usize = 10;

/// The words before which the section ends.
pub const SECTION_END: &'static str = "for next week";

/// A stretch of bytes of a text, from `start` up to `end`.
#[derive(Clone, Copy, Debug, PartialEq, Eq, Structural)]
pub struct Span {
    pub start: usize,
    pub end: usize,
}

impl Span {
    /// The stretch lies in `text`.
    pub open spec fn within(self, text: Seq<u8>) -> bool {
        self.start <= self.end <= text.len()
    }

    /// The bytes of `text` that the stretch covers.
    pub open spec fn of(self, text: Seq<u8>) -> Seq<u8> {
        text.subrange(self.start as int, self.end as int)
    }

    /// The bytes of `text` that the stretch covers.
    pub fn slice<'a>(&self, text: &'a [u8]) -> (r: &'a [u8])
        requires
            self.within(text@),
        ensures
            r@ == self.of(text@),
    {
        &text[self.start..self.end]
    }
}

/// The stretch from `start` up to `end`.
pub open spec fn span(start: int, end: int) -> Span {
    Span { start: start as usize, end: end as usize }
}

/// The section of `doc`: what stands between the first heading, with the
/// bytes that end it, and the first closing words after that. A page has no
/// section where it lacks the heading, where it ends within the bytes that
/// end the heading, or where the closing words do not follow.
pub open spec fn section_of(doc: Seq<u8>) -> Option<Span> {
    match first_match(doc, SECTION_HEADING.spec_bytes()) {
        None => None,
        Some(p) => {
            let start = p + SECTION_HEADING.spec_bytes().len() + HEADING_TAIL;
            if start > doc.len() {
                None
            } else {
                match first_match(doc.skip(start), SECTION_END.spec_bytes()) {
                    None => None,
                    Some(q) => Some(span(start, start + q)),
                }
            }
        },
    }
}

/// The lengths of the heading and of the closing words.
pub proof fn lemma_section_marks()
    ensures
        SECTION_HEADING.spec_bytes().len() == 17,
        SECTION_END.spec_bytes().len() == 13,
{
    reveal_strlit("Quote of the Week");
    reveal_strlit("for next week");
    is_ascii_chars_encode_utf8(SECTION_HEADING@);
    is_ascii_chars_encode_utf8(SECTION_END@);
}

/// A section lies in its page, the heading stands before it, the closing
/// words follow it at once and do not stand in it; a page without the
/// heading has no section.
pub proof fn lemma_section_of(doc: Seq<u8>)
    requires
        doc.len() <= usize::MAX,
    ensures
        !occurs(doc, SECTION_HEADING.spec_bytes()) ==> section_of(doc) is None,
        section_of(doc) matches Some(s) ==> {
            &&& s.within(doc)
            &&& occurs_at(doc, SECTION_HEADING.spec_bytes(), s.start - HEADING_TAIL - 17)
            &&& occurs_at(doc, SECTION_END.spec_bytes(), s.end as int)
            &&& !occurs(s.of(doc), SECTION_END.spec_bytes())
        },
{
    let head = SECTION_HEADING.spec_bytes();
    let tail = SECTION_END.spec_bytes();
    lemma_section_marks();
    lemma_first_match(doc, head);
    if let Some(p) = first_match(doc, head) {
        let start = p + head.len() + HEADING_TAIL;
        if start <= doc.len() {
            let rest = doc.skip(start);
            lemma_first_match(rest, tail);
            if let Some(q) = first_match(rest, tail) {
                let s = span(start, start + q);
                assert(rest.subrange(q, q + tail.len()) =~= doc.subrange(
                    start + q,
                    start + q + tail.len(),
                ));
                assert forall|j: int| !occurs_at(s.of(doc), tail, j) by {
                    if occurs_at(s.of(doc), tail, j) {
                        assert(rest.subrange(j, j + tail.len()) =~= s.of(doc).subrange(
                            j,
                            j + tail.len(),
                        ));
                        assert(occurs_at(rest, tail, j));
                    }
                }
            }
        }
    }
}

/// Finds the section of `doc`.
pub fn locate(doc: &str) -> (r: Option<Span>)
    ensures
        r == section_of(doc.spec_bytes()),
        !occurs(doc.spec_bytes(), SECTION_HEADING.spec_bytes()) ==> r is None,
        r matches Some(s) ==> {
            &&& s.within(doc.spec_bytes())
            &&& occurs_at(
                doc.spec_bytes(),
                SECTION_HEADING.spec_bytes(),
                s.start - HEADING_TAIL - 17,
            )
            &&& occurs_at(doc.spec_bytes(), SECTION_END.spec_bytes(), s.end as int)
            &&& !occurs(s.of(doc.spec_bytes()), SECTION_END.spec_bytes())
        },
{
    let doc = doc.as_bytes();
    let n = doc.len();
    proof {
        lemma_section_of(doc@);
    }
    let head = SECTION_HEADING.as_bytes();
    let p = match find(doc, head) {
        None => { return None; },
        Some(p) => p,
    };
    let after = p + head.len();
    if n - after < HEADING_TAIL {
        return None;
    }
    let start = after + HEADING_TAIL;
    let rest = &doc[start..n];
    match find(rest, SECTION_END.as_bytes()) {
        None => None,
        Some(q) => Some(Span { start, end: start + q }),
    }
}

} // verus!
