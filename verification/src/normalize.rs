//! The markup of a quote, rewritten as plain text with a few marks.
use crate::error::MalformedMarkup;
use crate::rewrite::{lemma_replaced_len, replace_all, replaced, rewrite, rewritten, rules_of};
use crate::search::{find, first_match, lemma_first_match, occurs_at};
use crate::text::{lemma_boundaries_at_ascii, lemma_match_boundaries, part};
use vstd::prelude::*;
use vstd::string::*;
use vstd::utf8::{encode_utf8, encode_utf8_valid_utf8, is_ascii_chars_encode_utf8};

verus! {

/// The elements whose opening tags carry attributes.
#[derive(Clone, Copy, Debug, PartialEq, Eq, Structural)]
pub enum Attributed {
    Anchor,
    Heading,
    Span,
}

impl Attributed {
    /// What every opening tag of the element begins with.
    pub open spec fn open(self) -> Seq<u8> {
        match self {
            Attributed::Anchor => "<a".spec_bytes(),
            Attributed::Heading => "<h1".spec_bytes(),
            Attributed::Span => "<span".spec_bytes(),
        }
    }

    /// The closing tag.
    pub open spec fn close(self) -> Seq<u8> {
        match self {
            Attributed::Anchor => "</a>".spec_bytes(),
            Attributed::Heading => "</h1>".spec_bytes(),
            Attributed::Span => "</span>".spec_bytes(),
        }
    }

    /// What stands in the plain text for an opening tag.
    pub open spec fn mark(self) -> Seq<u8> {
        match self {
            Attributed::Anchor => "".spec_bytes(),
            Attributed::Heading => "# ".spec_bytes(),
            Attributed::Span => "".spec_bytes(),
        }
    }

    /// What every opening tag of the element begins with.
    pub fn opening(self) -> (r: &'static str)
        ensures
            r.spec_bytes() == self.open(),
    {
        match self {
            Attributed::Anchor => "<a",
            Attributed::Heading => "<h1",
            Attributed::Span => "<span",
        }
    }

    /// The closing tag.
    pub fn closing(self) -> (r: &'static str)
        ensures
            r.spec_bytes() == self.close(),
    {
        match self {
            Attributed::Anchor => "</a>",
            Attributed::Heading => "</h1>",
            Attributed::Span => "</span>",
        }
    }

    /// What stands in the plain text for an opening tag.
    pub fn marking(self) -> (r: &'static str)
        ensures
            r.spec_bytes() == self.mark(),
    {
        match self {
            Attributed::Anchor => "",
            Attributed::Heading => "# ",
            Attributed::Span => "",
        }
    }
}

/// The byte `>`, which ends a tag.
pub const TAG_END: u8 = 62;

/// The beginning of an opening tag holds at least two bytes, none of them
/// `>`, and its mark is no longer than two bytes.
pub proof fn lemma_attributed(element: Attributed)
    ensures
        element.open().len() >= 2,
        element.open()[0] != TAG_END,
        element.open()[1] != TAG_END,
        element.mark().len() <= 2,
        "".spec_bytes() == Seq::<u8>::empty(),
{
    reveal_strlit("<a");
    reveal_strlit("<h1");
    reveal_strlit("<span");
    reveal_strlit("");
    reveal_strlit("# ");
    is_ascii_chars_encode_utf8("<a"@);
    is_ascii_chars_encode_utf8("<h1"@);
    is_ascii_chars_encode_utf8("<span"@);
    is_ascii_chars_encode_utf8("# "@);
}

/// To replace the opening tag that was found makes the text shorter.
pub proof fn lemma_opening_shrinks(s: Seq<u8>, element: Attributed, i: int, j: int)
    requires
        first_match(s, element.open()) == Some(i),
        first_match(s.skip(i), seq![TAG_END]) == Some(j),
    ensures
        0 <= i,
        2 <= j,
        i + j < s.len(),
        replaced(s, s.subrange(i, i + j + 1), element.mark()).len() < s.len(),
{
    lemma_attributed(element);
    lemma_first_match(s, element.open());
    lemma_first_match(s.skip(i), seq![TAG_END]);
    let open = element.open();
    let tag = s.subrange(i, i + j + 1);
    assert(s.skip(i).subrange(j, j + 1)[0] == TAG_END);
    assert(occurs_at(s, tag, i));
    lemma_replaced_len(s, tag, element.mark());
}

/// `s` with every opening tag of `element` replaced by the element's mark.
///
/// The first opening tag is found by what it begins with and reaches to the
/// next `>`; every occurrence of that tag is replaced; and so again until
/// none begins in the text. `None` where an opening tag has no `>` after it.
pub open spec fn without_openings(s: Seq<u8>, element: Attributed) -> Option<Seq<u8>>
    decreases s.len(),
{
    match first_match(s, element.open()) {
        None => Some(s),
        Some(i) => match first_match(s.skip(i), seq![TAG_END]) {
            None => None,
            Some(j) => {
                proof {
                    lemma_opening_shrinks(s, element, i, j);
                }
                without_openings(replaced(s, s.subrange(i, i + j + 1), element.mark()), element)
            },
        },
    }
}

/// `s` without the tags of `element`: the closing tags are taken out, then
/// the opening tags are replaced by the element's mark.
pub open spec fn without_element(s: Seq<u8>, element: Attributed) -> Option<Seq<u8>> {
    without_openings(replaced(s, element.close(), Seq::empty()), element)
}

/// The tags without attributes and what stands for each in the plain text,
/// in the order in which they are replaced.
pub const PLAIN_TAGS: [(&'static str, &'static str); 18] = [
    ("<blockquote>", ""),
    ("</blockquote>", ""),
    ("<p>", ""),
    ("</p>", ""),
    ("<ul>", ""),
    ("</ul>", ""),
    ("<ol>", ""),
    ("</ol>", ""),
    ("<li>", "- "),
    ("</li>", ""),
    ("<em>", "_"),
    ("</em>", "_"),
    ("<strong>", "*"),
    ("</strong>", "*"),
    ("<code>", "`"),
    ("</code>", "`"),
    ("<br>", ""),
    ("<hr>", "---"),
];

/// The plain text of `markup`: anchors, headings and spans are taken out in
/// this order, a heading leaving its mark, then the tags without attributes
/// are replaced one kind after the other.
pub open spec fn plain_text(markup: Seq<u8>) -> Result<Seq<u8>, MalformedMarkup> {
    match without_element(markup, Attributed::Anchor) {
        None => Err(MalformedMarkup::Unterminated { element: Attributed::Anchor }),
        Some(a) => match without_element(a, Attributed::Heading) {
            None => Err(MalformedMarkup::Unterminated { element: Attributed::Heading }),
            Some(b) => match without_element(b, Attributed::Span) {
                None => Err(MalformedMarkup::Unterminated { element: Attributed::Span }),
                Some(c) => Ok(rewritten(c, rules_of(PLAIN_TAGS@))),
            },
        },
    }
}

/// Takes the tags of `element` out of `s`.
fn strip(s: &str, element: Attributed) -> (r: Option<String>)
    ensures
        match r {
            Some(t) => without_element(s.spec_bytes(), element) == Some(encode_utf8(t@)),
            None => without_element(s.spec_bytes(), element) is None,
        },
{
    let open = element.opening();
    let mark = element.marking();
    let end: [u8; 1] = [TAG_END];
    proof {
        lemma_attributed(element);
    }
    let mut cur = replace_all(s, element.closing(), "");
    loop
        invariant
            open.spec_bytes() == element.open(),
            mark.spec_bytes() == element.mark(),
            end@ == seq![TAG_END],
            without_openings(encode_utf8(cur@), element) == without_element(
                s.spec_bytes(),
                element,
            ),
        decreases encode_utf8(cur@).len(),
    {
        let text = cur.as_str();
        let bytes = text.as_bytes();
        let n = bytes.len();
        proof {
            lemma_attributed(element);
            encode_utf8_valid_utf8(text@);
            encode_utf8_valid_utf8(open@);
        }
        let i = match find(bytes, open.as_bytes()) {
            None => { return Some(cur); },
            Some(i) => i,
        };
        let rest = &bytes[i..n];
        let j = match find(rest, end.as_slice()) {
            None => { return None; },
            Some(j) => j,
        };
        proof {
            lemma_opening_shrinks(bytes@, element, i as int, j as int);
            lemma_match_boundaries(bytes@, open.spec_bytes(), i as int);
            assert(rest@.subrange(j as int, j + 1)[0] == bytes@[i + j]);
            lemma_boundaries_at_ascii(bytes@, i + j);
        }
        let next = replace_all(text, part(text, i, i + j + 1), mark);
        cur = next;
    }
}

/// Rewrites the markup of a quote as plain text.
pub fn normalize(markup: &str) -> (r: Result<String, MalformedMarkup>)
    ensures
        match r {
            Ok(t) => plain_text(markup.spec_bytes()) == Ok::<Seq<u8>, MalformedMarkup>(
                encode_utf8(t@),
            ),
            Err(e) => plain_text(markup.spec_bytes()) == Err::<Seq<u8>, MalformedMarkup>(e),
        },
{
    let a = match strip(markup, Attributed::Anchor) {
        None => { return Err(MalformedMarkup::Unterminated { element: Attributed::Anchor }); },
        Some(a) => a,
    };
    let b = match strip(a.as_str(), Attributed::Heading) {
        None => { return Err(MalformedMarkup::Unterminated { element: Attributed::Heading }); },
        Some(b) => b,
    };
    let c = match strip(b.as_str(), Attributed::Span) {
        None => { return Err(MalformedMarkup::Unterminated { element: Attributed::Span }); },
        Some(c) => c,
    };
    Ok(rewrite(c.as_str(), PLAIN_TAGS.as_slice()))
}

} // verus!
