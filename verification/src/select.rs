//! The container that holds the quote, among the markup styles that the
//! blog has used over the years.
use crate::error::MalformedMarkup;
use crate::search::{
    contains, find, first_match, head_only, lemma_absent_from_concat, lemma_absent_from_part,
    lemma_first_match, lemma_first_match_after, occurs, occurs_at,
};
use crate::section::{span, Span};
use vstd::prelude::*;
use vstd::string::*;
use vstd::utf8::is_ascii_chars_encode_utf8;

verus! {

/// What the address of a page of the first year holds. Only on those pages
/// does emphasis mark the quote.
pub const LEGACY_YEAR: &'static str = "2015";

/// The kinds of element that may hold the quote, in the order in which they
/// are looked for.
#[derive(Clone, Copy, Debug, PartialEq, Eq, Structural)]
pub enum Container {
    BlockQuote,
    Emphasis,
    Preformatted,
}

impl Container {
    /// The opening tag.
    pub open spec fn open(self) -> Seq<u8> {
        match self {
            Container::BlockQuote => "<blockquote>".spec_bytes(),
            Container::Emphasis => "<em>".spec_bytes(),
            Container::Preformatted => "<pre>".spec_bytes(),
        }
    }

    /// The closing tag.
    pub open spec fn close(self) -> Seq<u8> {
        match self {
            Container::BlockQuote => "</blockquote>".spec_bytes(),
            Container::Emphasis => "</em>".spec_bytes(),
            Container::Preformatted => "</pre>".spec_bytes(),
        }
    }

    /// The opening tag.
    pub fn opening(self) -> (r: &'static str)
        ensures
            r.spec_bytes() == self.open(),
    {
        match self {
            Container::BlockQuote => "<blockquote>",
            Container::Emphasis => "<em>",
            Container::Preformatted => "<pre>",
        }
    }

    /// The closing tag.
    pub fn closing(self) -> (r: &'static str)
        ensures
            r.spec_bytes() == self.close(),
    {
        match self {
            Container::BlockQuote => "</blockquote>",
            Container::Emphasis => "</em>",
            Container::Preformatted => "</pre>",
        }
    }
}

/// Where in `s` the search for opening tags ends: each search begins just
/// after the tag that the search before it found, and the result is the
/// position after the last tag found, or 0 where none is found.
pub open spec fn innermost(s: Seq<u8>, open: Seq<u8>) -> int
    decreases s.len(),
{
    if open.len() == 0 {
        0
    } else {
        match first_match(s, open) {
            None => 0,
            Some(i) => {
                proof {
                    lemma_first_match(s, open);
                }
                i + open.len() + innermost(s.skip(i + open.len()), open)
            },
        }
    }
}

/// What the container whose opening tag stands at `open_at` holds: the text
/// after that tag up to the first closing tag.
pub open spec fn held_by(section: Seq<u8>, container: Container, open_at: int) -> Result<
    Option<Span>,
    MalformedMarkup,
> {
    let from = open_at + container.open().len();
    match first_match(section.skip(from), container.close()) {
        Some(e) => Ok(Some(span(from, from + e))),
        None => Err(MalformedMarkup::Unclosed { container, offset: open_at as usize }),
    }
}

/// The markup of the quote in `section`, a page of address `url`.
///
/// A section with a block quote holds the quote in its innermost block
/// quote. One without, but with emphasis, holds it in the first emphasis if
/// the page is of the first year, and holds none if it is not. One with
/// neither holds it in its first preformatted block. Any other holds none.
pub open spec fn markup_of(section: Seq<u8>, url: Seq<u8>) -> Result<
    Option<Span>,
    MalformedMarkup,
> {
    if first_match(section, Container::BlockQuote.open()) is Some {
        let inner = innermost(section, Container::BlockQuote.open());
        held_by(section, Container::BlockQuote, inner - Container::BlockQuote.open().len())
    } else if let Some(at) = first_match(section, Container::Emphasis.open()) {
        if occurs(url, LEGACY_YEAR.spec_bytes()) {
            held_by(section, Container::Emphasis, at)
        } else {
            Ok(None)
        }
    } else if let Some(at) = first_match(section, Container::Preformatted.open()) {
        held_by(section, Container::Preformatted, at)
    } else {
        Ok(None)
    }
}

/// The stretch `s` of `section` is what a container of kind `container`
/// holds: an opening tag ends where it begins, a closing tag begins where
/// it ends, and no closing tag stands in it.
pub open spec fn bounded_by(section: Seq<u8>, s: Span, container: Container) -> bool {
    &&& s.within(section)
    &&& occurs_at(section, container.open(), s.start - container.open().len())
    &&& occurs_at(section, container.close(), s.end as int)
    &&& !occurs(s.of(section), container.close())
}

/// `tag`, `n` times over.
pub open spec fn repeated(tag: Seq<u8>, n: nat) -> Seq<u8>
    decreases n,
{
    if n == 0 {
        Seq::empty()
    } else {
        tag + repeated(tag, (n - 1) as nat)
    }
}

/// `text` in `depth` block quotes, one within the other.
pub open spec fn nested(depth: nat, text: Seq<u8>) -> Seq<u8> {
    repeated(Container::BlockQuote.open(), depth) + text + repeated(
        Container::BlockQuote.close(),
        depth,
    )
}

/// The opening tag of a block quote, byte by byte.
pub proof fn lemma_block_quote_open()
    ensures
        Container::BlockQuote.open() =~= seq![
            60u8, 98u8, 108u8, 111u8, 99u8, 107u8, 113u8, 117u8, 111u8, 116u8, 101u8, 62u8,
        ],
{
    reveal_strlit("<blockquote>");
    is_ascii_chars_encode_utf8("<blockquote>"@);
}

/// The closing tag of a block quote, byte by byte.
pub proof fn lemma_block_quote_close()
    ensures
        Container::BlockQuote.close() =~= seq![
            60u8, 47u8, 98u8, 108u8, 111u8, 99u8, 107u8, 113u8, 117u8, 111u8, 116u8, 101u8, 62u8,
        ],
{
    reveal_strlit("</blockquote>");
    is_ascii_chars_encode_utf8("</blockquote>"@);
}

/// The tags of a block quote begin with `<`, which stands nowhere else in
/// them, and the closing tag does not hold the opening tag.
pub proof fn lemma_block_quote_tags()
    ensures
        Container::BlockQuote.open().len() == 12,
        Container::BlockQuote.close().len() == 13,
        head_only(Container::BlockQuote.open()),
        head_only(Container::BlockQuote.close()),
        Container::BlockQuote.open()[0] == Container::BlockQuote.close()[0],
        !occurs(Container::BlockQuote.close(), Container::BlockQuote.open()),
{
    let open = Container::BlockQuote.open();
    let close = Container::BlockQuote.close();
    lemma_block_quote_open();
    lemma_block_quote_close();
    assert(forall|j: int| !occurs_at(close, open, j));
}

/// No tag of a container is empty.
pub proof fn lemma_container_tags(container: Container)
    ensures
        container.open().len() > 0,
        container.close().len() > 0,
{
    lemma_block_quote_open();
    lemma_block_quote_close();
    reveal_strlit("<em>");
    reveal_strlit("</em>");
    reveal_strlit("<pre>");
    reveal_strlit("</pre>");
}

/// The search for opening tags ends in the text, just after an opening tag
/// where the text holds one, and no opening tag stands after that place.
pub proof fn lemma_innermost(s: Seq<u8>, open: Seq<u8>)
    requires
        open.len() > 0,
    ensures
        0 <= innermost(s, open) <= s.len(),
        occurs(s, open) ==> occurs_at(s, open, innermost(s, open) - open.len()),
        !occurs(s, open) ==> innermost(s, open) == 0,
        !occurs(s.skip(innermost(s, open)), open),
    decreases s.len(),
{
    lemma_first_match(s, open);
    match first_match(s, open) {
        None => {
            assert(s.skip(0) =~= s);
        },
        Some(i) => {
            let rest = s.skip(i + open.len());
            let inner = innermost(rest, open);
            lemma_innermost(rest, open);
            assert(rest.skip(inner) =~= s.skip(i + open.len() + inner));
            if occurs(rest, open) {
                let at = inner - open.len();
                let last = i + open.len() + at;
                assert(s.subrange(last, last + open.len()) =~= rest.subrange(at, at + open.len()));
            }
        },
    }
}

/// Where the opening tag cannot overlap itself, the search for opening tags
/// ends after the last one in the text.
pub proof fn lemma_innermost_is_last(s: Seq<u8>, open: Seq<u8>, j: int)
    requires
        head_only(open),
        occurs_at(s, open, j),
    ensures
        j + open.len() <= innermost(s, open),
    decreases s.len(),
{
    lemma_first_match(s, open);
    let i = first_match(s, open).unwrap();
    let rest = s.skip(i + open.len());
    lemma_innermost(rest, open);
    if j > i {
        if j < i + open.len() {
            assert(s.subrange(i, i + open.len())[j - i] == open[j - i]);
        } else {
            assert(rest.subrange(j - i - open.len(), j - i) =~= s.subrange(j, j + open.len()));
            lemma_innermost_is_last(rest, open, j - i - open.len());
        }
    }
}

/// What a container holds lies between its opening tag and the first
/// closing tag after that; it is unclosed where no closing tag follows.
pub proof fn lemma_held_by(section: Seq<u8>, container: Container, open_at: int)
    requires
        section.len() <= usize::MAX,
        occurs_at(section, container.open(), open_at),
    ensures
        match held_by(section, container, open_at) {
            Ok(Some(s)) => s.start == open_at + container.open().len() && bounded_by(
                section,
                s,
                container,
            ),
            Ok(None) => false,
            Err(e) => e == (MalformedMarkup::Unclosed { container, offset: open_at as usize })
                && !occurs(section.skip(open_at + container.open().len()), container.close()),
        },
{
    let close = container.close();
    let from = open_at + container.open().len();
    let rest = section.skip(from);
    lemma_container_tags(container);
    lemma_first_match(rest, close);
    if let Some(e) = first_match(rest, close) {
        let s = span(from, from + e);
        assert(section.subrange(from + e, from + e + close.len()) =~= rest.subrange(
            e,
            e + close.len(),
        ));
        assert forall|j: int| !occurs_at(s.of(section), close, j) by {
            if occurs_at(s.of(section), close, j) {
                assert(rest.subrange(j, j + close.len()) =~= s.of(section).subrange(
                    j,
                    j + close.len(),
                ));
                assert(occurs_at(rest, close, j));
            }
        }
    }
}

/// What the rules of selection come to.
///
/// A section without the opening tag of any container has no markup of a
/// quote, nor one whose first container is an emphasis on a page that is
/// not of the first year. Markup that is selected is what a container
/// holds: a block quote where the section has one, else an emphasis where
/// it has one, else preformatted text. It holds no opening tag of a block
/// quote, and every such tag of the section ends before it: it is what the
/// last block quote to be opened holds. A fault names an opening tag of the
/// section after which no closing tag of its kind follows.
pub proof fn lemma_markup_of(section: Seq<u8>, url: Seq<u8>)
    requires
        section.len() <= usize::MAX,
    ensures
        !occurs(section, Container::BlockQuote.open()) && !occurs(
            section,
            Container::Emphasis.open(),
        ) && !occurs(section, Container::Preformatted.open()) ==> markup_of(section, url) == Ok::<
            Option<Span>,
            MalformedMarkup,
        >(None),
        !occurs(section, Container::BlockQuote.open()) && occurs(
            section,
            Container::Emphasis.open(),
        ) && !occurs(url, LEGACY_YEAR.spec_bytes()) ==> markup_of(section, url) == Ok::<
            Option<Span>,
            MalformedMarkup,
        >(None),
        markup_of(section, url) matches Ok(Some(s)) ==> {
            &&& !occurs(s.of(section), Container::BlockQuote.open())
            &&& bounded_by(
                section,
                s,
                if occurs(section, Container::BlockQuote.open()) {
                    Container::BlockQuote
                } else if occurs(section, Container::Emphasis.open()) {
                    Container::Emphasis
                } else {
                    Container::Preformatted
                },
            )
            &&& forall|j: int| #[trigger]
                occurs_at(section, Container::BlockQuote.open(), j) ==> j
                    + Container::BlockQuote.open().len() <= s.start
        },
        markup_of(section, url) matches Err(e) ==> e matches MalformedMarkup::Unclosed {
            container,
            offset,
        } && occurs_at(section, container.open(), offset as int) && !occurs(
            section.skip(offset + container.open().len()),
            container.close(),
        ),
{
    let open = Container::BlockQuote.open();
    lemma_container_tags(Container::BlockQuote);
    lemma_first_match(section, open);
    lemma_first_match(section, Container::Emphasis.open());
    lemma_first_match(section, Container::Preformatted.open());
    if occurs(section, open) {
        let inner = innermost(section, open);
        lemma_innermost(section, open);
        lemma_held_by(section, Container::BlockQuote, inner - open.len());
        if let Ok(Some(s)) = markup_of(section, url) {
            lemma_absent_from_part(section.skip(inner), open, 0, s.end - s.start);
            assert(section.skip(inner).subrange(0, s.end - s.start) =~= s.of(section));
            lemma_block_quote_tags();
            assert forall|j: int| #[trigger] occurs_at(section, open, j) implies j + open.len()
                <= s.start by {
                lemma_innermost_is_last(section, open, j);
            }
        }
    } else {
        if let Some(at) = first_match(section, Container::Emphasis.open()) {
            lemma_held_by(section, Container::Emphasis, at);
        } else if let Some(at) = first_match(section, Container::Preformatted.open()) {
            lemma_held_by(section, Container::Preformatted, at);
        }
        if let Ok(Some(s)) = markup_of(section, url) {
            lemma_absent_from_part(section, open, s.start as int, s.end as int);
        }
    }
}

/// Closing tags of block quotes in a row hold no opening tag of one.
proof fn lemma_closings_hold_no_opening(n: nat)
    ensures
        !occurs(
            repeated(Container::BlockQuote.close(), n),
            Container::BlockQuote.open(),
        ),
    decreases n,
{
    let open = Container::BlockQuote.open();
    let close = Container::BlockQuote.close();
    lemma_block_quote_tags();
    if n == 0 {
        assert forall|j: int| !occurs_at(repeated(close, 0), open, j) by {}
    } else {
        let rest = repeated(close, (n - 1) as nat);
        lemma_closings_hold_no_opening((n - 1) as nat);
        lemma_absent_from_concat(close, rest, open);
    }
}

/// The search for opening tags passes over the opening tags that a text
/// begins with.
proof fn lemma_innermost_after_openings(n: nat, rest: Seq<u8>)
    ensures
        innermost(repeated(Container::BlockQuote.open(), n) + rest, Container::BlockQuote.open())
            == 12 * n + innermost(rest, Container::BlockQuote.open()),
        repeated(Container::BlockQuote.open(), n).len() == 12 * n,
    decreases n,
{
    let open = Container::BlockQuote.open();
    lemma_block_quote_tags();
    if n > 0 {
        let fewer = repeated(open, (n - 1) as nat);
        let whole = repeated(open, n) + rest;
        lemma_innermost_after_openings((n - 1) as nat, rest);
        assert(whole.subrange(0, 12) =~= open);
        assert(whole.skip(12) =~= fewer + rest);
    }
}

/// However deep `text` lies in block quotes, one within the other, it is
/// the markup that is selected, if it holds no tag of a block quote itself.
pub proof fn law_nested_block_quotes(depth: nat, text: Seq<u8>, url: Seq<u8>)
    requires
        depth >= 1,
        !occurs(text, Container::BlockQuote.open()),
        !occurs(text, Container::BlockQuote.close()),
        nested(depth, text).len() <= usize::MAX,
    ensures
        markup_of(nested(depth, text), url) matches Ok(Some(s)) && s.of(nested(depth, text))
            == text,
{
    let open = Container::BlockQuote.open();
    let close = Container::BlockQuote.close();
    let openings = repeated(open, depth);
    let closings = repeated(close, depth);
    let section = nested(depth, text);
    lemma_block_quote_tags();
    // The section begins with an opening tag.
    assert(section.subrange(0, 12) =~= open);
    // The search for opening tags ends where the text begins.
    assert(section =~= openings + (text + closings));
    lemma_innermost_after_openings(depth, text + closings);
    lemma_closings_hold_no_opening(depth);
    lemma_absent_from_concat(text, closings, open);
    lemma_first_match(text + closings, open);
    // The first closing tag from there on is the one after the text.
    let from: int = 12 * (depth as int);
    assert(section.skip(from) =~= text + closings);
    assert(closings.subrange(0, 13) =~= close);
    lemma_first_match_after(text, closings, close);
}

/// Looks for the closing tag of the container opened at `open_at`.
fn close_of(section: &[u8], container: Container, open_at: usize) -> (r: Result<
    Option<Span>,
    MalformedMarkup,
>)
    requires
        occurs_at(section@, container.open(), open_at as int),
    ensures
        r == held_by(section@, container, open_at as int),
        r matches Ok(Some(s)) ==> s.within(section@),
        r matches Err(e) ==> e == (MalformedMarkup::Unclosed { container, offset: open_at }),
{
    let n = section.len();
    let from = open_at + container.opening().as_bytes().len();
    let rest = &section[from..n];
    match find(rest, container.closing().as_bytes()) {
        Some(e) => Ok(Some(Span { start: from, end: from + e })),
        None => Err(MalformedMarkup::Unclosed { container, offset: open_at }),
    }
}

/// Finds the markup of the quote in `section`, a page of address `url`.
fn select_in(section: &[u8], url: &[u8]) -> (r: Result<Option<Span>, MalformedMarkup>)
    ensures
        r == markup_of(section@, url@),
{
    let n = section.len();
    let open = Container::BlockQuote.opening().as_bytes();
    let m = open.len();
    proof {
        lemma_block_quote_open();
    }
    if let Some(first) = find(section, open) {
        let mut inner: usize = first + m;
        loop
            invariant_except_break
                n == section@.len(),
                open@ == Container::BlockQuote.open(),
                m == 12,
                m == open@.len(),
                m <= inner <= n,
                occurs_at(section@, open@, inner - m),
                innermost(section@, open@) == inner + innermost(
                    section@.skip(inner as int),
                    open@,
                ),
            ensures
                m <= inner <= n,
                occurs_at(section@, open@, inner - m),
                innermost(section@, open@) == inner,
            decreases n - inner,
        {
            let rest = &section[inner..n];
            match find(rest, open) {
                None => {
                    break ;
                },
                Some(i) => {
                    assert(rest@.skip(i + m) =~= section@.skip(inner + i + m));
                    assert(rest@.subrange(i as int, i + m) =~= section@.subrange(
                        inner + i,
                        inner + i + m,
                    ));
                    inner = inner + i + m;
                },
            }
        }
        close_of(section, Container::BlockQuote, inner - m)
    } else if let Some(at) = find(section, Container::Emphasis.opening().as_bytes()) {
        if contains(url, LEGACY_YEAR.as_bytes()) {
            close_of(section, Container::Emphasis, at)
        } else {
            Ok(None)
        }
    } else if let Some(at) = find(section, Container::Preformatted.opening().as_bytes()) {
        close_of(section, Container::Preformatted, at)
    } else {
        Ok(None)
    }
}

/// Whether the section `section` of `doc` holds the opening tag of a
/// container of any kind. A section without one is not in any style that
/// the blog is known to have used.
pub fn has_container(doc: &str, section: Span) -> (r: bool)
    requires
        section.within(doc.spec_bytes()),
    ensures
        r == (occurs(section.of(doc.spec_bytes()), Container::BlockQuote.open()) || occurs(
            section.of(doc.spec_bytes()),
            Container::Emphasis.open(),
        ) || occurs(section.of(doc.spec_bytes()), Container::Preformatted.open())),
{
    let within = section.slice(doc.as_bytes());
    contains(within, Container::BlockQuote.opening().as_bytes()) || contains(
        within,
        Container::Emphasis.opening().as_bytes(),
    ) || contains(within, Container::Preformatted.opening().as_bytes())
}

/// Finds the markup of the quote in the section `section` of `doc`, a page
/// of address `url`. The stretch that is found, and the offset of a fault,
/// count from the beginning of the section.
pub fn select(doc: &str, section: Span, url: &str) -> (r: Result<Option<Span>, MalformedMarkup>)
    requires
        section.within(doc.spec_bytes()),
    ensures
        r == markup_of(section.of(doc.spec_bytes()), url.spec_bytes()),
        r matches Ok(Some(s)) ==> s.within(section.of(doc.spec_bytes())) && !occurs(
            s.of(section.of(doc.spec_bytes())),
            Container::BlockQuote.open(),
        ),
        r matches Err(e) ==> e matches MalformedMarkup::Unclosed { offset, .. } && offset
            <= section.end - section.start,
        !occurs(section.of(doc.spec_bytes()), Container::BlockQuote.open()) && !occurs(
            section.of(doc.spec_bytes()),
            Container::Emphasis.open(),
        ) && !occurs(section.of(doc.spec_bytes()), Container::Preformatted.open()) ==> r == Ok::<
            Option<Span>,
            MalformedMarkup,
        >(None),
        !occurs(section.of(doc.spec_bytes()), Container::BlockQuote.open()) && occurs(
            section.of(doc.spec_bytes()),
            Container::Emphasis.open(),
        ) && !occurs(url.spec_bytes(), LEGACY_YEAR.spec_bytes()) ==> r == Ok::<
            Option<Span>,
            MalformedMarkup,
        >(None),
{
    let within = section.slice(doc.as_bytes());
    let r = select_in(within, url.as_bytes());
    proof {
        lemma_markup_of(within@, url.spec_bytes());
    }
    r
}

} // verus!
