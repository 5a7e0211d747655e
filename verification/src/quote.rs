//! From a page to the stored form of its quote.
use crate::entity::{decode, decoded};
use crate::error::MalformedMarkup;
use crate::line::{encode_line, encoded_line, LINE_BREAK, RETURN};
use crate::normalize::{normalize, plain_text};
use crate::search::occurs;
use crate::section::{locate, section_of, Span};
use crate::select::{lemma_container_tags, lemma_markup_of, markup_of, select, Container};
use crate::space::{leading_space, trailing_space};
use crate::text::{lemma_match_boundaries, part};
use vstd::prelude::*;
use vstd::string::*;
use vstd::utf8::{encode_utf8, encode_utf8_valid_utf8, is_char_boundary, valid_utf8};

verus! {

/// The markup of the quote of the page `doc` of address `url`: what is
/// selected in the section of the page. `None` for a page without a section
/// or without a quote in it. The offset of an unclosed container counts from
/// the beginning of the page.
pub open spec fn quote_markup_of(doc: Seq<u8>, url: Seq<u8>) -> Result<
    Option<Seq<u8>>,
    MalformedMarkup,
> {
    match section_of(doc) {
        None => Ok(None),
        Some(section) => match markup_of(section.of(doc), url) {
            Err(e) => Err(e.shifted(section.start as int)),
            Ok(None) => Ok(None),
            Ok(Some(markup)) => Ok(Some(markup.of(section.of(doc)))),
        },
    }
}

/// The quote of the page `doc` of address `url`, as it is stored: the markup
/// of the quote, rewritten as plain text, its entities replaced, on one line.
pub open spec fn quote_of(doc: Seq<u8>, url: Seq<u8>) -> Result<Option<Seq<u8>>, MalformedMarkup> {
    match quote_markup_of(doc, url) {
        Err(e) => Err(e),
        Ok(None) => Ok(None),
        Ok(Some(markup)) => match plain_text(markup) {
            Err(e) => Err(e),
            Ok(text) => Ok(Some(encoded_line(decoded(text)))),
        },
    }
}

/// The markup of a quote begins and ends at boundaries of the page.
proof fn lemma_markup_boundaries(doc: Seq<u8>, section: Span, url: Seq<u8>)
    requires
        valid_utf8(doc),
        doc.len() <= usize::MAX,
        section.within(doc),
    ensures
        markup_of(section.of(doc), url) matches Ok(Some(m)) ==> m.within(section.of(doc))
            && is_char_boundary(doc, section.start + m.start) && is_char_boundary(
            doc,
            section.start + m.end,
        ) && m.of(section.of(doc)) == doc.subrange(section.start + m.start, section.start + m.end),
{
    let within = section.of(doc);
    lemma_markup_of(within, url);
    if let Ok(Some(m)) = markup_of(within, url) {
        let container = if occurs(within, Container::BlockQuote.open()) {
            Container::BlockQuote
        } else if occurs(within, Container::Emphasis.open()) {
            Container::Emphasis
        } else {
            Container::Preformatted
        };
        let open = container.open();
        let close = container.close();
        lemma_container_tags(container);
        lemma_container_texts(container);
        let at = m.start - open.len();
        let before = section.start + at;
        assert(doc.subrange(before, before + open.len()) =~= within.subrange(at, at + open.len()));
        lemma_match_boundaries(doc, open, before);
        assert(doc.subrange(section.start + m.end, section.start + m.end + close.len())
            =~= within.subrange(m.end as int, m.end + close.len()));
        lemma_match_boundaries(doc, close, section.start + m.end);
    }
}

/// The tags of a container are text.
proof fn lemma_container_texts(container: Container)
    ensures
        valid_utf8(container.open()),
        valid_utf8(container.close()),
{
    encode_utf8_valid_utf8("<blockquote>"@);
    encode_utf8_valid_utf8("</blockquote>"@);
    encode_utf8_valid_utf8("<em>"@);
    encode_utf8_valid_utf8("</em>"@);
    encode_utf8_valid_utf8("<pre>"@);
    encode_utf8_valid_utf8("</pre>"@);
}

/// Finds the markup of the quote of the page `doc` of address `url`.
pub fn quote_markup<'a>(doc: &'a str, url: &str) -> (r: Result<Option<&'a str>, MalformedMarkup>)
    ensures
        match r {
            Ok(Some(m)) => quote_markup_of(doc.spec_bytes(), url.spec_bytes()) == Ok::<
                Option<Seq<u8>>,
                MalformedMarkup,
            >(Some(m.spec_bytes())),
            Ok(None) => quote_markup_of(doc.spec_bytes(), url.spec_bytes()) == Ok::<
                Option<Seq<u8>>,
                MalformedMarkup,
            >(None),
            Err(e) => quote_markup_of(doc.spec_bytes(), url.spec_bytes()) == Err::<
                Option<Seq<u8>>,
                MalformedMarkup,
            >(e),
        },
{
    let len = doc.as_bytes().len();
    let section = match locate(doc) {
        None => { return Ok(None); },
        Some(section) => section,
    };
    match select(doc, section, url) {
        Err(MalformedMarkup::Unclosed { container, offset }) => Err(
            MalformedMarkup::Unclosed { container, offset: section.start + offset },
        ),
        Err(e) => Err(e),
        Ok(None) => Ok(None),
        Ok(Some(markup)) => {
            proof {
                encode_utf8_valid_utf8(doc@);
                lemma_markup_boundaries(doc.spec_bytes(), section, url.spec_bytes());
            }
            Ok(Some(part(doc, section.start + markup.start, section.start + markup.end)))
        },
    }
}

/// Extracts the quote of the page `doc` of address `url`, as it is stored.
/// A quote has no white space at its ends, holds no line break and does not
/// end with a carriage return.
pub fn get_qotw(doc: &str, url: &str) -> (r: Result<Option<String>, MalformedMarkup>)
    ensures
        match r {
            Ok(Some(q)) => quote_of(doc.spec_bytes(), url.spec_bytes()) == Ok::<
                Option<Seq<u8>>,
                MalformedMarkup,
            >(Some(encode_utf8(q@))) && leading_space(encode_utf8(q@)) == 0 && trailing_space(
                encode_utf8(q@),
            ) == 0 && !encode_utf8(q@).contains(LINE_BREAK) && (encode_utf8(q@).len() > 0
                ==> encode_utf8(q@).last() != RETURN),
            Ok(None) => quote_of(doc.spec_bytes(), url.spec_bytes()) == Ok::<
                Option<Seq<u8>>,
                MalformedMarkup,
            >(None),
            Err(e) => quote_of(doc.spec_bytes(), url.spec_bytes()) == Err::<
                Option<Seq<u8>>,
                MalformedMarkup,
            >(e),
        },
{
    let markup = match quote_markup(doc, url) {
        Err(e) => { return Err(e); },
        Ok(None) => { return Ok(None); },
        Ok(Some(markup)) => markup,
    };
    let text = match normalize(markup) {
        Err(e) => { return Err(e); },
        Ok(text) => text,
    };
    let plain = decode(text.as_str());
    Ok(Some(encode_line(plain.as_str())))
}

} // verus!
