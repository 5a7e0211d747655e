use qwot::{get_qotw, quote_markup, Container, MalformedMarkup, Attributed};

const MODERN: &str = "https://this-week-in-rust.org/blog/2021/06/02/this-week-in-rust-393/";
const LEGACY: &str = "https://this-week-in-rust.org/blog/2015/03/16/this-week-in-rust-74/";

fn page(section: &str) -> String {
    format!(
        "<html><body><h1 id=\"quote-of-the-week\"><a class=\"toclink\" href=\"#quote-of-the-week\">Quote of the Week</a></h1>\n{}<p>Please submit quotes and vote for next week!</p></body></html>",
        section
    )
}

#[test]
fn a_page_without_the_heading_has_no_quote() {
    assert_eq!(get_qotw("", MODERN), Ok(None));
    assert_eq!(get_qotw("<blockquote>quote</blockquote> for next week", MODERN), Ok(None));
    assert_eq!(quote_markup("<blockquote>quote</blockquote> for next week", MODERN), Ok(None));
}

#[test]
fn a_page_without_the_closing_words_has_no_quote() {
    let text = "Quote of the Week</a></h1>\n<blockquote>quote</blockquote>";
    assert_eq!(get_qotw(text, MODERN), Ok(None));
}

#[test]
fn a_section_without_a_container_gives_no_quote() {
    assert_eq!(get_qotw(&page("<p>Sadly none this week.</p>"), MODERN), Ok(None));
}

#[test]
fn the_quote_of_a_block_quote_with_a_strong_word() {
    let text = page("<blockquote>Some <strong>bold</strong> text.\n</blockquote>");
    assert_eq!(
        quote_markup(&text, MODERN),
        Ok(Some("Some <strong>bold</strong> text.\n"))
    );
    assert_eq!(get_qotw(&text, MODERN), Ok(Some("Some *bold* text.".to_string())));
}

#[test]
fn the_quote_of_nested_block_quotes_is_the_inner_one() {
    let text = page("<blockquote>outer<blockquote>inner quote</blockquote>tail</blockquote>");
    assert_eq!(quote_markup(&text, MODERN), Ok(Some("inner quote")));
    assert_eq!(get_qotw(&text, MODERN), Ok(Some("inner quote".to_string())));
}

#[test]
fn a_quote_of_several_lines_is_put_on_one() {
    let text = page(
        "<blockquote>\n<p>First line.<br>\nSecond &amp; last line.</p>\n<p>– <a href=\"https://example.org/u\">someone</a></p>\n</blockquote>\n",
    );
    assert_eq!(
        get_qotw(&text, MODERN),
        Ok(Some("First line.;;Second & last line.;;– someone".to_string()))
    );
}

#[test]
fn a_quote_with_code_and_entities() {
    let text = page(
        "<blockquote><p><code>Vec&lt;T&gt;</code> isn&#39;t <em>magic</em>, \\[sic\\]</p></blockquote>",
    );
    assert_eq!(
        get_qotw(&text, MODERN),
        Ok(Some("`Vec<T>` isn't _magic_, [sic]".to_string()))
    );
}

#[test]
fn tags_are_rewritten_before_escaped_characters_are_replaced() {
    let text = page("<blockquote>a \\<p> b &lt;p&gt; c</blockquote>");
    assert_eq!(get_qotw(&text, MODERN), Ok(Some("a \\ b <p> c".to_string())));
}

#[test]
fn the_quote_of_a_page_of_the_first_year_may_stand_in_emphasis() {
    let text = page("<p><em>Quote in emphasis.</em> – someone</p>");
    assert_eq!(get_qotw(&text, LEGACY), Ok(Some("Quote in emphasis.".to_string())));
    assert_eq!(get_qotw(&text, MODERN), Ok(None));
}

#[test]
fn the_quote_of_preformatted_text() {
    let text = page("<pre>  fn main() {\n      loop {}\n  }\n</pre>");
    assert_eq!(
        get_qotw(&text, MODERN),
        Ok(Some("fn main() {;;      loop {};;  }".to_string()))
    );
}

#[test]
fn a_quote_keeps_characters_of_several_bytes() {
    let text = page("<blockquote><p>“Zero-cost” — not “zero-thought” ✓ 日本語</p></blockquote>");
    assert_eq!(
        get_qotw(&text, MODERN),
        Ok(Some("“Zero-cost” — not “zero-thought” ✓ 日本語".to_string()))
    );
}

#[test]
fn a_quote_holds_no_line_break() {
    let text = page("<blockquote>\n\na\n\n<p>b\r\n</p>c\n\n</blockquote>");
    let quote = get_qotw(&text, MODERN).unwrap().unwrap();
    assert_eq!(quote, "a;;;;b\r;;c");
    assert!(!quote.contains('\n'));
}

#[test]
fn the_offset_of_an_unclosed_container_counts_from_the_beginning_of_the_page() {
    let text = page("<p>x</p><blockquote>never closed");
    let at = text.find("<blockquote>").unwrap();
    assert_eq!(
        get_qotw(&text, MODERN),
        Err(MalformedMarkup::Unclosed { container: Container::BlockQuote, offset: at })
    );
    assert_eq!(
        quote_markup(&text, MODERN),
        Err(MalformedMarkup::Unclosed { container: Container::BlockQuote, offset: at })
    );
    let text = page("<pre>never closed");
    let at = text.find("<pre>").unwrap();
    assert_eq!(
        get_qotw(&text, MODERN),
        Err(MalformedMarkup::Unclosed { container: Container::Preformatted, offset: at })
    );
}

#[test]
fn a_closing_tag_after_the_section_does_not_close_a_container_in_it() {
    let text = format!("{}</blockquote>", page("<blockquote>open"));
    let at = text.find("<blockquote>").unwrap();
    assert_eq!(
        get_qotw(&text, MODERN),
        Err(MalformedMarkup::Unclosed { container: Container::BlockQuote, offset: at })
    );
}

#[test]
fn an_opening_tag_without_its_end_in_the_quote_is_a_fault() {
    let text = page("<blockquote>see <a href=\"u\"</blockquote>");
    assert_eq!(
        get_qotw(&text, MODERN),
        Err(MalformedMarkup::Unterminated { element: Attributed::Anchor })
    );
}

#[test]
fn a() {
    let page = "<html><body>\n<h1 id=\"quote-of-the-week\"><a class=\"toclink\" href=\"#quote-of-the-week\">Quote of the Week</a></h1>\n<p><em>\"The borrow checker is not your enemy: it is the colleague who reads every line.\"</em></p>\n<p>&mdash; someone on the users forum.</p>\n<p>Thanks for the suggestion. Submit your quotes for next week!</p>\n</body></html>";
    let a = get_qotw(page, "https://this-week-in-rust.org/blog/2015/03/16/this-week-in-rust-74/")
        .unwrap()
        .unwrap();
    println!("\n{a}");
    assert_eq!(
        a,
        "\"The borrow checker is not your enemy: it is the colleague who reads every line.\""
    );
}
