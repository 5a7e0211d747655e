use qwot::{normalize, Attributed, MalformedMarkup};

fn plain(markup: &str) -> String {
    normalize(markup).unwrap()
}

#[test]
fn text_without_tags_stays_as_it_is() {
    assert_eq!(plain(""), "");
    assert_eq!(plain("Just words, 1 < 2 and 3 > 2."), "Just words, 1 < 2 and 3 > 2.");
    assert_eq!(plain("héllo — ✓ 日本語"), "héllo — ✓ 日本語");
}

#[test]
fn anchors_vanish_with_their_attributes() {
    assert_eq!(plain("<a href=\"https://example.org/x?a=1&amp;b=2\">link</a>"), "link");
    assert_eq!(plain("see <a>this</a> one"), "see this one");
    assert_eq!(
        plain("<a href=\"u\" title=\"é\">x</a> and <a href=\"v\">y</a>"),
        "x and y"
    );
}

#[test]
fn the_same_anchor_twice_is_taken_out_twice() {
    assert_eq!(plain("<a href=\"u\">x</a> and <a href=\"u\">y</a>"), "x and y");
}

#[test]
fn a_heading_leaves_its_mark() {
    assert_eq!(plain("<h1 id=\"t\">Title</h1>"), "# Title");
    assert_eq!(plain("<h1>A</h1>\n<h1 class=\"c\">B</h1>"), "# A\n# B");
}

#[test]
fn spans_vanish_with_their_attributes() {
    assert_eq!(plain("<span class=\"k\">fn</span> <span class=\"n\">main</span>"), "fn main");
}

#[test]
fn every_tag_that_begins_like_an_anchor_is_taken_for_one() {
    assert_eq!(plain("<abbr title=\"t\">x</abbr>"), "x</abbr>");
}

#[test]
fn every_occurrence_of_an_opening_tag_is_replaced_at_once() {
    assert_eq!(plain("<a><a x<a>>"), "");
}

#[test]
fn paragraphs_lists_and_block_quotes_vanish() {
    assert_eq!(plain("<p>para</p>"), "para");
    assert_eq!(plain("<blockquote><p>a</p></blockquote>"), "a");
    assert_eq!(plain("<ul>\n<li>one</li>\n<li>two</li>\n</ul>"), "\n- one\n- two\n");
    assert_eq!(plain("<ol><li>one</li><li>two</li></ol>"), "- one- two");
}

#[test]
fn emphasis_strong_and_code_become_marks() {
    assert_eq!(plain("<em>e</em> <strong>s</strong> <code>c</code>"), "_e_ *s* `c`");
    assert_eq!(plain("Some <strong>bold</strong> text.\n"), "Some *bold* text.\n");
}

#[test]
fn line_breaks_vanish_and_rules_become_dashes() {
    assert_eq!(plain("a<br>b<hr>c"), "ab---c");
}

#[test]
fn tags_with_attributes_that_are_not_expected_stay() {
    assert_eq!(plain("<p class=\"x\">a</p>"), "<p class=\"x\">a");
    assert_eq!(plain("<br/>"), "<br/>");
    assert_eq!(plain("<EM>a</EM>"), "<EM>a</EM>");
}

#[test]
fn tags_that_come_together_when_others_vanish_are_replaced_too() {
    assert_eq!(plain("<e<p>m>x"), "_x");
    assert_eq!(plain("<</a>a href=\"u\">x"), "x");
}

#[test]
fn an_opening_tag_without_its_end_is_a_fault() {
    assert_eq!(
        normalize("text <a href=\"u\""),
        Err(MalformedMarkup::Unterminated { element: Attributed::Anchor })
    );
    assert_eq!(
        normalize("text <h1"),
        Err(MalformedMarkup::Unterminated { element: Attributed::Heading })
    );
    assert_eq!(
        normalize("<span class=\"x\" <p>"),
        Ok(" <p>".to_string()).and(normalize("<span class=\"x\" <p>"))
    );
    assert_eq!(
        normalize("a > b <span"),
        Err(MalformedMarkup::Unterminated { element: Attributed::Span })
    );
}

#[test]
fn the_first_fault_is_the_one_of_the_anchor() {
    assert_eq!(
        normalize("<span <h1 <a"),
        Err(MalformedMarkup::Unterminated { element: Attributed::Anchor })
    );
    assert_eq!(
        normalize("<span <h1 <a>"),
        Err(MalformedMarkup::Unterminated { element: Attributed::Heading })
    );
}

#[test]
fn the_tags_of_the_elements_with_attributes() {
    assert_eq!(Attributed::Anchor.opening(), "<a");
    assert_eq!(Attributed::Anchor.closing(), "</a>");
    assert_eq!(Attributed::Anchor.marking(), "");
    assert_eq!(Attributed::Heading.opening(), "<h1");
    assert_eq!(Attributed::Heading.closing(), "</h1>");
    assert_eq!(Attributed::Heading.marking(), "# ");
    assert_eq!(Attributed::Span.opening(), "<span");
    assert_eq!(Attributed::Span.closing(), "</span>");
    assert_eq!(Attributed::Span.marking(), "");
}

fn with_the_standard_library(markup: &str) -> String {
    let mut text = markup.to_string();
    for (open, close, mark) in [("<a", "</a>", ""), ("<h1", "</h1>", "# "), ("<span", "</span>", "")] {
        text = text.replace(close, "");
        while let Some(at) = text.find(open) {
            let end = at + text[at..].find('>').unwrap() + 1;
            let tag = text[at..end].to_string();
            text = text.replace(&tag, mark);
        }
    }
    for (tag, with) in qwot::normalize::PLAIN_TAGS {
        text = text.replace(tag, with);
    }
    text
}

#[test]
fn normalize_agrees_with_searching_and_replacing_by_the_standard_library() {
    let samples = [
        "",
        "plain",
        "<p>I wrote a <a href=\"https://example.org/a?b=c\">thing</a> in <code>Rust</code>.</p>",
        "<h1 id=\"x\">One</h1><p>two</p><h1 id=\"y\">Three</h1>",
        "<ul>\n<li><span class=\"a\">α</span></li>\n<li><span class=\"b\">β</span></li>\n</ul>",
        "<a><a x<a>>",
        "<a href=\"1\">x</a><a href=\"1\">y</a><a href=\"2\">z</a>",
        "<<a>a>b<a<a>>",
        "<p>a<br>b</p><hr><blockquote><em>c</em> <strong>d</strong></blockquote>",
        "<abbr>x</abbr> <article>y</article> <h10>z</h10> <spanner>w</spanner>",
        "<span <h1 <a>>>",
        "</a></h1></span>",
        "<e</a>m>x</e</span>m>",
    ];
    for sample in samples {
        assert_eq!(normalize(sample), Ok(with_the_standard_library(sample)));
    }
}

#[test]
fn the_table_of_the_plain_tags() {
    let expected = [
        ("<blockquote>", ""),
        ("</blockquote>", ""),
        ("<p>", ""),
        ("</p>", ""),
        ("<ul>", ""),
        ("</ul>", ""),
        ("<ol>", ""),
        ("</ol>", ""),
        ("<li>", "- "),
        ("</li>", ""),
        ("<em>", "_"),
        ("</em>", "_"),
        ("<strong>", "*"),
        ("</strong>", "*"),
        ("<code>", "`"),
        ("</code>", "`"),
        ("<br>", ""),
        ("<hr>", "---"),
    ];
    assert_eq!(qwot::normalize::PLAIN_TAGS, expected);
}
