use qwot::{locate, Span};

#[test]
fn a_page_without_the_heading_has_no_section() {
    assert_eq!(locate(""), None);
    assert_eq!(locate("<html><body>nothing for next week</body></html>"), None);
    assert_eq!(locate("quote of the week 0123456789 for next week"), None);
}

#[test]
fn the_section_begins_ten_bytes_after_the_heading() {
    let page = "xx Quote of the Week0123456789SECTIONfor next week";
    assert_eq!(locate(page), Some(Span { start: 30, end: 37 }));
    assert_eq!(&page[30..37], "SECTION");
}

#[test]
fn the_section_of_a_page_as_the_blog_writes_it() {
    let page = "<h1 id=\"quote-of-the-week\"><a class=\"toclink\" href=\"#q\">Quote of the Week</a></h1>\n<blockquote>\n<p>Text.</p>\n</blockquote>\n<p>Please submit quotes and vote for next week!</p>";
    let section = locate(page).unwrap();
    assert_eq!(
        &page[section.start..section.end],
        "<blockquote>\n<p>Text.</p>\n</blockquote>\n<p>Please submit quotes and vote "
    );
}

#[test]
fn the_section_ends_before_the_first_closing_words() {
    let page = "Quote of the Week0123456789afor next weekbfor next week";
    let section = locate(page).unwrap();
    assert_eq!(&page[section.start..section.end], "a");
}

#[test]
fn the_section_may_be_empty() {
    let page = "Quote of the Week0123456789for next week";
    assert_eq!(locate(page), Some(Span { start: 27, end: 27 }));
}

#[test]
fn closing_words_within_the_ten_bytes_do_not_count() {
    let page = "Quote of the Weekfor next week";
    assert_eq!(locate(page), None);
    let page = "Quote of the Weekfor next week..for next week";
    assert_eq!(locate(page), Some(Span { start: 27, end: 32 }));
}

#[test]
fn a_page_that_ends_within_the_ten_bytes_has_no_section() {
    assert_eq!(locate("Quote of the Week"), None);
    assert_eq!(locate("Quote of the Week012345678"), None);
}

#[test]
fn a_page_without_the_closing_words_has_no_section() {
    assert_eq!(locate("Quote of the Week0123456789<blockquote>q</blockquote>"), None);
    assert_eq!(locate("for next week Quote of the Week0123456789 text"), None);
}

#[test]
fn only_the_first_heading_counts() {
    let page = "Quote of the Week0123456789a Quote of the Week b for next week";
    let section = locate(page).unwrap();
    assert_eq!(&page[section.start..section.end], "a Quote of the Week b ");
}

#[test]
fn the_ten_bytes_may_end_within_a_character() {
    let page = "Quote of the Week012345678é<em>x</em>for next week";
    let section = locate(page).unwrap();
    assert_eq!(section, Span { start: 27, end: 38 });
    assert!(!page.is_char_boundary(27));
}
