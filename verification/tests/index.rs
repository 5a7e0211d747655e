use qwot::fetch::stored_dates;
use qwot::index::{parse_entry, split};
use qwot::{fetch_missing_quotes, get_new_twir_urls, next_record, MalformedIndex, MalformedMarkup, TwirUrl, Container};

fn issue(date: &str, url: &str) -> TwirUrl {
    TwirUrl { url: url.to_string(), date: date.to_string() }
}

fn entry(date: &str, number: u32) -> String {
    format!(
        "<li>\n<time pubdate=\"pubdate\" datetime=\"{}T00:00:00-04:00\">{}</time>\n<a href=\"https://this-week-in-rust.org/blog/{}/this-week-in-rust-{}/\">This Week in Rust {}</a>\n</li>\n",
        date, date, date, number, number
    )
}

fn archive(entries: &[(&str, u32)]) -> String {
    let mut page = String::from("<html><head><li>not an entry</li></head><body><h1>Past issues</h1>\n<ul>\n");
    for (date, number) in entries {
        page.push_str(&entry(date, *number));
    }
    page.push_str("</ul></body></html>");
    page
}

fn address(date: &str, number: u32) -> String {
    format!("https://this-week-in-rust.org/blog/{}/this-week-in-rust-{}/", date, number)
}

#[test]
fn split_gives_the_parts_between_the_occurrences() {
    assert_eq!(split("a<li>b<li>c", "<li>"), vec!["a", "b", "c"]);
    assert_eq!(split("<li>b<li>", "<li>"), vec!["", "b", ""]);
    assert_eq!(split("abc", "<li>"), vec!["abc"]);
    assert_eq!(split("", "<li>"), vec![""]);
    assert_eq!(split("aaa", "aa"), vec!["", "a"]);
    assert_eq!(split("abc", ""), vec!["abc"]);
}

#[test]
fn split_agrees_with_the_standard_library() {
    let texts = ["", "a", "<li>", "x<li>y", "<li><li>", "é<li>✓<li>日本語", "a,b,,c,"];
    let separators = ["<li>", ",", "é", "li"];
    for text in texts {
        for separator in separators {
            let expected: Vec<String> = text.split(separator).map(|s| s.to_string()).collect();
            assert_eq!(split(text, separator), expected);
        }
    }
}

#[test]
fn an_entry_holds_a_date_of_ten_bytes_and_an_address() {
    assert_eq!(
        parse_entry(&entry("2021-06-02", 393)),
        Some(issue("2021-06-02", &address("2021-06-02", 393)))
    );
    assert_eq!(
        parse_entry("datetime=\"0123456789\" href=\"u\""),
        Some(issue("0123456789", "u"))
    );
    assert_eq!(parse_entry("datetime..0123456789href..\""), Some(issue("0123456789", "")));
    assert_eq!(parse_entry("datetime..href..\"\"href..u\""), Some(issue("href..\"\"hr", "")));
}

#[test]
fn the_address_is_looked_for_from_the_date_on() {
    assert_eq!(
        parse_entry("href=\"early\" datetime=\"2021-06-02\" href=\"late\""),
        Some(issue("2021-06-02", "late"))
    );
    assert_eq!(parse_entry("href=\"early\" datetime=\"2021-06-02\""), None);
}

#[test]
fn an_entry_that_lacks_a_part_lists_no_issue() {
    assert_eq!(parse_entry(""), None);
    assert_eq!(parse_entry("<time>2021-06-02</time><a href=\"u\">"), None);
    assert_eq!(parse_entry("datetime=\"2021-06-02\""), None);
    assert_eq!(parse_entry("datetime=\"2021-06"), None);
    assert_eq!(parse_entry("datetime=\"012345678"), None);
    assert_eq!(parse_entry("datetime=\"2021-06-02\" href"), None);
    assert_eq!(parse_entry("datetime=\"2021-06-02\" href="), None);
    assert_eq!(parse_entry("datetime=\"2021-06-02\" href=\"u"), None);
}

#[test]
fn a_date_or_an_address_cannot_begin_or_end_within_a_character() {
    assert_eq!(parse_entry("datetime=é2021-06-02\" href=\"u\""), None);
    assert_eq!(parse_entry("datetime=\"2021-06-0é\" href=\"u\""), None);
    assert_eq!(parse_entry("datetime=\"2021-06-02\" href=éu\""), None);
    assert_eq!(
        parse_entry("datetime=\"2021-06-é\" href=\"ü\""),
        Some(issue("2021-06-é", "ü"))
    );
}

#[test]
fn an_empty_page_gives_no_list() {
    assert_eq!(get_new_twir_urls(""), Ok(None));
    assert_eq!(fetch_missing_quotes("2021-06-02 x\n", ""), Ok(None));
}

#[test]
fn a_page_without_the_list_is_malformed() {
    assert_eq!(get_new_twir_urls(" "), Err(MalformedIndex::NoList));
    assert_eq!(
        get_new_twir_urls("<li>datetime=\"2021-06-02\" href=\"u\"This Week in Rust 72"),
        Err(MalformedIndex::NoList)
    );
}

#[test]
fn a_list_without_its_end_is_malformed() {
    assert_eq!(get_new_twir_urls(&archive(&[("2021-06-02", 393)])), Err(MalformedIndex::NoEnd));
    assert_eq!(
        get_new_twir_urls("This Week in Rust 72 Past issues"),
        Err(MalformedIndex::NoEnd)
    );
    assert_eq!(fetch_missing_quotes("", "Past issues"), Err(MalformedIndex::NoEnd));
}

#[test]
fn the_issues_are_listed_in_the_order_of_the_page() {
    let page = archive(&[("2021-06-09", 394), ("2021-06-02", 393), ("2015-03-02", 72), ("2015-02-23", 71)]);
    assert_eq!(
        get_new_twir_urls(&page),
        Ok(Some(vec![
            issue("2021-06-09", &address("2021-06-09", 394)),
            issue("2021-06-02", &address("2021-06-02", 393)),
            issue("2015-03-02", &address("2015-03-02", 72)),
        ]))
    );
}

#[test]
fn a_list_may_be_empty() {
    assert_eq!(get_new_twir_urls("Past issues <ul> This Week in Rust 72"), Ok(Some(vec![])));
}

#[test]
fn an_entry_that_lists_no_issue_makes_the_page_malformed() {
    let page = format!(
        "Past issues{}<li>no date</li>{}This Week in Rust 72",
        entry("2021-06-09", 394),
        entry("2021-06-02", 393)
    );
    assert_eq!(get_new_twir_urls(&page), Err(MalformedIndex::Entry { number: 1 }));
    let page = "Past issues<li><li>This Week in Rust 72";
    assert_eq!(get_new_twir_urls(page), Err(MalformedIndex::Entry { number: 0 }));
    assert_eq!(fetch_missing_quotes("", page), Err(MalformedIndex::Entry { number: 0 }));
}

#[test]
fn the_dates_of_the_store_are_what_stands_before_the_first_field_break() {
    assert_eq!(stored_dates("2021-06-02 a b\n2021-06-09\n\n x\n"), vec!["2021-06-02", "2021-06-09", "", ""]);
    assert_eq!(stored_dates(""), Vec::<String>::new());
}

#[test]
fn the_missing_issues_are_listed_from_the_oldest_to_the_newest() {
    let page = archive(&[
        ("2021-06-23", 396),
        ("2021-06-16", 395),
        ("2021-06-09", 394),
        ("2021-06-02", 393),
        ("2015-03-02", 72),
    ]);
    assert_eq!(
        fetch_missing_quotes("", &page),
        Ok(Some(vec![
            issue("2015-03-02", &address("2015-03-02", 72)),
            issue("2021-06-02", &address("2021-06-02", 393)),
            issue("2021-06-09", &address("2021-06-09", 394)),
            issue("2021-06-16", &address("2021-06-16", 395)),
            issue("2021-06-23", &address("2021-06-23", 396)),
        ]))
    );
    let stored = "2015-03-02 <NO QUOTE>\n2021-06-09 a quote\n2021-06-16\n";
    assert_eq!(
        fetch_missing_quotes(stored, &page),
        Ok(Some(vec![
            issue("2021-06-02", &address("2021-06-02", 393)),
            issue("2021-06-23", &address("2021-06-23", 396)),
        ]))
    );
    let stored = "2021-06-23 e\n2021-06-16 d\n2021-06-09 c\n2021-06-02 b\n2015-03-02 a\n";
    assert_eq!(fetch_missing_quotes(stored, &page), Ok(Some(vec![])));
}

#[test]
fn an_issue_that_is_listed_twice_is_fetched_twice() {
    let page = archive(&[("2021-06-09", 394), ("2021-06-09", 394), ("2015-03-02", 72)]);
    let listed = fetch_missing_quotes("2015-03-02 x\n", &page).unwrap().unwrap();
    assert_eq!(listed.len(), 2);
    assert_eq!(listed[0], listed[1]);
}

#[test]
fn the_next_record_holds_the_date_and_the_quote_of_the_page() {
    let listed = issue("2021-06-02", &address("2021-06-02", 393));
    let page = "Quote of the Week</a></h1>\n<blockquote>\n<p>A <em>fine</em> quote.</p>\n</blockquote>\n<p>Vote for next week!</p>";
    assert_eq!(next_record(&listed, page), Ok("2021-06-02 A _fine_ quote.\n".to_string()));
    assert_eq!(next_record(&listed, "no quote here"), Ok("2021-06-02 <NO QUOTE>\n".to_string()));
    assert_eq!(next_record(&listed, ""), Ok("2021-06-02 <NO QUOTE>\n".to_string()));
}

#[test]
fn the_next_record_goes_by_the_address_of_the_issue() {
    let page = "Quote of the Week</a></h1>\n<p><em>An early quote.</em></p>\n<p>Vote for next week!</p>";
    let early = issue("2015-03-16", &address("2015/03/16", 74));
    assert_eq!(next_record(&early, page), Ok("2015-03-16 An early quote.\n".to_string()));
    let late = issue("2021-06-02", &address("2021/06/02", 393));
    assert_eq!(next_record(&late, page), Ok("2021-06-02 <NO QUOTE>\n".to_string()));
}

#[test]
fn a_page_with_broken_markup_gives_no_record() {
    let listed = issue("2021-06-02", &address("2021-06-02", 393));
    let page = "Quote of the Week0123456789<blockquote>open for next week";
    assert_eq!(
        next_record(&listed, page),
        Err(MalformedMarkup::Unclosed { container: Container::BlockQuote, offset: 27 })
    );
}

fn listed_by_the_standard_library(page: &str) -> Vec<TwirUrl> {
    let from = page.find("Past issues").unwrap();
    let page = &page[from..];
    let end = page.find("This Week in Rust 72").unwrap();
    let page = &page[..end];
    page.split("<li>")
        .skip(1)
        .map(|li| {
            let datetime = li.find("datetime").unwrap();
            let li = &li[datetime + 10..];
            let date = &li[..10];
            let href = li.find("href").unwrap();
            let li = &li[href + 6..];
            let end_url = li.find('"').unwrap();
            issue(date, &li[..end_url])
        })
        .collect()
}

#[test]
fn the_list_agrees_with_searching_and_cutting_by_the_standard_library() {
    let pages = [
        archive(&[("2015-03-02", 72)]),
        archive(&[("2021-06-09", 394), ("2021-06-02", 393), ("2015-03-02", 72), ("2015-02-23", 71)]),
        archive(&[("2024-01-03", 528), ("2023-12-27", 527), ("2023-12-20", 526), ("2015-03-02", 72)]),
        String::from("Past issues<li>datetime=\"é234567890\" href=\"ü\"<li>datetime..0123456789href..\"This Week in Rust 72"),
    ];
    for page in &pages {
        assert_eq!(get_new_twir_urls(page), Ok(Some(listed_by_the_standard_library(page))));
    }
}
