use qwot::rewrite::{replace_all, rewrite};

#[test]
fn replace_all_takes_occurrences_from_the_left_without_overlap() {
    assert_eq!(replace_all("aaa", "aa", "b"), "ba");
    assert_eq!(replace_all("aaaa", "aa", "b"), "bb");
    assert_eq!(replace_all("abcabc", "bc", "-"), "a-a-");
    assert_eq!(replace_all("abc", "x", "y"), "abc");
    assert_eq!(replace_all("", "x", "y"), "");
}

#[test]
fn replace_all_may_grow_or_shrink_the_text() {
    assert_eq!(replace_all("a\nb\n", "\n", ";;"), "a;;b;;");
    assert_eq!(replace_all("<p>x</p>", "<p>", ""), "x</p>");
    assert_eq!(replace_all("<hr>", "<hr>", "---"), "---");
}

#[test]
fn replace_all_does_not_look_at_what_it_has_put() {
    assert_eq!(replace_all("ab", "a", "aa"), "aab");
    assert_eq!(replace_all("xay", "a", "xay"), "xxayy");
}

#[test]
fn replace_all_leaves_the_text_when_the_pattern_is_empty() {
    assert_eq!(replace_all("abc", "", "x"), "abc");
    assert_eq!(replace_all("", "", "x"), "");
}

#[test]
fn replace_all_keeps_characters_of_several_bytes() {
    assert_eq!(replace_all("héllo — wörld ✓", "ö", "oe"), "héllo — woerld ✓");
    assert_eq!(replace_all("日本語<br>テキスト", "<br>", "\n"), "日本語\nテキスト");
    assert_eq!(replace_all("a✓b✓c", "✓", ""), "abc");
}

#[test]
fn replace_all_agrees_with_the_standard_library() {
    let texts = ["", "a", "aaa", "abab", "a\n\nb", "<em>x</em><em>y</em>", "é✓é✓", "&amp;lt;"];
    let rules = [("a", "b"), ("aa", "a"), ("\n", ";;"), ("<em>", "_"), ("✓", "é"), ("&amp;", "&")];
    for text in texts {
        for (pattern, with) in rules {
            assert_eq!(replace_all(text, pattern, with), text.replace(pattern, with));
        }
    }
}

#[test]
fn rewrite_applies_the_rules_in_their_order() {
    assert_eq!(rewrite("abc", &[("a", "b"), ("b", "c")]), "ccc");
    assert_eq!(rewrite("abc", &[("b", "c"), ("a", "b")]), "bcc");
    assert_eq!(rewrite("abc", &[]), "abc");
}

#[test]
fn rewrite_lets_a_later_rule_see_what_an_earlier_one_joined() {
    assert_eq!(rewrite("<e<p>m>", &[("<p>", ""), ("<em>", "_")]), "_");
    assert_eq!(rewrite("<e<p>m>", &[("<em>", "_"), ("<p>", "")]), "<em>");
}
