use qwot::{is_blank, trim};

#[test]
fn trim_takes_the_white_space_from_both_ends() {
    assert_eq!(trim("  a b  "), "a b");
    assert_eq!(trim("\n\t a\r\n"), "a");
    assert_eq!(trim("a"), "a");
    assert_eq!(trim(""), "");
    assert_eq!(trim(" \n\r\t\u{b}\u{c}"), "");
}

#[test]
fn trim_knows_the_white_space_of_several_bytes() {
    assert_eq!(trim("\u{85}a\u{a0}"), "a");
    assert_eq!(trim("\u{1680}a\u{1680}"), "a");
    assert_eq!(trim("\u{2000}\u{2001}\u{2002}\u{2003}\u{2004}\u{2005}a"), "a");
    assert_eq!(trim("a\u{2006}\u{2007}\u{2008}\u{2009}\u{200a}"), "a");
    assert_eq!(trim("\u{2028}a\u{2029}"), "a");
    assert_eq!(trim("\u{202f}a\u{205f}\u{3000}"), "a");
}

#[test]
fn trim_leaves_what_is_no_white_space() {
    assert_eq!(trim("\u{200b}a\u{200b}"), "\u{200b}a\u{200b}");
    assert_eq!(trim("\u{180e}a"), "\u{180e}a");
    assert_eq!(trim("é a é"), "é a é");
    assert_eq!(trim("\u{2060}"), "\u{2060}");
    assert_eq!(trim("\u{feff}a"), "\u{feff}a");
    assert_eq!(trim("\u{1f}a\u{7f}"), "\u{1f}a\u{7f}");
}

#[test]
fn trim_leaves_the_white_space_within() {
    assert_eq!(trim(" a \u{3000} b\n"), "a \u{3000} b");
}

#[test]
fn trim_agrees_with_the_standard_library_on_every_character() {
    let mut code: u32 = 0;
    while code < 0x3100 {
        if let Some(c) = char::from_u32(code) {
            let text = format!("{}x{}y{}", c, c, c);
            assert_eq!(trim(&text), text.trim());
            let alone = format!("{}", c);
            assert_eq!(trim(&alone), alone.trim());
        }
        code += 1;
    }
}

#[test]
fn is_blank_holds_of_white_space_alone() {
    assert!(is_blank(""));
    assert!(is_blank(" \n\t"));
    assert!(is_blank("\u{a0}\u{3000}"));
    assert!(!is_blank(" a "));
    assert!(!is_blank("\u{200b}"));
}
