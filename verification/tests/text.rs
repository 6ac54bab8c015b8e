use wget::decimal::{push_decimal, read_u64};
use wget::text::{
    contains, contains_char, ends_with, find, pieces, replaced, same_text, starts_with, to_chars,
    trimmed, unquoted, white_space, without_leading, without_trailing, CharClass,
};

#[test]
fn white_space_is_that_of_unicode() {
    for n in 0..=0x10ffffu32 {
        if let Some(c) = char::from_u32(n) {
            assert_eq!(white_space(c), c.is_whitespace(), "{:x}", n);
        }
    }
}

#[test]
fn trimming_removes_white_space_at_the_ends() {
    for text in ["", " ", " a b ", "\n\ta\r\n", "\u{2003}x\u{85}", "abc", "\u{200b}"] {
        assert_eq!(trimmed(text), text.trim());
        assert_eq!(trimmed(&trimmed(text)), text.trim());
    }
    assert_eq!(without_leading("//a/", CharClass::Only('/')), "a/");
    assert_eq!(without_trailing("//a//", CharClass::Only('/')), "//a");
    assert_eq!(without_leading("///", CharClass::Only('/')), "");
}

#[test]
fn pieces_join_to_the_text() {
    for text in ["", "/", "a", "/a//b/", "é/ü"] {
        let parts = pieces(text, '/');
        assert_eq!(parts, text.split('/').collect::<Vec<&str>>());
        assert_eq!(parts.join("/"), text);
    }
}

#[test]
fn searching_finds_the_first_place() {
    let text = to_chars("abcabc");
    assert_eq!(find(&text, &to_chars("bc"), 0), Some(1));
    assert_eq!(find(&text, &to_chars("bc"), 2), Some(4));
    assert_eq!(find(&text, &to_chars("bc"), 5), None);
    assert_eq!(find(&text, &to_chars(""), 6), Some(6));
    assert_eq!(find(&text, &to_chars(""), 7), None);
    assert_eq!(find(&text, &to_chars("x"), 0), None);
    assert!(contains("text/html; charset=utf-8", "text/html"));
    assert!(!contains("text/plain", "text/html"));
    assert!(contains_char("a=b", '='));
    assert!(!contains_char("ab", '='));
}

#[test]
fn starts_and_ends() {
    assert!(starts_with("/css/a", "/css"));
    assert!(!starts_with("/cs", "/css"));
    assert!(starts_with("x", ""));
    assert!(ends_with("a.jpg", "jpg"));
    assert!(!ends_with("jpg", "a.jpg"));
    assert!(same_text("é", "é"));
    assert!(!same_text("é", "e"));
    assert!(!same_text("a", "ab"));
}

#[test]
fn replacing_agrees_with_the_standard_library() {
    for (text, old, new) in [
        ("aaaa", "aa", "b"),
        ("aaa", "aa", "a"),
        ("href=\"x\" href=\"x\"", "href=\"x\"", "href=\"../x\""),
        ("abc", "d", "e"),
        ("", "a", "b"),
        ("aXbXc", "X", ""),
        ("ééé", "é", "e"),
    ] {
        assert_eq!(replaced(text, old, new), text.replace(old, new));
    }
}

#[test]
fn numbers_are_read_back() {
    for n in [0, 9, 10, 99, 100, 1234567890, u64::MAX] {
        let mut text = String::new();
        push_decimal(&mut text, n);
        assert_eq!(text, n.to_string());
        let chars = to_chars(&text);
        assert_eq!(read_u64(&chars, chars.len()), Some(n));
    }
}

#[test]
fn quotes_are_removed_at_the_ends() {
    assert_eq!(unquoted("'a'"), "a");
    assert_eq!(unquoted("\"a b\""), "a b");
    assert_eq!(unquoted("a'b"), "a'b");
    assert_eq!(unquoted("'a"), "a");
    assert_eq!(unquoted("a"), "a");
    assert_eq!(unquoted(""), "");
}
