use aw_kimai_bridge::text::{
    contains, decimal_string, eq_ignore_ascii_case, pad_right, parse_usize, starts_with, str_eq,
    str_lt, trim_trailing_slashes, trim_ws, truncate_chars,
};

#[test]
fn string_order_is_lexicographic_by_char() {
    assert!(str_lt("abc", "abd"));
    assert!(str_lt("ab", "abc"));
    assert!(!str_lt("abc", "abc"));
    assert!(!str_lt("b", "abc"));
    assert!(str_lt("", "a"));
    assert!(str_lt("Z", "a"));
}

#[test]
fn string_equality() {
    assert!(str_eq("afk", "afk"));
    assert!(!str_eq("afk", "not-afk"));
    assert!(!str_eq("afk", "AFK"));
}

#[test]
fn prefixes_and_substrings() {
    assert!(starts_with("https://kimai", "https://"));
    assert!(!starts_with("http", "https://"));
    assert!(contains("aw-watcher-window_host", "window"));
    assert!(!contains("aw-watcher-afk_host", "window"));
    assert!(contains("anything", ""));
}

#[test]
fn trailing_slashes_are_dropped() {
    assert_eq!(trim_trailing_slashes("http://x///"), "http://x");
    assert_eq!(trim_trailing_slashes("http://x"), "http://x");
    assert_eq!(trim_trailing_slashes("///"), "");
}

#[test]
fn truncation_marks_the_cut() {
    assert_eq!(truncate_chars("hello", 5), "hello");
    assert_eq!(truncate_chars("hello world", 5), "hell…");
    assert_eq!(truncate_chars("äöüäöü", 4), "äöü…");
    assert_eq!(truncate_chars("", 0), "");
}

#[test]
fn decimal_text() {
    assert_eq!(decimal_string(0), "0");
    assert_eq!(decimal_string(7), "7");
    assert_eq!(decimal_string(1234567890), "1234567890");
    assert_eq!(decimal_string(u64::MAX), u64::MAX.to_string());
}

#[test]
fn padding_to_width() {
    assert_eq!(pad_right("ID", 6), "ID    ");
    assert_eq!(pad_right("longer", 3), "longer");
}

#[test]
fn ascii_case_insensitive_equality() {
    assert!(eq_ignore_ascii_case("AW-Watcher_Host", "aw-watcher_host"));
    assert!(eq_ignore_ascii_case("y", "Y"));
    assert!(!eq_ignore_ascii_case("Ä", "ä"));
    assert!(!eq_ignore_ascii_case("ab", "abc"));
}

#[test]
fn parsing_numbers() {
    assert_eq!(parse_usize("42"), Some(42));
    assert_eq!(parse_usize("+7"), Some(7));
    assert_eq!(parse_usize("007"), Some(7));
    assert_eq!(parse_usize(""), None);
    assert_eq!(parse_usize("+"), None);
    assert_eq!(parse_usize("-1"), None);
    assert_eq!(parse_usize("1x"), None);
    assert_eq!(parse_usize("99999999999999999999999"), None);
    assert_eq!(parse_usize(&usize::MAX.to_string()), Some(usize::MAX));
}

#[test]
fn trimming_white_space() {
    assert_eq!(trim_ws("  a b \t\n"), "a b");
    assert_eq!(trim_ws("\u{3000}x\u{a0}"), "x");
    assert_eq!(trim_ws(" \r\n "), "");
    assert_eq!(trim_ws("x"), "x");
    assert_eq!(trim_ws("\u{200b}x"), "\u{200b}x");
}

#[test]
fn trimming_agrees_with_std_on_every_char() {
    for c in (0u32..=0x10FFFF).filter_map(char::from_u32) {
        let s = format!("{c}a{c}");
        assert_eq!(trim_ws(&s), s.trim(), "char U+{:04X}", c as u32);
    }
}
