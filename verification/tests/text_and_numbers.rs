use achievement_panel::number::{decimal_string, parse_u32, two_digit_chars};
use achievement_panel::text::{
    chars_of, collapse_backslash_pairs, contains, ends_with, is_whitespace, lines_of, starts_with,
    string_of, trim_chars, trim_str,
};

fn chars(s: &str) -> Vec<char> {
    s.chars().collect()
}

#[test]
fn trim_removes_unicode_whitespace_at_both_ends() {
    assert_eq!(trim_str("  \t hello world \r\n"), chars("hello world"));
    assert_eq!(trim_str("\u{3000}x\u{00a0}"), chars("x"));
    assert_eq!(trim_str("   "), chars(""));
    assert_eq!(trim_str(""), chars(""));
    assert_eq!(trim_chars(&chars("a b")), chars("a b"));
}

#[test]
fn trim_is_idempotent_on_examples() {
    for s in ["  a  ", "\t\"path\"\t\t\"C:\\\\Games\"  ", "", " x y "] {
        let once = trim_str(s);
        let twice = trim_chars(&once);
        assert_eq!(once, twice);
        assert_eq!(string_of(&once), s.trim());
    }
}

#[test]
fn whitespace_matches_std() {
    for c in ['\t', '\n', '\r', ' ', '\u{85}', '\u{a0}', '\u{2000}', '\u{3000}', 'a', '0', '"', '\u{200b}'] {
        assert_eq!(is_whitespace(c), c.is_whitespace(), "{:?}", c);
    }
}

#[test]
fn prefix_suffix_and_substring() {
    assert!(starts_with(&chars("appmanifest_10.acf"), &chars("appmanifest_")));
    assert!(!starts_with(&chars("app"), &chars("appmanifest_")));
    assert!(ends_with(&chars("appmanifest_10.acf"), &chars(".acf")));
    assert!(!ends_with(&chars("appmanifest_10.acfx"), &chars(".acf")));
    assert!(contains(&chars("counter-strike"), &chars("strike")));
    assert!(contains(&chars("abc"), &chars("")));
    assert!(!contains(&chars("abc"), &chars("abcd")));
    assert!(!contains(&chars("abc"), &chars("ac")));
}

#[test]
fn backslash_pairs_collapse_left_to_right() {
    assert_eq!(collapse_backslash_pairs(&chars("C:\\\\Games\\\\Steam")), chars("C:\\Games\\Steam"));
    assert_eq!(collapse_backslash_pairs(&chars("a\\\\\\b")), chars("a\\\\b"));
    assert_eq!(string_of(&collapse_backslash_pairs(&chars("x\\\\\\\\y"))), "x\\\\y".to_string());
    assert_eq!(string_of(&collapse_backslash_pairs(&chars("x\\\\\\\\y"))), "x\\\\\\\\y".replace("\\\\", "\\"));
}

#[test]
fn lines_split_at_line_feeds() {
    let text = chars("a\nbb\r\n\nc");
    let lines: Vec<String> = lines_of(&text).iter().map(|l| string_of(l)).collect();
    assert_eq!(lines, vec!["a", "bb\r", "", "c"]);
    let text = chars("one\ntwo\n");
    let lines: Vec<String> = lines_of(&text).iter().map(|l| string_of(l)).collect();
    assert_eq!(lines, vec!["one", "two"]);
    assert!(lines_of(&chars("")).is_empty());
    let trimmed: Vec<String> = lines_of(&chars("x\r\ny \r\n")).iter().map(|l| string_of(&trim_chars(l))).collect();
    let expected: Vec<String> = "x\r\ny \r\n".lines().map(|l| l.trim().to_string()).collect();
    assert_eq!(trimmed, expected);
}

#[test]
fn chars_round_trip() {
    let s = "Kütüphane – 480";
    assert_eq!(string_of(&chars_of(s)), s);
}

#[test]
fn parse_u32_follows_std() {
    for s in ["0", "480", "+7", "4294967295", "4294967296", "", "+", "-1", " 1", "12a", "007", "99999999999"] {
        assert_eq!(parse_u32(&chars(s)), s.parse::<u32>().ok(), "{:?}", s);
    }
}

#[test]
fn decimal_notation_and_padding() {
    assert_eq!(decimal_string(0), "0");
    assert_eq!(decimal_string(480), "480");
    assert_eq!(decimal_string(u64::MAX), u64::MAX.to_string());
    assert_eq!(string_of(&two_digit_chars(7)), "07");
    assert_eq!(string_of(&two_digit_chars(42)), "42");
    assert_eq!(string_of(&two_digit_chars(123)), "123");
}

#[test]
fn decimal_then_parse_gives_the_number_back() {
    for n in [0u32, 1, 9, 10, 480, 65535, 4294967295] {
        let text = decimal_string(n as u64);
        assert_eq!(parse_u32(&chars(&text)), Some(n));
    }
}
