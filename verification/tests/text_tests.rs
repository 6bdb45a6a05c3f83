use lib::text::{lines, parse_u64, push_decimal, same_text, split_once_char, to_ascii_uppercase, trim};

#[test]
fn trim_removes_unicode_white_space() {
    assert_eq!(trim("  \t a b \u{3000}\n"), "a b");
    assert_eq!(trim("   "), "");
    assert_eq!(trim("x"), "x");
    for text in ["\u{85}a\u{a0}", "\u{2000}\u{200a}b\u{200b}", " \r\n", "\u{1680}c\u{205f}"] {
        assert_eq!(trim(text), text.trim(), "for {text:?}");
    }
}

#[test]
fn lines_follow_str_lines() {
    for text in ["", "a", "a\n", "a\r\nb", "\n\nx\r", "a\r\r\n", "\r\n"] {
        let expected: Vec<&str> = text.lines().collect();
        assert_eq!(lines(text), expected, "for {text:?}");
    }
}

#[test]
fn parse_u64_follows_str_parse() {
    for text in ["0", "+0", "007", "18446744073709551615", "18446744073709551616", "", "+", "-1", " 1", "1_0", "99999999999999999999"] {
        assert_eq!(parse_u64(text), text.parse::<u64>().ok(), "for {text:?}");
    }
}

#[test]
fn decimal_digits_are_written() {
    let mut out = String::from("n=");
    push_decimal(&mut out, 0);
    push_decimal(&mut out, 1207);
    assert_eq!(out, "n=01207");
}

#[test]
fn split_and_compare_and_uppercase() {
    assert_eq!(split_once_char("a=b=c", '='), Some(("a", "b=c")));
    assert_eq!(split_once_char("abc", '='), None);
    assert!(same_text("ab", "ab"));
    assert!(!same_text("ab", "abc"));
    assert_eq!(to_ascii_uppercase("oN ß"), "ON ß");
}
