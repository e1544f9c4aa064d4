use pa3::text::{
    chars_of, decimal_string, find_first, find_last, is_whitespace, parse_usize, split_chars,
    split_str_chars, string_of, trim_str, words_of,
};

fn s(x: &str) -> String {
    x.to_string()
}

#[test]
fn whitespace_is_unicode_white_space() {
    assert!(is_whitespace(' '));
    assert!(is_whitespace('\t'));
    assert!(is_whitespace('\u{3000}'));
    assert!(is_whitespace('\u{85}'));
    assert!(!is_whitespace('a'));
    assert!(!is_whitespace('\u{200b}'));
    for c in ['\u{a0}', '\u{1680}', '\u{2000}', '\u{200a}', '\u{2028}', '\u{2029}', '\u{202f}', '\u{205f}', '\r', '\n', '\u{b}', '\u{c}'] {
        assert_eq!(is_whitespace(c), c.is_whitespace());
    }
}

#[test]
fn trim_matches_std() {
    for t in ["  a b  ", "\u{3000}x\u{a0}", "", "   ", "abc", "\n\tz\r\n"] {
        assert_eq!(trim_str(t), t.trim());
    }
}

#[test]
fn find_occurrences() {
    let v = chars_of("a|b|c");
    assert_eq!(find_first(&v, '|'), Some(1));
    assert_eq!(find_last(&v, '|'), Some(3));
    assert_eq!(find_first(&v, 'x'), None);
    assert_eq!(string_of(&v, 2, 5), "b|c");
}

#[test]
fn split_on_character() {
    assert_eq!(split_chars(&chars_of("a|b||c"), '|'), vec![s("a"), s("b"), s(""), s("c")]);
    assert_eq!(split_chars(&chars_of(""), '|'), vec![s("")]);
    assert_eq!(split_chars(&chars_of("|"), '|'), vec![s(""), s("")]);
}

#[test]
fn split_on_pattern() {
    let p = chars_of("ab");
    assert_eq!(split_str_chars(&chars_of("xabyabz"), &p), vec![s("x"), s("y"), s("z")]);
    assert_eq!(split_str_chars(&chars_of("aab"), &p), vec![s("a"), s("")]);
    assert_eq!(split_str_chars(&chars_of("none"), &p), vec![s("none")]);
}

#[test]
fn words_skip_empty_pieces() {
    assert_eq!(words_of(&chars_of("  ls  -la x ")), vec![s("ls"), s("-la"), s("x")]);
    assert!(words_of(&chars_of("   ")).is_empty());
}

#[test]
fn decimal_notation() {
    assert_eq!(decimal_string(0), "0");
    assert_eq!(decimal_string(4414), "4414");
    assert_eq!(decimal_string(u64::MAX), u64::MAX.to_string());
}

#[test]
fn parse_numbers_like_std() {
    for t in ["8080", "+5", "+", "-5", "", "007", "12a", "18446744073709551615", "18446744073709551616", "99999999999999999999", " 1", "+-1"] {
        assert_eq!(parse_usize(t), t.parse::<usize>().ok(), "input {:?}", t);
    }
}

#[test]
fn decimal_parses_back() {
    for n in [0u64, 9, 10, 123456, 4294967295] {
        assert_eq!(parse_usize(&decimal_string(n)), Some(n as usize));
    }
}

#[test]
fn trimming_twice_changes_nothing() {
    for t in ["  a  ", "\u{2028}b", "c", ""] {
        assert_eq!(trim_str(&trim_str(t)), trim_str(t));
    }
}

#[test]
fn split_then_join_gives_text_back() {
    for t in ["a|b||c", "", "|", "no bars"] {
        assert_eq!(split_chars(&chars_of(t), '|').join("|"), t);
    }
}
