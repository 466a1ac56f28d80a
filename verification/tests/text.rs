use playscript::text::{
    decimal_text, is_blank, is_whitespace, join_from, parse_number, split_leading,
    split_whitespace, to_chars, trim, trimmed_lines,
};

#[test]
fn white_space_is_the_unicode_property() {
    assert!(is_whitespace(' '));
    assert!(is_whitespace('\t'));
    assert!(is_whitespace('\n'));
    assert!(is_whitespace('\u{a0}'));
    assert!(is_whitespace('\u{3000}'));
    assert!(!is_whitespace('a'));
    assert!(!is_whitespace('\u{200b}'));
    for code in 0u32..0x11_0000 {
        if let Some(c) = char::from_u32(code) {
            assert_eq!(is_whitespace(c), c.is_whitespace());
        }
    }
}

#[test]
fn trim_drops_white_space_at_both_ends() {
    assert_eq!(trim("  a b \t"), "a b");
    assert_eq!(trim(""), "");
    assert_eq!(trim(" \n "), "");
    assert_eq!(trim("x"), "x");
}

#[test]
fn blank_means_white_space_only() {
    assert!(is_blank(""));
    assert!(is_blank(" \t"));
    assert!(!is_blank(" a "));
}

#[test]
fn tokens_are_runs_between_white_space() {
    assert_eq!(split_whitespace("  Bob   path.txt extra "), vec!["Bob", "path.txt", "extra"]);
    assert!(split_whitespace("   ").is_empty());
    assert_eq!(split_whitespace("one"), vec!["one"]);
}

#[test]
fn joining_puts_single_spaces() {
    let words = split_whitespace("[scene]  The   first  scene");
    assert_eq!(join_from(&words, 1), "The first scene");
    assert_eq!(join_from(&words, 4), "");
    assert_eq!(join_from(&words, 3), "scene");
}

#[test]
fn leading_token_and_trimmed_remainder() {
    assert_eq!(split_leading("12   Hello  there "), ("12".to_string(), "Hello  there".to_string()));
    assert_eq!(split_leading("12"), ("12".to_string(), String::new()));
    assert_eq!(split_leading(" 12 x"), (String::new(), "12 x".to_string()));
    assert_eq!(split_leading(""), (String::new(), String::new()));
}

#[test]
fn line_numbers_are_unsigned_decimals() {
    assert_eq!(parse_number("0"), Some(0));
    assert_eq!(parse_number("007"), Some(7));
    assert_eq!(parse_number("+15"), Some(15));
    assert_eq!(parse_number(""), None);
    assert_eq!(parse_number("+"), None);
    assert_eq!(parse_number("-3"), None);
    assert_eq!(parse_number("3a"), None);
    assert_eq!(parse_number("abc"), None);
    assert_eq!(parse_number("1_000"), None);
    assert_eq!(parse_number(&usize::MAX.to_string()), Some(usize::MAX));
    assert_eq!(parse_number("18446744073709551616"), None);
    assert_eq!(parse_number("99999999999999999999999"), None);
    for text in ["0", "42", "+7", "0009", "", "+", "++1", "1 ", "x1", "18446744073709551615"] {
        assert_eq!(parse_number(text), text.parse::<usize>().ok());
    }
}

#[test]
fn to_chars_gives_each_character() {
    assert_eq!(to_chars("a\u{e9}b"), vec!['a', '\u{e9}', 'b']);
    assert!(to_chars("").is_empty());
}

#[test]
fn text_is_split_at_line_feeds_and_trimmed() {
    assert_eq!(trimmed_lines("  one \r\n\ntwo\n"), vec!["one", "", "two"]);
    assert_eq!(trimmed_lines("last line has no end  "), vec!["last line has no end"]);
    assert_eq!(trimmed_lines("a\n \t "), vec!["a", ""]);
    assert_eq!(trimmed_lines("\n"), vec![""]);
    assert!(trimmed_lines("").is_empty());
}

#[test]
fn numbers_are_written_in_decimal() {
    assert_eq!(decimal_text(0), "0");
    assert_eq!(decimal_text(7), "7");
    assert_eq!(decimal_text(10), "10");
    assert_eq!(decimal_text(4096), "4096");
    assert_eq!(decimal_text(usize::MAX), usize::MAX.to_string());
    for d in 0..10usize {
        assert_eq!(decimal_text(d), d.to_string());
    }
}

#[test]
fn decimal_text_reads_back_as_the_number() {
    for n in [0usize, 1, 9, 10, 99, 100, 12345, usize::MAX - 1, usize::MAX] {
        assert_eq!(parse_number(&decimal_text(n)), Some(n));
    }
}
