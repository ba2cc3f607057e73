//! Text as a sequence of characters.

use omalibre::text::{
    chars_of, decimal_of, find_chars, is_blank_text, lines, lower_text, lowercase, read_number,
    replace, same, signed_decimal_of, sorts_before, split, text_of, trimmed, white, words,
};

fn texts(parts: Vec<Vec<char>>) -> Vec<String> {
    parts.iter().map(text_of).collect()
}

#[test]
fn white_space_is_what_unicode_says() {
    for c in '\0'..=char::MAX {
        assert_eq!(white(c), c.is_whitespace(), "{c:?}");
    }
}

#[test]
fn trimming_and_splitting_agree_with_the_standard_library() {
    for text in ["", " ", "a", " a b ", "\ta\r\n\nb\r", "a,,b,", "\u{a0}x\u{2003}y", "a\r\nb\n"] {
        let s = chars_of(text);
        assert_eq!(text_of(&trimmed(&s)), text.trim());
        assert_eq!(is_blank_text(text), text.trim().is_empty());
        assert_eq!(texts(words(&s)), text.split_whitespace().collect::<Vec<_>>());
        assert_eq!(texts(split(&s, ',')), text.split(',').collect::<Vec<_>>());
        assert_eq!(texts(lines(&s)), text.lines().collect::<Vec<_>>());
        assert_eq!(text_of(&replace(&s, "a", "xyz")), text.replace("a", "xyz"));
    }
}

#[test]
fn numbers_are_written_and_read() {
    for n in [0u64, 7, 10, 99, 12_345, u64::MAX] {
        assert_eq!(text_of(&decimal_of(n)), n.to_string());
        assert_eq!(read_number(&chars_of(&n.to_string()), u64::MAX), Some(n));
    }
    for n in [0i64, -1, 42, i64::MIN, i64::MAX] {
        assert_eq!(text_of(&signed_decimal_of(n)), n.to_string());
    }
    assert_eq!(read_number(&chars_of("18446744073709551616"), u64::MAX), None);
    assert_eq!(read_number(&chars_of("300"), 255), None);
    assert_eq!(read_number(&chars_of("+12"), u64::MAX), Some(12));
    assert_eq!(read_number(&chars_of(""), u64::MAX), None);
    assert_eq!(read_number(&chars_of("1x"), u64::MAX), None);
}

#[test]
fn texts_sort_by_their_characters() {
    for (a, b) in [("", "a"), ("a", "b"), ("a", "ab"), ("Z", "a"), ("z", "ä"), ("b", "ab")] {
        assert_eq!(sorts_before(a, b), a < b);
        assert_eq!(sorts_before(b, a), b < a);
    }
    assert!(!sorts_before("same", "same"));
}

#[test]
fn a_pattern_is_found_where_it_first_stands() {
    let text = chars_of("abcabc");
    assert_eq!(find_chars(&text, &chars_of("bc"), 0), Some(1));
    assert_eq!(find_chars(&text, &chars_of("bc"), 2), Some(4));
    assert_eq!(find_chars(&text, &chars_of("cb"), 0), None);
}

#[test]
fn text_is_lowered_beyond_ascii_too() {
    assert_eq!(lower_text("ABC xyz"), "abc xyz");
    assert_eq!(lower_text("ÄÖ"), "äö");
    assert_eq!(lowercase('Q'), vec!['q']);
    assert_eq!(lowercase('\u{130}'), vec!['i', '\u{307}']);
}

#[test]
fn texts_are_the_same_character_by_character() {
    assert!(same("äb", "äb"));
    assert!(!same("äb", "ab"));
    assert!(!same("a", "ab"));
}
