//! Text: lines, words and numbers.

use tt_splat_viewer::text::{decimal, decode_lossy, is_whitespace, lines, parse_unsigned, words};

fn chars(text: &str) -> Vec<char> {
    text.chars().collect()
}

fn strings(parts: Vec<Vec<char>>) -> Vec<String> {
    parts.into_iter().map(|part| part.into_iter().collect()).collect()
}

#[test]
fn lines_like_those_of_std() {
    for text in [
        "", "\n", "a", "a\n", "a\r\nb", "a\r", "\r\n", "a\n\nb\r\n\r\n", "a\rb\n", "a\r\r\nb",
    ] {
        let expected: Vec<String> = text.lines().map(str::to_string).collect();
        assert_eq!(strings(lines(&chars(text))), expected, "{text:?}");
    }
}

#[test]
fn words_like_those_of_std() {
    for text in ["", " ", "a", " a b ", "a\t\u{b}b\u{c}c", "a\u{85}b\u{a0}c", "\u{2003}é\u{3000}"] {
        let expected: Vec<String> = text.split_whitespace().map(str::to_string).collect();
        assert_eq!(strings(words(&chars(text))), expected, "{text:?}");
    }
}

#[test]
fn whitespace_like_that_of_std() {
    for u in 0..0x11_0000u32 {
        if let Some(c) = char::from_u32(u) {
            assert_eq!(is_whitespace(c), c.is_whitespace(), "{u:x}");
        }
    }
}

#[test]
fn numbers_like_those_of_std() {
    for text in [
        "0", "7", "+7", "007", "", "+", "-1", "++1", "1_0", " 1", "4294967295", "4294967296",
        "99999999999999999999999", "1.0", "٣",
    ] {
        let expected = text.parse::<u32>().ok().map(u64::from);
        assert_eq!(parse_unsigned(&chars(text), u64::from(u32::MAX)), expected, "{text:?}");
    }
    assert_eq!(parse_unsigned(&chars("18446744073709551615"), u64::MAX), Some(u64::MAX));
    assert_eq!(parse_unsigned(&chars("18446744073709551616"), u64::MAX), None);
    assert_eq!(parse_unsigned(&chars("5"), 3), None);
}

#[test]
fn numbers_are_read_as_they_are_written() {
    for n in [0, 9, 10, 10_203, u64::MAX] {
        assert_eq!(decimal(n), chars(&n.to_string()));
        assert_eq!(parse_unsigned(&decimal(n), u64::MAX), Some(n));
    }
}

#[test]
fn decoding_replaces_what_is_not_valid() {
    assert_eq!(decode_lossy("aß€".as_bytes()), chars("aß€"));
    assert_eq!(decode_lossy(b"a\xffb\xe2\x82"), chars("a\u{fffd}b\u{fffd}"));
    assert_eq!(decode_lossy(b""), chars(""));
}
