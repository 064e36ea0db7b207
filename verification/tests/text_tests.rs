use overleaf_mcp::number::{decimal_text, parse_unsigned, push_aligned, push_signed};
use overleaf_mcp::order::comes_before;
use overleaf_mcp::pieces::{count_before, cut_once, join, lines, split};
use overleaf_mcp::text::{
    chars_of, contains_char, contains_text, first_chars, is_white_space, starts_with, string_of,
    trim,
};
use overleaf_mcp::units::{byte_len, cut, slice};

#[test]
fn white_space_is_that_of_std() {
    for code in 0..=0x10FFFFu32 {
        if let Some(c) = char::from_u32(code) {
            assert_eq!(is_white_space(c), c.is_whitespace(), "{code:x}");
        }
    }
}

#[test]
fn trim_agrees_with_std() {
    for text in ["", "  ", " a ", "a b", "\u{a0}x\u{3000}", "\t\n é \r", "no"] {
        assert_eq!(trim(text), text.trim());
        assert_eq!(trim(&trim(text)), trim(text));
    }
}

#[test]
fn parts_of_texts() {
    assert_eq!(first_chars("héllo", 2), "hé");
    assert_eq!(first_chars("hé", 5), "hé");
    assert!(starts_with("abc", "ab") && !starts_with("abc", "b"));
    assert!(contains_text("xLaTeX Warning:", "LaTeX Warning:"));
    assert!(contains_text("abc", "") && !contains_text("abc", "ac"));
    assert!(contains_char("a?b", '?') && !contains_char("ab", '?'));
    let chars = chars_of("añb");
    assert_eq!(string_of(&chars, 1, 3), "ñb");
}

#[test]
fn numbers_are_written_in_decimal() {
    assert_eq!(decimal_text(0), "0");
    assert_eq!(decimal_text(u64::MAX), "18446744073709551615");
    let mut out = String::from("v");
    push_signed(&mut out, i64::MIN);
    assert_eq!(out, "v-9223372036854775808");
    let mut out = String::new();
    push_aligned(&mut out, 42, 6);
    push_aligned(&mut out, 1234567, 6);
    assert_eq!(out, "    421234567");
}

#[test]
fn unsigned_numbers_are_read_as_std_reads_them() {
    let cases =
        ["0", "+7", "007", "", "+", "-1", "1a", " 1", "18446744073709551615", "18446744073709551616"];
    for text in cases {
        assert_eq!(parse_unsigned(text), text.parse::<u64>().ok(), "{text}");
    }
    assert_eq!(parse_unsigned(&decimal_text(90210)), Some(90210));
}

#[test]
fn strings_are_ordered_as_std_orders_them() {
    let texts = ["", "a", "ab", "b", "B", "é", "z", "\u{ffff}", "\u{10000}", "/a", "/a/b", "/a b"];
    for a in texts {
        for b in texts {
            assert_eq!(comes_before(a, b), a < b, "{a:?} {b:?}");
        }
    }
}

#[test]
fn splitting_and_joining_are_inverse() {
    assert_eq!(split("", ','), [""]);
    assert_eq!(split("a,,b,", ','), ["a", "", "b", ""]);
    let parts = split("x\n\ny", '\n');
    assert_eq!(join(&parts, "\n"), "x\n\ny");
    assert_eq!(split(&join(&vec!["p".to_string(), "q".to_string()], ";"), ';'), ["p", "q"]);
    assert_eq!(join(&Vec::new(), ", "), "");
}

#[test]
fn cutting_at_the_first_separator() {
    assert_eq!(cut_once("a:b:c", ':'), ("a".to_string(), Some("b:c".to_string())));
    assert_eq!(cut_once("abc", ':'), ("abc".to_string(), None));
    assert_eq!(cut_once(":x", ':'), (String::new(), Some("x".to_string())));
}

#[test]
fn lines_are_those_of_std() {
    for text in ["", "a", "a\n", "a\nb", "a\r\nb\r", "\n\n", "x\r\n", "\r"] {
        let expected: Vec<String> = text.lines().map(str::to_string).collect();
        assert_eq!(lines(text), expected, "{text:?}");
    }
}

#[test]
fn counting_characters() {
    let chars = chars_of("a\nb\nc\n");
    assert_eq!(count_before(&chars, 4, '\n'), 2);
    assert_eq!(count_before(&chars, 0, '\n'), 0);
}

#[test]
fn cutting_at_bytes() {
    let text = "aé😀b";
    assert_eq!(byte_len(text), 8);
    assert_eq!(cut(text, 3), ("aé", "😀b"));
    assert_eq!(slice(text, 1, 7), "é😀");
}
