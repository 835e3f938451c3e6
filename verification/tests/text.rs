//! Text and bytes.

use git_full_send::bytes::{
    copy_bytes, index_of_byte, insert_row, is_before, join_path, same_bytes, sorted_rows,
    split_bytes, starts_with as bytes_start_with, ByteReader,
};
use git_full_send::text::{
    chars_of, concat3, contains, digit_char, ends_with, index_of, is_control, is_text_before,
    is_whitespace, lines, parse_integer, push_decimal, push_hex, push_signed, same_text,
    starts_with, string_of, trim_text, words,
};

#[test]
fn white_space_and_control_characters_are_those_of_unicode() {
    for code in 0..0x11_0000u32 {
        if let Some(c) = char::from_u32(code) {
            assert_eq!(is_whitespace(c), c.is_whitespace(), "{code:x}");
            assert_eq!(is_control(c), c.is_control(), "{code:x}");
        }
    }
}

#[test]
fn texts_are_trimmed_and_split() {
    for text in ["", " ", "a", " a b ", "\u{85}x\u{3000}", "\n\r\t x \u{b}"] {
        assert_eq!(trim_text(text), text.trim());
        let chars = chars_of(text);
        let expected: Vec<&str> = text.split_whitespace().collect();
        assert_eq!(words(&chars), expected);
    }
    for text in ["", "a", "a\n", "a\r\nb", "\n\n", "a\rb\n", "a\r", "x\r\n\r\n"] {
        let expected: Vec<&str> = text.lines().collect();
        assert_eq!(lines(&chars_of(text)), expected, "{text:?}");
    }
}

#[test]
fn texts_are_compared() {
    let chars = chars_of("hello");
    assert!(starts_with(&chars, &chars_of("he")));
    assert!(!starts_with(&chars, &chars_of("hel!")));
    assert!(ends_with(&chars, &chars_of("llo")));
    assert!(!ends_with(&chars, &chars_of("hello!")));
    assert!(contains(&chars, &chars_of("ell")));
    assert!(contains(&chars, &chars_of("")));
    assert!(!contains(&chars, &chars_of("elo")));
    assert!(same_text("a", "a"));
    assert!(!same_text("a", "ab"));
    assert_eq!(index_of(&chars, 'l'), 2);
    assert_eq!(index_of(&chars, 'x'), 5);
    assert_eq!(string_of(&chars), "hello");
    assert_eq!(concat3("a", "b", "c"), "abc");
}

#[test]
fn texts_are_ordered_as_strings_are() {
    let all = ["", "a", "ab", "b", "ü", "\u{ffff}", "\u{10000}", "z"];
    for a in all {
        for b in all {
            assert_eq!(is_text_before(a, b), a < b, "{a:?} {b:?}");
        }
    }
}

#[test]
fn numbers_are_written() {
    for n in [0, 9, 10, 4096, u64::MAX] {
        let mut out = "x".to_string();
        push_decimal(&mut out, n);
        assert_eq!(out, format!("x{n}"));
        let mut out = String::new();
        push_hex(&mut out, n, 16);
        assert_eq!(out, format!("{n:016x}"));
    }
    for n in [0, -1, i64::MIN, i64::MAX] {
        let mut out = String::new();
        push_signed(&mut out, n);
        assert_eq!(out, n.to_string());
    }
    assert_eq!(digit_char(11), 'b');
}

#[test]
fn integers_are_read_as_by_the_standard_library() {
    for text in [
        "", "0", "-0", "+1", "+", "-", "12x", " 1", "9223372036854775807", "9223372036854775808",
        "-9223372036854775808", "-9223372036854775809", "00012", "--1", "١",
    ] {
        assert_eq!(parse_integer(text), text.parse::<i64>().ok(), "{text:?}");
    }
}

#[test]
fn bytes_are_read_in_order() {
    let mut reader = ByteReader::new(b"abcdef".to_vec());
    assert_eq!(reader.read_exact(2), Some(b"ab".to_vec()));
    assert_eq!(reader.read_exact(0), Some(Vec::new()));
    assert_eq!(reader.rest(), b"cdef");
    assert_eq!(reader.read_exact(5), None);
}

#[test]
fn paths_are_joined() {
    assert_eq!(join_path(b"/a", b"b"), b"/a/b");
    assert_eq!(join_path(b"/a/", b"b"), b"/a/b");
    assert_eq!(join_path(b"/a", b"/b"), b"/b");
    assert_eq!(join_path(b"", b"b"), b"b");
    assert_eq!(join_path(b"/a", b""), b"/a/");
}

#[test]
fn rows_are_sorted_and_each_kept_once() {
    let rows: Vec<Vec<u8>> = ["b", "a", "b", "", "ab"]
        .iter()
        .map(|s| s.as_bytes().to_vec())
        .collect();
    let mut expected = rows.clone();
    expected.sort();
    expected.dedup();
    assert_eq!(sorted_rows(&rows), expected);
    let mut one = vec![b"a".to_vec(), b"c".to_vec()];
    insert_row(&mut one, b"b");
    insert_row(&mut one, b"b");
    assert_eq!(one, [b"a".to_vec(), b"b".to_vec(), b"c".to_vec()]);
    assert!(is_before(b"a", b"ab"));
    assert!(!is_before(b"b", b"ab"));
}

#[test]
fn bytes_are_split_and_compared() {
    assert_eq!(
        split_bytes(b"a//b", 47),
        [b"a".to_vec(), Vec::new(), b"b".to_vec()]
    );
    assert_eq!(split_bytes(b"", 47), [Vec::<u8>::new()]);
    assert_eq!(index_of_byte(b"abc", 98), 1);
    assert_eq!(index_of_byte(b"abc", 0), 3);
    assert!(same_bytes(b"ab", b"ab"));
    assert!(!same_bytes(b"ab", b"abc"));
    assert!(bytes_start_with(b"abc", b"ab"));
    assert!(!bytes_start_with(b"a", b"ab"));
    assert_eq!(copy_bytes(b"xy"), b"xy");
}
