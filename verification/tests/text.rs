//! Texts against what the standard library makes of them.

use etherwhere::text::{
    comes_before, contains_text, decimal_text, is_alphanumeric, is_letter, is_white, lines_of,
    read_unsigned, same, split_first, starts_with, strip_end_copies, trim_end_of, trim_of,
    trim_start_of, words_of,
};

#[test]
fn characters_are_told_apart() {
    for c in '\0'..=char::MAX {
        assert_eq!(is_white(c), c.is_whitespace(), "{:?}", c);
        assert_eq!(is_letter(c), c.is_ascii_alphabetic(), "{:?}", c);
        assert_eq!(is_alphanumeric(c), c.is_ascii_alphanumeric(), "{:?}", c);
    }
}

#[test]
fn pieces_are_those_of_the_standard_library() {
    for s in [
        "", " ", "a", " a ", "a b", "  a\t\u{a0}b \n", "a\nb", "a\r\nb\r\n", "\n", "\r\n", "a\n\nb",
        "a\r", "\u{3000}x\u{3000}",
    ] {
        assert_eq!(words_of(s), s.split_whitespace().collect::<Vec<_>>(), "{:?}", s);
        assert_eq!(lines_of(s), s.lines().collect::<Vec<_>>(), "{:?}", s);
        assert_eq!(trim_of(s), s.trim(), "{:?}", s);
        assert_eq!(trim_start_of(s), s.trim_start(), "{:?}", s);
        assert_eq!(trim_end_of(s), s.trim_end(), "{:?}", s);
    }
}

#[test]
fn parts_are_found() {
    for (s, part) in [("", ""), ("a", ""), ("", "a"), ("xaby", "ab"), ("aab", "ab"), ("ba", "ab")] {
        assert_eq!(contains_text(s, part), s.contains(part), "{:?} {:?}", s, part);
        assert_eq!(starts_with(s, part), s.starts_with(part), "{:?} {:?}", s, part);
        assert_eq!(same(s, part), s == part, "{:?} {:?}", s, part);
    }
    assert_eq!(strip_end_copies("1 ms ms", " ms"), "1");
    assert_eq!(strip_end_copies("ms", "ms"), "");
    assert_eq!(split_first("a:b:c", ':'), Some(("a", "b:c")));
    assert_eq!(split_first("abc", ':'), None);
}

#[test]
fn numbers_are_written_and_read() {
    for n in [0, 1, 9, 10, 65535, u64::from(u32::MAX), u64::MAX] {
        assert_eq!(decimal_text(n), n.to_string());
    }
    for s in ["0", "7", "+7", "007", "4294967295"] {
        assert_eq!(read_unsigned(s, u32::MAX), s.parse::<u32>().ok(), "{:?}", s);
    }
    for s in ["", "+", "-1", "++1", " 1", "1 ", "4294967296", "99999999999999999999", "x"] {
        assert_eq!(read_unsigned(s, u32::MAX), None, "{:?}", s);
        assert_eq!(s.parse::<u32>().ok(), None, "{:?}", s);
    }
    assert_eq!(read_unsigned("256", 255), None);
    assert_eq!(read_unsigned("255", 255), Some(255));
}

#[test]
fn texts_are_ordered_by_their_bytes() {
    let list = ["", "a", "ab", "b", "B", "é", "z", "\u{10000}", "\u{ffff}", "a-b", "a.b"];
    for a in list {
        for b in list {
            assert_eq!(comes_before(a, b), a < b, "{:?} {:?}", a, b);
        }
    }
}
