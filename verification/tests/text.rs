//! Text helpers.

use mdkb::text::{collapse, decimal_text, hex16, hex_of, join_path, same, trim};

#[test]
fn text_is_compared_by_its_characters() {
    assert!(same("ä", "ä"));
    assert!(!same("a", "ab"));
    assert!(same("", ""));
}

#[test]
fn a_number_is_written_in_decimal() {
    for n in [0, 7, 10, 99, 100, 12345, usize::MAX] {
        assert_eq!(decimal_text(n), n.to_string());
    }
}

#[test]
fn a_hash_is_written_in_sixteen_digits() {
    for n in [0, 1, 0xdead_beef, u64::MAX, 1 << 63] {
        assert_eq!(hex16(n), format!("{n:016x}"));
    }
    assert_eq!(hex_of(&[0x01, 0xfe]), "01fe");
}

#[test]
fn runs_of_white_space_are_one_space() {
    for s in ["", "  ", "a", " a ", "a\tb", "a \u{2003}\n b  c\u{85}"] {
        let words: Vec<&str> = s.split_whitespace().collect();
        assert_eq!(collapse(s), words.join(" "));
        assert_eq!(trim(s), s.trim());
    }
}

#[test]
fn an_absolute_path_stands_for_itself() {
    assert_eq!(join_path("/a", "b"), "/a/b");
    assert_eq!(join_path("/a/", "b"), "/a/b");
    assert_eq!(join_path("", "b"), "b");
    assert_eq!(join_path("/a", "/b"), "/b");
}
