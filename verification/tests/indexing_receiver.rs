//! What is stored of a receiver expression.

use mdkb::code::indexing::receiver::{normalize, MAX_RECEIVER_BYTES};
use mdkb::text::is_white_space;

/// A chain written over several lines is one expression, and is stored on one
/// line: each run of white space is one space.
#[test]
fn a_receiver_spanning_lines_is_stored_as_one_line() {
    assert_eq!(
        normalize("foo\n    .bar()\n    .baz()").as_deref(),
        Some("foo .bar() .baz()")
    );
    assert_eq!(normalize("self.db").as_deref(), Some("self.db"));
    assert_eq!(normalize("  temp  ").as_deref(), Some("temp"));
}

#[test]
fn a_receiver_of_nothing_but_whitespace_is_not_a_receiver() {
    assert_eq!(normalize("   \n  "), None);
    assert_eq!(normalize(""), None);
}

/// The tail survives the cap, because the type of a chain is the return
/// type of its last call. Keeping the head would store the part that
/// cannot be resolved and drop the part that can.
#[test]
fn an_over_long_receiver_keeps_its_tail() {
    let long = format!("{}.last_call()", "a.step()".repeat(60));
    let stored = normalize(&long).expect("a long receiver is still a receiver");

    assert!(stored.len() <= MAX_RECEIVER_BYTES, "{}", stored.len());
    assert!(
        stored.ends_with(".last_call()"),
        "the tail names the call whose return type is the receiver's type: {stored}"
    );
}

/// The cap counts bytes, and cutting one in half would panic. A receiver
/// of multi-byte characters is unusual and a parser will still hand one
/// over.
#[test]
fn capping_a_multibyte_receiver_cuts_on_a_character_boundary() {
    let long = "é".repeat(MAX_RECEIVER_BYTES);
    let stored = normalize(&long).expect("still a receiver");

    assert!(stored.len() <= MAX_RECEIVER_BYTES);
    assert!(stored.chars().all(|c| c == 'é'), "{stored}");
}

#[test]
fn white_space_of_any_kind_is_one_space() {
    for gap in [" ", "\t", "\r\n", "\u{a0}", "\u{2003} \u{3000}"] {
        assert_eq!(normalize(&format!("a{gap}b")).as_deref(), Some("a b"));
    }
}

#[test]
fn a_receiver_at_the_cap_is_kept_whole() {
    let whole = "x".repeat(MAX_RECEIVER_BYTES);
    assert_eq!(normalize(&whole).as_deref(), Some(whole.as_str()));
    let over = format!("y{whole}");
    assert_eq!(normalize(&over).as_deref(), Some(whole.as_str()));
}

#[test]
fn white_space_is_what_the_standard_library_takes_for_it() {
    for n in 0..=0x10ffffu32 {
        if let Some(c) = char::from_u32(n) {
            assert_eq!(is_white_space(c), c.is_whitespace(), "{n:x}");
        }
    }
}
