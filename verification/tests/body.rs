//! Body texts, their cache keys and their fingerprints.

use mdkb::code::duplication::body::{
    body_hash, body_text, hamming, structural_simhash, SIMHASH_HAMMING_THRESHOLD,
};
use mdkb::code::parsing::grammar::{parse, Grammar};

/// Fingerprint of a whole Rust source.
fn rust_fingerprint(code: &str) -> (u64, u32) {
    let tree = parse(Grammar::Rust, code).expect("parses");
    structural_simhash(&tree, 0)
}

#[test]
fn a_body_is_sliced_on_0_based_inclusive_lines() {
    // Rows:      0            1                 2        3
    let source = "fn a() {\n    let x = 1;\n    x\n}\nfn b() {}\n";

    // `fn a` spans rows 0..=3. Written out rather than computed, so a
    // 1-based slip cannot make the expectation move with the bug.
    assert_eq!(
        body_text(source, 0, 3),
        Some("fn a() {\n    let x = 1;\n    x\n}")
    );
    assert_eq!(body_text(source, 1, 1), Some("    let x = 1;"));
    assert_eq!(body_text(source, 4, 4), Some("fn b() {}"));
}

#[test]
fn a_body_carries_no_trailing_newline() {
    let source = "one\ntwo\n";
    assert_eq!(body_text(source, 0, 0), Some("one"));
    assert_eq!(body_text(source, 0, 1), Some("one\ntwo"));
}

#[test]
fn a_crlf_body_keeps_neither_terminator() {
    let source = "one\r\ntwo\r\n";
    assert_eq!(body_text(source, 0, 0), Some("one"));
}

#[test]
fn a_range_past_the_end_of_the_file_is_none() {
    // A stale index against an edited file. Half a function scored against
    // whole ones is worse than one skipped.
    let source = "fn a() {}\n";
    assert_eq!(body_text(source, 0, 9), None);
    assert_eq!(body_text(source, 5, 6), None);
}

#[test]
fn an_inverted_range_is_none() {
    assert_eq!(body_text("a\nb\n", 1, 0), None);
}

#[test]
fn the_same_body_hashes_the_same_and_a_different_one_does_not() {
    assert_eq!(body_hash("fn a() {}"), body_hash("fn a() {}"));
    assert_ne!(body_hash("fn a() {}"), body_hash("fn b() {}"));
    assert_eq!(body_hash("x").len(), 16, "fixed-width hex");
}

/// The case the embedding benchmark fails on, and the reason this
/// fingerprint exists: same shape, every name and literal changed.
#[test]
fn renaming_every_identifier_and_literal_leaves_the_simhash_identical() {
    let (original, n1) = rust_fingerprint(
        "fn total(items: &[u32]) -> u32 {\n\
         \x20   let mut sum = 0;\n\
         \x20   for item in items {\n\
         \x20       sum += item * 2;\n\
         \x20   }\n\
         \x20   sum\n\
         }\n",
    );
    let (renamed, n2) = rust_fingerprint(
        "fn aggregate(values: &[u32]) -> u32 {\n\
         \x20   let mut acc = 7;\n\
         \x20   for value in values {\n\
         \x20       acc += value * 9;\n\
         \x20   }\n\
         \x20   acc\n\
         }\n",
    );

    assert_eq!(original, renamed, "kinds are identical, so the hash is");
    assert_eq!(n1, n2);
    assert_eq!(hamming(original, renamed), 0);
}

#[test]
fn the_same_signature_over_a_different_body_lands_past_the_threshold() {
    let (a, _) = rust_fingerprint(
        "fn run(input: &str) -> usize {\n\
         \x20   input.len()\n\
         }\n",
    );
    let (b, _) = rust_fingerprint(
        "fn run(input: &str) -> usize {\n\
         \x20   let mut n = 0;\n\
         \x20   for c in input.chars() {\n\
         \x20       if c.is_alphabetic() {\n\
         \x20           n += 1;\n\
         \x20       } else {\n\
         \x20           n -= 1;\n\
         \x20       }\n\
         \x20   }\n\
         \x20   match n {\n\
         \x20       0 => 0,\n\
         \x20       other => other as usize,\n\
         \x20   }\n\
         }\n",
    );

    assert!(
        hamming(a, b) > SIMHASH_HAMMING_THRESHOLD,
        "same signature, unrelated body: hamming {} must exceed {}",
        hamming(a, b),
        SIMHASH_HAMMING_THRESHOLD
    );
}

#[test]
fn the_node_count_grows_with_the_body_not_the_name() {
    let (_, small) = rust_fingerprint("fn a() -> u32 { 1 }\n");
    let (_, large) = rust_fingerprint(
        "fn a_much_longer_name() -> u32 {\n\
         \x20   let x = 1;\n\
         \x20   let y = 2;\n\
         \x20   x + y\n\
         }\n",
    );
    assert!(large > small, "{large} must exceed {small}");
}

#[test]
fn an_empty_source_fingerprints_without_panicking() {
    let (hash, nodes) = rust_fingerprint("");
    assert_eq!(nodes, 1, "the source_file node itself");
    assert_ne!(hash, 0, "a single kind still votes");
}

#[test]
fn a_shingle_is_ordered_not_a_bag_of_kinds() {
    // A loop holding an `if` and an `if` holding a loop walk the same
    // kinds. Only the order tells them apart, so the shingles must.
    let (loop_first, _) = rust_fingerprint(
        "fn a(v: &[u32]) {\n\
         \x20   for x in v {\n\
         \x20       if *x > 0 {\n\
         \x20           println!();\n\
         \x20       }\n\
         \x20   }\n\
         }\n",
    );
    let (if_first, _) = rust_fingerprint(
        "fn a(v: &[u32]) {\n\
         \x20   if v.len() > 0 {\n\
         \x20       for x in v {\n\
         \x20           println!();\n\
         \x20       }\n\
         \x20   }\n\
         }\n",
    );
    assert_ne!(loop_first, if_first);
}

#[test]
fn a_cache_key_is_the_hash_in_hex() {
    // The FNV-1a of nothing is its offset.
    assert_eq!(body_hash(""), "cbf29ce484222325");
    assert_eq!(body_hash("a"), "af63dc4c8601ec8c");
}

#[test]
fn an_empty_source_has_no_rows() {
    assert_eq!(body_text("", 0, 0), None);
    assert_eq!(body_text("a\n", 1, 1), None);
    assert_eq!(body_text("\n", 0, 0), Some(""));
}

#[test]
fn every_carriage_return_before_the_line_feed_goes() {
    assert_eq!(body_text("a\r\r\nb", 0, 0), Some("a"));
    assert_eq!(body_text("a\rb\r\n", 0, 0), Some("a\rb"));
    assert_eq!(body_text("é\nü", 1, 1), Some("ü"));
}

#[test]
fn a_subtree_is_fingerprinted_alone() {
    let tree = parse(Grammar::Rust, "fn a() {}\nfn b() {}\n").expect("parses");
    let items = tree.children(0);
    let (first, n) = structural_simhash(&tree, items[0]);
    let (second, m) = structural_simhash(&tree, items[1]);
    assert_eq!(first, second);
    assert_eq!(n, m);
    let (_, whole) = structural_simhash(&tree, 0);
    assert_eq!(whole, 1 + n + m);
}
