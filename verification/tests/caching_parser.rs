//! Parsing with a cache of the last tree.

use mdkb::code::parsing::caching_parser::{fnv1a_hash, CachingParser};
use mdkb::code::parsing::grammar::{parse, Grammar};

fn rust_parser() -> CachingParser {
    CachingParser::new(Grammar::Rust)
}

#[test]
fn collect_hands_the_root_to_the_walk_and_returns_what_it_found() {
    let mut parser = rust_parser();

    let kinds: Vec<String> = parser.collect("fn a() {}\n", |tree, _code, out| {
        out.push(tree.nodes[0].kind.clone());
        for child in tree.children(0) {
            out.push(tree.nodes[child].kind.clone());
        }
    });

    assert_eq!(kinds, vec!["source_file", "function_item"]);
}

#[test]
fn collect_borrows_the_source_for_what_it_returns() {
    // The whole point of the `'a` on the code: a walk returns slices of the
    // source, which outlive the tree they were found through.
    let mut parser = rust_parser();
    let code = String::from("fn named() {}\n");

    let names: Vec<&str> = parser.collect(&code, |tree, code, out| {
        for child in tree.children(0) {
            let node = &tree.nodes[child];
            out.push(&code[node.start..node.end]);
        }
    });

    assert_eq!(names, vec!["fn named() {}"]);
}

#[test]
fn source_the_grammar_cannot_read_collects_nothing_rather_than_failing() {
    // One unparseable file must contribute nothing, not fail the index.
    let mut parser = CachingParser::new(Grammar::Unset);

    let out: Vec<String> = parser.collect("fn a() {}\n", |tree, _code, out| {
        out.push(tree.nodes[0].kind.clone());
    });

    assert!(
        out.is_empty(),
        "a parser with no grammar set cannot parse, and must say so by \
         finding nothing: {out:?}"
    );
}

#[test]
fn a_cached_parse_answers_as_a_fresh_one() {
    let mut parser = rust_parser();
    let first = parser.parse_cached("fn a() {}\n").expect("parses");
    let again = parser.parse_cached("fn a() {}\n").expect("parses");
    let fresh = parse(Grammar::Rust, "fn a() {}\n").expect("parses");
    assert_eq!(first.nodes, again.nodes);
    assert_eq!(first.nodes, fresh.nodes);

    let other = parser.parse_cached("struct S;\n").expect("parses");
    assert_ne!(first.nodes, other.nodes);
    assert_eq!(other.nodes[1].kind, "struct_item");
}

#[test]
fn the_hash_is_fnv_1a() {
    assert_eq!(fnv1a_hash(b""), 0xcbf2_9ce4_8422_2325);
    assert_eq!(fnv1a_hash(b"a"), 0xaf63_dc4c_8601_ec8c);
    assert_eq!(fnv1a_hash(b"foobar"), 0x8594_4171_f739_67e8);
}

#[test]
fn a_tree_knows_its_children_and_parents() {
    let tree = parse(Grammar::Rust, "fn a(x: u8) {}\n").expect("parses");
    assert_eq!(tree.parent(0), None);
    let item = tree.children(0)[0];
    assert_eq!(tree.parent(item), Some(0));
    let name = tree.child_by_field_name(item, "name").expect("a name");
    assert_eq!(tree.nodes[name].kind, "identifier");
    assert_eq!((tree.nodes[name].start, tree.nodes[name].end), (3, 4));
    assert_eq!(tree.child_by_field_name(item, "return_type"), None);
    let list = tree.child_by_field_name(item, "parameters").expect("parameters");
    let parameter = tree.named_child(list).expect("a parameter");
    assert_eq!(tree.nodes[parameter].kind, "parameter");
    assert!(tree.fits("fn a(x: u8) {}\n"));
    assert!(!tree.fits("fn"));
}
