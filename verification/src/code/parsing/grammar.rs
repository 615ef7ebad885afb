//! Source text to syntax tree, under a grammar.

use vstd::prelude::*;

use super::syntax::{NodeView, SyntaxNode, SyntaxTree};

verus! {

/// A tree as tree-sitter holds it.
#[verifier::external_type_specification]
#[verifier::external_body]
pub struct ExTree(tree_sitter::Tree);

/// The nodes of a tree in pre-order: the descendants of its root, the root
/// itself first, each with what the tree says of it.
pub uninterp spec fn tree_nodes(tree: tree_sitter::Tree) -> Seq<NodeView>;

/// The nodes of the tree that tree-sitter makes of a source under the Rust
/// grammar, or `None` where it makes none.
pub uninterp spec fn rust_syntax(code: Seq<char>) -> Option<Seq<NodeView>>;

/// `Parser::parse` of a parser whose language is Rust, from no earlier tree.
///
/// The tree depends on the source and the grammar alone: no progress callback
/// is set that could break a parse off. `None` also where the parser does not
/// take the grammar.
#[verifier::external_body]
fn parse_rust(code: &str) -> (tree: Option<tree_sitter::Tree>)
    ensures
        (match tree {
            Some(t) => Some(tree_nodes(t)),
            None => None,
        }) == rust_syntax(code@),
{
    let mut parser = tree_sitter::Parser::new();
    parser.set_language(&tree_sitter_rust::LANGUAGE.into()).ok()?;
    parser.parse(code, None)
}

/// `Node::descendant_count` of the root: the number of its descendants,
/// counting itself.
#[verifier::external_body]
fn node_count(tree: &tree_sitter::Tree) -> (count: usize)
    ensures
        count == tree_nodes(*tree).len(),
{
    tree.root_node().descendant_count()
}

/// `TreeCursor::goto_descendant` from the root, and what the cursor and the
/// node there say: the `i`-th descendant in pre-order, its kind, whether it is
/// named, the field it stands in, its depth below the root and its byte range.
#[verifier::external_body]
fn node_at(tree: &tree_sitter::Tree, i: usize) -> (node: SyntaxNode)
    requires
        i < tree_nodes(*tree).len(),
    ensures
        node@ == tree_nodes(*tree)[i as int],
{
    let mut cursor = tree.walk();
    cursor.goto_descendant(i);
    let node = cursor.node();
    SyntaxNode {
        kind: node.kind().to_string(),
        named: node.is_named(),
        field: cursor.field_name().map(str::to_string),
        depth: cursor.depth(),
        start: node.start_byte(),
        end: node.end_byte(),
    }
}

/// The grammar a parser reads source under.
#[derive(Debug, Clone, Copy, PartialEq, Eq, Structural)]
pub enum Grammar {
    /// No grammar set: nothing can be read.
    Unset,
    /// The Rust grammar.
    Rust,
}

/// The tree of a source under a grammar. Without a grammar there is none.
pub open spec fn syntax_under(grammar: Grammar, code: Seq<char>) -> Option<Seq<NodeView>> {
    match grammar {
        Grammar::Unset => None,
        Grammar::Rust => rust_syntax(code),
    }
}

/// What a parse gives, as nodes.
pub open spec fn tree_view(tree: Option<SyntaxTree>) -> Option<Seq<NodeView>> {
    match tree {
        Some(t) => Some(t@),
        None => None,
    }
}

/// Every node of a tree, in pre-order.
fn read_nodes(tree: &tree_sitter::Tree) -> (read: SyntaxTree)
    ensures
        read@ == tree_nodes(*tree),
{
    let mut nodes: Vec<SyntaxNode> = Vec::new();
    let count = node_count(tree);
    let mut i: usize = 0;
    while i < count
        invariant
            i <= count,
            count == tree_nodes(*tree).len(),
            nodes@.map_values(|n: SyntaxNode| n@) == tree_nodes(*tree).take(i as int),
        decreases count - i,
    {
        let ghost before = nodes@.map_values(|n: SyntaxNode| n@);
        let node = node_at(tree, i);
        let ghost view = node@;
        nodes.push(node);
        assert(nodes@.map_values(|n: SyntaxNode| n@) =~= before.push(view));
        i += 1;
        assert(nodes@.map_values(|n: SyntaxNode| n@) =~= tree_nodes(*tree).take(i as int));
    }
    assert(tree_nodes(*tree).take(count as int) =~= tree_nodes(*tree));
    SyntaxTree { nodes }
}

/// The syntax tree of a source under a grammar.
pub fn parse(grammar: Grammar, code: &str) -> (tree: Option<SyntaxTree>)
    ensures
        tree_view(tree) == syntax_under(grammar, code@),
{
    match grammar {
        Grammar::Unset => None,
        Grammar::Rust => match parse_rust(code) {
            Some(tree) => Some(read_nodes(&tree)),
            None => None,
        },
    }
}

/// Without a grammar nothing is read, and under one a source is read by it.
pub proof fn a_grammar_reads_its_language(code: Seq<char>)
    ensures
        syntax_under(Grammar::Unset, code) is None,
        syntax_under(Grammar::Rust, code) == rust_syntax(code),
{
}

} // verus!
