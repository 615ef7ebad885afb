//! The type of the expression a Rust method call was made on.
//!
//! A method call names its method and nothing else, and that is where the
//! residual ambiguity of the call graph sits. Naming the receiver's type is
//! what turns `temp.path()` from "every `path` in the index" into one answer,
//! or into an honest "this call leaves the index".
//!
//! What one file can answer is answered here. What needs the index, the return
//! type of a function declared elsewhere, is named as
//! [`ReceiverType::ReturnOf`] and resolved after every file is in.
//!
//! **Covered shapes**:
//!
//! | The receiver | The type comes from |
//! |---|---|
//! | `x` bound by `let x: T` | the annotation |
//! | `x` bound by `let x = T::new()`, `let x = T { .. }` | the path or struct name |
//! | `x` bound by `let x = f()` | what `f` returns, once the index is complete |
//! | `x` declared as a parameter `x: T` | the signature |
//! | `f()`, `f().unwrap()` | what `f` returns, once the index is complete |
//!
//! **Not covered**: `self` and `self.field`; a binding from a `for` loop, a
//! closure parameter or a `match` arm, because none of them writes a type; an
//! index or a literal receiver; and a receiver produced by a method rather than
//! a function, because the name of a method alone does not say which.

use vstd::prelude::*;

use crate::code::parsing::grammar::{parse, rust_syntax, Grammar};
use crate::code::parsing::syntax::{
    child_in_field, children_of, first_named_child, first_where, fits_source, lemma_first_where,
    parent_of, subtree_end, NodeView, SyntaxTree,
};
use crate::text::{same, slice, text_at, trim, trimmed};

verus! {

/// How far a walk over a syntax tree goes: minified and generated sources nest
/// past what is worth following.
pub const MAX_AST_DEPTH: usize = 500;

/// The type of a receiver, as far as one file says it.
#[derive(Debug, Clone, Copy, PartialEq, Eq)]
pub enum ReceiverType<'a> {
    /// The type of this name.
    Named(&'a str),
    /// Whatever the function of this name returns.
    ReturnOf(&'a str),
}

/// A receiver's type with its name as text.
pub enum ReceiverView {
    Named(Seq<char>),
    ReturnOf(Seq<char>),
}

impl<'a> View for ReceiverType<'a> {
    type V = ReceiverView;

    open spec fn view(&self) -> ReceiverView {
        match self {
            ReceiverType::Named(name) => ReceiverView::Named(name@),
            ReceiverType::ReturnOf(name) => ReceiverView::ReturnOf(name@),
        }
    }
}

/// A type that may be unknown, with its name as text.
pub open spec fn receiver_view(inferred: Option<ReceiverType<'_>>) -> Option<ReceiverView> {
    match inferred {
        Some(inferred) => Some(inferred@),
        None => None,
    }
}

/// A name that may be missing, as text.
pub open spec fn name_view(name: Option<&str>) -> Option<Seq<char>> {
    match name {
        Some(name) => Some(name@),
        None => None,
    }
}

/// A node that may be missing, as a position.
pub open spec fn node_view(node: Option<usize>) -> Option<int> {
    match node {
        Some(node) => Some(node as int),
        None => None,
    }
}

/// The text a node stands for.
pub open spec fn node_text(tree: Seq<NodeView>, code: Seq<char>, node: int) -> Seq<char> {
    text_at(code, tree[node].start, tree[node].end)
}

/// Where the last segment of a path starts: behind the last `::`.
pub open spec fn segment_start(path: Seq<char>, at: int) -> int
    decreases at,
{
    if at < 2 {
        0
    } else if path[at - 2] == ':' && path[at - 1] == ':' {
        at
    } else {
        segment_start(path, at - 1)
    }
}

/// The last segment of a path, without the white space around it.
pub open spec fn last_segment(path: Seq<char>) -> Seq<char> {
    trimmed(path.skip(segment_start(path, path.len() as int)))
}

proof fn lemma_segment_start(path: Seq<char>, at: int)
    requires
        0 <= at <= path.len(),
    ensures
        0 <= segment_start(path, at) <= at,
    decreases at,
{
    if at >= 2 && !(path[at - 2] == ':' && path[at - 1] == ':') {
        lemma_segment_start(path, at - 1);
    }
}

/// `std::io::Result` is `Result`, `Store` is `Store`.
///
/// Symbols are indexed and matched by bare name, so a qualified type has to be
/// reduced to the segment it is indexed under.
fn last_path_segment<'a>(path: &'a str) -> (segment: &'a str)
    ensures
        segment@ == last_segment(path@),
{
    let n: usize = path.unicode_len();
    let mut at: usize = n;
    while at >= 2 && !(path.get_char(at - 2) == ':' && path.get_char(at - 1) == ':')
        invariant
            at <= n,
            n == path@.len(),
            segment_start(path@, at as int) == segment_start(path@, n as int),
        decreases at,
    {
        at -= 1;
    }
    let from: usize = if at >= 2 {
        at
    } else {
        0
    };
    proof {
        assert(path@.subrange(from as int, n as int) =~= path@.skip(from as int));
    }
    trim(path.substring_char(from, n))
}

/// Whether a text is one of some words.
pub open spec fn among(text: Seq<char>, words: Seq<Seq<char>>) -> bool {
    words.contains(text)
}

/// The wrappers whose methods the index never holds.
pub open spec fn transparent_types() -> Seq<Seq<char>> {
    seq!["Result"@, "Option"@, "Box"@, "Arc"@, "Rc"@, "Cow"@]
}

/// The methods that hand back what they were given.
pub open spec fn transparent_methods() -> Seq<Seq<char>> {
    seq!["unwrap"@, "expect"@, "unwrap_or_default"@, "clone"@, "as_ref"@]
}

fn is_transparent_type(name: &str) -> (found: bool)
    ensures
        found == among(name@, transparent_types()),
{
    let found = same(name, "Result") || same(name, "Option") || same(name, "Box") || same(
        name,
        "Arc",
    ) || same(name, "Rc") || same(name, "Cow");
    proof {
        let words = transparent_types();
        assert(words[0] == "Result"@ && words[1] == "Option"@ && words[2] == "Box"@);
        assert(words[3] == "Arc"@ && words[4] == "Rc"@ && words[5] == "Cow"@);
    }
    found
}

fn is_transparent_method(name: &str) -> (found: bool)
    ensures
        found == among(name@, transparent_methods()),
{
    let found = same(name, "unwrap") || same(name, "expect") || same(name, "unwrap_or_default")
        || same(name, "clone") || same(name, "as_ref");
    proof {
        let words = transparent_methods();
        assert(words[0] == "unwrap"@ && words[1] == "expect"@ && words[2] == "unwrap_or_default"@);
        assert(words[3] == "clone"@ && words[4] == "as_ref"@);
    }
    found
}

/// Whether a node carries part of what is written: the grammar names it, and it
/// is no comment.
pub open spec fn is_content(node: NodeView) -> bool {
    node.named && node.kind != "line_comment"@ && node.kind != "block_comment"@
}

/// The first child of `node` that is part of what is written.
pub open spec fn first_content(tree: Seq<NodeView>, node: int) -> Option<int> {
    first_where(tree, children_of(tree, node), |n: NodeView| is_content(n))
}

/// The first type among some type arguments. A lifetime is an argument and no
/// type: the type inside `Cow<'a, Store>` is `Store`.
pub open spec fn first_type_argument(tree: Seq<NodeView>, arguments: int) -> Option<int> {
    first_where(
        tree,
        children_of(tree, arguments),
        |n: NodeView| is_content(n) && n.kind != "lifetime"@,
    )
}

/// Whether a node carries part of what is written.
fn carries_content(tree: &SyntaxTree, node: usize) -> (carries: bool)
    requires
        node < tree@.len(),
    ensures
        carries == is_content(tree@[node as int]),
{
    assert(tree@[node as int] == tree.nodes@[node as int]@);
    tree.nodes[node].named && !is_kind(tree, node, "line_comment") && !is_kind(
        tree,
        node,
        "block_comment",
    )
}

/// The first child of `node` that is part of what is written.
fn content_child(tree: &SyntaxTree, node: usize) -> (child: Option<usize>)
    requires
        node < tree@.len(),
    ensures
        node_view(child) == first_content(tree@, node as int),
        child matches Some(child) ==> child < tree@.len(),
{
    let children = tree.children(node);
    let ghost all = children@.map_values(|k: usize| k as int);
    let ghost pick = |n: NodeView| is_content(n);
    let mut k: usize = 0;
    assert(all.skip(0) =~= all);
    while k < children.len()
        invariant
            k <= children@.len(),
            all == children@.map_values(|k: usize| k as int),
            all == children_of(tree@, node as int),
            pick == (|n: NodeView| is_content(n)),
            first_where(tree@, all.skip(k as int), pick) == first_where(tree@, all, pick),
            forall|k: int| 0 <= k < children@.len() ==> #[trigger] children@[k] < tree@.len(),
        decreases children@.len() - k,
    {
        let child = children[k];
        proof {
            assert(all.skip(k as int)[0] == child as int);
            assert(all.skip(k as int).drop_first() =~= all.skip(k + 1));
        }
        if carries_content(tree, child) {
            return Some(child);
        }
        k += 1;
    }
    None
}

/// The first type among some type arguments.
fn type_argument(tree: &SyntaxTree, arguments: usize) -> (argument: Option<usize>)
    requires
        arguments < tree@.len(),
    ensures
        node_view(argument) == first_type_argument(tree@, arguments as int),
        argument matches Some(argument) ==> argument < tree@.len(),
{
    let children = tree.children(arguments);
    let ghost all = children@.map_values(|k: usize| k as int);
    let ghost pick = |n: NodeView| is_content(n) && n.kind != "lifetime"@;
    let mut k: usize = 0;
    assert(all.skip(0) =~= all);
    while k < children.len()
        invariant
            k <= children@.len(),
            all == children@.map_values(|k: usize| k as int),
            all == children_of(tree@, arguments as int),
            pick == (|n: NodeView| is_content(n) && n.kind != "lifetime"@),
            first_where(tree@, all.skip(k as int), pick) == first_where(tree@, all, pick),
            forall|k: int| 0 <= k < children@.len() ==> #[trigger] children@[k] < tree@.len(),
        decreases children@.len() - k,
    {
        let child = children[k];
        proof {
            assert(all.skip(k as int)[0] == child as int);
            assert(all.skip(k as int).drop_first() =~= all.skip(k + 1));
        }
        if carries_content(tree, child) && !is_kind(tree, child, "lifetime") {
            return Some(child);
        }
        k += 1;
    }
    None
}

/// The type in a pair of parentheses. The grammar reads `(T)` as a tuple, which
/// it is only with a comma in it.
pub open spec fn in_parentheses(tree: Seq<NodeView>, tuple: int) -> Option<int> {
    match first_where(tree, children_of(tree, tuple), |n: NodeView| n.kind == ","@) {
        Some(_) => None,
        None => first_content(tree, tuple),
    }
}

/// The type in a pair of parentheses.
fn parenthesized(tree: &SyntaxTree, tuple: usize) -> (inner: Option<usize>)
    requires
        tuple < tree@.len(),
    ensures
        node_view(inner) == in_parentheses(tree@, tuple as int),
        inner matches Some(inner) ==> inner < tree@.len(),
{
    let children = tree.children(tuple);
    let ghost all = children@.map_values(|k: usize| k as int);
    let ghost pick = |n: NodeView| n.kind == ","@;
    let mut k: usize = 0;
    assert(all.skip(0) =~= all);
    while k < children.len()
        invariant
            k <= children@.len(),
            all == children@.map_values(|k: usize| k as int),
            all == children_of(tree@, tuple as int),
            pick == (|n: NodeView| n.kind == ","@),
            first_where(tree@, all.skip(k as int), pick) == first_where(tree@, all, pick),
            forall|k: int| 0 <= k < children@.len() ==> #[trigger] children@[k] < tree@.len(),
        decreases children@.len() - k,
    {
        let child = children[k];
        proof {
            assert(all.skip(k as int)[0] == child as int);
            assert(all.skip(k as int).drop_first() =~= all.skip(k + 1));
        }
        if is_kind(tree, child, ",") {
            return None;
        }
        k += 1;
    }
    content_child(tree, tuple)
}

/// The type inside a wrapper whose methods the index never holds, or the
/// generic type itself.
pub open spec fn unwrapped(tree: Seq<NodeView>, code: Seq<char>, generic: int) -> Option<int> {
    match child_in_field(tree, generic, "type"@) {
        None => None,
        Some(base) => if !among(last_segment(node_text(tree, code, base)), transparent_types()) {
            Some(base)
        } else {
            match child_in_field(tree, generic, "type_arguments"@) {
                None => None,
                Some(arguments) => first_type_argument(tree, arguments),
            }
        },
    }
}

/// The type inside a wrapper whose methods this index never holds.
///
/// `Result<Store>` and `Arc<Store>` both answer `Store`'s methods at the call
/// site, the first after an `unwrap` the parser has already peeled, the second
/// through `Deref`. The list is deliberately short and does **not** include
/// collections: `Vec<Symbol>` is not a `Symbol`. A lifetime is passed over.
fn unwrap_transparent(tree: &SyntaxTree, code: &str, generic: usize) -> (inner: Option<usize>)
    requires
        generic < tree@.len(),
        fits_source(tree@, code@),
    ensures
        node_view(inner) == unwrapped(tree@, code@, generic as int),
        inner matches Some(node) ==> node < tree@.len(),
{
    let base = match tree.child_by_field_name(generic, "type") {
        Some(base) => base,
        None => {
            return None;
        },
    };
    let named = last_path_segment(text_of(tree, code, base));
    if !is_transparent_type(named) {
        return Some(base);
    }
    match tree.child_by_field_name(generic, "type_arguments") {
        Some(arguments) => type_argument(tree, arguments),
        None => None,
    }
}

/// The text a node stands for.
fn text_of<'a>(tree: &SyntaxTree, code: &'a str, node: usize) -> (text: &'a str)
    requires
        node < tree@.len(),
        fits_source(tree@, code@),
    ensures
        text@ == node_text(tree@, code@, node as int),
{
    assert(tree@[node as int] == tree.nodes@[node as int]@);
    slice(code, tree.nodes[node].start, tree.nodes[node].end)
}

/// Whether a node is of a kind.
fn is_kind(tree: &SyntaxTree, node: usize, kind: &str) -> (found: bool)
    requires
        node < tree@.len(),
    ensures
        found == (tree@[node as int].kind == kind@),
{
    assert(tree@[node as int] == tree.nodes@[node as int]@);
    same(tree.nodes[node].kind.as_str(), kind)
}

/// The name of the type that `node` writes, `depth` steps into it.
pub open spec fn type_named(
    tree: Seq<NodeView>,
    code: Seq<char>,
    node: int,
    depth: nat,
) -> Option<Seq<char>>
    decreases MAX_AST_DEPTH + 1 - depth,
{
    let kind = tree[node].kind;
    if depth > MAX_AST_DEPTH {
        None
    } else if kind == "type_identifier"@ {
        Some(node_text(tree, code, node))
    } else if kind == "scoped_type_identifier"@ {
        Some(last_segment(node_text(tree, code, node)))
    } else {
        let inner = if kind == "reference_type"@ {
            child_in_field(tree, node, "type"@)
        } else if kind == "tuple_type"@ {
            in_parentheses(tree, node)
        } else if kind == "generic_type"@ {
            unwrapped(tree, code, node)
        } else {
            None
        };
        match inner {
            None => None,
            Some(inner) => type_named(tree, code, inner, depth + 1),
        }
    }
}

/// The name of the type `node` writes, `None` for one that names no type this
/// index could hold a method for.
///
/// `&Context`, `(Context)` and `Context` are the same type to a method call, so
/// a reference and parentheses are followed.
fn named_type<'a>(tree: &SyntaxTree, code: &'a str, node: usize) -> (name: Option<&'a str>)
    requires
        node < tree@.len(),
        fits_source(tree@, code@),
    ensures
        name_view(name) == type_named(tree@, code@, node as int, 0),
{
    let mut current: usize = node;
    let mut depth: usize = 0;
    while depth <= MAX_AST_DEPTH
        invariant
            depth <= MAX_AST_DEPTH + 1,
            current < tree@.len(),
            fits_source(tree@, code@),
            type_named(tree@, code@, current as int, depth as nat) == type_named(
                tree@,
                code@,
                node as int,
                0,
            ),
        decreases MAX_AST_DEPTH + 1 - depth,
    {
        if is_kind(tree, current, "type_identifier") {
            return Some(text_of(tree, code, current));
        }
        if is_kind(tree, current, "scoped_type_identifier") {
            return Some(last_path_segment(text_of(tree, code, current)));
        }
        let inner = if is_kind(tree, current, "reference_type") {
            // By field, not by first child: the first named child of `&mut T`
            // is the `mutable_specifier`, which names no type.
            tree.child_by_field_name(current, "type")
        } else if is_kind(tree, current, "tuple_type") {
            parenthesized(tree, current)
        } else if is_kind(tree, current, "generic_type") {
            unwrap_transparent(tree, code, current)
        } else {
            None
        };
        match inner {
            Some(inner) => {
                current = inner;
            },
            None => {
                return None;
            },
        }
        depth += 1;
    }
    None
}

/// Whether Unicode counts a character as upper case.
pub uninterp spec fn has_uppercase(c: char) -> bool;

/// `char::is_uppercase`: whether the character has the `Uppercase` property.
/// The letters of ASCII have it or not as their case is.
#[verifier::external_body]
fn is_uppercase(c: char) -> (upper: bool)
    ensures
        upper == has_uppercase(c),
        'A' <= c <= 'Z' ==> upper,
        'a' <= c <= 'z' ==> !upper,
{
    c.is_uppercase()
}

/// Whether a text starts with an upper-case character.
pub open spec fn starts_upper(text: Seq<char>) -> bool {
    text.len() > 0 && has_uppercase(text[0])
}

fn starts_uppercase(text: &str) -> (upper: bool)
    ensures
        upper == starts_upper(text@),
{
    if text.unicode_len() == 0 {
        return false;
    }
    is_uppercase(text.get_char(0))
}

/// What a wrapper stands around: the value that a call or an operator hands
/// back as it was given.
pub open spec fn wrapped(tree: Seq<NodeView>, code: Seq<char>, node: int) -> Option<int> {
    let kind = tree[node].kind;
    if kind == "reference_expression"@ {
        child_in_field(tree, node, "value"@)
    } else if kind == "try_expression"@ || kind == "parenthesized_expression"@ {
        first_content(tree, node)
    } else if kind == "call_expression"@ {
        match child_in_field(tree, node, "function"@) {
            Some(callee) if tree[callee].kind == "field_expression"@ => match child_in_field(
                tree,
                callee,
                "field"@,
            ) {
                Some(field) if among(
                    node_text(tree, code, field),
                    transparent_methods(),
                ) => child_in_field(tree, callee, "value"@),
                _ => None,
            },
            _ => None,
        }
    } else {
        None
    }
}

/// What is left of an expression when every wrapper is taken off, `depth`
/// wrappers in.
pub open spec fn peeled(
    tree: Seq<NodeView>,
    code: Seq<char>,
    node: int,
    depth: nat,
) -> Option<int>
    decreases MAX_AST_DEPTH + 1 - depth,
{
    if depth > MAX_AST_DEPTH {
        None
    } else {
        match wrapped(tree, code, node) {
            Some(inner) => peeled(tree, code, inner, depth + 1),
            None => Some(node),
        }
    }
}

fn unwrap_once(tree: &SyntaxTree, code: &str, node: usize) -> (inner: Option<usize>)
    requires
        node < tree@.len(),
        fits_source(tree@, code@),
    ensures
        node_view(inner) == wrapped(tree@, code@, node as int),
        inner matches Some(node) ==> node < tree@.len(),
{
    if is_kind(tree, node, "reference_expression") {
        // By field: the first named child of `&mut x` is the
        // `mutable_specifier`.
        return tree.child_by_field_name(node, "value");
    }
    if is_kind(tree, node, "try_expression") || is_kind(tree, node, "parenthesized_expression") {
        return content_child(tree, node);
    }
    if !is_kind(tree, node, "call_expression") {
        return None;
    }
    // `x.unwrap()`: the receiver of a transparent method, not the method
    // itself. A call to anything else is a value of its own and the peeling
    // stops there.
    let callee = match tree.child_by_field_name(node, "function") {
        Some(callee) => callee,
        None => {
            return None;
        },
    };
    if !is_kind(tree, callee, "field_expression") {
        return None;
    }
    let field = match tree.child_by_field_name(callee, "field") {
        Some(field) => field,
        None => {
            return None;
        },
    };
    if !is_transparent_method(text_of(tree, code, field)) {
        return None;
    }
    tree.child_by_field_name(callee, "value")
}

/// Strip the calls and operators that hand back what they were given.
///
/// `unwrap`, `expect` and `?` take a `Result` or an `Option` apart, `&` and
/// `&mut` borrow and `clone` copies. None of them changes which type's methods the result
/// answers to.
///
/// A loop with a depth guard, not a recursion: a chain of these nests once per
/// call, and a generated source can nest it past any stack.
pub fn peel_wrappers(tree: &SyntaxTree, code: &str, node: usize) -> (core: Option<usize>)
    requires
        node < tree@.len(),
        fits_source(tree@, code@),
    ensures
        node_view(core) == peeled(tree@, code@, node as int, 0),
        core matches Some(node) ==> node < tree@.len(),
{
    let mut current: usize = node;
    let mut depth: usize = 0;
    while depth <= MAX_AST_DEPTH
        invariant
            depth <= MAX_AST_DEPTH + 1,
            current < tree@.len(),
            fits_source(tree@, code@),
            peeled(tree@, code@, current as int, depth as nat) == peeled(
                tree@,
                code@,
                node as int,
                0,
            ),
        decreases MAX_AST_DEPTH + 1 - depth,
    {
        match unwrap_once(tree, code, current) {
            Some(inner) => {
                current = inner;
            },
            None => {
                return Some(current);
            },
        }
        depth += 1;
    }
    None
}

/// The node that names the type in an expression: the one in front of the
/// arguments where there are any, as in `Vec::<u8>::new()`.
pub open spec fn without_arguments(tree: Seq<NodeView>, node: int) -> int {
    let kind = tree[node].kind;
    if kind == "generic_type"@ || kind == "generic_type_with_turbofish"@ {
        match child_in_field(tree, node, "type"@) {
            Some(base) => base,
            None => node,
        }
    } else {
        node
    }
}

/// The name that a path in an expression is indexed under.
fn path_name<'a>(tree: &SyntaxTree, code: &'a str, node: usize) -> (name: &'a str)
    requires
        node < tree@.len(),
        fits_source(tree@, code@),
    ensures
        name@ == last_segment(node_text(tree@, code@, without_arguments(tree@, node as int))),
{
    let base = if is_kind(tree, node, "generic_type") || is_kind(
        tree,
        node,
        "generic_type_with_turbofish",
    ) {
        match tree.child_by_field_name(node, "type") {
            Some(base) => base,
            None => node,
        }
    } else {
        node
    };
    last_path_segment(text_of(tree, code, base))
}

/// The type that a call through a path answers with, given whether the path's
/// last segment is capitalised: the type of that name, or else whatever the
/// function behind the path returns.
pub open spec fn scoped_type(
    tree: Seq<NodeView>,
    code: Seq<char>,
    callee: int,
    path: Seq<char>,
    capital: bool,
) -> Option<ReceiverView> {
    if capital {
        Some(ReceiverView::Named(path))
    } else {
        match child_in_field(tree, callee, "name"@) {
            Some(name) => Some(ReceiverView::ReturnOf(node_text(tree, code, name))),
            None => None,
        }
    }
}

/// The type of the value that `node` evaluates to.
pub open spec fn value_typed(
    tree: Seq<NodeView>,
    code: Seq<char>,
    node: int,
) -> Option<ReceiverView> {
    match peeled(tree, code, node, 0) {
        None => None,
        Some(core) => if tree[core].kind == "struct_expression"@ {
            match child_in_field(tree, core, "name"@) {
                Some(name) => Some(
                    ReceiverView::Named(
                        last_segment(node_text(tree, code, without_arguments(tree, name))),
                    ),
                ),
                None => None,
            }
        } else if tree[core].kind == "call_expression"@ {
            match child_in_field(tree, core, "function"@) {
                None => None,
                Some(callee) => call_typed(tree, code, callee),
            }
        } else {
            None
        },
    }
}

/// The type that a call of `callee` answers with.
pub open spec fn call_typed(
    tree: Seq<NodeView>,
    code: Seq<char>,
    callee: int,
) -> Option<ReceiverView> {
    if tree[callee].kind == "scoped_identifier"@ {
        match child_in_field(tree, callee, "path"@) {
            None => None,
            Some(path) => {
                let segment = last_segment(
                    node_text(tree, code, without_arguments(tree, path)),
                );
                scoped_type(tree, code, callee, segment, starts_upper(segment))
            },
        }
    } else if tree[callee].kind == "identifier"@ {
        Some(ReceiverView::ReturnOf(node_text(tree, code, callee)))
    } else {
        None
    }
}

/// The type that a call through a path answers with.
///
/// `TempDir::new()` reaches an associated function through the type it belongs
/// to, and that type is the answer without asking the index anything.
/// `tempfile::tempdir()` is the same shape and means something else: the path
/// is a module, so the callee is a plain function and only its return type
/// answers. Case is what tells the two apart, and `capital` says which it is.
pub fn scoped_call_type<'a>(
    tree: &SyntaxTree,
    code: &'a str,
    callee: usize,
    path: &'a str,
    capital: bool,
) -> (inferred: Option<ReceiverType<'a>>)
    requires
        callee < tree@.len(),
        fits_source(tree@, code@),
    ensures
        receiver_view(inferred) == scoped_type(tree@, code@, callee as int, path@, capital),
        capital ==> (inferred matches Some(ReceiverType::Named(named)) && named@ == path@),
        !capital ==> !(inferred matches Some(ReceiverType::Named(_))),
        !capital ==> (child_in_field(tree@, callee as int, "name"@) matches Some(name) ==> (
        inferred matches Some(ReceiverType::ReturnOf(called)) && called@ == text_at(
            code@,
            tree@[name].start,
            tree@[name].end,
        ))),
{
    if capital {
        return Some(ReceiverType::Named(path));
    }
    match tree.child_by_field_name(callee, "name") {
        Some(name) => Some(ReceiverType::ReturnOf(text_of(tree, code, name))),
        None => None,
    }
}

/// The type that a call of `callee` answers with.
///
/// `x.build()` is deliberately unknown. A method's name does not identify a
/// method, and answering it from the name alone reintroduces the ambiguity one
/// step further back.
fn call_type<'a>(tree: &SyntaxTree, code: &'a str, callee: usize) -> (inferred: Option<
    ReceiverType<'a>,
>)
    requires
        callee < tree@.len(),
        fits_source(tree@, code@),
    ensures
        receiver_view(inferred) == call_typed(tree@, code@, callee as int),
{
    if is_kind(tree, callee, "scoped_identifier") {
        match tree.child_by_field_name(callee, "path") {
            Some(path) => {
                let segment = path_name(tree, code, path);
                scoped_call_type(tree, code, callee, segment, starts_uppercase(segment))
            },
            None => None,
        }
    } else if is_kind(tree, callee, "identifier") {
        // `tempdir()`: only the index knows what it returns, and the name is
        // enough to ask.
        Some(ReceiverType::ReturnOf(text_of(tree, code, callee)))
    } else {
        None
    }
}

/// The type of the value `node` evaluates to.
///
/// `.unwrap()` and its family are peeled first: `TempDir::new().unwrap()` is a
/// `TempDir` to every reader, and the wrapper it came out of is not a type this
/// index holds methods for.
fn value_type<'a>(tree: &SyntaxTree, code: &'a str, node: usize) -> (inferred: Option<
    ReceiverType<'a>,
>)
    requires
        node < tree@.len(),
        fits_source(tree@, code@),
    ensures
        receiver_view(inferred) == value_typed(tree@, code@, node as int),
{
    let core = match peel_wrappers(tree, code, node) {
        Some(core) => core,
        None => {
            return None;
        },
    };
    if is_kind(tree, core, "struct_expression") {
        // `Store { .. }` is a Store.
        match tree.child_by_field_name(core, "name") {
            Some(name) => Some(ReceiverType::Named(path_name(tree, code, name))),
            None => None,
        }
    } else if is_kind(tree, core, "call_expression") {
        match tree.child_by_field_name(core, "function") {
            Some(callee) => call_type(tree, code, callee),
            None => None,
        }
    } else {
        None
    }
}

/// Whether a node is the plain name `name`.
pub open spec fn is_name(
    tree: Seq<NodeView>,
    code: Seq<char>,
    node: int,
    name: Seq<char>,
) -> bool {
    tree[node].kind == "identifier"@ && node_text(tree, code, node) == name
}

/// The type of the first of some parameters that binds `name`. A parameter
/// without a pattern ends the search.
pub open spec fn parameter_among(
    tree: Seq<NodeView>,
    code: Seq<char>,
    parameters: Seq<int>,
    name: Seq<char>,
) -> Option<ReceiverView>
    decreases parameters.len(),
{
    if parameters.len() == 0 {
        None
    } else if tree[parameters[0]].kind != "parameter"@ {
        parameter_among(tree, code, parameters.drop_first(), name)
    } else {
        match child_in_field(tree, parameters[0], "pattern"@) {
            None => None,
            Some(bound) => if is_name(tree, code, bound, name) {
                match child_in_field(tree, parameters[0], "type"@) {
                    None => None,
                    Some(declared) => match type_named(tree, code, declared, 0) {
                        Some(named) => Some(ReceiverView::Named(named)),
                        None => None,
                    },
                }
            } else {
                parameter_among(tree, code, parameters.drop_first(), name)
            },
        }
    }
}

/// The type of the parameter named `name`, out of the signature.
pub open spec fn parameter_typed(
    tree: Seq<NodeView>,
    code: Seq<char>,
    function: int,
    name: Seq<char>,
) -> Option<ReceiverView> {
    match child_in_field(tree, function, "parameters"@) {
        None => None,
        Some(parameters) => parameter_among(tree, code, children_of(tree, parameters), name),
    }
}

fn binds(tree: &SyntaxTree, code: &str, node: usize, name: &str) -> (found: bool)
    requires
        node < tree@.len(),
        fits_source(tree@, code@),
    ensures
        found == is_name(tree@, code@, node as int, name@),
{
    is_kind(tree, node, "identifier") && same(text_of(tree, code, node), name)
}

/// The type that an annotation names.
fn annotated<'a>(tree: &SyntaxTree, code: &'a str, annotation: usize) -> (inferred: Option<
    ReceiverType<'a>,
>)
    requires
        annotation < tree@.len(),
        fits_source(tree@, code@),
    ensures
        receiver_view(inferred) == (match type_named(tree@, code@, annotation as int, 0) {
            Some(named) => Some(ReceiverView::Named(named)),
            None => None,
        }),
{
    match named_type(tree, code, annotation) {
        Some(name) => Some(ReceiverType::Named(name)),
        None => None,
    }
}

/// The type of the parameter named `name`, out of the signature.
fn parameter_type<'a>(tree: &SyntaxTree, code: &'a str, function: usize, name: &str) -> (inferred:
    Option<ReceiverType<'a>>)
    requires
        function < tree@.len(),
        fits_source(tree@, code@),
    ensures
        receiver_view(inferred) == parameter_typed(tree@, code@, function as int, name@),
{
    let parameters = match tree.child_by_field_name(function, "parameters") {
        Some(parameters) => parameters,
        None => {
            return None;
        },
    };
    let children = tree.children(parameters);
    let ghost all = children@.map_values(|k: usize| k as int);
    let mut k: usize = 0;
    assert(all.skip(0) =~= all);
    while k < children.len()
        invariant
            k <= children@.len(),
            function < tree@.len(),
            fits_source(tree@, code@),
            all == children@.map_values(|k: usize| k as int),
            parameter_among(tree@, code@, all.skip(k as int), name@) == parameter_typed(
                tree@,
                code@,
                function as int,
                name@,
            ),
            forall|k: int| 0 <= k < children@.len() ==> #[trigger] children@[k] < tree@.len(),
        decreases children@.len() - k,
    {
        let parameter = children[k];
        proof {
            assert(all.skip(k as int)[0] == parameter as int);
            assert(all.skip(k as int).drop_first() =~= all.skip(k + 1));
        }
        k += 1;
        if !is_kind(tree, parameter, "parameter") {
            continue ;
        }
        let bound = match tree.child_by_field_name(parameter, "pattern") {
            Some(bound) => bound,
            None => {
                return None;
            },
        };
        if binds(tree, code, bound, name) {
            return match tree.child_by_field_name(parameter, "type") {
                Some(declared) => annotated(tree, code, declared),
                None => None,
            };
        }
    }
    None
}

/// The named ones among some nodes.
pub open spec fn named_among(tree: Seq<NodeView>, nodes: Seq<int>) -> Seq<int> {
    nodes.filter(|n: int| tree[n].named)
}

/// The nodes that a search of a subtree looks at, in the order it does: a node
/// before its children, the last child first, named nodes only, and none deeper
/// than the walk goes.
pub open spec fn searched(tree: Seq<NodeView>, node: int, depth: nat) -> Seq<int>
    decreases MAX_AST_DEPTH + 1 - depth, 0nat,
{
    if depth > MAX_AST_DEPTH {
        Seq::empty()
    } else {
        seq![node] + searched_all(tree, named_among(tree, children_of(tree, node)), depth + 1)
    }
}

/// The nodes that a search of some subtrees looks at, the last one first.
pub open spec fn searched_all(tree: Seq<NodeView>, nodes: Seq<int>, depth: nat) -> Seq<int>
    decreases MAX_AST_DEPTH + 1 - depth, nodes.len() + 1,
{
    if depth > MAX_AST_DEPTH || nodes.len() == 0 {
        Seq::empty()
    } else {
        searched(tree, nodes.last(), depth) + searched_all(tree, nodes.drop_last(), depth)
    }
}

/// Whether a node is a `let` of `name` above the use and in scope there: it is
/// written to its end before the use, and the block it stands in holds the use.
/// The initializer of a `let` sees the binding before it, and a block that is
/// closed takes its bindings along.
pub open spec fn is_binding(
    tree: Seq<NodeView>,
    code: Seq<char>,
    name: Seq<char>,
    used_at: int,
    node: int,
) -> bool {
    &&& tree[node].kind == "let_declaration"@
    &&& tree[node].start < tree[used_at].start
    &&& tree[node].end <= tree[used_at].start
    &&& parent_of(tree, node) matches Some(block) && used_at < subtree_end(tree, block)
    &&& child_in_field(tree, node, "pattern"@) matches Some(pattern) && is_name(
        tree,
        code,
        pattern,
        name,
    )
}

/// The type that a `let` binds: the one it writes, else that of its value.
pub open spec fn let_typed(tree: Seq<NodeView>, code: Seq<char>, node: int) -> Option<
    ReceiverView,
> {
    match child_in_field(tree, node, "type"@) {
        Some(annotation) => match type_named(tree, code, annotation, 0) {
            Some(named) => Some(ReceiverView::Named(named)),
            None => None,
        },
        None => match child_in_field(tree, node, "value"@) {
            Some(value) => value_typed(tree, code, value),
            None => None,
        },
    }
}

/// The binding nearest to the use among the nodes a search looked at: the one
/// that starts last, the first one looked at on a tie.
pub open spec fn nearest(
    tree: Seq<NodeView>,
    code: Seq<char>,
    name: Seq<char>,
    used_at: int,
    nodes: Seq<int>,
) -> Option<int>
    decreases nodes.len(),
{
    if nodes.len() == 0 {
        None
    } else {
        let before = nearest(tree, code, name, used_at, nodes.drop_last());
        let node = nodes.last();
        if !is_binding(tree, code, name, used_at, node) {
            before
        } else {
            match before {
                Some(seen) if tree[node].start <= tree[seen].start => before,
                _ => Some(node),
            }
        }
    }
}

/// The type bound to `name` in the function it was written in: what the nearest
/// `let` in scope above the use binds, else the parameter of that name. A `let`
/// that says no type hides the bindings above it all the same.
pub open spec fn binding_typed(
    tree: Seq<NodeView>,
    code: Seq<char>,
    function: int,
    name: Seq<char>,
    used_at: int,
) -> Option<ReceiverView> {
    match nearest(tree, code, name, used_at, searched(tree, function, 0)) {
        Some(binding) => let_typed(tree, code, binding),
        None => parameter_typed(tree, code, function, name),
    }
}

/// Whether a node is a `let` of `name` above the use and in scope there.
fn rebinds(tree: &SyntaxTree, code: &str, name: &str, used_at: usize, node: usize) -> (found: bool)
    requires
        node < tree@.len(),
        used_at < tree@.len(),
        fits_source(tree@, code@),
    ensures
        found == is_binding(tree@, code@, name@, used_at as int, node as int),
{
    assert(tree@[node as int] == tree.nodes@[node as int]@);
    assert(tree@[used_at as int] == tree.nodes@[used_at as int]@);
    if !is_kind(tree, node, "let_declaration") || tree.nodes[node].start
        >= tree.nodes[used_at].start || tree.nodes[node].end > tree.nodes[used_at].start {
        return false;
    }
    match tree.parent(node) {
        Some(block) => {
            if used_at >= tree.end_of(block) {
                return false;
            }
        },
        None => {
            return false;
        },
    }
    match tree.child_by_field_name(node, "pattern") {
        Some(pattern) => binds(tree, code, pattern, name),
        None => false,
    }
}

/// The type that a `let` binds.
fn let_type<'a>(tree: &SyntaxTree, code: &'a str, node: usize) -> (inferred: Option<
    ReceiverType<'a>,
>)
    requires
        node < tree@.len(),
        fits_source(tree@, code@),
    ensures
        receiver_view(inferred) == let_typed(tree@, code@, node as int),
{
    match tree.child_by_field_name(node, "type") {
        Some(annotation) => annotated(tree, code, annotation),
        None => match tree.child_by_field_name(node, "value") {
            Some(value) => value_type(tree, code, value),
            None => None,
        },
    }
}

/// The nodes that a search with these subtrees still to do looks at, the last
/// subtree first.
spec fn to_search(tree: Seq<NodeView>, stack: Seq<(usize, usize)>) -> Seq<int>
    decreases stack.len(),
{
    if stack.len() == 0 {
        Seq::empty()
    } else {
        searched(tree, stack.last().0 as int, stack.last().1 as nat) + to_search(
            tree,
            stack.drop_last(),
        )
    }
}

/// Children put on the stack are searched the last one first.
proof fn lemma_children_to_search(
    tree: Seq<NodeView>,
    stack: Seq<(usize, usize)>,
    nodes: Seq<int>,
    pushed: Seq<(usize, usize)>,
    depth: usize,
)
    requires
        pushed.len() == nodes.len(),
        forall|k: int|
            0 <= k < pushed.len() ==> (#[trigger] pushed[k]).0 == nodes[k] && pushed[k].1 == depth,
    ensures
        to_search(tree, stack + pushed) == searched_all(tree, nodes, depth as nat) + to_search(
            tree,
            stack,
        ),
    decreases nodes.len(),
{
    if nodes.len() == 0 {
        assert(stack + pushed =~= stack);
        assert(searched_all(tree, nodes, depth as nat) =~= Seq::empty());
        assert(Seq::empty() + to_search(tree, stack) =~= to_search(tree, stack));
    } else {
        let fewer = nodes.drop_last();
        lemma_children_to_search(tree, stack, fewer, pushed.drop_last(), depth);
        assert((stack + pushed).drop_last() =~= stack + pushed.drop_last());
        assert((stack + pushed).last() == pushed[pushed.len() - 1]);
        let last = searched(tree, nodes.last(), depth as nat);
        let others = searched_all(tree, fewer, depth as nat);
        assert(last + (others + to_search(tree, stack)) =~= (last + others) + to_search(
            tree,
            stack,
        ));
        if depth > MAX_AST_DEPTH {
            assert(last + others =~= searched_all(tree, nodes, depth as nat));
        }
    }
}

/// Put the named children of a node on the stack.
fn push_named_children(
    tree: &SyntaxTree,
    node: usize,
    depth: usize,
    stack: &mut Vec<(usize, usize)>,
)
    requires
        node < tree@.len(),
        forall|k: int| 0 <= k < old(stack)@.len() ==> (#[trigger] old(stack)@[k]).0 < tree@.len(),
    ensures
        to_search(tree@, final(stack)@) == searched_all(
            tree@,
            named_among(tree@, children_of(tree@, node as int)),
            depth as nat,
        ) + to_search(tree@, old(stack)@),
        forall|k: int| 0 <= k < final(stack)@.len() ==> (#[trigger] final(stack)@[k]).0
            < tree@.len() && (final(stack)@[k].1 == depth || k < old(stack)@.len()
            && final(stack)@[k] == old(stack)@[k]),
{
    let children = tree.children(node);
    let ghost all = children@.map_values(|k: usize| k as int);
    let ghost keep = |n: int| tree@[n].named;
    let ghost base = stack@;
    let ghost mut pushed: Seq<(usize, usize)> = Seq::empty();
    let mut k: usize = 0;
    proof {
        assert(all.take(0) =~= Seq::empty());
        all.take(0).lemma_filter_len(keep);
        assert(stack@ =~= base + pushed);
    }
    while k < children.len()
        invariant
            k <= children@.len(),
            all == children@.map_values(|k: usize| k as int),
            keep == (|n: int| tree@[n].named),
            stack@ == base + pushed,
            pushed.len() == all.take(k as int).filter(keep).len(),
            forall|j: int|
                0 <= j < pushed.len() ==> (#[trigger] pushed[j]).0 == all.take(k as int).filter(
                    keep,
                )[j] && pushed[j].1 == depth && pushed[j].0 < tree@.len(),
            forall|k: int| 0 <= k < children@.len() ==> #[trigger] children@[k] < tree@.len(),
        decreases children@.len() - k,
    {
        let child = children[k];
        proof {
            assert(tree@[child as int] == tree.nodes@[child as int]@);
            assert(all.take(k + 1) =~= all.take(k as int).push(child as int));
            all.take(k as int).lemma_filter_push(child as int, keep);
        }
        if tree.nodes[child].named {
            stack.push((child, depth));
            proof {
                pushed = pushed.push((child, depth));
                assert(stack@ =~= base + pushed);
            }
        }
        k += 1;
    }
    proof {
        assert(all.take(k as int) =~= all);
        lemma_children_to_search(
            tree@,
            base,
            named_among(tree@, children_of(tree@, node as int)),
            pushed,
            depth,
        );
    }
}

/// The type bound to `name` in the function it was written in.
///
/// A `let` that comes after the call site, or whose block is closed by then, is
/// not the binding the call used, so the search is bounded by `used_at`: the
/// nearest binding above the use wins, which is what shadowing means.
fn binding_type<'a>(
    tree: &SyntaxTree,
    code: &'a str,
    function: usize,
    name: &str,
    used_at: usize,
) -> (inferred: Option<ReceiverType<'a>>)
    requires
        function < tree@.len(),
        used_at < tree@.len(),
        fits_source(tree@, code@),
    ensures
        receiver_view(inferred) == binding_typed(
            tree@,
            code@,
            function as int,
            name@,
            used_at as int,
        ),
{
    let ghost whole = searched(tree@, function as int, 0);
    let ghost mut seen: Seq<int> = Seq::empty();
    let mut best: Option<usize> = None;
    let mut stack: Vec<(usize, usize)> = Vec::new();
    stack.push((function, 0));
    proof {
        assert(stack@.last() == (function, 0usize));
        assert(to_search(tree@, stack@.drop_last()) =~= Seq::empty());
        assert(seen + to_search(tree@, stack@) =~= whole);
    }
    while stack.len() > 0
        invariant
            used_at < tree@.len(),
            fits_source(tree@, code@),
            whole == searched(tree@, function as int, 0),
            best matches Some(seen) ==> seen < tree@.len(),
            seen + to_search(tree@, stack@) == whole,
            forall|k: int|
                0 <= k < stack@.len() ==> (#[trigger] stack@[k]).0 < tree@.len() && stack@[k].1
                    <= MAX_AST_DEPTH + 1,
            node_view(best) == nearest(tree@, code@, name@, used_at as int, seen),
        decreases to_search(tree@, stack@).len(), stack@.len(),
    {
        let ghost before = stack@;
        let (node, depth) = stack.pop().unwrap();
        assert(stack@ =~= before.drop_last());
        assert(before[before.len() - 1] == (node, depth));
        if depth > MAX_AST_DEPTH {
            assert(to_search(tree@, before) =~= to_search(tree@, stack@));
            continue ;
        }
        let ghost rest = to_search(tree@, stack@);
        let ghost below = searched_all(
            tree@,
            named_among(tree@, children_of(tree@, node as int)),
            depth as nat + 1,
        );
        proof {
            assert(to_search(tree@, before) == (seq![node as int] + below) + rest);
            assert(seen + ((seq![node as int] + below) + rest) =~= seen.push(node as int) + (below
                + rest));
            assert(seen.push(node as int).drop_last() =~= seen);
            seen = seen.push(node as int);
            assert(tree@[node as int] == tree.nodes@[node as int]@);
        }
        if rebinds(tree, code, name, used_at, node) {
            let later = match best {
                Some(seen) => {
                    assert(tree@[seen as int] == tree.nodes@[seen as int]@);
                    tree.nodes[node].start > tree.nodes[seen].start
                },
                None => true,
            };
            if later {
                best = Some(node);
            }
        }
        push_named_children(tree, node, depth + 1, &mut stack);
    }
    proof {
        assert(seen =~= whole);
    }
    match best {
        Some(binding) => let_type(tree, code, binding),
        None => parameter_type(tree, code, function, name),
    }
}

/// The type that the `impl` around `node` is for, `depth` nodes up.
pub open spec fn self_typed(
    tree: Seq<NodeView>,
    code: Seq<char>,
    node: int,
    depth: nat,
) -> Option<Seq<char>>
    decreases MAX_AST_DEPTH + 1 - depth,
{
    if depth > MAX_AST_DEPTH {
        None
    } else if tree[node].kind == "impl_item"@ {
        match child_in_field(tree, node, "type"@) {
            Some(target) => type_named(tree, code, target, 0),
            None => None,
        }
    } else {
        match parent_of(tree, node) {
            Some(parent) => self_typed(tree, code, parent, depth + 1),
            None => None,
        }
    }
}

/// The type the `impl` around `function` is for: what `Self` means there.
fn self_type<'a>(tree: &SyntaxTree, code: &'a str, function: usize) -> (name: Option<&'a str>)
    requires
        function < tree@.len(),
        fits_source(tree@, code@),
    ensures
        name_view(name) == self_typed(tree@, code@, function as int, 0),
{
    let mut current: usize = function;
    let mut depth: usize = 0;
    while depth <= MAX_AST_DEPTH
        invariant
            depth <= MAX_AST_DEPTH + 1,
            current < tree@.len(),
            fits_source(tree@, code@),
            self_typed(tree@, code@, current as int, depth as nat) == self_typed(
                tree@,
                code@,
                function as int,
                0,
            ),
        decreases MAX_AST_DEPTH + 1 - depth,
    {
        if is_kind(tree, current, "impl_item") {
            return match tree.child_by_field_name(current, "type") {
                Some(target) => named_type(tree, code, target),
                None => None,
            };
        }
        match tree.parent(current) {
            Some(parent) => {
                current = parent;
            },
            None => {
                return None;
            },
        }
        depth += 1;
    }
    None
}

/// The type of `receiver`, which was written inside `function`.
pub open spec fn receiver_typed(
    tree: Seq<NodeView>,
    code: Seq<char>,
    function: Option<int>,
    receiver: int,
) -> Option<ReceiverView> {
    let inferred = if tree[receiver].kind == "identifier"@ {
        match function {
            Some(function) => binding_typed(
                tree,
                code,
                function,
                node_text(tree, code, receiver),
                receiver,
            ),
            None => None,
        }
    } else {
        value_typed(tree, code, receiver)
    };
    match inferred {
        Some(ReceiverView::Named(name)) if name == "Self"@ => match function {
            Some(function) => match self_typed(tree, code, function, 0) {
                Some(target) => Some(ReceiverView::Named(target)),
                None => None,
            },
            None => None,
        },
        other => other,
    }
}

/// The type of `receiver`, which was written inside `function`.
///
/// `None` when this file does not say, which leaves the edge exactly where it
/// was. Answering "unknown" with a guess is the one outcome worth avoiding,
/// because a wrong type reports a call as leaving the index when it did not.
pub fn infer<'a>(
    tree: &SyntaxTree,
    function: Option<usize>,
    code: &'a str,
    receiver: usize,
) -> (inferred: Option<ReceiverType<'a>>)
    requires
        function matches Some(node) ==> node < tree@.len(),
        receiver < tree@.len(),
        fits_source(tree@, code@),
    ensures
        receiver_view(inferred) == receiver_typed(
            tree@,
            code@,
            node_view(function),
            receiver as int,
        ),
{
    let inferred = if is_kind(tree, receiver, "identifier") {
        // A name: the type is wherever the name was bound.
        match function {
            Some(function) => binding_type(
                tree,
                code,
                function,
                text_of(tree, code, receiver),
                receiver,
            ),
            None => None,
        }
    } else {
        // Anything that produces a value: the type is what produced it.
        value_type(tree, code, receiver)
    };
    match inferred {
        Some(ReceiverType::Named(name)) => {
            if !same(name, "Self") {
                return Some(ReceiverType::Named(name));
            }
            // `Self` is not a name anything is indexed under; it stands for
            // the type of the `impl` the call was written in.
            match function {
                Some(function) => match self_type(tree, code, function) {
                    Some(target) => Some(ReceiverType::Named(target)),
                    None => None,
                },
                None => None,
            }
        },
        other => other,
    }
}

/// A signature as an item: with an empty body behind it.
pub open spec fn as_item(signature: Seq<char>) -> Seq<char> {
    signature + " {}"@
}

/// The type that the function at the head of a tree returns.
pub open spec fn returned(tree: Seq<NodeView>, code: Seq<char>) -> Option<Seq<char>> {
    match first_named_child(tree, 0) {
        Some(item) if tree[item].kind == "function_item"@ => match child_in_field(
            tree,
            item,
            "return_type"@,
        ) {
            Some(declared) => type_named(tree, code, declared, 0),
            None => None,
        },
        _ => None,
    }
}

/// The type that the function at the head of a tree returns, reduced to the
/// name a symbol is indexed under.
pub fn declared_return<'a>(tree: &SyntaxTree, code: &'a str) -> (name: Option<&'a str>)
    requires
        tree@.len() > 0,
        fits_source(tree@, code@),
    ensures
        name_view(name) == returned(tree@, code@),
{
    let item = match tree.named_child(0) {
        Some(item) => item,
        None => {
            return None;
        },
    };
    if !is_kind(tree, item, "function_item") {
        return None;
    }
    match tree.child_by_field_name(item, "return_type") {
        Some(declared) => named_type(tree, code, declared),
        None => None,
    }
}

/// The type a Rust signature returns, reduced to the name a symbol is indexed
/// under.
///
/// `fn open(p: &Path) -> anyhow::Result<Store>` answers `Store`: the same
/// reduction an annotation gets, through the same code, so a receiver typed
/// from a `let` and one typed from a return type can never disagree. `None`
/// for a signature that returns nothing, or nothing this index could hold a
/// method for, and where the parser's ranges do not cut the source.
///
/// The signature is parsed rather than scanned for `->`: a return type can
/// hold one (`-> Box<dyn Fn() -> u32>`), and a parameter can too.
pub fn return_type(signature: &str) -> (name: Option<String>)
    ensures
        (match name {
            Some(name) => Some(name@),
            None => None,
        }) == (match rust_syntax(as_item(signature@)) {
            Some(tree) if tree.len() > 0 && fits_source(tree, as_item(signature@)) => returned(
                tree,
                as_item(signature@),
            ),
            _ => None,
        }),
{
    // A signature is stored without a body, which is not a parseable item.
    let mut source = signature.to_owned();
    source.append(" {}");
    let tree = match parse(Grammar::Rust, source.as_str()) {
        Some(tree) => tree,
        None => {
            return None;
        },
    };
    if tree.nodes.len() == 0 || !tree.fits(source.as_str()) {
        return None;
    }
    match declared_return(&tree, source.as_str()) {
        Some(name) => Some(name.to_owned()),
        None => None,
    }
}

/// Peeling leaves no wrapper: what is left hands nothing back as it was given.
pub proof fn peeling_leaves_no_wrapper(
    tree: Seq<NodeView>,
    code: Seq<char>,
    node: int,
    depth: nat,
)
    ensures
        peeled(tree, code, node, depth) matches Some(core) ==> wrapped(tree, code, core) is None,
    decreases MAX_AST_DEPTH + 1 - depth,
{
    if depth <= MAX_AST_DEPTH {
        if let Some(inner) = wrapped(tree, code, node) {
            peeling_leaves_no_wrapper(tree, code, inner, depth + 1);
        }
    }
}

/// Taking a wrapper off first changes nothing: where peeling gets to an end, a
/// wrapped expression is peeled to what the bare one is peeled to. So any
/// nesting of wrappers is stripped.
pub proof fn a_wrapper_is_peeled_off(
    tree: Seq<NodeView>,
    code: Seq<char>,
    node: int,
    inner: int,
)
    requires
        wrapped(tree, code, node) == Some(inner),
        peeled(tree, code, node, 0) is Some,
    ensures
        peeled(tree, code, node, 0) == peeled(tree, code, inner, 0),
{
    lemma_peeled_sooner(tree, code, inner, 0);
}

/// An expression that is peeled to an end from deeper in is peeled to the same
/// end from further out.
proof fn lemma_peeled_sooner(tree: Seq<NodeView>, code: Seq<char>, node: int, depth: nat)
    requires
        peeled(tree, code, node, depth + 1) is Some,
    ensures
        peeled(tree, code, node, depth) == peeled(tree, code, node, depth + 1),
    decreases MAX_AST_DEPTH + 1 - depth,
{
    if let Some(inner) = wrapped(tree, code, node) {
        lemma_peeled_sooner(tree, code, inner, depth + 1);
    }
}

/// Whether `node` is a call of the method `method` on `receiver`.
pub open spec fn calls_method(
    tree: Seq<NodeView>,
    code: Seq<char>,
    node: int,
    method: Seq<char>,
    receiver: int,
) -> bool {
    &&& tree[node].kind == "call_expression"@
    &&& child_in_field(tree, node, "function"@) matches Some(callee) && {
        &&& tree[callee].kind == "field_expression"@
        &&& child_in_field(tree, callee, "value"@) == Some(receiver)
        &&& child_in_field(tree, callee, "field"@) matches Some(field) && node_text(
            tree,
            code,
            field,
        ) == method
    }
}

/// Whether `node` is one of the forms that hand `inner` back: `e?`, `(e)`, a
/// borrow of `e` whether shared or mutable, or `unwrap`, `expect`,
/// `unwrap_or_default`, `clone` or `as_ref` called on `e`.
pub open spec fn wraps(tree: Seq<NodeView>, code: Seq<char>, node: int, inner: int) -> bool {
    ||| tree[node].kind == "try_expression"@ && first_content(tree, node) == Some(inner)
    ||| tree[node].kind == "parenthesized_expression"@ && first_content(tree, node) == Some(inner)
    ||| tree[node].kind == "reference_expression"@ && child_in_field(tree, node, "value"@) == Some(
        inner,
    )
    ||| exists|method: Seq<char>|
        (method == "unwrap"@ || method == "expect"@ || method == "unwrap_or_default"@ || method
            == "clone"@ || method == "as_ref"@) && #[trigger] calls_method(
            tree,
            code,
            node,
            method,
            inner,
        )
}

/// The methods that hand back what they were given, one by one.
proof fn lemma_transparent_methods(method: Seq<char>)
    ensures
        among(method, transparent_methods()) <==> method == "unwrap"@ || method == "expect"@
            || method == "unwrap_or_default"@ || method == "clone"@ || method == "as_ref"@,
{
    let words = transparent_methods();
    assert(words[0] == "unwrap"@ && words[1] == "expect"@ && words[2] == "unwrap_or_default"@);
    assert(words[3] == "clone"@ && words[4] == "as_ref"@);
}

/// The wrappers whose methods the index never holds, one by one.
proof fn lemma_transparent_types(name: Seq<char>)
    ensures
        among(name, transparent_types()) <==> name == "Result"@ || name == "Option"@ || name
            == "Box"@ || name == "Arc"@ || name == "Rc"@ || name == "Cow"@,
{
    let words = transparent_types();
    assert(words[0] == "Result"@ && words[1] == "Option"@ && words[2] == "Box"@);
    assert(words[3] == "Arc"@ && words[4] == "Rc"@ && words[5] == "Cow"@);
}

/// The kinds of expressions that are told apart have different names.
proof fn lemma_kinds_differ()
    ensures
        "reference_expression"@.len() == 20,
        "call_expression"@.len() == 15,
        "try_expression"@.len() == 14,
        "parenthesized_expression"@.len() == 24,
{
    reveal_strlit("try_expression");
    reveal_strlit("parenthesized_expression");
    reveal_strlit("reference_expression");
    reveal_strlit("call_expression");
}

/// The forms that are peeled are exactly those that hand something back.
proof fn lemma_wraps(tree: Seq<NodeView>, code: Seq<char>, node: int, inner: int)
    ensures
        wraps(tree, code, node, inner) <==> wrapped(tree, code, node) == Some(inner),
{
    lemma_kinds_differ();
    assert forall|method: Seq<char>| #[trigger]
        calls_method(tree, code, node, method, inner) implies (among(method, transparent_methods())
        <==> method == "unwrap"@ || method == "expect"@ || method == "unwrap_or_default"@ || method
        == "clone"@ || method == "as_ref"@) by {
        lemma_transparent_methods(method);
    }
    if wrapped(tree, code, node) == Some(inner) && tree[node].kind == "call_expression"@ {
        let callee = child_in_field(tree, node, "function"@)->0;
        let field = child_in_field(tree, callee, "field"@)->0;
        assert(calls_method(tree, code, node, node_text(tree, code, field), inner));
    }
}

/// Whether each node of a chain is a form that hands the next one back.
pub open spec fn nests(tree: Seq<NodeView>, code: Seq<char>, chain: Seq<int>) -> bool {
    &&& chain.len() > 0
    &&& forall|i: int, j: int|
        0 <= i && j == i + 1 && j < chain.len() ==> wraps(
            tree,
            code,
            #[trigger] chain[i],
            #[trigger] chain[j],
        )
}

/// The law of peeling. Where the depth guard is not reached: any nesting of the
/// forms that hand something back is stripped, so that the outermost one is
/// peeled to what the innermost expression is peeled to; and what is left is
/// none of these forms.
pub proof fn any_nesting_is_peeled(tree: Seq<NodeView>, code: Seq<char>, chain: Seq<int>)
    requires
        nests(tree, code, chain),
        peeled(tree, code, chain[0], 0) is Some,
    ensures
        peeled(tree, code, chain[0], 0) == peeled(tree, code, chain.last(), 0),
        forall|inner: int| !wraps(tree, code, peeled(tree, code, chain[0], 0)->0, inner),
    decreases chain.len(),
{
    let core = peeled(tree, code, chain[0], 0)->0;
    peeling_leaves_no_wrapper(tree, code, chain[0], 0);
    assert forall|inner: int| !wraps(tree, code, core, inner) by {
        lemma_wraps(tree, code, core, inner);
    }
    if chain.len() > 1 {
        let rest = chain.drop_first();
        assert(wraps(tree, code, chain[0], chain[1]));
        lemma_wraps(tree, code, chain[0], chain[1]);
        a_wrapper_is_peeled_off(tree, code, chain[0], chain[1]);
        assert forall|i: int, j: int| 0 <= i && j == i + 1 && j < rest.len() implies wraps(
            tree,
            code,
            #[trigger] rest[i],
            #[trigger] rest[j],
        ) by {
            assert(wraps(tree, code, chain[i + 1], chain[j + 1]));
        }
        any_nesting_is_peeled(tree, code, rest);
    }
}

/// A call of any other method is a value of its own: it is kept as it is.
pub proof fn another_call_is_kept(
    tree: Seq<NodeView>,
    code: Seq<char>,
    node: int,
    method: Seq<char>,
    receiver: int,
)
    requires
        method != "unwrap"@,
        method != "expect"@,
        method != "unwrap_or_default"@,
        method != "clone"@,
        method != "as_ref"@,
        calls_method(tree, code, node, method, receiver),
    ensures
        peeled(tree, code, node, 0) == Some(node),
{
    lemma_kinds_differ();
    lemma_transparent_methods(method);
}

/// The nearest binding above the use wins: the `let` that is answered for ends
/// before the use, in a block that holds the use, and no other such `let` of
/// the name starts between the two.
pub proof fn the_nearest_binding_wins(
    tree: Seq<NodeView>,
    code: Seq<char>,
    name: Seq<char>,
    used_at: int,
    nodes: Seq<int>,
)
    ensures
        nearest(tree, code, name, used_at, nodes) matches Some(binding) ==> {
            &&& nodes.contains(binding)
            &&& is_binding(tree, code, name, used_at, binding)
            &&& tree[binding].end <= tree[used_at].start
            &&& parent_of(tree, binding) matches Some(block) && used_at < subtree_end(tree, block)
            &&& forall|k: int|
                0 <= k < nodes.len() && is_binding(tree, code, name, used_at, #[trigger] nodes[k])
                    ==> tree[nodes[k]].start <= tree[binding].start
        },
        nearest(tree, code, name, used_at, nodes) is None ==> forall|k: int|
            0 <= k < nodes.len() ==> !is_binding(tree, code, name, used_at, #[trigger] nodes[k]),
    decreases nodes.len(),
{
    if nodes.len() > 0 {
        let fewer = nodes.drop_last();
        the_nearest_binding_wins(tree, code, name, used_at, fewer);
        let node = nodes.last();
        assert forall|k: int| 0 <= k < nodes.len() implies nodes[k] == node || (0 <= k
            < fewer.len() && nodes[k] == fewer[k]) by {}
        assert(nodes.contains(node)) by {
            assert(nodes[nodes.len() - 1] == node);
        }
        if let Some(binding) = nearest(tree, code, name, used_at, fewer) {
            let k = choose|k: int| 0 <= k < fewer.len() && fewer[k] == binding;
            assert(nodes[k] == binding);
        }
    }
}

/// A `let` hides a parameter of the same name, and one that says no type leaves
/// the receiver unknown.
pub proof fn a_let_hides_a_parameter(
    tree: Seq<NodeView>,
    code: Seq<char>,
    function: int,
    name: Seq<char>,
    used_at: int,
    binding: int,
)
    requires
        nearest(tree, code, name, used_at, searched(tree, function, 0)) == Some(binding),
    ensures
        binding_typed(tree, code, function, name, used_at) == let_typed(tree, code, binding),
{
}

/// A receiver typed from a `let` and one typed from a return type never
/// disagree: where the two types are reduced to the same name, the binding and
/// the signature answer the same.
pub proof fn annotations_and_returns_agree(
    tree: Seq<NodeView>,
    code: Seq<char>,
    binding: int,
    annotation: int,
    item_tree: Seq<NodeView>,
    item_code: Seq<char>,
    item: int,
    declared: int,
)
    requires
        child_in_field(tree, binding, "type"@) == Some(annotation),
        first_named_child(item_tree, 0) == Some(item),
        item_tree[item].kind == "function_item"@,
        child_in_field(item_tree, item, "return_type"@) == Some(declared),
        type_named(tree, code, annotation, 0) == type_named(item_tree, item_code, declared, 0),
    ensures
        let_typed(tree, code, binding) == match returned(item_tree, item_code) {
            Some(named) => Some(ReceiverView::Named(named)),
            None => None,
        },
{
}

/// A type is answered by a bare name: the last segment of a path holds no path
/// separator.
pub proof fn a_segment_holds_no_path(path: Seq<char>, i: int)
    requires
        0 <= i < last_segment(path).len() - 1,
    ensures
        !(last_segment(path)[i] == ':' && last_segment(path)[i + 1] == ':'),
{
    let start = segment_start(path, path.len() as int);
    lemma_segment_start(path, path.len() as int);
    let tail = path.skip(start);
    let lead = lemma_trimmed_start(tail);
    let kept = crate::text::trimmed_start(tail);
    lemma_trimmed_end(kept);
    let segment = last_segment(path);
    assert(segment[i] == kept[i] && segment[i + 1] == kept[i + 1]);
    assert(kept[i] == tail[lead + i] && kept[i + 1] == tail[lead + i + 1]);
    lemma_no_separator_behind(path, path.len() as int, start + lead + i);
}

proof fn lemma_no_separator_behind(path: Seq<char>, at: int, k: int)
    requires
        0 <= at <= path.len(),
        segment_start(path, at) <= k < at - 1,
    ensures
        !(path[k] == ':' && path[k + 1] == ':'),
    decreases at,
{
    if at >= 2 && !(path[at - 2] == ':' && path[at - 1] == ':') {
        if k < at - 2 {
            lemma_no_separator_behind(path, at - 1, k);
        }
    }
}

proof fn lemma_trimmed_start(s: Seq<char>) -> (lead: int)
    ensures
        0 <= lead <= s.len(),
        crate::text::trimmed_start(s) == s.skip(lead),
    decreases s.len(),
{
    if s.len() > 0 && crate::text::white_space(s[0]) {
        let rest = lemma_trimmed_start(s.drop_first());
        assert(s.drop_first().skip(rest) =~= s.skip(rest + 1));
        rest + 1
    } else {
        assert(s.skip(0) =~= s);
        0
    }
}

proof fn lemma_trimmed_end(s: Seq<char>)
    ensures
        crate::text::trimmed_end(s).len() <= s.len(),
        crate::text::trimmed_end(s) == s.take(crate::text::trimmed_end(s).len() as int),
    decreases s.len(),
{
    if s.len() > 0 && crate::text::white_space(s.last()) {
        let fewer = s.drop_last();
        lemma_trimmed_end(fewer);
        let n = crate::text::trimmed_end(fewer).len() as int;
        assert(fewer.take(n) =~= s.take(n));
    } else {
        assert(s.take(s.len() as int) =~= s);
    }
}

/// A parameter answers for its own name alone. Where no `let` in scope binds the
/// name, an answer is the declared type of a parameter whose pattern is exactly
/// that name, and without such a parameter there is none.
pub proof fn a_parameter_answers_for_its_own_name(
    tree: Seq<NodeView>,
    code: Seq<char>,
    function: int,
    name: Seq<char>,
    used_at: int,
)
    requires
        nearest(tree, code, name, used_at, searched(tree, function, 0)) is None,
    ensures
        binding_typed(tree, code, function, name, used_at) matches Some(answer) ==> answer is Named
            && exists|list: int, p: int, b: int, declared: int|
            {
                &&& #[trigger] child_in_field(tree, function, "parameters"@) == Some(list)
                &&& #[trigger] children_of(tree, list).contains(p)
                &&& tree[p].kind == "parameter"@
                &&& child_in_field(tree, p, "pattern"@) == Some(b)
                &&& #[trigger] tree[b].kind == "identifier"@
                &&& node_text(tree, code, b) == name
                &&& child_in_field(tree, p, "type"@) == Some(declared)
                &&& #[trigger] type_named(tree, code, declared, 0) == Some(answer->Named_0)
            },
        (forall|list: int, p: int, b: int|
            child_in_field(tree, function, "parameters"@) == Some(list)
                && #[trigger] children_of(tree, list).contains(p) && tree[p].kind == "parameter"@
                && child_in_field(tree, p, "pattern"@) == Some(b) && #[trigger] tree[b].kind
                == "identifier"@ ==> node_text(tree, code, b) != name) ==> binding_typed(
            tree,
            code,
            function,
            name,
            used_at,
        ) is None,
{
    if let Some(list) = child_in_field(tree, function, "parameters"@) {
        lemma_parameter_among(tree, code, children_of(tree, list), name);
        if let Some(answer) = binding_typed(tree, code, function, name, used_at) {
            let all = children_of(tree, list);
            let k = choose|k: int|
                0 <= k < all.len() && answered_by(tree, code, #[trigger] all[k], name, answer);
            let p = all[k];
            let b = child_in_field(tree, p, "pattern"@)->0;
            let declared = child_in_field(tree, p, "type"@)->0;
            assert(all.contains(p));
            assert(tree[b].kind == "identifier"@);
            assert(type_named(tree, code, declared, 0) == Some(answer->Named_0));
        }
    }
}

/// Whether `p` is a parameter of the plain name `name`, declared of the type that
/// is answered.
spec fn answered_by(
    tree: Seq<NodeView>,
    code: Seq<char>,
    p: int,
    name: Seq<char>,
    answer: ReceiverView,
) -> bool {
    &&& tree[p].kind == "parameter"@
    &&& child_in_field(tree, p, "pattern"@) matches Some(b) && tree[b].kind == "identifier"@
        && node_text(tree, code, b) == name
    &&& child_in_field(tree, p, "type"@) matches Some(declared) && type_named(
        tree,
        code,
        declared,
        0,
    ) matches Some(named) && answer == ReceiverView::Named(named)
}

proof fn lemma_parameter_among(
    tree: Seq<NodeView>,
    code: Seq<char>,
    parameters: Seq<int>,
    name: Seq<char>,
)
    ensures
        parameter_among(tree, code, parameters, name) matches Some(answer) ==> exists|k: int|
            0 <= k < parameters.len() && answered_by(
                tree,
                code,
                #[trigger] parameters[k],
                name,
                answer,
            ),
    decreases parameters.len(),
{
    if parameters.len() > 0 {
        let rest = parameters.drop_first();
        lemma_parameter_among(tree, code, rest, name);
        if let Some(answer) = parameter_among(tree, code, parameters, name) {
            if answered_by(tree, code, parameters[0], name, answer) {
            } else {
                let k = choose|k: int|
                    0 <= k < rest.len() && answered_by(
                        tree,
                        code,
                        #[trigger] rest[k],
                        name,
                        answer,
                    );
                assert(parameters[k + 1] == rest[k]);
            }
        }
    }
}

/// The first parameter of a name answers for it: where the parameters before it
/// have plain patterns of other names, the receiver has its declared type, or
/// no type where that one names none.
pub proof fn the_first_parameter_of_a_name_answers(
    tree: Seq<NodeView>,
    code: Seq<char>,
    function: int,
    name: Seq<char>,
    used_at: int,
    list: int,
    k: int,
    bound: int,
    declared: int,
)
    requires
        nearest(tree, code, name, used_at, searched(tree, function, 0)) is None,
        child_in_field(tree, function, "parameters"@) == Some(list),
        0 <= k < children_of(tree, list).len(),
        tree[children_of(tree, list)[k]].kind == "parameter"@,
        child_in_field(tree, children_of(tree, list)[k], "pattern"@) == Some(bound),
        tree[bound].kind == "identifier"@,
        node_text(tree, code, bound) == name,
        child_in_field(tree, children_of(tree, list)[k], "type"@) == Some(declared),
        forall|j: int|
            0 <= j < k && tree[#[trigger] children_of(tree, list)[j]].kind == "parameter"@ ==> (
            child_in_field(tree, children_of(tree, list)[j], "pattern"@) matches Some(other) && !(
            tree[other].kind == "identifier"@ && node_text(tree, code, other) == name)),
    ensures
        binding_typed(tree, code, function, name, used_at) == (match type_named(
            tree,
            code,
            declared,
            0,
        ) {
            Some(named) => Some(ReceiverView::Named(named)),
            None => None,
        }),
{
    lemma_first_parameter(tree, code, children_of(tree, list), name, k);
}

proof fn lemma_first_parameter(
    tree: Seq<NodeView>,
    code: Seq<char>,
    parameters: Seq<int>,
    name: Seq<char>,
    k: int,
)
    requires
        0 <= k < parameters.len(),
        forall|j: int|
            0 <= j < k && tree[#[trigger] parameters[j]].kind == "parameter"@ ==> (child_in_field(
                tree,
                parameters[j],
                "pattern"@,
            ) matches Some(other) && !(tree[other].kind == "identifier"@ && node_text(
                tree,
                code,
                other,
            ) == name)),
    ensures
        parameter_among(tree, code, parameters, name) == parameter_among(
            tree,
            code,
            parameters.skip(k),
            name,
        ),
    decreases k,
{
    if k == 0 {
        assert(parameters.skip(0) =~= parameters);
    } else {
        let rest = parameters.drop_first();
        assert forall|j: int|
            0 <= j < k - 1 && tree[#[trigger] rest[j]].kind == "parameter"@ implies (child_in_field(
            tree,
            rest[j],
            "pattern"@,
        ) matches Some(other) && !(tree[other].kind == "identifier"@ && node_text(tree, code, other)
            == name)) by {
            assert(rest[j] == parameters[j + 1]);
        }
        lemma_first_parameter(tree, code, rest, name, k - 1);
        assert(rest.skip(k - 1) =~= parameters.skip(k));
        assert(parameters[0] == parameters[0]);
    }
}

/// Whether `node` is a `let` whose pattern is exactly `name`, that ends before
/// the use, in a block that holds the use.
pub open spec fn lets(
    tree: Seq<NodeView>,
    code: Seq<char>,
    name: Seq<char>,
    used_at: int,
    node: int,
) -> bool {
    &&& tree[node].kind == "let_declaration"@
    &&& tree[node].start < tree[used_at].start
    &&& tree[node].end <= tree[used_at].start
    &&& exists|pattern: int|
        child_in_field(tree, node, "pattern"@) == Some(pattern) && #[trigger] tree[pattern].kind
            == "identifier"@ && node_text(tree, code, pattern) == name
    &&& exists|block: int|
        parent_of(tree, node) == Some(block) && used_at < #[trigger] subtree_end(tree, block)
}

/// A `let` answers for its own name alone, and it hides what is further away.
/// Where any `let` of the name is in scope above the use, the answer is what one
/// of them binds: the type it writes where it writes one, else that of its
/// value. No other `let` of the name in scope starts behind that one.
pub proof fn a_let_answers_for_its_own_name(
    tree: Seq<NodeView>,
    code: Seq<char>,
    function: int,
    name: Seq<char>,
    used_at: int,
)
    requires
        exists|node: int|
            searched(tree, function, 0).contains(node) && #[trigger] lets(
                tree,
                code,
                name,
                used_at,
                node,
            ),
    ensures
        exists|node: int|
            {
                &&& searched(tree, function, 0).contains(node)
                &&& #[trigger] lets(tree, code, name, used_at, node)
                &&& forall|other: int|
                    searched(tree, function, 0).contains(other) && #[trigger] lets(
                        tree,
                        code,
                        name,
                        used_at,
                        other,
                    ) ==> tree[other].start <= tree[node].start
                &&& binding_typed(tree, code, function, name, used_at) == (match child_in_field(
                    tree,
                    node,
                    "type"@,
                ) {
                    Some(written) => match type_named(tree, code, written, 0) {
                        Some(named) => Some(ReceiverView::Named(named)),
                        None => None,
                    },
                    None => match child_in_field(tree, node, "value"@) {
                        Some(value) => value_typed(tree, code, value),
                        None => None,
                    },
                })
            },
{
    let nodes = searched(tree, function, 0);
    the_nearest_binding_wins(tree, code, name, used_at, nodes);
    assert forall|node: int| #[trigger] lets(tree, code, name, used_at, node) implies is_binding(
        tree,
        code,
        name,
        used_at,
        node,
    ) by {}
    let witness = choose|node: int|
        nodes.contains(node) && #[trigger] lets(tree, code, name, used_at, node);
    let at = choose|at: int| 0 <= at < nodes.len() && nodes[at] == witness;
    assert(is_binding(tree, code, name, used_at, nodes[at]));
    let node = nearest(tree, code, name, used_at, nodes)->0;
    let pattern = child_in_field(tree, node, "pattern"@)->0;
    let block = parent_of(tree, node)->0;
    assert(tree[pattern].kind == "identifier"@);
    assert(used_at < subtree_end(tree, block));
    assert(lets(tree, code, name, used_at, node));
    assert forall|other: int|
        nodes.contains(other) && #[trigger] lets(
            tree,
            code,
            name,
            used_at,
            other,
        ) implies tree[other].start <= tree[node].start by {
        let k = choose|k: int| 0 <= k < nodes.len() && nodes[k] == other;
        assert(is_binding(tree, code, name, used_at, nodes[k]));
    }
}

/// Where no `let` of the name is in scope above the use, the signature is asked.
pub proof fn without_a_let_the_signature_is_asked(
    tree: Seq<NodeView>,
    code: Seq<char>,
    function: int,
    name: Seq<char>,
    used_at: int,
)
    ensures
        nearest(tree, code, name, used_at, searched(tree, function, 0)) is None <==> (forall|
            node: int,
        |
            searched(tree, function, 0).contains(node) ==> !#[trigger] lets(
                tree,
                code,
                name,
                used_at,
                node,
            )),
{
    let nodes = searched(tree, function, 0);
    the_nearest_binding_wins(tree, code, name, used_at, nodes);
    assert forall|node: int| #[trigger] lets(tree, code, name, used_at, node) implies is_binding(
        tree,
        code,
        name,
        used_at,
        node,
    ) by {}
    if let Some(node) = nearest(tree, code, name, used_at, nodes) {
        let pattern = child_in_field(tree, node, "pattern"@)->0;
        let block = parent_of(tree, node)->0;
        assert(tree[pattern].kind == "identifier"@);
        assert(used_at < subtree_end(tree, block));
        assert(lets(tree, code, name, used_at, node));
    } else {
        assert forall|node: int| nodes.contains(node) implies !#[trigger] lets(
            tree,
            code,
            name,
            used_at,
            node,
        ) by {
            let k = choose|k: int| 0 <= k < nodes.len() && nodes[k] == node;
            assert(!is_binding(tree, code, name, used_at, nodes[k]));
        }
    }
}

/// Whether a chain goes down a tree from named child to named child.
pub open spec fn descends(tree: Seq<NodeView>, chain: Seq<int>) -> bool {
    &&& chain.len() > 0
    &&& forall|i: int, j: int|
        0 <= i && j == i + 1 && j < chain.len() ==> children_of(
            tree,
            #[trigger] chain[i],
        ).contains(#[trigger] chain[j]) && tree[chain[j]].named
}

/// A search looks at every node that named children lead to, down to five
/// hundred steps below where it starts.
pub proof fn every_named_descendant_is_searched(tree: Seq<NodeView>, chain: Seq<int>)
    requires
        descends(tree, chain),
        chain.len() <= 501,
    ensures
        searched(tree, chain[0], 0).contains(chain.last()),
{
    lemma_searched_down(tree, chain, 0);
}

proof fn lemma_searched_down(tree: Seq<NodeView>, chain: Seq<int>, depth: nat)
    requires
        descends(tree, chain),
        chain.len() + depth <= MAX_AST_DEPTH + 1,
    ensures
        searched(tree, chain[0], depth).contains(chain.last()),
    decreases chain.len(),
{
    let below = named_among(tree, children_of(tree, chain[0]));
    let all = seq![chain[0]] + searched_all(tree, below, depth + 1);
    assert(searched(tree, chain[0], depth) == all);
    if chain.len() == 1 {
        assert(all[0] == chain[0]);
    } else {
        let rest = chain.drop_first();
        assert(children_of(tree, chain[0]).contains(chain[1]) && tree[chain[1]].named);
        assert forall|i: int, j: int| 0 <= i && j == i + 1 && j < rest.len() implies children_of(
            tree,
            #[trigger] rest[i],
        ).contains(#[trigger] rest[j]) && tree[rest[j]].named by {
            assert(rest[i] == chain[i + 1] && rest[j] == chain[j + 1]);
        }
        lemma_searched_down(tree, rest, depth + 1);
        let keep = |n: int| tree[n].named;
        let nodes = children_of(tree, chain[0]);
        let at = choose|at: int| 0 <= at < nodes.len() && nodes[at] == chain[1];
        nodes.lemma_filter_contains(keep, at);
        lemma_searched_all(tree, below, depth + 1, chain[1], chain.last());
        let found = searched_all(tree, below, depth + 1);
        let k = choose|k: int| 0 <= k < found.len() && found[k] == chain.last();
        assert(all[k + 1] == chain.last());
    }
}

proof fn lemma_searched_all(
    tree: Seq<NodeView>,
    nodes: Seq<int>,
    depth: nat,
    node: int,
    target: int,
)
    requires
        depth <= MAX_AST_DEPTH,
        nodes.contains(node),
        searched(tree, node, depth).contains(target),
    ensures
        searched_all(tree, nodes, depth).contains(target),
    decreases nodes.len(),
{
    let first = searched(tree, nodes.last(), depth);
    let others = searched_all(tree, nodes.drop_last(), depth);
    let all = first + others;
    assert(searched_all(tree, nodes, depth) == all);
    if nodes.last() == node {
        let k = choose|k: int| 0 <= k < first.len() && first[k] == target;
        assert(all[k] == target);
    } else {
        let k = choose|k: int| 0 <= k < nodes.len() && nodes[k] == node;
        assert(nodes.drop_last()[k] == node);
        lemma_searched_all(tree, nodes.drop_last(), depth, node, target);
        let m = choose|m: int| 0 <= m < others.len() && others[m] == target;
        assert(all[first.len() + m] == target);
    }
}

/// A search stays below where it starts: it looks at nothing but nodes that
/// named children lead to.
pub proof fn only_named_descendants_are_searched(
    tree: Seq<NodeView>,
    node: int,
    target: int,
) -> (chain: Seq<int>)
    requires
        searched(tree, node, 0).contains(target),
    ensures
        descends(tree, chain),
        chain.len() <= 501,
        chain[0] == node,
        chain.last() == target,
{
    lemma_searched_from(tree, node, 0, target)
}

proof fn lemma_searched_from(
    tree: Seq<NodeView>,
    node: int,
    depth: nat,
    target: int,
) -> (chain: Seq<int>)
    requires
        searched(tree, node, depth).contains(target),
    ensures
        descends(tree, chain),
        chain.len() + depth <= MAX_AST_DEPTH + 1,
        chain[0] == node,
        chain.last() == target,
    decreases MAX_AST_DEPTH + 1 - depth, 0nat,
{
    let nodes = children_of(tree, node);
    let keep = |n: int| tree[n].named;
    let below = named_among(tree, nodes);
    let found = searched_all(tree, below, depth + 1);
    let all = seq![node] + found;
    if target == node {
        seq![node]
    } else {
        let k = choose|k: int| 0 <= k < all.len() && all[k] == target;
        assert(found[k - 1] == target);
        let rest = lemma_searched_from_all(tree, below, depth + 1, target);
        let chain = seq![node] + rest;
        nodes.lemma_filter_contains_rev(keep, rest[0]);
        let at = choose|at: int| 0 <= at < below.len() && below[at] == rest[0];
        nodes.lemma_filter_pred(keep, at);
        assert forall|i: int, j: int| 0 <= i && j == i + 1 && j < chain.len() implies children_of(
            tree,
            #[trigger] chain[i],
        ).contains(#[trigger] chain[j]) && tree[chain[j]].named by {
            assert(chain[j] == rest[j - 1]);
            if i > 0 {
                assert(chain[i] == rest[i - 1]);
            }
        }
        assert(chain.last() == rest.last());
        chain
    }
}

proof fn lemma_searched_from_all(
    tree: Seq<NodeView>,
    nodes: Seq<int>,
    depth: nat,
    target: int,
) -> (chain: Seq<int>)
    requires
        searched_all(tree, nodes, depth).contains(target),
    ensures
        descends(tree, chain),
        chain.len() + depth <= MAX_AST_DEPTH + 1,
        nodes.contains(chain[0]),
        chain.last() == target,
    decreases MAX_AST_DEPTH + 1 - depth, nodes.len() + 1,
{
    let first = searched(tree, nodes.last(), depth);
    let others = searched_all(tree, nodes.drop_last(), depth);
    let all = first + others;
    let k = choose|k: int| 0 <= k < all.len() && all[k] == target;
    if k < first.len() {
        assert(first[k] == target);
        assert(nodes[nodes.len() - 1] == nodes.last());
        lemma_searched_from(tree, nodes.last(), depth, target)
    } else {
        assert(others[k - first.len()] == target);
        let chain = lemma_searched_from_all(tree, nodes.drop_last(), depth, target);
        let m = choose|m: int|
            0 <= m < nodes.drop_last().len() && nodes.drop_last()[m] == chain[0];
        assert(nodes[m] == chain[0]);
        chain
    }
}

proof fn lemma_type_kinds_differ()
    ensures
        "type_identifier"@.len() == 15,
        "scoped_type_identifier"@.len() == 22,
        "reference_type"@.len() == 14,
        "tuple_type"@.len() == 10,
        "generic_type"@.len() == 12,
{
    reveal_strlit("type_identifier");
    reveal_strlit("scoped_type_identifier");
    reveal_strlit("reference_type");
    reveal_strlit("tuple_type");
    reveal_strlit("generic_type");
}

/// A type that is named from deeper in is named the same from further out.
proof fn lemma_named_sooner(tree: Seq<NodeView>, code: Seq<char>, node: int, depth: nat)
    requires
        type_named(tree, code, node, depth + 1) is Some,
    ensures
        type_named(tree, code, node, depth) == type_named(tree, code, node, depth + 1),
    decreases MAX_AST_DEPTH + 1 - depth,
{
    let kind = tree[node].kind;
    if kind == "type_identifier"@ || kind == "scoped_type_identifier"@ {
    } else {
        let inner = if kind == "reference_type"@ {
            child_in_field(tree, node, "type"@)
        } else if kind == "tuple_type"@ {
            in_parentheses(tree, node)
        } else {
            unwrapped(tree, code, node)
        };
        lemma_named_sooner(tree, code, inner->0, depth + 1);
    }
}

/// A plain name names itself, and a path names its last segment.
pub proof fn a_name_names_itself(tree: Seq<NodeView>, code: Seq<char>, node: int)
    ensures
        tree[node].kind == "type_identifier"@ ==> type_named(tree, code, node, 0) == Some(
            text_at(code, tree[node].start, tree[node].end),
        ),
        tree[node].kind == "scoped_type_identifier"@ ==> type_named(tree, code, node, 0) == Some(
            last_segment(text_at(code, tree[node].start, tree[node].end)),
        ),
{
    lemma_type_kinds_differ();
}

/// A borrow is the type that is borrowed, whether shared or mutable, and
/// parentheses are the type in them: where the outer one names a type, it is the
/// one that the inner one names. The inner one is looked for by its field in a
/// borrow; in parentheses it is the first child that is no comment.
pub proof fn a_borrow_names_what_is_borrowed(
    tree: Seq<NodeView>,
    code: Seq<char>,
    node: int,
    inner: int,
)
    requires
        tree[node].kind == "reference_type"@ && child_in_field(tree, node, "type"@) == Some(inner)
            || tree[node].kind == "tuple_type"@ && (forall|c: int| #[trigger]
            children_of(tree, node).contains(c) ==> tree[c].kind != ","@) && first_content(
            tree,
            node,
        ) == Some(inner),
    ensures
        type_named(tree, code, node, 0) == type_named(tree, code, inner, 1),
        type_named(tree, code, node, 0) is Some ==> type_named(tree, code, node, 0) == type_named(
            tree,
            code,
            inner,
            0,
        ),
{
    lemma_type_kinds_differ();
    if tree[node].kind == "tuple_type"@ {
        let nodes = children_of(tree, node);
        let pick = |n: NodeView| n.kind == ","@;
        let k = lemma_first_where(tree, nodes, pick);
        if first_where(tree, nodes, pick) is Some {
            assert(nodes.contains(nodes[k]));
        }
    }
    if type_named(tree, code, inner, 1) is Some {
        lemma_named_sooner(tree, code, inner, 0);
    }
}

/// A tuple is no type that the index holds a method for: with a comma in it, it
/// names none.
pub proof fn a_tuple_names_no_type(tree: Seq<NodeView>, code: Seq<char>, node: int, comma: int)
    requires
        tree[node].kind == "tuple_type"@,
        children_of(tree, node).contains(comma),
        tree[comma].kind == ","@,
    ensures
        type_named(tree, code, node, 0) is None,
{
    lemma_type_kinds_differ();
    let nodes = children_of(tree, node);
    let pick = |n: NodeView| n.kind == ","@;
    let at = lemma_first_where(tree, nodes, pick);
    let k = choose|k: int| 0 <= k < nodes.len() && nodes[k] == comma;
    assert(pick(tree[nodes[k]]));
}

/// `Result`, `Option`, `Box`, `Arc`, `Rc` and `Cow` name what they hold: the
/// first argument that is no lifetime and no comment, and no type where there is
/// none. Any other generic type names what stands before its arguments.
pub proof fn a_wrapper_names_what_it_holds(
    tree: Seq<NodeView>,
    code: Seq<char>,
    node: int,
    base: int,
    arguments: int,
    at: int,
)
    requires
        tree[node].kind == "generic_type"@,
        child_in_field(tree, node, "type"@) == Some(base),
        child_in_field(tree, node, "type_arguments"@) == Some(arguments),
        0 <= at <= children_of(tree, arguments).len(),
        forall|j: int|
            0 <= j < at ==> !is_argument(tree, #[trigger] children_of(tree, arguments)[j]),
        at < children_of(tree, arguments).len() ==> is_argument(
            tree,
            children_of(tree, arguments)[at],
        ),
    ensures
        ({
            let name = last_segment(text_at(code, tree[base].start, tree[base].end));
            let holds = name == "Result"@ || name == "Option"@ || name == "Box"@ || name == "Arc"@
                || name == "Rc"@ || name == "Cow"@;
            let named = type_named(tree, code, node, 0);
            let source = if holds {
                children_of(tree, arguments)[at]
            } else {
                base
            };
            &&& holds && at == children_of(tree, arguments).len() ==> named is None
            &&& !(holds && at == children_of(tree, arguments).len()) ==> named == type_named(
                tree,
                code,
                source,
                1,
            ) && (named is Some ==> named == type_named(tree, code, source, 0))
        }),
{
    lemma_type_kinds_differ();
    let name = last_segment(node_text(tree, code, base));
    lemma_transparent_types(name);
    let nodes = children_of(tree, arguments);
    let pick = |n: NodeView| is_content(n) && n.kind != "lifetime"@;
    let first = lemma_first_where(tree, nodes, pick);
    if first_where(tree, nodes, pick) is Some {
        assert(is_argument(tree, nodes[first]));
        if at < first {
            assert(!pick(tree[nodes[at]]));
        }
    } else if at < nodes.len() {
        assert(!pick(tree[nodes[at]]));
    }
    if type_named(tree, code, node, 0) is Some {
        if among(name, transparent_types()) {
            lemma_named_sooner(tree, code, nodes[at], 0);
        } else {
            lemma_named_sooner(tree, code, base, 0);
        }
    }
}

/// Whether a node among type arguments is a type: it is named, and neither a
/// lifetime nor a comment.
pub open spec fn is_argument(tree: Seq<NodeView>, node: int) -> bool {
    tree[node].named && tree[node].kind != "line_comment"@ && tree[node].kind != "block_comment"@
        && tree[node].kind != "lifetime"@
}

/// Nothing else names a type: an array, a slice, a function pointer or a trait
/// object is none that the index could hold a method for.
pub proof fn other_types_are_not_named(tree: Seq<NodeView>, code: Seq<char>, node: int)
    requires
        tree[node].kind != "type_identifier"@,
        tree[node].kind != "scoped_type_identifier"@,
        tree[node].kind != "reference_type"@,
        tree[node].kind != "tuple_type"@,
        tree[node].kind != "generic_type"@,
    ensures
        type_named(tree, code, node, 0) is None,
{
}

/// A path is reduced to what stands behind its last separator, and what has no
/// separator to itself, without the white space around it.
pub proof fn a_path_is_reduced_to_its_end(head: Seq<char>, tail: Seq<char>)
    requires
        tail.len() > 0 ==> tail[0] != ':',
        forall|k: int| 0 <= k < tail.len() - 1 ==> !(#[trigger] tail[k] == ':' && tail[k + 1] == ':'),
    ensures
        last_segment(head + "::"@ + tail) == trimmed(tail),
        last_segment(tail) == trimmed(tail),
{
    reveal_strlit("::");
    let path = head + "::"@ + tail;
    let cut = head.len() + 2;
    assert(path[cut - 2] == ':' && path[cut - 1] == ':');
    assert forall|k: int| cut - 1 <= k < path.len() - 1 implies !(#[trigger] path[k] == ':' && path[k
        + 1] == ':') by {
        if k >= cut {
            assert(path[k] == tail[k - cut] && path[k + 1] == tail[k - cut + 1]);
        } else {
            assert(path[k + 1] == tail[0]);
        }
    }
    lemma_segment_starts_at(path, path.len() as int, cut as int);
    assert(path.skip(cut as int) =~= tail);
    lemma_segment_starts_at(tail, tail.len() as int, 0);
    assert(tail.skip(0) =~= tail);
}

proof fn lemma_segment_starts_at(path: Seq<char>, at: int, cut: int)
    requires
        0 <= cut <= at <= path.len(),
        cut == 0 || (cut >= 2 && path[cut - 2] == ':' && path[cut - 1] == ':'),
        forall|k: int|
            cut - 1 <= k < at - 1 && 0 <= k ==> !(#[trigger] path[k] == ':' && path[k + 1] == ':'),
    ensures
        segment_start(path, at) == cut,
    decreases at,
{
    if at > cut && at >= 2 {
        let k = at - 2;
        assert(!(path[k] == ':' && path[k + 1] == ':'));
        lemma_segment_starts_at(path, at - 1, cut);
    }
}

/// A wrapped value has the type of what is wrapped, where the depth guard is not
/// reached.
pub proof fn a_wrapped_value_keeps_its_type(
    tree: Seq<NodeView>,
    code: Seq<char>,
    node: int,
    inner: int,
)
    requires
        wraps(tree, code, node, inner),
        peeled(tree, code, node, 0) is Some,
    ensures
        value_typed(tree, code, node) == value_typed(tree, code, inner),
{
    lemma_wraps(tree, code, node, inner);
    a_wrapper_is_peeled_off(tree, code, node, inner);
}

proof fn lemma_value_kinds_differ()
    ensures
        "struct_expression"@.len() == 17,
        "call_expression"@.len() == 15,
        "reference_expression"@.len() == 20,
        "try_expression"@.len() == 14,
        "parenthesized_expression"@.len() == 24,
        "scoped_identifier"@.len() == 17,
        "identifier"@.len() == 10,
        "field_expression"@.len() == 16,
{
    reveal_strlit("struct_expression");
    reveal_strlit("call_expression");
    reveal_strlit("reference_expression");
    reveal_strlit("try_expression");
    reveal_strlit("parenthesized_expression");
    reveal_strlit("scoped_identifier");
    reveal_strlit("identifier");
    reveal_strlit("field_expression");
}

/// A struct expression is of the type that it names: the path before any type
/// arguments, reduced to its last segment.
pub proof fn a_struct_expression_is_its_type(
    tree: Seq<NodeView>,
    code: Seq<char>,
    node: int,
    name: int,
)
    requires
        tree[node].kind == "struct_expression"@,
        child_in_field(tree, node, "name"@) == Some(name),
    ensures
        tree[name].kind != "generic_type"@ && tree[name].kind != "generic_type_with_turbofish"@
            ==> value_typed(tree, code, node) == Some(
            ReceiverView::Named(
                last_segment(text_at(code, tree[name].start, tree[name].end)),
            ),
        ),
        tree[name].kind == "generic_type"@ || tree[name].kind == "generic_type_with_turbofish"@
            ==> forall|base: int|
            child_in_field(tree, name, "type"@) == Some(base) ==> value_typed(tree, code, node)
                == Some(
                ReceiverView::Named(
                    last_segment(
                        text_at(code, (#[trigger] tree[base]).start, tree[base].end),
                    ),
                ),
            ),
{
    lemma_value_kinds_differ();
}

/// A call of a plain function is whatever the function of that name returns.
pub proof fn a_plain_call_is_what_the_function_returns(
    tree: Seq<NodeView>,
    code: Seq<char>,
    node: int,
    callee: int,
)
    requires
        tree[node].kind == "call_expression"@,
        child_in_field(tree, node, "function"@) == Some(callee),
        tree[callee].kind == "identifier"@,
    ensures
        value_typed(tree, code, node) == Some(
            ReceiverView::ReturnOf(text_at(code, tree[callee].start, tree[callee].end)),
        ),
{
    lemma_value_kinds_differ();
}

/// A call through a path is of the type that the path ends in where that is
/// capitalised, and otherwise whatever the function behind the path returns.
/// Type arguments behind the path do not count.
pub proof fn case_tells_a_type_from_a_module(
    tree: Seq<NodeView>,
    code: Seq<char>,
    node: int,
    callee: int,
    path: int,
    base: int,
    name: int,
)
    requires
        tree[node].kind == "call_expression"@,
        child_in_field(tree, node, "function"@) == Some(callee),
        tree[callee].kind == "scoped_identifier"@,
        child_in_field(tree, callee, "path"@) == Some(path),
        child_in_field(tree, callee, "name"@) == Some(name),
        if tree[path].kind == "generic_type"@ || tree[path].kind == "generic_type_with_turbofish"@ {
            child_in_field(tree, path, "type"@) == Some(base)
        } else {
            base == path
        },
    ensures
        ({
            let segment = last_segment(text_at(code, tree[base].start, tree[base].end));
            value_typed(tree, code, node) == Some(
                if segment.len() > 0 && has_uppercase(segment[0]) {
                    ReceiverView::Named(segment)
                } else {
                    ReceiverView::ReturnOf(text_at(code, tree[name].start, tree[name].end))
                },
            )
        }),
{
    lemma_value_kinds_differ();
}

/// A call of a method says nothing of its type, nor does any other value: the
/// name of a method alone does not say which one it is.
pub proof fn a_method_call_says_no_type(
    tree: Seq<NodeView>,
    code: Seq<char>,
    node: int,
    method: Seq<char>,
    receiver: int,
)
    requires
        method != "unwrap"@,
        method != "expect"@,
        method != "unwrap_or_default"@,
        method != "clone"@,
        method != "as_ref"@,
        calls_method(tree, code, node, method, receiver),
    ensures
        value_typed(tree, code, node) is None,
{
    lemma_value_kinds_differ();
    another_call_is_kept(tree, code, node, method, receiver);
}

/// A value that is no call, no struct expression and no wrapper says no type.
pub proof fn any_other_value_says_no_type(tree: Seq<NodeView>, code: Seq<char>, node: int)
    requires
        tree[node].kind != "call_expression"@,
        tree[node].kind != "struct_expression"@,
        tree[node].kind != "reference_expression"@,
        tree[node].kind != "try_expression"@,
        tree[node].kind != "parenthesized_expression"@,
    ensures
        value_typed(tree, code, node) is None,
{
}

/// A receiver that is a name has the type it is bound to in the function, and
/// none outside of one. Any other receiver has the type of its value. `Self` is
/// answered by what the `impl` around the function is for, and by nothing else.
pub proof fn what_a_receiver_is(
    tree: Seq<NodeView>,
    code: Seq<char>,
    function: Option<int>,
    receiver: int,
)
    ensures
        ({
            let name = text_at(code, tree[receiver].start, tree[receiver].end);
            let is_name = tree[receiver].kind == "identifier"@;
            let answer = receiver_typed(tree, code, function, receiver);
            &&& is_name && function is None ==> answer is None
            &&& is_name && function is Some ==> {
                let bound = binding_typed(tree, code, function->0, name, receiver);
                bound != Some(ReceiverView::Named("Self"@)) ==> answer == bound
            }
            &&& !is_name && value_typed(tree, code, receiver) != Some(ReceiverView::Named("Self"@))
                ==> answer == value_typed(tree, code, receiver)
            &&& function is None ==> answer != Some(ReceiverView::Named("Self"@))
            &&& (is_name && function is Some && binding_typed(
                tree,
                code,
                function->0,
                name,
                receiver,
            ) == Some(ReceiverView::Named("Self"@)) || !is_name && value_typed(tree, code, receiver)
                == Some(ReceiverView::Named("Self"@))) ==> (match function {
                None => answer is None,
                Some(f) => match self_typed(tree, code, f, 0) {
                    Some(target) => answer == Some(ReceiverView::Named(target)),
                    None => answer is None,
                },
            })
        }),
{
}

/// `Self` is what the nearest `impl` around a node is for: going up from parent
/// to parent, the first one that is met says it, and no other is asked.
pub proof fn the_nearest_impl_is_self(tree: Seq<NodeView>, code: Seq<char>, chain: Seq<int>)
    requires
        0 < chain.len() <= 501,
        forall|i: int, j: int|
            0 <= i && j == i + 1 && j < chain.len() ==> parent_of(tree, #[trigger] chain[i]) == Some(
                #[trigger] chain[j],
            ),
        forall|i: int|
            0 <= i < chain.len() - 1 ==> tree[#[trigger] chain[i]].kind != "impl_item"@,
    ensures
        tree[chain.last()].kind == "impl_item"@ ==> self_typed(tree, code, chain[0], 0) == (
        match child_in_field(tree, chain.last(), "type"@) {
            Some(target) => type_named(tree, code, target, 0),
            None => None,
        }),
        tree[chain.last()].kind != "impl_item"@ && parent_of(tree, chain.last()) is None
            ==> self_typed(tree, code, chain[0], 0) is None,
{
    lemma_nearest_impl(tree, code, chain, 0);
}

proof fn lemma_nearest_impl(tree: Seq<NodeView>, code: Seq<char>, chain: Seq<int>, depth: nat)
    requires
        0 < chain.len(),
        chain.len() + depth <= MAX_AST_DEPTH + 1,
        forall|i: int, j: int|
            0 <= i && j == i + 1 && j < chain.len() ==> parent_of(tree, #[trigger] chain[i]) == Some(
                #[trigger] chain[j],
            ),
        forall|i: int|
            0 <= i < chain.len() - 1 ==> tree[#[trigger] chain[i]].kind != "impl_item"@,
    ensures
        tree[chain.last()].kind == "impl_item"@ ==> self_typed(tree, code, chain[0], depth) == (
        match child_in_field(tree, chain.last(), "type"@) {
            Some(target) => type_named(tree, code, target, 0),
            None => None,
        }),
        tree[chain.last()].kind != "impl_item"@ && parent_of(tree, chain.last()) is None
            ==> self_typed(tree, code, chain[0], depth) is None,
    decreases chain.len(),
{
    if chain.len() > 1 {
        let rest = chain.drop_first();
        assert(parent_of(tree, chain[0]) == Some(chain[1]));
        assert forall|i: int, j: int| 0 <= i && j == i + 1 && j < rest.len() implies parent_of(
            tree,
            #[trigger] rest[i],
        ) == Some(#[trigger] rest[j]) by {
            assert(rest[i] == chain[i + 1] && rest[j] == chain[j + 1]);
        }
        assert forall|i: int| 0 <= i < rest.len() - 1 implies tree[#[trigger] rest[i]].kind
            != "impl_item"@ by {
            assert(rest[i] == chain[i + 1]);
        }
        lemma_nearest_impl(tree, code, rest, depth + 1);
    }
}

/// A signature returns what its return type names, and only a function does: an
/// item of another kind, or one without a return type, returns nothing.
pub proof fn a_function_returns_its_return_type(tree: Seq<NodeView>, code: Seq<char>, item: int)
    requires
        first_named_child(tree, 0) == Some(item),
    ensures
        tree[item].kind != "function_item"@ ==> returned(tree, code) is None,
        child_in_field(tree, item, "return_type"@) is None ==> returned(tree, code) is None,
        tree[item].kind == "function_item"@ ==> (child_in_field(
            tree,
            item,
            "return_type"@,
        ) matches Some(declared) ==> returned(tree, code) == type_named(tree, code, declared, 0)),
{
}

/// Comments are passed over: the first child that is part of what is written is
/// the first one that the grammar names and that is no comment, and there is none
/// where no child is such.
pub proof fn comments_are_passed_over(tree: Seq<NodeView>, node: int, at: int)
    requires
        0 <= at <= children_of(tree, node).len(),
        forall|j: int|
            0 <= j < at ==> !tree[#[trigger] children_of(tree, node)[j]].named
                || tree[children_of(tree, node)[j]].kind == "line_comment"@
                || tree[children_of(tree, node)[j]].kind == "block_comment"@,
        at < children_of(tree, node).len() ==> tree[children_of(tree, node)[at]].named
            && tree[children_of(tree, node)[at]].kind != "line_comment"@
            && tree[children_of(tree, node)[at]].kind != "block_comment"@,
    ensures
        first_content(tree, node) == if at < children_of(tree, node).len() {
            Some(children_of(tree, node)[at])
        } else {
            None
        },
{
    let nodes = children_of(tree, node);
    let pick = |n: NodeView| is_content(n);
    let first = lemma_first_where(tree, nodes, pick);
    if first_where(tree, nodes, pick) is Some {
        if at < first {
            assert(!pick(tree[nodes[at]]));
        }
    } else if at < nodes.len() {
        assert(!pick(tree[nodes[at]]));
    }
}

/// A nesting of up to five hundred wrappers is peeled to its core, and one that
/// goes deeper is not followed.
pub proof fn five_hundred_wrappers_are_peeled(tree: Seq<NodeView>, code: Seq<char>, chain: Seq<int>)
    requires
        nests(tree, code, chain),
    ensures
        chain.len() <= 501 && (forall|inner: int| !#[trigger] wraps(
            tree,
            code,
            chain.last(),
            inner,
        )) ==> peeled(tree, code, chain[0], 0) == Some(chain.last()),
        chain.len() > 501 ==> peeled(tree, code, chain[0], 0) is None,
{
    if chain.len() <= 501 {
        if forall|inner: int| !#[trigger] wraps(tree, code, chain.last(), inner) {
            if let Some(inner) = wrapped(tree, code, chain.last()) {
                lemma_wraps(tree, code, chain.last(), inner);
            }
            lemma_peeled_down(tree, code, chain, 0);
        }
    } else {
        lemma_peeled_too_deep(tree, code, chain, 0);
    }
}

proof fn lemma_peeled_down(tree: Seq<NodeView>, code: Seq<char>, chain: Seq<int>, depth: nat)
    requires
        nests(tree, code, chain),
        chain.len() + depth <= MAX_AST_DEPTH + 1,
        wrapped(tree, code, chain.last()) is None,
    ensures
        peeled(tree, code, chain[0], depth) == Some(chain.last()),
    decreases chain.len(),
{
    if chain.len() > 1 {
        let rest = chain.drop_first();
        assert(wraps(tree, code, chain[0], chain[1]));
        lemma_wraps(tree, code, chain[0], chain[1]);
        lemma_rest_nests(tree, code, chain);
        lemma_peeled_down(tree, code, rest, depth + 1);
    }
}

proof fn lemma_peeled_too_deep(tree: Seq<NodeView>, code: Seq<char>, chain: Seq<int>, depth: nat)
    requires
        nests(tree, code, chain),
        depth <= MAX_AST_DEPTH + 1,
        chain.len() + depth > MAX_AST_DEPTH + 1,
    ensures
        peeled(tree, code, chain[0], depth) is None,
    decreases MAX_AST_DEPTH + 1 - depth,
{
    if depth <= MAX_AST_DEPTH {
        let rest = chain.drop_first();
        assert(wraps(tree, code, chain[0], chain[1]));
        lemma_wraps(tree, code, chain[0], chain[1]);
        lemma_rest_nests(tree, code, chain);
        lemma_peeled_too_deep(tree, code, rest, depth + 1);
    }
}

proof fn lemma_rest_nests(tree: Seq<NodeView>, code: Seq<char>, chain: Seq<int>)
    requires
        nests(tree, code, chain),
        chain.len() > 1,
    ensures
        nests(tree, code, chain.drop_first()),
{
    let rest = chain.drop_first();
    assert forall|i: int, j: int| 0 <= i && j == i + 1 && j < rest.len() implies wraps(
        tree,
        code,
        #[trigger] rest[i],
        #[trigger] rest[j],
    ) by {
        assert(wraps(tree, code, chain[i + 1], chain[j + 1]));
    }
}

/// Whether the type `node` is a borrow of the type `inner`.
pub open spec fn borrows(tree: Seq<NodeView>, node: int, inner: int) -> bool {
    tree[node].kind == "reference_type"@ && child_in_field(tree, node, "type"@) == Some(inner)
}

/// A name is found below up to five hundred borrows, and none is below more.
pub proof fn a_name_is_found_below_borrows(tree: Seq<NodeView>, code: Seq<char>, chain: Seq<int>)
    requires
        chain.len() > 0,
        forall|i: int, j: int|
            0 <= i && j == i + 1 && j < chain.len() ==> borrows(
                tree,
                #[trigger] chain[i],
                #[trigger] chain[j],
            ),
        tree[chain.last()].kind == "type_identifier"@,
    ensures
        chain.len() <= 501 ==> type_named(tree, code, chain[0], 0) == Some(
            text_at(code, tree[chain.last()].start, tree[chain.last()].end),
        ),
        chain.len() > 501 ==> type_named(tree, code, chain[0], 0) is None,
{
    lemma_type_kinds_differ();
    lemma_below_borrows(tree, code, chain, 0);
}

proof fn lemma_below_borrows(tree: Seq<NodeView>, code: Seq<char>, chain: Seq<int>, depth: nat)
    requires
        chain.len() > 0,
        depth <= MAX_AST_DEPTH + 1,
        forall|i: int, j: int|
            0 <= i && j == i + 1 && j < chain.len() ==> borrows(
                tree,
                #[trigger] chain[i],
                #[trigger] chain[j],
            ),
        tree[chain.last()].kind == "type_identifier"@,
        "type_identifier"@.len() == 15,
        "scoped_type_identifier"@.len() == 22,
        "reference_type"@.len() == 14,
    ensures
        chain.len() + depth <= MAX_AST_DEPTH + 1 ==> type_named(tree, code, chain[0], depth) == Some(
            text_at(code, tree[chain.last()].start, tree[chain.last()].end),
        ),
        chain.len() + depth > MAX_AST_DEPTH + 1 ==> type_named(tree, code, chain[0], depth) is None,
    decreases chain.len(),
{
    if chain.len() > 1 && depth <= MAX_AST_DEPTH {
        let rest = chain.drop_first();
        assert(borrows(tree, chain[0], chain[1]));
        assert forall|i: int, j: int| 0 <= i && j == i + 1 && j < rest.len() implies borrows(
            tree,
            #[trigger] rest[i],
            #[trigger] rest[j],
        ) by {
            assert(rest[i] == chain[i + 1] && rest[j] == chain[j + 1]);
        }
        lemma_below_borrows(tree, code, rest, depth + 1);
    }
}

} // verus!
