//! The types of receivers in Rust source.

use mdkb::code::parsing::grammar::{parse, Grammar};
use mdkb::code::parsing::rust::receiver::{
    declared_return, infer, peel_wrappers, return_type, scoped_call_type, ReceiverType,
};
use mdkb::code::parsing::syntax::SyntaxTree;

/// The type of the receiver of the **last** call in `code`.
///
/// The last one, because every case below writes the bindings first and the
/// call that reads them last, which is also the order a reader reads.
fn receiver_type(code: &str) -> Option<ReceiverType<'_>> {
    let tree = parse(Grammar::Rust, code).expect("parses");
    assert!(tree.fits(code));
    let (function, receiver) = last_method_call(&tree, code);
    infer(&tree, function, code, receiver)
}

/// The enclosing `function_item` and the receiver node of the last method call
/// written in `code`.
fn last_method_call(tree: &SyntaxTree, code: &str) -> (Option<usize>, usize) {
    let mut found: Option<(usize, Option<usize>, usize)> = None;
    let mut stack: Vec<(usize, Option<usize>)> = vec![(0, None)];
    while let Some((node, function)) = stack.pop() {
        let kind = tree.nodes[node].kind.as_str();
        let function = if kind == "function_item" {
            Some(node)
        } else {
            function
        };
        if kind == "call_expression" {
            if let Some(callee) = tree
                .child_by_field_name(node, "function")
                .filter(|&c| tree.nodes[c].kind == "field_expression")
            {
                if let Some(value) = tree.child_by_field_name(callee, "value") {
                    let at = tree.nodes[node].start;
                    if found.is_none_or(|(seen, _, _)| at > seen) {
                        found = Some((at, function, value));
                    }
                }
            }
        }
        for child in tree.children(node) {
            if tree.nodes[child].named {
                stack.push((child, function));
            }
        }
    }
    let (_, function, receiver) = found.unwrap_or_else(|| panic!("no method call in:\n{code}"));
    (function, receiver)
}

/// A local whose type is written in the code that binds it.
#[test]
fn a_local_bound_to_a_named_type_takes_that_type() {
    assert_eq!(
        receiver_type("fn f() { let s: Store = make(); s.get(); }"),
        Some(ReceiverType::Named("Store")),
        "an annotation says the type outright"
    );
    assert_eq!(
        receiver_type("fn f() { let s = Store::open(); s.get(); }"),
        Some(ReceiverType::Named("Store")),
        "an associated function is reached through its own type"
    );
    assert_eq!(
        receiver_type("fn f() { let s = Store { x: 1 }; s.get(); }"),
        Some(ReceiverType::Named("Store")),
        "a struct literal is that struct"
    );
}

/// `TempDir::new().unwrap()` is a `TempDir`. Without peeling, the type would
/// be read off `unwrap`, which names nothing.
#[test]
fn unwrapping_a_constructor_still_names_the_type() {
    assert_eq!(
        receiver_type("fn f() { let d = TempDir::new().unwrap(); d.path(); }"),
        Some(ReceiverType::Named("TempDir"))
    );
    assert_eq!(
        receiver_type("fn f() { let d = TempDir::new().expect(\"nope\"); d.path(); }"),
        Some(ReceiverType::Named("TempDir"))
    );
    assert_eq!(
        receiver_type("fn f() -> X { let d = TempDir::new()?; d.path(); }"),
        Some(ReceiverType::Named("TempDir"))
    );
    assert_eq!(
        receiver_type("fn f() { let d = &TempDir::new().unwrap(); d.path(); }"),
        Some(ReceiverType::Named("TempDir"))
    );
}

/// `tempfile::tempdir().unwrap()` names no type at the call site, so the
/// answer is the function's name and the index resolves it later.
#[test]
fn a_local_built_by_a_call_names_the_call() {
    assert_eq!(
        receiver_type("fn f() { let d = tempdir().unwrap(); d.path(); }"),
        Some(ReceiverType::ReturnOf("tempdir"))
    );
    assert_eq!(
        receiver_type("fn f() { let d = setup_temp_dir(); d.path(); }"),
        Some(ReceiverType::ReturnOf("setup_temp_dir"))
    );
    assert_eq!(
        receiver_type("fn f() { let d = tempfile::tempdir().unwrap(); d.path(); }"),
        Some(ReceiverType::ReturnOf("tempdir")),
        "the 533 edges that read a module path as a type named `tempfile`"
    );
}

/// A parameter's type is in the signature.
#[test]
fn a_parameter_takes_the_type_its_signature_declares() {
    assert_eq!(
        receiver_type("fn f(ctx: &Context) { ctx.get(); }"),
        Some(ReceiverType::Named("Context")),
        "a reference is the same type to a method call"
    );
    assert_eq!(
        receiver_type("fn f(ctx: &mut crate::ctx::Context) { ctx.get(); }"),
        Some(ReceiverType::Named("Context")),
        "a qualified type is indexed under its last segment"
    );
    assert_eq!(
        receiver_type("fn f(s: Arc<Store>) { s.get(); }"),
        Some(ReceiverType::Named("Store")),
        "Arc holds no method this index declares, and Deref reaches through it"
    );
    assert_eq!(
        receiver_type("fn f(s: Result<Store>) { s.get(); }"),
        Some(ReceiverType::Named("Store")),
        "a Result is unwrapped before a method of the index is reached"
    );
}

/// `Vec<Symbol>` is not a `Symbol`. Reducing it would resolve `len` to
/// `Symbol::len` if the index declared one: a wrong target, which is
/// worse than the unplaced call this leaves behind.
#[test]
fn a_collection_is_not_reduced_to_what_it_holds() {
    assert_eq!(
        receiver_type("fn f(items: Vec<Symbol>) { items.len(); }"),
        Some(ReceiverType::Named("Vec"))
    );
    assert_eq!(
        receiver_type("fn f(by_name: HashMap<String, Symbol>) { by_name.get(); }"),
        Some(ReceiverType::Named("HashMap"))
    );
}

/// The nearest binding above the use is the one the call used. Answering
/// with the later one would name a type the call never saw.
#[test]
fn a_shadowed_local_takes_the_binding_above_the_call() {
    assert_eq!(
        receiver_type(
            "fn f() {\n\
             \x20   let s = First::new();\n\
             \x20   let s = Second::new();\n\
             \x20   s.get();\n\
             }"
        ),
        Some(ReceiverType::Named("Second"))
    );
    assert_eq!(
        receiver_type(
            "fn f() {\n\
             \x20   let s = First::new();\n\
             \x20   s.get();\n\
             \x20   let s = Second::new();\n\
             }"
        ),
        Some(ReceiverType::Named("First")),
        "a binding written after the call is not the one it read"
    );
}

/// `Self` is a name no symbol is indexed under, so reading it as a type
/// reports the call as leaving the index. It is a lookup away: the `impl`
/// the call sits in says which type it is.
#[test]
fn self_is_read_as_the_type_the_impl_is_for() {
    assert_eq!(
        receiver_type("impl Store { fn f() { let s = Self::open(); s.get(); } }"),
        Some(ReceiverType::Named("Store"))
    );
    assert_eq!(
        receiver_type("impl Deref for Store { fn f() { let s: Self = make(); s.get(); } }"),
        Some(ReceiverType::Named("Store")),
        "the impl's type, not the trait it implements"
    );
    assert_eq!(
        receiver_type("fn f() { let s = Self::open(); s.get(); }"),
        None,
        "outside an impl, Self stands for nothing this file names"
    );
}

/// What this file cannot answer has to stay unanswered: a guess would
/// report a call as leaving the index when it did not.
#[test]
fn a_receiver_this_file_does_not_explain_stays_unknown() {
    assert_eq!(
        receiver_type("fn f() { for item in list { item.go(); } }"),
        None,
        "a for binding writes no type"
    );
    assert_eq!(
        receiver_type("fn f() { rows.map(|row| row.get()); }"),
        None,
        "a closure parameter writes no type"
    );
    assert_eq!(
        receiver_type("fn f(&self) { self.db.get(); }"),
        None,
        "a field receiver needs field types, which the index does not hold"
    );
    assert_eq!(
        receiver_type("fn f() { items[0].go(); }"),
        None,
        "an element of an unknown collection is unknown"
    );
}

/// A chain off a function is placed by that function's name. A chain off a
/// method is not placed at all: `handle` names a method, and a method name
/// matched against every same-named symbol is the ambiguity this module
/// removes: it would type `Command::args(..)` as the `Vec` an unrelated
/// `args` returns.
#[test]
fn a_chained_receiver_is_placed_only_when_a_function_produced_it() {
    assert_eq!(
        receiver_type("fn f() { build().close(); }"),
        Some(ReceiverType::ReturnOf("build"))
    );
    assert_eq!(
        receiver_type("fn f() { make::build().close(); }"),
        Some(ReceiverType::ReturnOf("build")),
        "a lower-case path is a module, so the callee is a plain function"
    );
    assert_eq!(receiver_type("fn f() { store.handle().close(); }"), None);
}

#[test]
fn a_let_hides_a_parameter_of_its_name() {
    assert_eq!(
        receiver_type("fn f(s: First) { let s = Second::new(); s.get(); }"),
        Some(ReceiverType::Named("Second"))
    );
    assert_eq!(
        receiver_type("fn f(s: First) { s.get(); let s = Second::new(); }"),
        Some(ReceiverType::Named("First"))
    );
}

#[test]
fn a_binding_of_unknown_type_leaves_the_receiver_unknown() {
    assert_eq!(
        receiver_type("fn f() { let s = First::new(); let s = s.build(); s.get(); }"),
        None
    );
}

#[test]
fn wrappers_are_peeled_in_any_depth() {
    assert_eq!(
        receiver_type("fn f() { (&Store::open().unwrap().clone()).get(); }"),
        Some(ReceiverType::Named("Store"))
    );
    assert_eq!(
        receiver_type("fn f() { let s = Store::open().expect(\"x\").as_ref(); s.get(); }"),
        Some(ReceiverType::Named("Store"))
    );
}

#[test]
fn a_path_is_reduced_to_its_last_segment() {
    assert_eq!(
        receiver_type("fn f() { let s = a::b::Store { x: 1 }; s.get(); }"),
        Some(ReceiverType::Named("Store"))
    );
    assert_eq!(
        receiver_type("fn f() { let s = a::b::Store::open(); s.get(); }"),
        Some(ReceiverType::Named("Store"))
    );
}

#[test]
fn a_receiver_outside_any_function_is_not_bound() {
    let code = "fn f() { let s = Store::open(); s.get(); }";
    let tree = parse(Grammar::Rust, code).expect("parses");
    let (_, receiver) = last_method_call(&tree, code);
    assert_eq!(infer(&tree, None, code, receiver), None);
}

#[test]
fn case_tells_a_type_from_a_module() {
    let code = "fn f() { a::b(); }";
    let tree = parse(Grammar::Rust, code).expect("parses");
    let callee = (0..tree.nodes.len())
        .find(|&n| tree.nodes[n].kind == "scoped_identifier")
        .expect("a path");
    assert_eq!(
        scoped_call_type(&tree, code, callee, "a", true),
        Some(ReceiverType::Named("a"))
    );
    assert_eq!(
        scoped_call_type(&tree, code, callee, "a", false),
        Some(ReceiverType::ReturnOf("b"))
    );
}

#[test]
fn a_signature_answers_with_its_return_type() {
    assert_eq!(
        return_type("fn open(p: &Path) -> anyhow::Result<Store>").as_deref(),
        Some("Store")
    );
    assert_eq!(return_type("fn f() -> Box<dyn Fn() -> u32>"), None);
    assert_eq!(return_type("fn f(g: fn() -> u32) -> Vec<Symbol>").as_deref(), Some("Vec"));
    assert_eq!(return_type("fn f()"), None);
    assert_eq!(return_type("struct S"), None);
    assert_eq!(return_type("fn f() -> &mut Store").as_deref(), Some("Store"));
    // Parentheses round one type are no tuple.
    assert_eq!(return_type("fn f() -> (Store)").as_deref(), Some("Store"));
    assert_eq!(return_type("fn f() -> &mut (Store)").as_deref(), Some("Store"));
    assert_eq!(return_type("fn f() -> (Store,)"), None);
    assert_eq!(return_type("fn f() -> (Store, Index)"), None);
    assert_eq!(return_type("fn f() -> ()"), None);
}

#[test]
fn a_tree_answers_with_the_return_type_at_its_head() {
    let code = "fn open() -> Arc<Store> {}";
    let tree = parse(Grammar::Rust, code).expect("parses");
    assert_eq!(declared_return(&tree, code), Some("Store"));
}

#[test]
fn a_mutable_borrow_is_stripped() {
    for code in [
        "fn f() { let d = &mut TempDir::new(); d.path(); }",
        "fn f() { let d = &TempDir::new(); d.path(); }",
        "fn f() { (&mut TempDir::new()).path(); }",
        "fn f() { let d = &mut (&TempDir::new()?.clone()).as_ref(); d.path(); }",
        "fn f() { let d = (/* fresh */ TempDir::new()); d.path(); }",
    ] {
        assert_eq!(receiver_type(code), Some(ReceiverType::Named("TempDir")), "{code}");
    }
}

#[test]
fn every_wrapper_is_peeled_and_no_other_call() {
    for wrapped in [
        "Store::open()?",
        "&Store::open()",
        "&mut Store::open()",
        "(Store::open())",
        "Store::open().unwrap()",
        "Store::open().expect(\"a store\")",
        "Store::open().unwrap_or_default()",
        "Store::open().clone()",
        "Store::open().as_ref()",
    ] {
        let code = format!("fn f() {{ let s = {wrapped}; s.get(); }}");
        assert_eq!(receiver_type(&code), Some(ReceiverType::Named("Store")), "{code}");
    }
    assert_eq!(
        receiver_type("fn f() { let s = Store::open().build(); s.get(); }"),
        None
    );
}

#[test]
fn a_lifetime_is_not_the_type_inside_a_wrapper() {
    assert_eq!(
        receiver_type("fn f<'a>(s: Cow<'a, Store>) { s.get(); }"),
        Some(ReceiverType::Named("Store"))
    );
    assert_eq!(
        receiver_type("fn f<'a>(s: Cow</* borrowed */ 'a, Store>) { s.get(); }"),
        Some(ReceiverType::Named("Store"))
    );
    assert_eq!(
        return_type("fn f<'a>() -> Option<Cow<'a, Store>>").as_deref(),
        Some("Store")
    );
    assert_eq!(return_type("fn f<'a>() -> Cow<'a>"), None);
}

#[test]
fn a_let_counts_only_where_it_is_in_scope() {
    // The initializer of a `let` reads the binding before it.
    assert_eq!(
        receiver_type("fn f(s: First) { let s = Second::new(s.get()); }"),
        Some(ReceiverType::Named("First"))
    );
    assert_eq!(
        receiver_type("fn f(path: PathBuf) { let path = path.join(\"x\"); }"),
        Some(ReceiverType::Named("PathBuf"))
    );
    // A block that is closed takes its bindings along.
    assert_eq!(
        receiver_type("fn f(s: First) { { let s = Second::new(); } s.get(); }"),
        Some(ReceiverType::Named("First"))
    );
    // A block inside sees what is bound outside, and hides it again.
    assert_eq!(
        receiver_type("fn f() { let s = First::new(); if x { s.get(); } }"),
        Some(ReceiverType::Named("First"))
    );
    assert_eq!(
        receiver_type("fn f() { let s = First::new(); { let s = Second::new(); s.get(); } }"),
        Some(ReceiverType::Named("Second"))
    );
    assert_eq!(
        receiver_type("fn f() { let s = First::new(); let s = Second::new(s.get()); }"),
        Some(ReceiverType::Named("First"))
    );
}

#[test]
fn type_arguments_are_no_part_of_the_name() {
    for value in [
        "Store::<u8>::open()",
        "a::Store::<u8>::open()",
        "Store::<u8> { x: 1 }",
        "Store::<a::Key>::open().unwrap()",
    ] {
        let code = format!("fn f() {{ let s = {value}; s.get(); }}");
        assert_eq!(receiver_type(&code), Some(ReceiverType::Named("Store")), "{code}");
    }
}

#[test]
fn any_nesting_is_peeled_to_what_it_holds() {
    let peeled = |code: &str| -> String {
        let tree = parse(Grammar::Rust, code).expect("parses");
        assert!(tree.fits(code));
        let binding = (0..tree.nodes.len())
            .find(|&n| tree.nodes[n].kind == "let_declaration")
            .expect("a let");
        let value = tree.child_by_field_name(binding, "value").expect("a value");
        let core = peel_wrappers(&tree, code, value).expect("the guard is far");
        code[tree.nodes[core].start..tree.nodes[core].end].to_string()
    };
    for wrapped in ["make()", "&make()", "&mut (make()?)", "(&make().clone()).as_ref().unwrap()"] {
        assert_eq!(peeled(&format!("fn f() {{ let s = {wrapped}; }}")), "make()", "{wrapped}");
    }
    assert_eq!(peeled("fn f() { let s = &make().build(); }"), "make().build()");
}
