//! A syntax tree as the list of its nodes in pre-order.
//!
//! Each node carries how deep it stands, so the list is the tree: a node's
//! subtree is the run of deeper nodes behind it, and its children are those one
//! step deeper.

use vstd::prelude::*;

use crate::text::{cuts, same};

verus! {

/// A node of a syntax tree.
#[derive(Debug, PartialEq, Eq)]
pub struct SyntaxNode {
    /// What the grammar calls the node.
    pub kind: String,
    /// Whether the grammar names the node, as opposed to a bare token.
    pub named: bool,
    /// The field of its parent that the node stands in.
    pub field: Option<String>,
    /// How many nodes stand above it.
    pub depth: u32,
    /// The byte its text starts at.
    pub start: usize,
    /// The byte its text ends before.
    pub end: usize,
}

/// A node with its names as text.
#[verifier::ext_equal]
pub struct NodeView {
    pub kind: Seq<char>,
    pub named: bool,
    pub field: Option<Seq<char>>,
    pub depth: int,
    pub start: int,
    pub end: int,
}

impl View for SyntaxNode {
    type V = NodeView;

    open spec fn view(&self) -> NodeView {
        NodeView {
            kind: self.kind@,
            named: self.named,
            field: match self.field {
                Some(name) => Some(name@),
                None => None,
            },
            depth: self.depth as int,
            start: self.start as int,
            end: self.end as int,
        }
    }
}

/// A syntax tree: its nodes in pre-order, the root first.
#[derive(Debug, PartialEq, Eq)]
pub struct SyntaxTree {
    pub nodes: Vec<SyntaxNode>,
}

impl View for SyntaxTree {
    type V = Seq<NodeView>;

    open spec fn view(&self) -> Seq<NodeView> {
        self.nodes@.map_values(|n: SyntaxNode| n@)
    }
}

/// The position behind the run of nodes deeper than `depth` that starts at `at`.
pub open spec fn run_end(tree: Seq<NodeView>, depth: int, at: int) -> int
    decreases tree.len() - at,
{
    if at < 0 || at >= tree.len() || tree[at].depth <= depth {
        at
    } else {
        run_end(tree, depth, at + 1)
    }
}

/// The position behind the subtree of `node`.
pub open spec fn subtree_end(tree: Seq<NodeView>, node: int) -> int {
    run_end(tree, tree[node].depth, node + 1)
}

/// The nodes one step deeper than `depth`, in the run of deeper nodes that
/// starts at `at`.
pub open spec fn children_from(tree: Seq<NodeView>, depth: int, at: int) -> Seq<int>
    decreases tree.len() - at,
{
    if at < 0 || at >= tree.len() || tree[at].depth <= depth {
        Seq::empty()
    } else if tree[at].depth == depth + 1 {
        seq![at] + children_from(tree, depth, at + 1)
    } else {
        children_from(tree, depth, at + 1)
    }
}

/// The children of `node`, in the order they are written.
pub open spec fn children_of(tree: Seq<NodeView>, node: int) -> Seq<int> {
    children_from(tree, tree[node].depth, node + 1)
}

/// The first of some nodes that `pick` picks.
pub open spec fn first_where(
    tree: Seq<NodeView>,
    nodes: Seq<int>,
    pick: spec_fn(NodeView) -> bool,
) -> Option<int>
    decreases nodes.len(),
{
    if nodes.len() == 0 {
        None
    } else if pick(tree[nodes[0]]) {
        Some(nodes[0])
    } else {
        first_where(tree, nodes.drop_first(), pick)
    }
}

/// The first child of `node` that the grammar names.
pub open spec fn first_named_child(tree: Seq<NodeView>, node: int) -> Option<int> {
    first_where(tree, children_of(tree, node), |n: NodeView| n.named)
}

/// The first child of `node` in a field.
pub open spec fn child_in_field(tree: Seq<NodeView>, node: int, name: Seq<char>) -> Option<int> {
    first_where(tree, children_of(tree, node), |n: NodeView| n.field == Some(name))
}

/// The nearest node before `at` that stands less deep than `depth`.
pub open spec fn above(tree: Seq<NodeView>, depth: int, at: int) -> Option<int>
    decreases at,
{
    if at <= 0 {
        None
    } else if tree[at - 1].depth < depth {
        Some(at - 1)
    } else {
        above(tree, depth, at - 1)
    }
}

/// The node that `node` is a child of.
pub open spec fn parent_of(tree: Seq<NodeView>, node: int) -> Option<int> {
    above(tree, tree[node].depth, node)
}

/// Whether every node's range cuts whole characters out of the source.
pub open spec fn fits_source(tree: Seq<NodeView>, code: Seq<char>) -> bool {
    forall|i: int| 0 <= i < tree.len() ==> cuts(code, (#[trigger] tree[i]).start, tree[i].end)
}

/// A child stands behind its parent and inside the tree.
pub proof fn lemma_children_inside(tree: Seq<NodeView>, depth: int, at: int)
    requires
        0 <= at,
    ensures
        forall|k: int|
            0 <= k < children_from(tree, depth, at).len() ==> at <= #[trigger] children_from(
                tree,
                depth,
                at,
            )[k] < tree.len(),
    decreases tree.len() - at,
{
    if at < tree.len() && tree[at].depth > depth {
        lemma_children_inside(tree, depth, at + 1);
        let later = children_from(tree, depth, at + 1);
        if tree[at].depth == depth + 1 {
            assert forall|k: int| 0 <= k < (seq![at] + later).len() implies at <= #[trigger] (seq![
                at,
            ] + later)[k] < tree.len() by {
                if k > 0 {
                    assert((seq![at] + later)[k] == later[k - 1]);
                }
            }
        }
    }
}

impl SyntaxTree {
    /// The children of a node, in the order they are written.
    pub fn children(&self, node: usize) -> (children: Vec<usize>)
        requires
            node < self@.len(),
        ensures
            children@.map_values(|k: usize| k as int) == children_of(self@, node as int),
            forall|k: int| 0 <= k < children@.len() ==> node < #[trigger] children@[k] < self@.len(),
    {
        let depth = self.nodes[node].depth;
        let mut children: Vec<usize> = Vec::new();
        assert(self.nodes@.len() == self.nodes.len());
        let mut at: usize = node + 1;
        let ghost tree = self@;
        assert(tree[node as int] == self.nodes@[node as int]@);
        while at < self.nodes.len() && self.nodes[at].depth > depth
            invariant
                node < at <= self.nodes@.len(),
                tree == self@,
                tree.len() == self.nodes@.len(),
                tree[node as int].depth == depth,
                children@.map_values(|k: usize| k as int) + children_from(
                    tree,
                    depth as int,
                    at as int,
                ) == children_of(tree, node as int),
                forall|k: int| 0 <= k < children@.len() ==> node < #[trigger] children@[k]
                    < tree.len(),
            decreases self.nodes@.len() - at,
        {
            let ghost before = children@.map_values(|k: usize| k as int);
            let ghost rest = children_from(tree, depth as int, at + 1);
            assert(tree[at as int] == self.nodes@[at as int]@);
            if self.nodes[at].depth - depth == 1 {
                children.push(at);
                assert(children@.map_values(|k: usize| k as int) =~= before.push(at as int));
                assert(before.push(at as int) + rest =~= before + (seq![at as int] + rest));
            }
            at += 1;
        }
        proof {
            if at < tree.len() {
                assert(tree[at as int] == self.nodes@[at as int]@);
            }
            let found = children@.map_values(|k: usize| k as int);
            assert(found + Seq::<int>::empty() =~= found);
        }
        children
    }

    /// The position behind the subtree of a node.
    pub fn end_of(&self, node: usize) -> (end: usize)
        requires
            node < self@.len(),
        ensures
            end == subtree_end(self@, node as int),
            node < end <= self@.len(),
    {
        let depth = self.nodes[node].depth;
        let ghost tree = self@;
        assert(tree[node as int] == self.nodes@[node as int]@);
        assert(self.nodes@.len() == self.nodes.len());
        let mut at: usize = node + 1;
        while at < self.nodes.len() && self.nodes[at].depth > depth
            invariant
                node < at <= self.nodes@.len(),
                tree == self@,
                tree.len() == self.nodes@.len(),
                run_end(tree, depth as int, at as int) == run_end(tree, depth as int, node + 1),
            decreases self.nodes@.len() - at,
        {
            assert(tree[at as int] == self.nodes@[at as int]@);
            at += 1;
        }
        proof {
            if at < tree.len() {
                assert(tree[at as int] == self.nodes@[at as int]@);
            }
        }
        at
    }

    /// The first child that the grammar names.
    pub fn named_child(&self, node: usize) -> (child: Option<usize>)
        requires
            node < self@.len(),
        ensures
            (match child {
                Some(c) => Some(c as int),
                None => None,
            }) == first_named_child(self@, node as int),
            child matches Some(c) ==> node < c < self@.len(),
    {
        let children = self.children(node);
        let ghost all = children@.map_values(|k: usize| k as int);
        let ghost pick = |n: NodeView| n.named;
        let mut k: usize = 0;
        assert(all.skip(0) =~= all);
        while k < children.len()
            invariant
                k <= children@.len(),
                all == children@.map_values(|k: usize| k as int),
                all == children_of(self@, node as int),
                pick == (|n: NodeView| n.named),
                first_where(self@, all.skip(k as int), pick) == first_where(self@, all, pick),
                forall|k: int| 0 <= k < children@.len() ==> node < #[trigger] children@[k]
                    < self@.len(),
            decreases children@.len() - k,
        {
            let child = children[k];
            proof {
                assert(all.skip(k as int)[0] == child as int);
                assert(all.skip(k as int).drop_first() =~= all.skip(k + 1));
                assert(self@[child as int] == self.nodes@[child as int]@);
            }
            if self.nodes[child].named {
                return Some(child);
            }
            k += 1;
        }
        None
    }

    /// The first child in a field.
    pub fn child_by_field_name(&self, node: usize, name: &str) -> (child: Option<usize>)
        requires
            node < self@.len(),
        ensures
            (match child {
                Some(c) => Some(c as int),
                None => None,
            }) == child_in_field(self@, node as int, name@),
            child matches Some(c) ==> node < c < self@.len(),
    {
        let children = self.children(node);
        let ghost all = children@.map_values(|k: usize| k as int);
        let ghost pick = |n: NodeView| n.field == Some(name@);
        let mut k: usize = 0;
        assert(all.skip(0) =~= all);
        while k < children.len()
            invariant
                k <= children@.len(),
                all == children@.map_values(|k: usize| k as int),
                all == children_of(self@, node as int),
                pick == (|n: NodeView| n.field == Some(name@)),
                first_where(self@, all.skip(k as int), pick) == first_where(self@, all, pick),
                forall|k: int| 0 <= k < children@.len() ==> node < #[trigger] children@[k]
                    < self@.len(),
            decreases children@.len() - k,
        {
            let child = children[k];
            proof {
                assert(all.skip(k as int)[0] == child as int);
                assert(all.skip(k as int).drop_first() =~= all.skip(k + 1));
                assert(self@[child as int] == self.nodes@[child as int]@);
            }
            let found = match &self.nodes[child].field {
                Some(field) => same(field.as_str(), name),
                None => false,
            };
            if found {
                return Some(child);
            }
            k += 1;
        }
        None
    }

    /// The node that a node is a child of.
    pub fn parent(&self, node: usize) -> (parent: Option<usize>)
        requires
            node < self@.len(),
        ensures
            (match parent {
                Some(p) => Some(p as int),
                None => None,
            }) == parent_of(self@, node as int),
            parent matches Some(p) ==> p < node,
    {
        let depth = self.nodes[node].depth;
        let ghost tree = self@;
        assert(tree[node as int] == self.nodes@[node as int]@);
        let mut at: usize = node;
        while at > 0
            invariant
                at <= node < self.nodes@.len(),
                tree == self@,
                tree[node as int].depth == depth,
                above(tree, depth as int, at as int) == parent_of(tree, node as int),
            decreases at,
        {
            assert(tree[at - 1] == self.nodes@[at - 1]@);
            if self.nodes[at - 1].depth < depth {
                return Some(at - 1);
            }
            at -= 1;
        }
        None
    }

    /// Whether every node's range cuts whole characters out of the source.
    pub fn fits(&self, code: &str) -> (fit: bool)
        ensures
            fit == fits_source(self@, code@),
    {
        let size: usize = code.as_bytes().len();
        let mut i: usize = 0;
        while i < self.nodes.len()
            invariant
                i <= self.nodes@.len(),
                size == vstd::utf8::encode_utf8(code@).len(),
                forall|k: int|
                    0 <= k < i ==> cuts(code@, (#[trigger] self@[k]).start, self@[k].end),
            decreases self.nodes@.len() - i,
        {
            let start = self.nodes[i].start;
            let end = self.nodes[i].end;
            assert(self@[i as int] == self.nodes@[i as int]@);
            if start > end || end > size || !code.is_char_boundary(start) || !code.is_char_boundary(
                end,
            ) {
                assert(!cuts(code@, self@[i as int].start, self@[i as int].end));
                return false;
            }
            i += 1;
        }
        true
    }
}

/// A subtree is the run of deeper nodes behind its head, whole: every node in it
/// stands deeper than the head, and what stands behind it does not.
pub proof fn a_subtree_is_the_deeper_run(tree: Seq<NodeView>, node: int)
    requires
        0 <= node < tree.len(),
    ensures
        node < subtree_end(tree, node) <= tree.len(),
        forall|k: int|
            node < k < subtree_end(tree, node) ==> (#[trigger] tree[k]).depth > tree[node].depth,
        subtree_end(tree, node) < tree.len() ==> tree[subtree_end(tree, node)].depth
            <= tree[node].depth,
{
    lemma_run_end(tree, tree[node].depth, node + 1);
}

proof fn lemma_run_end(tree: Seq<NodeView>, depth: int, at: int)
    requires
        0 <= at <= tree.len(),
    ensures
        at <= run_end(tree, depth, at) <= tree.len(),
        forall|k: int| at <= k < run_end(tree, depth, at) ==> (#[trigger] tree[k]).depth > depth,
        run_end(tree, depth, at) < tree.len() ==> tree[run_end(tree, depth, at)].depth <= depth,
    decreases tree.len() - at,
{
    if at < tree.len() && tree[at].depth > depth {
        lemma_run_end(tree, depth, at + 1);
    }
}

/// The children of a node are the nodes of its subtree that stand one step
/// deeper, and no others.
pub proof fn children_stand_one_step_deeper(tree: Seq<NodeView>, node: int, child: int)
    requires
        0 <= node < tree.len(),
    ensures
        children_of(tree, node).contains(child) <==> node < child < tree.len() && tree[child].depth
            == tree[node].depth + 1 && (forall|k: int|
            node < k < child ==> (#[trigger] tree[k]).depth > tree[node].depth),
{
    lemma_children_from(tree, tree[node].depth, node + 1, child);
}

proof fn lemma_children_from(tree: Seq<NodeView>, depth: int, at: int, child: int)
    requires
        0 <= at,
    ensures
        children_from(tree, depth, at).contains(child) <==> at <= child < tree.len()
            && tree[child].depth == depth + 1 && (forall|k: int|
            at <= k < child ==> (#[trigger] tree[k]).depth > depth),
    decreases tree.len() - at,
{
    if at < tree.len() && tree[at].depth > depth {
        lemma_children_from(tree, depth, at + 1, child);
        let later = children_from(tree, depth, at + 1);
        if tree[at].depth == depth + 1 {
            let all = seq![at] + later;
            assert(all[0] == at);
            if later.contains(child) {
                let k = choose|k: int| 0 <= k < later.len() && later[k] == child;
                assert(all[k + 1] == child);
            }
            if all.contains(child) && child != at {
                let k = choose|k: int| 0 <= k < all.len() && all[k] == child;
                assert(later[k - 1] == child);
            }
        }
    }
}

/// Children come in the order they are written.
pub proof fn children_come_in_order(tree: Seq<NodeView>, node: int, i: int, j: int)
    requires
        0 <= node < tree.len(),
        0 <= i < j < children_of(tree, node).len(),
    ensures
        children_of(tree, node)[i] < children_of(tree, node)[j],
{
    lemma_children_ascend(tree, tree[node].depth, node + 1, i, j);
}

proof fn lemma_children_ascend(tree: Seq<NodeView>, depth: int, at: int, i: int, j: int)
    requires
        0 <= at,
        0 <= i < j < children_from(tree, depth, at).len(),
    ensures
        children_from(tree, depth, at)[i] < children_from(tree, depth, at)[j],
    decreases tree.len() - at,
{
    if at < tree.len() && tree[at].depth > depth {
        let later = children_from(tree, depth, at + 1);
        lemma_children_inside(tree, depth, at + 1);
        if tree[at].depth == depth + 1 {
            let all = seq![at] + later;
            assert(all[j] == later[j - 1]);
            if i > 0 {
                assert(all[i] == later[i - 1]);
                lemma_children_ascend(tree, depth, at + 1, i - 1, j - 1);
            }
        } else {
            lemma_children_ascend(tree, depth, at + 1, i, j);
        }
    }
}

/// A node's parent is the nearest node before it that stands less deep. A node
/// without one stands no deeper than anything before it.
pub proof fn a_parent_is_the_nearest_above(tree: Seq<NodeView>, node: int, parent: int)
    requires
        0 <= node < tree.len(),
    ensures
        parent_of(tree, node) == Some(parent) <==> 0 <= parent < node && tree[parent].depth
            < tree[node].depth && (forall|k: int|
            parent < k < node ==> (#[trigger] tree[k]).depth >= tree[node].depth),
        parent_of(tree, node) is None <==> (forall|k: int|
            0 <= k < node ==> (#[trigger] tree[k]).depth >= tree[node].depth),
{
    lemma_above(tree, tree[node].depth, node);
}

proof fn lemma_above(tree: Seq<NodeView>, depth: int, at: int)
    requires
        0 <= at <= tree.len(),
    ensures
        above(tree, depth, at) matches Some(p) ==> 0 <= p < at && tree[p].depth < depth && (forall|
            k: int,
        |
            p < k < at ==> (#[trigger] tree[k]).depth >= depth),
        above(tree, depth, at) is None ==> (forall|k: int|
            0 <= k < at ==> (#[trigger] tree[k]).depth >= depth),
    decreases at,
{
    if at > 0 && tree[at - 1].depth >= depth {
        lemma_above(tree, depth, at - 1);
    }
}

/// Parents and children agree: a node is the parent of each of its children.
pub proof fn a_child_has_its_parent(tree: Seq<NodeView>, node: int, child: int)
    requires
        0 <= node < tree.len(),
        children_of(tree, node).contains(child),
    ensures
        parent_of(tree, child) == Some(node),
{
    children_stand_one_step_deeper(tree, node, child);
    a_parent_is_the_nearest_above(tree, child, node);
}

/// The child in a field is the first child that stands in it. There is none
/// exactly where no child does.
pub proof fn the_first_child_in_a_field_is_taken(tree: Seq<NodeView>, node: int, name: Seq<char>)
    requires
        0 <= node < tree.len(),
    ensures
        child_in_field(tree, node, name) matches Some(child) ==> {
            &&& children_of(tree, node).contains(child)
            &&& tree[child].field == Some(name)
            &&& forall|other: int| #[trigger]
                children_of(tree, node).contains(other) && tree[other].field == Some(name)
                    ==> child <= other
        },
        child_in_field(tree, node, name) is None ==> (forall|other: int| #[trigger]
            children_of(tree, node).contains(other) ==> tree[other].field != Some(name)),
{
    let nodes = children_of(tree, node);
    let pick = |n: NodeView| n.field == Some(name);
    let k = lemma_first_where(tree, nodes, pick);
    assert forall|other: int| #[trigger]
        nodes.contains(other) && tree[other].field == Some(name) implies child_in_field(
        tree,
        node,
        name,
    ) is Some && child_in_field(tree, node, name)->0 <= other by {
        let j = choose|j: int| 0 <= j < nodes.len() && nodes[j] == other;
        if child_in_field(tree, node, name) is Some && k < j {
            children_come_in_order(tree, node, k, j);
        }
    }
}

/// The named child is the first child that the grammar names.
pub proof fn the_first_named_child_is_taken(tree: Seq<NodeView>, node: int)
    requires
        0 <= node < tree.len(),
    ensures
        first_named_child(tree, node) matches Some(child) ==> {
            &&& children_of(tree, node).contains(child)
            &&& tree[child].named
            &&& forall|other: int| #[trigger]
                children_of(tree, node).contains(other) && tree[other].named ==> child <= other
        },
        first_named_child(tree, node) is None ==> (forall|other: int| #[trigger]
            children_of(tree, node).contains(other) ==> !tree[other].named),
{
    let nodes = children_of(tree, node);
    let pick = |n: NodeView| n.named;
    let k = lemma_first_where(tree, nodes, pick);
    assert forall|other: int| #[trigger]
        nodes.contains(other) && tree[other].named implies first_named_child(tree, node) is Some
        && first_named_child(tree, node)->0 <= other by {
        let j = choose|j: int| 0 <= j < nodes.len() && nodes[j] == other;
        if first_named_child(tree, node) is Some && k < j {
            children_come_in_order(tree, node, k, j);
        }
    }
}

/// What is picked is the first of its kind.
pub proof fn lemma_first_where(
    tree: Seq<NodeView>,
    nodes: Seq<int>,
    pick: spec_fn(NodeView) -> bool,
) -> (at: int)
    ensures
        first_where(tree, nodes, pick) matches Some(node) ==> 0 <= at < nodes.len() && nodes[at]
            == node && pick(tree[node]) && (forall|j: int|
            0 <= j < at ==> !pick(tree[#[trigger] nodes[j]])),
        first_where(tree, nodes, pick) is None ==> (forall|j: int|
            0 <= j < nodes.len() ==> !pick(tree[#[trigger] nodes[j]])),
    decreases nodes.len(),
{
    if nodes.len() == 0 || pick(tree[nodes[0]]) {
        0
    } else {
        let rest = nodes.drop_first();
        let at = lemma_first_where(tree, rest, pick);
        assert forall|j: int| 0 < j < nodes.len() implies #[trigger] nodes[j] == rest[j - 1] by {}
        at + 1
    }
}

} // verus!
