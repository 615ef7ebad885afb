//! The rename-invariant fingerprint of a body's shape.
//!
//! The fingerprint hashes **node kinds only, never their text**. Two bodies
//! that differ only in names and literal values walk the same kinds in the same
//! order and land on the same simhash, which no text-sensitive hash and no
//! embedding can promise.

use vstd::prelude::*;
use vstd::utf8::encode_utf8;

use super::bits::{bit, lemma_same_bits};
use crate::code::parsing::caching_parser::{fnv1a, fnv1a_hash};
use crate::code::parsing::syntax::{subtree_end, NodeView, SyntaxTree};

verus! {

/// Kinds per shingle. Three is enough to carry ordering: a single kind is a
/// bag of words that cannot tell a loop containing an `if` from an `if`
/// containing a loop, and a longer window stops matching once a body gains one
/// statement.
pub const SHINGLE: usize = 3;

/// Field separator inside a shingle, so `["ab", "c"]` and `["a", "bc"]` do not
/// hash alike. ASCII unit separator: no grammar names a node with it.
pub const FIELD_SEP: char = '\u{1f}';

/// The kinds of the named nodes among some nodes.
pub open spec fn kinds_named(nodes: Seq<NodeView>) -> Seq<Seq<char>> {
    nodes.filter(|n: NodeView| n.named).map_values(|n: NodeView| n.kind)
}

/// The kinds of every named node of a subtree, in pre-order.
pub open spec fn kinds_under(tree: Seq<NodeView>, root: int) -> Seq<Seq<char>> {
    kinds_named(tree.subrange(root, subtree_end(tree, root)))
}

/// The shingles of a sequence of kinds: every run of three. A sequence shorter
/// than one shingle is one itself, and of nothing there is none.
pub open spec fn shingles(kinds: Seq<Seq<char>>) -> Seq<Seq<Seq<char>>> {
    if kinds.len() == 0 {
        Seq::empty()
    } else if kinds.len() < SHINGLE {
        seq![kinds]
    } else {
        Seq::new(
            (kinds.len() - SHINGLE + 1) as nat,
            |i: int| kinds.subrange(i, i + SHINGLE),
        )
    }
}

/// A shingle as text: each kind, with the separator behind it.
pub open spec fn shingle_text(window: Seq<Seq<char>>) -> Seq<char>
    decreases window.len(),
{
    if window.len() == 0 {
        Seq::empty()
    } else {
        shingle_text(window.drop_last()) + window.last().push(FIELD_SEP)
    }
}

/// The hash of a shingle.
pub open spec fn shingle_hash(window: Seq<Seq<char>>) -> u64 {
    fnv1a(encode_utf8(shingle_text(window)))
}

/// The votes for bit `b`: each shingle votes for it or against it.
pub open spec fn votes(windows: Seq<Seq<Seq<char>>>, b: int) -> int
    decreases windows.len(),
{
    if windows.len() == 0 {
        0
    } else {
        votes(windows.drop_last(), b) + if bit(shingle_hash(windows.last()), b) {
            1int
        } else {
            -1int
        }
    }
}

/// The number whose bits below `n` are those with more votes for than against.
pub open spec fn elected(windows: Seq<Seq<Seq<char>>>, n: nat) -> u64
    decreases n,
{
    if n == 0 {
        0
    } else {
        elected(windows, (n - 1) as nat) | if votes(windows, n - 1) > 0 {
            1u64 << ((n - 1) as u64)
        } else {
            0
        }
    }
}

/// The simhash of a sequence of kinds: a bit is set when the votes of the
/// shingles for it are positive.
pub open spec fn simhash_of(kinds: Seq<Seq<char>>) -> u64 {
    elected(shingles(kinds), 64)
}

proof fn lemma_elected_bits(windows: Seq<Seq<Seq<char>>>, n: nat, b: int)
    requires
        n <= 64,
        0 <= b < 64,
    ensures
        bit(elected(windows, n), b) <==> b < n && votes(windows, b) > 0,
    decreases n,
{
    let at = b as u64;
    if n == 0 {
        assert((0u64 >> at) & 1 == 0) by (bit_vector);
    } else {
        lemma_elected_bits(windows, (n - 1) as nat, b);
        let rest = elected(windows, (n - 1) as nat);
        let m = (n - 1) as u64;
        if votes(windows, n - 1) > 0 {
            assert(at < 64 && m < 64 ==> (((rest | (1u64 << m)) >> at) & 1 == 1 <==> ((rest >> at)
                & 1 == 1 || at == m))) by (bit_vector);
        } else {
            assert(rest | 0 == rest) by (bit_vector);
        }
    }
}

/// A bit of a simhash is set exactly when the votes of the shingles for it are
/// positive.
pub proof fn a_bit_is_elected(kinds: Seq<Seq<char>>, b: int)
    requires
        0 <= b < 64,
    ensures
        bit(simhash_of(kinds), b) <==> votes(shingles(kinds), b) > 0,
{
    lemma_elected_bits(shingles(kinds), 64, b);
}

/// Of nothing the simhash is zero.
pub proof fn nothing_has_no_shape()
    ensures
        simhash_of(Seq::empty()) == 0,
{
    let kinds = Seq::<Seq<char>>::empty();
    assert forall|b: int| 0 <= b < 64 implies #[trigger] bit(simhash_of(kinds), b) == bit(0, b) by {
        a_bit_is_elected(kinds, b);
        let at = b as u64;
        assert((0u64 >> at) & 1 == 0) by (bit_vector);
    }
    lemma_same_bits(simhash_of(kinds), 0);
}

/// The separator keeps kinds apart: two shingles of kinds without it are
/// written alike only if they are alike.
pub proof fn shingles_are_written_apart(a: Seq<Seq<char>>, b: Seq<Seq<char>>)
    requires
        shingle_text(a) == shingle_text(b),
        forall|i: int| 0 <= i < a.len() ==> !(#[trigger] a[i]).contains(FIELD_SEP),
        forall|i: int| 0 <= i < b.len() ==> !(#[trigger] b[i]).contains(FIELD_SEP),
    ensures
        a == b,
    decreases a.len(),
{
    let text = shingle_text(a);
    if a.len() == 0 || b.len() == 0 {
        assert(a.len() > 0 ==> text.len() > 0);
        assert(b.len() > 0 ==> text.len() > 0);
        assert(a =~= b);
    } else {
        let (x, y) = (a.last(), b.last());
        let (head, front) = (shingle_text(a.drop_last()), shingle_text(b.drop_last()));
        assert(text == head + x.push(FIELD_SEP) && text == front + y.push(FIELD_SEP));
        lemma_no_longer(head, x, front, y, a.drop_last());
        lemma_no_longer(front, y, head, x, b.drop_last());
        assert(head =~= text.take(head.len() as int) && front =~= text.take(front.len() as int));
        assert forall|i: int| 0 <= i < x.len() implies x[i] == y[i] by {
            assert(text[head.len() + i] == x[i] && text[front.len() + i] == y[i]);
        }
        assert(x =~= y);
        shingles_are_written_apart(a.drop_last(), b.drop_last());
        assert(a =~= a.drop_last().push(x) && b =~= b.drop_last().push(y));
    }
}

/// Of two last kinds behind one text, neither is longer than the other.
proof fn lemma_no_longer(
    head: Seq<char>,
    x: Seq<char>,
    front: Seq<char>,
    y: Seq<char>,
    before: Seq<Seq<char>>,
)
    requires
        head + x.push(FIELD_SEP) == front + y.push(FIELD_SEP),
        head == shingle_text(before),
        !y.contains(FIELD_SEP),
    ensures
        y.len() <= x.len(),
{
    let text = head + x.push(FIELD_SEP);
    assert(text.len() == head.len() + x.len() + 1);
    assert(text.len() == (front + y.push(FIELD_SEP)).len());
    if y.len() > x.len() {
        assert(before.len() > 0) by {
            if before.len() == 0 {
                assert(head.len() == 0);
            }
        }
        assert(head.last() == FIELD_SEP);
        let at = head.len() - 1;
        assert(text[at] == FIELD_SEP);
        assert((front + y.push(FIELD_SEP))[at] == y[at - front.len()]);
        assert(y.contains(y[at - front.len()]));
    }
}

/// Whether two trees differ in text alone: the same nodes in the same order,
/// each of the same kind and as deep, wherever its text stands.
pub open spec fn same_shape(a: Seq<NodeView>, b: Seq<NodeView>) -> bool {
    &&& a.len() == b.len()
    &&& forall|i: int|
        0 <= i < a.len() ==> (#[trigger] a[i]).kind == b[i].kind && a[i].named == b[i].named
            && a[i].depth == b[i].depth
}

/// Renaming every identifier and changing every literal leaves the fingerprint
/// identical: trees of the same kinds have the same kinds under every node, and
/// so the same simhash and the same count.
pub proof fn renaming_leaves_the_shape(a: Seq<NodeView>, b: Seq<NodeView>, root: int)
    requires
        same_shape(a, b),
        0 <= root < a.len(),
    ensures
        kinds_under(a, root) == kinds_under(b, root),
        simhash_of(kinds_under(a, root)) == simhash_of(kinds_under(b, root)),
{
    lemma_same_runs(a, b, a[root].depth, root + 1);
    let end = subtree_end(a, root);
    lemma_run_inside(a, a[root].depth, root + 1);
    lemma_same_kinds(a.subrange(root, end), b.subrange(root, end));
}

proof fn lemma_run_inside(tree: Seq<NodeView>, depth: int, at: int)
    requires
        0 <= at <= tree.len(),
    ensures
        at <= crate::code::parsing::syntax::run_end(tree, depth, at) <= tree.len(),
    decreases tree.len() - at,
{
    if at < tree.len() && tree[at].depth > depth {
        lemma_run_inside(tree, depth, at + 1);
    }
}

proof fn lemma_same_runs(a: Seq<NodeView>, b: Seq<NodeView>, depth: int, at: int)
    requires
        same_shape(a, b),
        0 <= at,
    ensures
        crate::code::parsing::syntax::run_end(a, depth, at)
            == crate::code::parsing::syntax::run_end(b, depth, at),
    decreases a.len() - at,
{
    if at < a.len() {
        assert(a[at].depth == b[at].depth);
        lemma_same_runs(a, b, depth, at + 1);
    }
}

proof fn lemma_same_kinds(a: Seq<NodeView>, b: Seq<NodeView>)
    requires
        a.len() == b.len(),
        forall|i: int|
            0 <= i < a.len() ==> (#[trigger] a[i]).kind == b[i].kind && a[i].named == b[i].named,
    ensures
        kinds_named(a) == kinds_named(b),
    decreases a.len(),
{
    reveal(Seq::filter);
    let keep = |n: NodeView| n.named;
    let read = |n: NodeView| n.kind;
    if a.len() == 0 {
        assert(kinds_named(a) =~= kinds_named(b));
    } else {
        lemma_same_kinds(a.drop_last(), b.drop_last());
        assert(a[a.len() - 1].kind == b[b.len() - 1].kind);
        lemma_kinds_push(a.drop_last(), a.last());
        lemma_kinds_push(b.drop_last(), b.last());
        assert(a.drop_last().push(a.last()) =~= a);
        assert(b.drop_last().push(b.last()) =~= b);
    }
}

/// One node more is one kind more, if it is named.
proof fn lemma_kinds_push(nodes: Seq<NodeView>, node: NodeView)
    ensures
        kinds_named(nodes.push(node)) == if node.named {
            kinds_named(nodes).push(node.kind)
        } else {
            kinds_named(nodes)
        },
{
    let keep = |n: NodeView| n.named;
    let read = |n: NodeView| n.kind;
    nodes.lemma_filter_push(node, keep);
    if node.named {
        assert(nodes.filter(keep).push(node).map_values(read) =~= nodes.filter(keep).map_values(
            read,
        ).push(node.kind));
    }
}

/// Kinds of every named node of a subtree, in pre-order.
fn named_kinds(tree: &SyntaxTree, root: usize) -> (kinds: Vec<String>)
    requires
        root < tree@.len(),
    ensures
        kinds@.map_values(|k: String| k@) == kinds_under(tree@, root as int),
{
    let end = tree.end_of(root);
    let mut kinds: Vec<String> = Vec::new();
    let mut i: usize = root;
    proof {
        assert(tree@.subrange(root as int, root as int) =~= Seq::empty());
        lemma_kinds_of_nothing();
        assert(kinds@.map_values(|k: String| k@) =~= Seq::empty());
    }
    while i < end
        invariant
            root <= i <= end <= tree@.len(),
            tree@.len() == tree.nodes@.len(),
            kinds@.map_values(|k: String| k@) == kinds_named(
                tree@.subrange(root as int, i as int),
            ),
        decreases end - i,
    {
        let ghost seen = tree@.subrange(root as int, i as int);
        let ghost before = kinds@.map_values(|k: String| k@);
        proof {
            assert(tree@[i as int] == tree.nodes@[i as int]@);
            lemma_kinds_push(seen, tree@[i as int]);
            assert(seen.push(tree@[i as int]) =~= tree@.subrange(root as int, i + 1));
        }
        if tree.nodes[i].named {
            let kind = tree.nodes[i].kind.clone();
            let ghost text = kind@;
            kinds.push(kind);
            assert(kinds@.map_values(|k: String| k@) =~= before.push(text));
        }
        i += 1;
    }
    kinds
}

proof fn lemma_kinds_of_nothing()
    ensures
        kinds_named(Seq::empty()) == Seq::<Seq<char>>::empty(),
{
    let none = Seq::<NodeView>::empty();
    none.lemma_filter_len(|n: NodeView| n.named);
    assert(kinds_named(none) =~= Seq::empty());
}

/// The hash of the kinds from `from` on, up to `to`.
fn hash_window(kinds: &Vec<String>, from: usize, to: usize) -> (hash: u64)
    requires
        from <= to <= kinds@.len(),
    ensures
        hash == shingle_hash(kinds@.map_values(|k: String| k@).subrange(from as int, to as int)),
{
    let ghost views = kinds@.map_values(|k: String| k@);
    let mut buf = String::new();
    let mut i: usize = from;
    assert(views.subrange(from as int, from as int) =~= Seq::empty());
    while i < to
        invariant
            from <= i <= to <= kinds@.len(),
            views == kinds@.map_values(|k: String| k@),
            buf@ == shingle_text(views.subrange(from as int, i as int)),
        decreases to - i,
    {
        let ghost before = buf@;
        buf.append(kinds[i].as_str());
        buf.push(FIELD_SEP);
        proof {
            let next = views.subrange(from as int, i + 1);
            assert(next.drop_last() =~= views.subrange(from as int, i as int));
            assert(next.last() == views[i as int]);
            assert(buf@ =~= before + views[i as int].push(FIELD_SEP));
        }
        i += 1;
    }
    fnv1a_hash(buf.as_str().as_bytes())
}

/// The number of shingles of `n` kinds.
fn shingle_count(n: usize) -> (count: usize)
    ensures
        forall|kinds: Seq<Seq<char>>| kinds.len() == n ==> (#[trigger] shingles(kinds)).len()
            == count,
        count <= n,
{
    if n == 0 {
        0
    } else if n < SHINGLE {
        1
    } else {
        n - SHINGLE + 1
    }
}

/// Simhash over the shingles of a kind sequence.
///
/// Each shingle votes on all 64 bits; a bit is set when the votes for it are
/// positive. Two sequences sharing most shingles therefore agree on most bits,
/// which a plain hash of the whole sequence cannot do: one changed statement
/// would move every bit.
fn simhash(kinds: &Vec<String>) -> (hash: u64)
    ensures
        hash == simhash_of(kinds@.map_values(|k: String| k@)),
{
    let ghost views = kinds@.map_values(|k: String| k@);
    let ghost windows = shingles(views);
    let n: usize = kinds.len();
    let count = shingle_count(n);
    // A body shorter than one shingle is hashed whole, rather than skipped:
    // dropping it would give every tiny body the same fingerprint.
    let width: usize = if n < SHINGLE {
        n
    } else {
        SHINGLE
    };
    let mut tally: Vec<i128> = Vec::new();
    let mut b: usize = 0;
    while b < 64
        invariant
            b <= 64,
            tally@.len() == b,
            forall|k: int| 0 <= k < b ==> #[trigger] tally@[k] == 0,
        decreases 64 - b,
    {
        tally.push(0);
        b += 1;
    }
    assert(windows.take(0) =~= Seq::empty());
    let mut i: usize = 0;
    while i < count
        invariant
            i <= count <= n,
            n == kinds@.len(),
            count == windows.len(),
            views == kinds@.map_values(|k: String| k@),
            windows == shingles(views),
            width == (if n < SHINGLE {
                n
            } else {
                SHINGLE
            }),
            tally@.len() == 64,
            forall|k: int|
                0 <= k < 64 ==> #[trigger] tally@[k] == votes(windows.take(i as int), k) && -i
                    <= tally@[k] <= i,
        decreases count - i,
    {
        let ghost window = windows[i as int];
        assert(n >= SHINGLE || i == 0);
        let hash = hash_window(kinds, i, i + width);
        proof {
            assert(views.subrange(i as int, i + width) =~= window);
            assert(windows.take(i + 1).drop_last() =~= windows.take(i as int));
            assert(windows.take(i + 1).last() == window);
        }
        let mut b: usize = 0;
        while b < 64
            invariant
                b <= 64,
                i < count <= n,
                tally@.len() == 64,
                window == windows[i as int],
                hash == shingle_hash(window),
                windows.take(i + 1).drop_last() == windows.take(i as int),
                windows.take(i + 1).last() == window,
                windows.take(i + 1).len() > 0,
                forall|k: int|
                    b <= k < 64 ==> #[trigger] tally@[k] == votes(windows.take(i as int), k) && -i
                        <= tally@[k] <= i,
                forall|k: int|
                    0 <= k < b ==> #[trigger] tally@[k] == votes(windows.take(i + 1), k) && -(i + 1)
                        <= tally@[k] <= i + 1,
            decreases 64 - b,
        {
            let vote = tally[b];
            let set = (hash >> (b as u64)) & 1 == 1;
            assert(set == bit(hash, b as int));
            if set {
                tally.set(b, vote + 1);
            } else {
                tally.set(b, vote - 1);
            }
            b += 1;
        }
        i += 1;
    }
    assert(windows.take(count as int) =~= windows);
    let mut hash: u64 = 0;
    let mut b: usize = 0;
    while b < 64
        invariant
            b <= 64,
            tally@.len() == 64,
            hash == elected(windows, b as nat),
            forall|k: int| 0 <= k < 64 ==> #[trigger] tally@[k] == votes(windows, k),
        decreases 64 - b,
    {
        let ghost before = hash;
        if tally[b] > 0 {
            hash = hash | (1u64 << (b as u64));
        } else {
            assert(before | 0 == before) by (bit_vector);
        }
        b += 1;
    }
    hash
}

/// The structural fingerprint of a subtree and the number of named nodes in it.
///
/// The count is the complexity filter: a three-node accessor is identical to
/// every other accessor in the repository and reporting it as duplication is
/// noise, so the caller drops small bodies before it ever compares them.
pub fn structural_simhash(tree: &SyntaxTree, root: usize) -> (fingerprint: (u64, u32))
    requires
        root < tree@.len(),
    ensures
        fingerprint.0 == simhash_of(kinds_under(tree@, root as int)),
        fingerprint.1 == kinds_under(tree@, root as int).len() as u32,
{
    let kinds = named_kinds(tree, root);
    (simhash(&kinds), kinds.len() as u32)
}

/// Shingles are runs of three: of three kinds or more there is one from each
/// kind but the last two on, of one or two kinds there is one, which holds them
/// all, and of nothing there is none.
pub proof fn shingles_are_runs_of_three(kinds: Seq<Seq<char>>, i: int)
    ensures
        kinds.len() == 0 ==> shingles(kinds).len() == 0,
        1 <= kinds.len() <= 2 ==> shingles(kinds).len() == 1 && shingles(kinds)[0] == kinds,
        kinds.len() >= 3 ==> shingles(kinds).len() == kinds.len() - 2,
        kinds.len() >= 3 && 0 <= i < kinds.len() - 2 ==> shingles(kinds)[i] == seq![
            kinds[i],
            kinds[i + 1],
            kinds[i + 2],
        ],
{
    if kinds.len() >= 3 && 0 <= i < kinds.len() - 2 {
        assert(shingles(kinds)[i] =~= seq![kinds[i], kinds[i + 1], kinds[i + 2]]);
    }
}

/// A shingle is written kind by kind, in order, a unit separator behind each.
pub proof fn a_shingle_is_written_kind_by_kind(window: Seq<Seq<char>>, kind: Seq<char>)
    ensures
        shingle_text(Seq::empty()) == Seq::<char>::empty(),
        shingle_text(window.push(kind)) == shingle_text(window) + kind + seq!['\u{1f}'],
{
    assert(window.push(kind).drop_last() =~= window);
    assert(kind.push(FIELD_SEP) =~= kind + seq!['\u{1f}']);
    assert(shingle_text(window) + (kind + seq!['\u{1f}']) =~= shingle_text(window) + kind + seq![
        '\u{1f}',
    ]);
}

/// A bit is set by majority: exactly where more than half of the shingles have
/// it in the hash of their text.
pub proof fn a_bit_is_set_by_majority(kinds: Seq<Seq<char>>, b: u64)
    requires
        b < 64,
    ensures
        (simhash_of(kinds) >> b) & 1 == 1 <==> 2 * shingles(kinds).filter(
            |w: Seq<Seq<char>>| (fnv1a(encode_utf8(shingle_text(w))) >> b) & 1 == 1,
        ).len() > shingles(kinds).len(),
{
    a_bit_is_elected(kinds, b as int);
    lemma_votes(shingles(kinds), b);
}

proof fn lemma_votes(windows: Seq<Seq<Seq<char>>>, b: u64)
    ensures
        votes(windows, b as int) == 2 * windows.filter(
            |w: Seq<Seq<char>>| (fnv1a(encode_utf8(shingle_text(w))) >> b) & 1 == 1,
        ).len() - windows.len(),
    decreases windows.len(),
{
    let set = |w: Seq<Seq<char>>| (fnv1a(encode_utf8(shingle_text(w))) >> b) & 1 == 1;
    if windows.len() == 0 {
        windows.lemma_filter_len(set);
    } else {
        lemma_votes(windows.drop_last(), b);
        windows.drop_last().lemma_filter_push(windows.last(), set);
        assert(windows.drop_last().push(windows.last()) =~= windows);
    }
}

/// The kinds under a node are those of the named nodes of its subtree, the node
/// itself among them, each where it is written: as many as there are, and a
/// named node's kind stands behind those of the named nodes before it.
pub proof fn the_kinds_of_named_nodes_in_order(tree: Seq<NodeView>, root: int, at: int)
    requires
        0 <= root < tree.len(),
        root <= at < subtree_end(tree, root),
    ensures
        kinds_under(tree, root).len() == tree.subrange(root, subtree_end(tree, root)).filter(
            |n: NodeView| n.named,
        ).len(),
        tree[at].named ==> ({
            let before = tree.subrange(root, at).filter(|n: NodeView| n.named).len();
            before < kinds_under(tree, root).len() && kinds_under(tree, root)[before as int]
                == tree[at].kind
        }),
{
    let end = subtree_end(tree, root);
    lemma_run_inside(tree, tree[root].depth, root + 1);
    if tree[at].named {
        lemma_kind_at(tree, root, at, end);
    }
}

proof fn lemma_kind_at(tree: Seq<NodeView>, root: int, at: int, end: int)
    requires
        0 <= root <= at < end <= tree.len(),
        tree[at].named,
    ensures
        ({
            let before = tree.subrange(root, at).filter(|n: NodeView| n.named).len();
            let kinds = kinds_named(tree.subrange(root, end));
            before < kinds.len() && kinds[before as int] == tree[at].kind
        }),
    decreases end,
{
    let fewer = tree.subrange(root, end - 1);
    assert(tree.subrange(root, end) =~= fewer.push(tree[end - 1]));
    lemma_kinds_push(fewer, tree[end - 1]);
    if at < end - 1 {
        lemma_kind_at(tree, root, at, end - 1);
    }
}

} // verus!
