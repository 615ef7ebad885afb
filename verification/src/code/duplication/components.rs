//! What the sets of a [`UnionFind`](super::union_find::UnionFind) are after many
//! pairs were joined: the connected components of these pairs.

use vstd::prelude::*;
use vstd::relations::{sorted_by, total_ordering};
use vstd::seq_lib::lemma_sorted_unique;

use super::linkage::ascending;
use super::union_find::{is_grouping, joined, joined_ranks, joining_joins_two_sets};

verus! {

/// The representatives and the ranks of `n` elements after the pairs were
/// joined, the first one first.
pub open spec fn joined_all(n: usize, pairs: Seq<(usize, usize)>) -> (Seq<usize>, Seq<u32>)
    decreases pairs.len(),
{
    if pairs.len() == 0 {
        (Seq::new(n as nat, |i: int| i as usize), Seq::new(n as nat, |i: int| 0u32))
    } else {
        let (reps, ranks) = joined_all(n, pairs.drop_last());
        let (a, b) = pairs.last();
        (joined(reps, ranks, a, b), joined_ranks(reps, ranks, a, b))
    }
}

/// Whether every pair is of elements below `n`.
pub open spec fn pairs_below(n: usize, pairs: Seq<(usize, usize)>) -> bool {
    forall|i: int| 0 <= i < pairs.len() ==> (#[trigger] pairs[i]).0 < n && pairs[i].1 < n
}

/// Whether a pair joins `x` and `y`, whichever of the two it names first.
pub open spec fn is_edge(pairs: Seq<(usize, usize)>, x: usize, y: usize) -> bool {
    pairs.contains((x, y)) || pairs.contains((y, x))
}

/// Whether each element of a path is joined with the next one by a pair.
pub open spec fn is_path(pairs: Seq<(usize, usize)>, path: Seq<usize>) -> bool {
    &&& path.len() > 0
    &&& forall|i: int, j: int|
        0 <= i && j == i + 1 && j < path.len() ==> is_edge(
            pairs,
            #[trigger] path[i],
            #[trigger] path[j],
        )
}

/// Whether a path of pairs leads from `x` to `y`.
pub open spec fn connected(pairs: Seq<(usize, usize)>, x: usize, y: usize) -> bool {
    exists|path: Seq<usize>| #[trigger]
        is_path(pairs, path) && path[0] == x && path.last() == y
}

/// Whether `groups` are the connected components of two or more members of the
/// pairs over the elements below `n`: each in ascending order, ordered by their
/// smallest member.
pub open spec fn are_components(
    n: usize,
    pairs: Seq<(usize, usize)>,
    groups: Seq<Seq<usize>>,
) -> bool {
    &&& forall|g: int| 0 <= g < groups.len() ==> (#[trigger] groups[g]).len() >= 2
    &&& forall|g: int, a: int, b: int|
        0 <= g < groups.len() && 0 <= a < b < groups[g].len() ==> (#[trigger] groups[g][a]) < (
        #[trigger] groups[g][b])
    &&& forall|g: int, h: int|
        0 <= g < h < groups.len() ==> (#[trigger] groups[g])[0] < (#[trigger] groups[h])[0]
    &&& forall|g: int, x: usize|
        0 <= g < groups.len() && #[trigger] groups[g].contains(x) ==> x < n
    &&& forall|g: int, x: usize, y: usize|
        #![trigger groups[g].contains(x), groups[g].contains(y)]
        #![trigger groups[g].contains(x), connected(pairs, x, y)]
        0 <= g < groups.len() && groups[g].contains(x) && y < n ==> (groups[g].contains(y)
            <==> connected(pairs, x, y))
    &&& forall|x: usize, y: usize|
        x < n && y < n && x != y && #[trigger] connected(pairs, x, y) ==> exists|g: int|
            0 <= g < groups.len() && #[trigger] groups[g].contains(x)
}

proof fn lemma_connected_to_itself(pairs: Seq<(usize, usize)>, x: usize)
    ensures
        connected(pairs, x, x),
{
    let path = seq![x];
    assert(is_path(pairs, path) && path[0] == x && path.last() == x);
}

proof fn lemma_connected_both_ways(pairs: Seq<(usize, usize)>, x: usize, y: usize)
    requires
        connected(pairs, x, y),
    ensures
        connected(pairs, y, x),
{
    let path = choose|path: Seq<usize>| #[trigger]
        is_path(pairs, path) && path[0] == x && path.last() == y;
    let back = path.reverse();
    assert forall|i: int, j: int| 0 <= i && j == i + 1 && j < back.len() implies is_edge(
        pairs,
        #[trigger] back[i],
        #[trigger] back[j],
    ) by {
        let p = path.len() - 1 - j;
        let q = path.len() - 1 - i;
        assert(is_edge(pairs, path[p], path[q]));
        assert(back[i] == path[q] && back[j] == path[p]);
    }
    assert(is_path(pairs, back) && back[0] == y && back.last() == x);
}

proof fn lemma_connected_onwards(pairs: Seq<(usize, usize)>, x: usize, y: usize, z: usize)
    requires
        connected(pairs, x, y),
        connected(pairs, y, z),
    ensures
        connected(pairs, x, z),
{
    let head = choose|path: Seq<usize>| #[trigger]
        is_path(pairs, path) && path[0] == x && path.last() == y;
    let tail = choose|path: Seq<usize>| #[trigger]
        is_path(pairs, path) && path[0] == y && path.last() == z;
    let path = head + tail.drop_first();
    assert forall|i: int, j: int| 0 <= i && j == i + 1 && j < path.len() implies is_edge(
        pairs,
        #[trigger] path[i],
        #[trigger] path[j],
    ) by {
        if j < head.len() {
            assert(is_edge(pairs, head[i], head[j]));
        } else {
            let p = i - (head.len() - 1);
            let q = p + 1;
            assert(path[i] == tail[p]);
            assert(path[j] == tail[q]);
            assert(is_edge(pairs, tail[p], tail[q]));
        }
    }
    assert(path.last() == z) by {
        if tail.len() == 1 {
            assert(path =~= head);
        }
    }
    assert(is_path(pairs, path) && path[0] == x);
}

/// A path stays one when there are more pairs.
proof fn lemma_connected_with_more(pairs: Seq<(usize, usize)>, x: usize, y: usize)
    requires
        pairs.len() > 0,
        connected(pairs.drop_last(), x, y),
    ensures
        connected(pairs, x, y),
{
    let fewer = pairs.drop_last();
    let path = choose|path: Seq<usize>| #[trigger]
        is_path(fewer, path) && path[0] == x && path.last() == y;
    assert forall|p: (usize, usize)| #[trigger] fewer.contains(p) implies pairs.contains(p) by {
        let i = choose|i: int| 0 <= i < fewer.len() && fewer[i] == p;
        assert(pairs[i] == p);
    }
    assert forall|i: int, j: int| 0 <= i && j == i + 1 && j < path.len() implies is_edge(
        pairs,
        #[trigger] path[i],
        #[trigger] path[j],
    ) by {
        assert(is_edge(fewer, path[i], path[j]));
    }
    assert(is_path(pairs, path));
}

proof fn lemma_joined_all_len(n: usize, pairs: Seq<(usize, usize)>)
    ensures
        joined_all(n, pairs).0.len() == n,
    decreases pairs.len(),
{
    if pairs.len() > 0 {
        lemma_joined_all_len(n, pairs.drop_last());
    }
}

proof fn lemma_fewer_below(n: usize, pairs: Seq<(usize, usize)>)
    requires
        pairs_below(n, pairs),
        pairs.len() > 0,
    ensures
        pairs_below(n, pairs.drop_last()),
        pairs.last().0 < n,
        pairs.last().1 < n,
{
    let fewer = pairs.drop_last();
    assert forall|i: int| 0 <= i < fewer.len() implies (#[trigger] fewer[i]).0 < n && fewer[i].1
        < n by {
        assert(pairs[i] == fewer[i]);
    }
    assert(pairs[pairs.len() - 1] == pairs.last());
}

/// Two elements that share a representative are connected.
proof fn lemma_sharing_connects(n: usize, pairs: Seq<(usize, usize)>, x: usize, y: usize)
    requires
        pairs_below(n, pairs),
        x < n,
        y < n,
        joined_all(n, pairs).0[x as int] == joined_all(n, pairs).0[y as int],
    ensures
        connected(pairs, x, y),
    decreases pairs.len(),
{
    if pairs.len() == 0 {
        lemma_connected_to_itself(pairs, x);
    } else {
        let fewer = pairs.drop_last();
        let (reps, ranks) = joined_all(n, fewer);
        let (a, b) = pairs.last();
        lemma_fewer_below(n, pairs);
        lemma_joined_all_len(n, fewer);
        joining_joins_two_sets(reps, ranks, a, b, x as int, y as int);
        if reps[x as int] == reps[y as int] {
            lemma_sharing_connects(n, fewer, x, y);
            lemma_connected_with_more(pairs, x, y);
        } else {
            lemma_reaches_the_pair(n, pairs, x);
            lemma_reaches_the_pair(n, pairs, y);
            lemma_connected_both_ways(pairs, y, a);
            lemma_connected_onwards(pairs, x, a, y);
        }
    }
}

/// An element in the set of one end of the last pair is connected with its
/// first end.
proof fn lemma_reaches_the_pair(n: usize, pairs: Seq<(usize, usize)>, x: usize)
    requires
        pairs_below(n, pairs),
        pairs.len() > 0,
        x < n,
        ({
            let reps = joined_all(n, pairs.drop_last()).0;
            let (a, b) = pairs.last();
            reps[x as int] == reps[a as int] || reps[x as int] == reps[b as int]
        }),
    ensures
        connected(pairs, x, pairs.last().0),
    decreases pairs.len(), 1nat,
{
    let fewer = pairs.drop_last();
    let reps = joined_all(n, fewer).0;
    let (a, b) = pairs.last();
    lemma_fewer_below(n, pairs);
    if reps[x as int] == reps[a as int] {
        lemma_sharing_connects(n, fewer, x, a);
        lemma_connected_with_more(pairs, x, a);
    } else {
        lemma_sharing_connects(n, fewer, x, b);
        lemma_connected_with_more(pairs, x, b);
        let step = seq![b, a];
        assert(pairs.contains((a, b))) by {
            assert(pairs[pairs.len() - 1] == (a, b));
        }
        assert(is_path(pairs, step) && step[0] == b && step.last() == a);
        lemma_connected_onwards(pairs, x, b, a);
    }
}

/// The two elements of a pair share a representative.
proof fn lemma_pair_shares(n: usize, pairs: Seq<(usize, usize)>, x: usize, y: usize)
    requires
        pairs_below(n, pairs),
        pairs.contains((x, y)),
    ensures
        x < n,
        y < n,
        joined_all(n, pairs).0[x as int] == joined_all(n, pairs).0[y as int],
    decreases pairs.len(),
{
    let i = choose|i: int| 0 <= i < pairs.len() && pairs[i] == (x, y);
    assert(pairs[i].0 < n && pairs[i].1 < n);
    let fewer = pairs.drop_last();
    let (reps, ranks) = joined_all(n, fewer);
    let (a, b) = pairs.last();
    lemma_fewer_below(n, pairs);
    lemma_joined_all_len(n, fewer);
    joining_joins_two_sets(reps, ranks, a, b, x as int, y as int);
    if i < pairs.len() - 1 {
        assert(fewer[i] == (x, y));
        lemma_pair_shares(n, fewer, x, y);
    }
}

/// The ends of a path share a representative.
proof fn lemma_path_shares(n: usize, pairs: Seq<(usize, usize)>, path: Seq<usize>)
    requires
        pairs_below(n, pairs),
        is_path(pairs, path),
    ensures
        joined_all(n, pairs).0[path[0] as int] == joined_all(n, pairs).0[path.last() as int],
    decreases path.len(),
{
    if path.len() > 1 {
        let fewer = path.drop_last();
        assert forall|i: int, j: int| 0 <= i && j == i + 1 && j < fewer.len() implies is_edge(
            pairs,
            #[trigger] fewer[i],
            #[trigger] fewer[j],
        ) by {
            assert(is_edge(pairs, path[i], path[j]));
        }
        lemma_path_shares(n, pairs, fewer);
        let x = path[path.len() - 2];
        let y = path[path.len() - 1];
        assert(is_edge(pairs, x, y));
        if pairs.contains((x, y)) {
            lemma_pair_shares(n, pairs, x, y);
        } else {
            lemma_pair_shares(n, pairs, y, x);
        }
    }
}

/// After some pairs were joined, two elements share a set exactly when a path of
/// these pairs connects them.
pub proof fn sets_are_components(n: usize, pairs: Seq<(usize, usize)>, x: usize, y: usize)
    requires
        pairs_below(n, pairs),
        x < n,
        y < n,
    ensures
        joined_all(n, pairs).0[x as int] == joined_all(n, pairs).0[y as int] <==> connected(
            pairs,
            x,
            y,
        ),
{
    if joined_all(n, pairs).0[x as int] == joined_all(n, pairs).0[y as int] {
        lemma_sharing_connects(n, pairs, x, y);
    }
    if connected(pairs, x, y) {
        let path = choose|path: Seq<usize>| #[trigger]
            is_path(pairs, path) && path[0] == x && path.last() == y;
        lemma_path_shares(n, pairs, path);
    }
}

/// The groups of `n` elements after some pairs were joined are exactly the
/// connected components of two or more members of these pairs, each in
/// ascending order, ordered by their smallest member.
pub proof fn groups_are_components(
    n: usize,
    pairs: Seq<(usize, usize)>,
    groups: Seq<Seq<usize>>,
)
    requires
        pairs_below(n, pairs),
        is_grouping(joined_all(n, pairs).0, groups),
    ensures
        are_components(n, pairs, groups),
{
    let reps = joined_all(n, pairs).0;
    lemma_joined_all_len(n, pairs);
    assert forall|g: int, x: usize| 0 <= g < groups.len() && #[trigger] groups[g].contains(
        x,
    ) implies x < n && reps[x as int] == reps[groups[g][0] as int] by {
        lemma_group_member(reps, groups, g, x);
    }
    assert forall|g: int, x: usize, y: usize|
        #![trigger groups[g].contains(x), groups[g].contains(y)]
        #![trigger groups[g].contains(x), connected(pairs, x, y)]
        0 <= g < groups.len() && groups[g].contains(x) && y < n implies (groups[g].contains(y)
        <==> connected(pairs, x, y)) by {
        sets_are_components(n, pairs, x, y);
    }
    assert forall|x: usize, y: usize|
        x < n && y < n && x != y && #[trigger] connected(pairs, x, y) implies exists|g: int|
        0 <= g < groups.len() && #[trigger] groups[g].contains(x) by {
        sets_are_components(n, pairs, x, y);
        assert(reps[x as int] == reps[y as int]);
        let g = choose|g: int|
            0 <= g < groups.len() && #[trigger] groups[g].contains((x as int) as usize);
        assert(groups[g].contains(x));
    }
}

proof fn lemma_group_member(reps: Seq<usize>, groups: Seq<Seq<usize>>, g: int, x: usize)
    requires
        is_grouping(reps, groups),
        0 <= g < groups.len(),
        groups[g].contains(x),
    ensures
        x < reps.len(),
        reps[x as int] == reps[groups[g][0] as int],
{
    let group = groups[g];
    let a = choose|a: int| 0 <= a < group.len() && group[a] == x;
    assert(groups[g][a] < reps.len());
}

/// There is one grouping: asking again for the groups gives the same list.
pub proof fn a_grouping_is_unique(
    reps: Seq<usize>,
    first: Seq<Seq<usize>>,
    second: Seq<Seq<usize>>,
)
    requires
        is_grouping(reps, first),
        is_grouping(reps, second),
    ensures
        first == second,
{
    assert forall|g: Seq<usize>| #[trigger] first.contains(g) <==> second.contains(g) by {
        if first.contains(g) {
            lemma_grouped_in_both(reps, first, second, g);
        }
        if second.contains(g) {
            lemma_grouped_in_both(reps, second, first, g);
        }
    }
    lemma_same_firsts(first, second);
}

proof fn lemma_grouped_in_both(
    reps: Seq<usize>,
    first: Seq<Seq<usize>>,
    second: Seq<Seq<usize>>,
    group: Seq<usize>,
)
    requires
        is_grouping(reps, first),
        is_grouping(reps, second),
        first.contains(group),
    ensures
        second.contains(group),
{
    let i = choose|i: int| 0 <= i < first.len() && first[i] == group;
    let x = group[0];
    let y = group[1];
    assert(first[i][0] < first[i][1]);
    lemma_group_member(reps, first, i, x);
    assert(group.contains(y));
    lemma_group_member(reps, first, i, y);
    assert(reps[x as int] == reps[y as int]);
    let j = choose|j: int|
        0 <= j < second.len() && #[trigger] second[j].contains((x as int) as usize);
    let other = second[j];
    lemma_group_member(reps, second, j, x);
    assert forall|z: usize| #[trigger] group.contains(z) <==> other.contains(z) by {
        if group.contains(z) {
            lemma_group_member(reps, first, i, z);
            assert(second[j].contains(z));
        }
        if other.contains(z) {
            lemma_group_member(reps, second, j, z);
            assert(first[i].contains(z));
        }
    }
    assert forall|a: int, b: int| 0 <= a < b < group.len() implies group[a] < group[b] by {
        assert(first[i][a] < first[i][b]);
    }
    assert forall|a: int, b: int| 0 <= a < b < other.len() implies other[a] < other[b] by {
        assert(second[j][a] < second[j][b]);
    }
    lemma_same_ascending(group, other);
}

/// Ascending sequences with the same members are the same sequence.
proof fn lemma_same_ascending(a: Seq<usize>, b: Seq<usize>)
    requires
        forall|x: usize| #[trigger] a.contains(x) <==> b.contains(x),
        forall|i: int, j: int| 0 <= i < j < a.len() ==> a[i] < a[j],
        forall|i: int, j: int| 0 <= i < j < b.len() ==> b[i] < b[j],
    ensures
        a == b,
{
    broadcast use vstd::seq_lib::group_to_multiset_ensures;

    a.lemma_multiset_has_no_duplicates();
    b.lemma_multiset_has_no_duplicates();
    assert(a.to_multiset() =~= b.to_multiset()) by {
        assert forall|x: usize| a.to_multiset().count(x) == b.to_multiset().count(x) by {
            assert(a.contains(x) <==> b.contains(x));
            assert(a.to_multiset().contains(x) ==> a.to_multiset().count(x) == 1);
            assert(b.to_multiset().contains(x) ==> b.to_multiset().count(x) == 1);
        }
    }
    assert(total_ordering(ascending()));
    assert(sorted_by(a, ascending()));
    assert(sorted_by(b, ascending()));
    lemma_sorted_unique(a, b, ascending());
}

/// Sequences of groups with the same groups, both ascending by first member,
/// are the same sequence.
pub proof fn lemma_same_firsts(first: Seq<Seq<usize>>, second: Seq<Seq<usize>>)
    requires
        forall|g: Seq<usize>| #[trigger] first.contains(g) <==> second.contains(g),
        forall|j: int, k: int|
            0 <= j < k < first.len() ==> (#[trigger] first[j])[0] < (#[trigger] first[k])[0],
        forall|j: int, k: int|
            0 <= j < k < second.len() ==> (#[trigger] second[j])[0] < (#[trigger] second[k])[0],
    ensures
        first == second,
    decreases first.len(),
{
    if first.len() == 0 {
        if second.len() > 0 {
            assert(second.contains(second[0]));
            assert(first.contains(second[0]));
        }
        assert(first =~= second);
    } else {
        assert(first.contains(first.last()));
        assert(second.contains(first.last()));
        assert(second.contains(second.last()));
        assert(first.contains(second.last()));
        let i = choose|i: int| 0 <= i < second.len() && second[i] == first.last();
        let j = choose|j: int| 0 <= j < first.len() && first[j] == second.last();
        if i < second.len() - 1 {
            assert(second[i][0] < second[second.len() - 1][0]);
            if j < first.len() - 1 {
                assert(first[j][0] < first[first.len() - 1][0]);
            }
        }
        assert(first.last() == second.last());
        let a = first.drop_last();
        let b = second.drop_last();
        assert forall|g: Seq<usize>| #[trigger] a.contains(g) <==> b.contains(g) by {
            if a.contains(g) {
                let p = choose|p: int| 0 <= p < a.len() && a[p] == g;
                assert(first[p] == g);
                assert(first.contains(g));
                assert(second.contains(g));
                let q = choose|q: int| 0 <= q < second.len() && second[q] == g;
                assert(first[p][0] < first[first.len() - 1][0]);
                assert(b[q] == g);
            }
            if b.contains(g) {
                let p = choose|p: int| 0 <= p < b.len() && b[p] == g;
                assert(second[p] == g);
                assert(second.contains(g));
                assert(first.contains(g));
                let q = choose|q: int| 0 <= q < first.len() && first[q] == g;
                assert(second[p][0] < second[second.len() - 1][0]);
                assert(a[q] == g);
            }
        }
        assert forall|j: int, k: int| 0 <= j < k < a.len() implies (#[trigger] a[j])[0] < (
        #[trigger] a[k])[0] by {
            assert(first[j][0] < first[k][0]);
        }
        assert forall|j: int, k: int| 0 <= j < k < b.len() implies (#[trigger] b[j])[0] < (
        #[trigger] b[k])[0] by {
            assert(second[j][0] < second[k][0]);
        }
        lemma_same_firsts(a, b);
        assert(first =~= a.push(first.last()));
        assert(second =~= b.push(second.last()));
    }
}

} // verus!
