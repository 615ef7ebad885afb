//! What greedy complete linkage makes of candidates in a given order, and what
//! holds of every partition it makes.
//!
//! A connected component is not a finding. Similarity is not transitive, so
//! closing it transitively lets a chain of admissible pairs carry two members
//! into one group that resemble nothing of each other. Complete linkage
//! restores the bound by construction: a member joins only if it is admissible
//! with every member already in the group.

use vstd::multiset::Multiset;
use vstd::prelude::*;
use vstd::relations::total_ordering;

verus! {

/// The ascending order of indices.
pub open spec fn ascending() -> spec_fn(usize, usize) -> bool {
    |a: usize, b: usize| a <= b
}

/// Whether `x` is admissible with every member of `group`.
pub open spec fn fits(
    group: Seq<usize>,
    x: usize,
    admissible: spec_fn(usize, usize) -> bool,
) -> bool {
    forall|k: int| 0 <= k < group.len() ==> admissible(#[trigger] group[k], x)
}

/// One sweep over `rest`: each candidate that fits the group so far joins it,
/// each other one is left over. Gives the group and what is left, in order.
pub open spec fn sweep(
    group: Seq<usize>,
    left: Seq<usize>,
    rest: Seq<usize>,
    admissible: spec_fn(usize, usize) -> bool,
) -> (Seq<usize>, Seq<usize>)
    decreases rest.len(),
{
    if rest.len() == 0 {
        (group, left)
    } else if fits(group, rest[0], admissible) {
        sweep(group.push(rest[0]), left, rest.drop_first(), admissible)
    } else {
        sweep(group, left.push(rest[0]), rest.drop_first(), admissible)
    }
}

/// The groups that greedy complete linkage makes of candidates in a given
/// order: the first candidate seeds a group, one sweep fills it, and what is
/// left is grouped in the same way. A group of one is not reported.
pub open spec fn linkage(
    order: Seq<usize>,
    admissible: spec_fn(usize, usize) -> bool,
) -> Seq<Seq<usize>>
    decreases order.len(),
{
    if order.len() == 0 {
        Seq::empty()
    } else {
        proof {
            lemma_sweep_sizes(seq![order[0]], Seq::empty(), order.drop_first(), admissible);
        }
        let (group, left) = sweep(seq![order[0]], Seq::empty(), order.drop_first(), admissible);
        if group.len() > 1 {
            seq![group.sort_by(ascending())] + linkage(left, admissible)
        } else {
            linkage(left, admissible)
        }
    }
}

/// A sweep loses nobody, and a group only grows.
pub proof fn lemma_sweep_sizes(
    group: Seq<usize>,
    left: Seq<usize>,
    rest: Seq<usize>,
    admissible: spec_fn(usize, usize) -> bool,
)
    ensures
        ({
            let (g, l) = sweep(group, left, rest, admissible);
            &&& g.len() + l.len() == group.len() + left.len() + rest.len()
            &&& g.len() >= group.len()
        }),
    decreases rest.len(),
{
    if rest.len() > 0 {
        if fits(group, rest[0], admissible) {
            lemma_sweep_sizes(group.push(rest[0]), left, rest.drop_first(), admissible);
        } else {
            lemma_sweep_sizes(group, left.push(rest[0]), rest.drop_first(), admissible);
        }
    }
}


/// A sweep loses nobody and invents nobody.
pub proof fn lemma_sweep_members(
    group: Seq<usize>,
    left: Seq<usize>,
    rest: Seq<usize>,
    admissible: spec_fn(usize, usize) -> bool,
)
    ensures
        ({
            let (g, l) = sweep(group, left, rest, admissible);
            (g + l).to_multiset() == (group + left + rest).to_multiset()
        }),
    decreases rest.len(),
{
    broadcast use vstd::seq_lib::group_to_multiset_ensures;

    if rest.len() == 0 {
        assert(group + left + rest =~= group + left);
    } else {
        let x = rest[0];
        let after = rest.drop_first();
        if fits(group, x, admissible) {
            lemma_sweep_members(group.push(x), left, after, admissible);
            vstd::seq_lib::lemma_multiset_commutative(group.push(x) + left, after);
            vstd::seq_lib::lemma_multiset_commutative(group.push(x), left);
            vstd::seq_lib::lemma_multiset_commutative(group + left, rest);
            vstd::seq_lib::lemma_multiset_commutative(group, left);
            vstd::seq_lib::lemma_multiset_commutative(seq![x], after);
            assert(rest =~= seq![x] + after);
            assert(seq![x] =~= Seq::empty().push(x));
            assert((group.push(x) + left + after).to_multiset() =~= (group + left
                + rest).to_multiset());
        } else {
            lemma_sweep_members(group, left.push(x), after, admissible);
            assert(group + left.push(x) + after =~= group + left + rest);
        }
    }
}

/// The first group, and what it leaves: together they are the candidates, the
/// group is admissible pair by pair, and nobody left over fits it.
proof fn lemma_first_group(order: Seq<usize>, admissible: spec_fn(usize, usize) -> bool)
    requires
        order.len() > 0,
        order.no_duplicates(),
    ensures
        ({
            let (g, l) = sweep(seq![order[0]], Seq::empty(), order.drop_first(), admissible);
            &&& g.len() >= 1
            &&& g.len() + l.len() == order.len()
            &&& g[0] == order[0]
            &&& g.no_duplicates()
            &&& l.no_duplicates()
            &&& forall|x: usize| #[trigger] g.contains(x) ==> order.contains(x) && !l.contains(x)
            &&& forall|x: usize| #[trigger] l.contains(x) ==> order.contains(x) && !g.contains(x)
            &&& forall|x: usize| #[trigger] order.contains(x) ==> g.contains(x) || l.contains(x)
            &&& forall|i: int, j: int|
                0 <= i < j < g.len() ==> admissible(#[trigger] g[i], #[trigger] g[j])
            &&& forall|i: int| 0 <= i < l.len() ==> !fits(g, #[trigger] l[i], admissible)
        }),
{
    broadcast use vstd::seq_lib::group_to_multiset_ensures;

    let seed = seq![order[0]];
    let rest = order.drop_first();
    let (g, l) = sweep(seed, Seq::empty(), rest, admissible);
    lemma_sweep_sizes(seed, Seq::empty(), rest, admissible);
    lemma_sweep_members(seed, Seq::empty(), rest, admissible);
    lemma_sweep_fits(seed, Seq::empty(), rest, admissible);
    assert(seed + Seq::empty() + rest =~= order);
    order.lemma_multiset_has_no_duplicates();
    (g + l).lemma_multiset_has_no_duplicates_conv();
    assert forall|i: int, j: int| 0 <= i < g.len() && 0 <= j < g.len() && i != j implies g[i]
        != g[j] by {
        assert((g + l)[i] == g[i] && (g + l)[j] == g[j]);
    }
    assert forall|i: int, j: int| 0 <= i < l.len() && 0 <= j < l.len() && i != j implies l[i]
        != l[j] by {
        assert((g + l)[g.len() + i] == l[i] && (g + l)[g.len() + j] == l[j]);
    }
    assert forall|x: usize| #[trigger] g.contains(x) implies order.contains(x) && !l.contains(
        x,
    ) by {
        let i = choose|i: int| 0 <= i < g.len() && g[i] == x;
        assert((g + l)[i] == x);
        assert((g + l).contains(x));
        assert(order.to_multiset().count(x) > 0);
        if l.contains(x) {
            let j = choose|j: int| 0 <= j < l.len() && l[j] == x;
            assert((g + l)[g.len() + j] == x);
        }
    }
    assert forall|x: usize| #[trigger] l.contains(x) implies order.contains(x) && !g.contains(
        x,
    ) by {
        let j = choose|j: int| 0 <= j < l.len() && l[j] == x;
        assert((g + l)[g.len() + j] == x);
        assert((g + l).contains(x));
        assert(order.to_multiset().count(x) > 0);
    }
    assert forall|x: usize| #[trigger] order.contains(x) implies g.contains(x) || l.contains(
        x,
    ) by {
        assert((g + l).to_multiset().count(x) > 0);
        let i = choose|i: int| 0 <= i < (g + l).len() && (g + l)[i] == x;
        if i < g.len() {
            assert(g[i] == x);
        } else {
            assert(l[i - g.len()] == x);
        }
    }
}

/// A group stays admissible pair by pair, keeps its first member, and fits
/// nobody that a sweep leaves behind.
proof fn lemma_sweep_fits(
    group: Seq<usize>,
    left: Seq<usize>,
    rest: Seq<usize>,
    admissible: spec_fn(usize, usize) -> bool,
)
    requires
        group.len() > 0,
        forall|i: int, j: int|
            0 <= i < j < group.len() ==> admissible(#[trigger] group[i], #[trigger] group[j]),
        forall|i: int| 0 <= i < left.len() ==> !fits(group, #[trigger] left[i], admissible),
    ensures
        ({
            let (g, l) = sweep(group, left, rest, admissible);
            &&& g.len() > 0
            &&& g[0] == group[0]
            &&& forall|i: int, j: int|
                0 <= i < j < g.len() ==> admissible(#[trigger] g[i], #[trigger] g[j])
            &&& forall|i: int| 0 <= i < l.len() ==> !fits(g, #[trigger] l[i], admissible)
        }),
    decreases rest.len(),
{
    if rest.len() > 0 {
        let x = rest[0];
        if fits(group, x, admissible) {
            let grown = group.push(x);
            assert forall|i: int| 0 <= i < left.len() implies !fits(
                grown,
                #[trigger] left[i],
                admissible,
            ) by {
                assert(!fits(group, left[i], admissible));
                let k = choose|k: int|
                    0 <= k < group.len() && !admissible(#[trigger] group[k], left[i]);
                assert(grown[k] == group[k]);
            }
            lemma_sweep_fits(grown, left, rest.drop_first(), admissible);
        } else {
            lemma_sweep_fits(group, left.push(x), rest.drop_first(), admissible);
        }
    }
}

/// Sorting a group upwards keeps its members.
pub proof fn lemma_ascending(group: Seq<usize>)
    requires
        group.no_duplicates(),
    ensures
        ({
            let sorted = group.sort_by(ascending());
            &&& sorted.len() == group.len()
            &&& forall|x: usize| #[trigger] sorted.contains(x) <==> group.contains(x)
            &&& forall|i: int, j: int| 0 <= i < j < sorted.len() ==> sorted[i] < sorted[j]
        }),
{
    broadcast use vstd::seq_lib::group_to_multiset_ensures;

    let sorted = group.sort_by(ascending());
    assert(total_ordering(ascending()));
    group.lemma_sort_by_ensures(ascending());
    group.lemma_multiset_has_no_duplicates();
    sorted.lemma_multiset_has_no_duplicates_conv();
    assert(sorted.len() == sorted.to_multiset().len());
    assert forall|x: usize| #[trigger] sorted.contains(x) <==> group.contains(x) by {
        assert(sorted.to_multiset().count(x) == group.to_multiset().count(x));
    }
    assert forall|i: int, j: int| 0 <= i < j < sorted.len() implies sorted[i] < sorted[j] by {
        assert(ascending()(sorted[i], sorted[j]));
    }
}

/// Whether a relation reads the same both ways.
pub open spec fn symmetric(relation: spec_fn(usize, usize) -> bool) -> bool {
    forall|a: usize, b: usize| #[trigger] relation(a, b) == relation(b, a)
}

/// Whether some group holds `x`.
pub open spec fn reported(groups: Seq<Seq<usize>>, x: usize) -> bool {
    exists|k: int| 0 <= k < groups.len() && (#[trigger] groups[k]).contains(x)
}

/// Groups of two or more candidates each, written in ascending order, no
/// candidate in two of them.
pub open spec fn are_groups_of(groups: Seq<Seq<usize>>, candidates: Seq<usize>) -> bool {
    &&& forall|k: int| 0 <= k < groups.len() ==> (#[trigger] groups[k]).len() >= 2
    &&& forall|k: int, i: int, j: int|
        0 <= k < groups.len() && 0 <= i < j < groups[k].len() ==> #[trigger] groups[k][i]
            < #[trigger] groups[k][j]
    &&& forall|k: int, i: int|
        0 <= k < groups.len() && 0 <= i < groups[k].len() ==> candidates.contains(
            #[trigger] groups[k][i],
        )
    &&& forall|k: int, m: int, x: usize|
        0 <= k < groups.len() && 0 <= m < groups.len() && #[trigger] groups[k].contains(x)
            && #[trigger] groups[m].contains(x) ==> k == m
}

/// Whether every pair of every group is admissible.
pub open spec fn bounded(
    groups: Seq<Seq<usize>>,
    admissible: spec_fn(usize, usize) -> bool,
) -> bool {
    forall|k: int, x: usize, y: usize|
        0 <= k < groups.len() && #[trigger] groups[k].contains(x) && #[trigger] groups[k].contains(
            y,
        ) && x != y ==> admissible(x, y)
}

/// Complete linkage makes groups of the candidates: two or more members each,
/// ascending, and no candidate in two groups.
pub proof fn linkage_makes_groups(
    order: Seq<usize>,
    admissible: spec_fn(usize, usize) -> bool,
)
    requires
        order.no_duplicates(),
    ensures
        are_groups_of(linkage(order, admissible), order),
    decreases order.len(),
{
    if order.len() > 0 {
        let (g, l) = sweep(seq![order[0]], Seq::empty(), order.drop_first(), admissible);
        lemma_first_group(order, admissible);
        linkage_makes_groups(l, admissible);
        let later = linkage(l, admissible);
        if g.len() > 1 {
            lemma_ascending(g);
            let sorted = g.sort_by(ascending());
            let groups = seq![sorted] + later;
            assert(linkage(order, admissible) == groups);
            assert forall|k: int| 0 < k < groups.len() implies #[trigger] groups[k] == later[k
                - 1] by {}
            assert forall|k: int, i: int|
                0 <= k < groups.len() && 0 <= i < groups[k].len() implies order.contains(
                #[trigger] groups[k][i],
            ) by {
                if k == 0 {
                    assert(sorted.contains(sorted[i]));
                } else {
                    assert(l.contains(later[k - 1][i]));
                }
            }
            assert forall|k: int, m: int, x: usize|
                0 <= k < groups.len() && 0 <= m < groups.len() && #[trigger] groups[k].contains(x)
                    && #[trigger] groups[m].contains(x) implies k == m by {
                if k > 0 {
                    let i = choose|i: int| 0 <= i < groups[k].len() && groups[k][i] == x;
                    assert(l.contains(later[k - 1][i]));
                }
                if m > 0 {
                    let i = choose|i: int| 0 <= i < groups[m].len() && groups[m][i] == x;
                    assert(l.contains(later[m - 1][i]));
                }
                if k > 0 && m > 0 {
                    assert(later[k - 1].contains(x) && later[m - 1].contains(x));
                }
            }
        } else {
            assert forall|k: int, i: int|
                0 <= k < later.len() && 0 <= i < later[k].len() implies order.contains(
                #[trigger] later[k][i],
            ) by {
                assert(l.contains(later[k][i]));
            }
        }
    }
}

/// Whether `x` stands before `y` in an order.
pub open spec fn before(order: Seq<usize>, x: usize, y: usize) -> bool {
    exists|i: int, j: int|
        0 <= i < j < order.len() && #[trigger] order[i] == x && #[trigger] order[j] == y
}

/// Whether candidates are listed in an order.
spec fn in_order(s: Seq<usize>, order: Seq<usize>) -> bool {
    forall|i: int, j: int| 0 <= i < j < s.len() ==> before(order, #[trigger] s[i], #[trigger] s[j])
}

/// A sweep keeps the order in both its parts.
proof fn lemma_sweep_in_order(
    group: Seq<usize>,
    left: Seq<usize>,
    rest: Seq<usize>,
    admissible: spec_fn(usize, usize) -> bool,
    order: Seq<usize>,
)
    requires
        in_order(group + rest, order),
        in_order(left + rest, order),
    ensures
        in_order(sweep(group, left, rest, admissible).0, order),
        in_order(sweep(group, left, rest, admissible).1, order),
    decreases rest.len(),
{
    if rest.len() == 0 {
        assert(group + rest =~= group);
        assert(left + rest =~= left);
    } else {
        let x = rest[0];
        let after = rest.drop_first();
        if fits(group, x, admissible) {
            lemma_skipping_keeps_order(left, rest, order);
            assert(group.push(x) + after =~= group + rest);
            lemma_sweep_in_order(group.push(x), left, after, admissible, order);
        } else {
            lemma_skipping_keeps_order(group, rest, order);
            assert(left.push(x) + after =~= left + rest);
            lemma_sweep_in_order(group, left.push(x), after, admissible, order);
        }
    }
}

proof fn lemma_skipping_keeps_order(head: Seq<usize>, rest: Seq<usize>, order: Seq<usize>)
    requires
        rest.len() > 0,
        in_order(head + rest, order),
    ensures
        in_order(head + rest.drop_first(), order),
{
    let all = head + rest;
    let fewer = head + rest.drop_first();
    assert forall|i: int, j: int| 0 <= i < j < fewer.len() implies before(
        order,
        #[trigger] fewer[i],
        #[trigger] fewer[j],
    ) by {
        let p = if i < head.len() {
            i
        } else {
            i + 1
        };
        let q = if j < head.len() {
            j
        } else {
            j + 1
        };
        assert(all[p] == fewer[i] && all[q] == fewer[j]);
    }
}

/// The first group and what it leaves both keep the order.
proof fn lemma_first_group_in_order(order: Seq<usize>, admissible: spec_fn(usize, usize) -> bool)
    requires
        order.len() > 0,
    ensures
        ({
            let (g, l) = sweep(seq![order[0]], Seq::empty(), order.drop_first(), admissible);
            &&& in_order(g, order)
            &&& in_order(l, order)
        }),
{
    let seed = seq![order[0]];
    let rest = order.drop_first();
    assert(seed + rest =~= order);
    assert(Seq::empty() + rest =~= rest);
    assert forall|i: int, j: int| 0 <= i < j < rest.len() implies before(
        order,
        #[trigger] rest[i],
        #[trigger] rest[j],
    ) by {
        assert(order[i + 1] == rest[i] && order[j + 1] == rest[j]);
    }
    lemma_sweep_in_order(seed, Seq::empty(), rest, admissible, order);
}

/// Of two candidates only one stands before the other.
proof fn lemma_before_is_strict(order: Seq<usize>, x: usize, y: usize)
    requires
        order.no_duplicates(),
        before(order, x, y),
    ensures
        x != y,
        !before(order, y, x),
{
}

/// What stands before in an order stands before in a part of it that keeps the
/// order, and the other way round.
proof fn lemma_before_in_part(part: Seq<usize>, order: Seq<usize>, x: usize, y: usize)
    requires
        order.no_duplicates(),
        in_order(part, order),
    ensures
        before(part, x, y) ==> before(order, x, y),
        part.contains(x) && part.contains(y) && before(order, x, y) ==> before(part, x, y),
{
    if part.contains(x) && part.contains(y) && before(order, x, y) {
        lemma_before_is_strict(order, x, y);
        let p = choose|p: int| 0 <= p < part.len() && part[p] == x;
        let q = choose|q: int| 0 <= q < part.len() && part[q] == y;
        if q < p {
            assert(before(order, part[q], part[p]));
        }
        assert(p < q);
    }
}

/// Every pair of every group that complete linkage makes is admissible, taken
/// in the order of the candidates. No more is asked of the relation: it need not
/// read the same both ways.
pub proof fn linkage_is_bounded_in_order(
    order: Seq<usize>,
    admissible: spec_fn(usize, usize) -> bool,
    k: int,
    x: usize,
    y: usize,
)
    requires
        order.no_duplicates(),
        0 <= k < linkage(order, admissible).len(),
        linkage(order, admissible)[k].contains(x),
        linkage(order, admissible)[k].contains(y),
        before(order, x, y),
    ensures
        admissible(x, y),
    decreases order.len(),
{
    let (g, l) = sweep(seq![order[0]], Seq::empty(), order.drop_first(), admissible);
    lemma_first_group(order, admissible);
    lemma_first_group_in_order(order, admissible);
    let later = linkage(l, admissible);
    let groups = linkage(order, admissible);
    if g.len() > 1 && k == 0 {
        lemma_ascending(g);
        assert(groups[0] == g.sort_by(ascending()));
        assert(g.contains(x) && g.contains(y));
        lemma_before_in_part(g, order, x, y);
        let (i, j) = choose|i: int, j: int|
            0 <= i < j < g.len() && #[trigger] g[i] == x && #[trigger] g[j] == y;
        assert(admissible(g[i], g[j]));
    } else {
        let at = if g.len() > 1 {
            k - 1
        } else {
            k
        };
        assert(groups[k] == later[at]);
        lemma_members_are_candidates(l, admissible, at, x);
        lemma_members_are_candidates(l, admissible, at, y);
        lemma_before_in_part(l, order, x, y);
        linkage_is_bounded_in_order(l, admissible, at, x, y);
    }
}

/// Every member of a group is a candidate.
pub proof fn lemma_members_are_candidates(
    order: Seq<usize>,
    admissible: spec_fn(usize, usize) -> bool,
    k: int,
    x: usize,
)
    requires
        order.no_duplicates(),
        0 <= k < linkage(order, admissible).len(),
        linkage(order, admissible)[k].contains(x),
    ensures
        order.contains(x),
{
    linkage_makes_groups(order, admissible);
    let group = linkage(order, admissible)[k];
    let i = choose|i: int| 0 <= i < group.len() && group[i] == x;
    assert(order.contains(linkage(order, admissible)[k][i]));
}

/// Whether `x` is the member of `group` that stands first in an order.
pub open spec fn leads(order: Seq<usize>, group: Seq<usize>, x: usize) -> bool {
    &&& group.contains(x)
    &&& forall|y: usize| #[trigger] group.contains(y) && y != x ==> before(order, x, y)
}

/// Whether some member of `group` stands first in an order.
pub open spec fn has_lead(order: Seq<usize>, group: Seq<usize>) -> bool {
    exists|x: usize| #[trigger] leads(order, group, x)
}

/// Complete linkage lists its groups in the order of the candidates: every
/// group has a member that stands first, and that of an earlier group stands
/// before that of a later one.
pub proof fn linkage_lists_groups_in_order(
    order: Seq<usize>,
    admissible: spec_fn(usize, usize) -> bool,
)
    requires
        order.no_duplicates(),
    ensures
        forall|k: int|
            0 <= k < linkage(order, admissible).len() ==> has_lead(
                order,
                #[trigger] linkage(order, admissible)[k],
            ),
        forall|j: int, k: int, x: usize, y: usize|
            0 <= j < k < linkage(order, admissible).len() && #[trigger] leads(
                order,
                linkage(order, admissible)[j],
                x,
            ) && #[trigger] leads(order, linkage(order, admissible)[k], y) ==> before(order, x, y),
    decreases order.len(),
{
    let groups = linkage(order, admissible);
    if order.len() > 0 {
        let (g, l) = sweep(seq![order[0]], Seq::empty(), order.drop_first(), admissible);
        lemma_first_group(order, admissible);
        lemma_first_group_in_order(order, admissible);
        linkage_lists_groups_in_order(l, admissible);
        let later = linkage(l, admissible);
        let shift = if g.len() > 1 {
            1int
        } else {
            0int
        };
        if g.len() > 1 {
            lemma_ascending(g);
            assert(groups[0] == g.sort_by(ascending()));
            assert(g.contains(g[0]));
            assert forall|y: usize| #[trigger] groups[0].contains(y) && y != g[0] implies before(
                order,
                g[0],
                y,
            ) by {
                assert(g.contains(y));
                let i = choose|i: int| 0 <= i < g.len() && g[i] == y;
                assert(before(order, g[0], g[i]));
            }
            assert(leads(order, groups[0], g[0]));
        }
        assert forall|k: int| shift <= k < groups.len() implies #[trigger] groups[k] == later[k
            - shift] by {}
        assert forall|k: int, x: usize|
            shift <= k < groups.len() implies #[trigger] leads(order, groups[k], x) == leads(
            l,
            later[k - shift],
            x,
        ) by {
            assert(groups[k] == later[k - shift]);
            lemma_leads_in_part(l, admissible, k - shift, order, x);
        }
        assert forall|k: int| 0 <= k < groups.len() implies has_lead(
            order,
            #[trigger] groups[k],
        ) by {
            if k >= shift {
                assert(has_lead(l, later[k - shift]));
                let x = choose|x: usize| #[trigger] leads(l, later[k - shift], x);
                assert(leads(l, later[k - shift], x));
                assert(leads(order, groups[k], x));
            }
        }
        assert forall|j: int, k: int, x: usize, y: usize|
            0 <= j < k < groups.len() && #[trigger] leads(order, groups[j], x) && #[trigger] leads(
                order,
                groups[k],
                y,
            ) implies before(order, x, y) by {
            assert(groups[k] == later[k - shift]);
            assert(leads(l, later[k - shift], y));
            lemma_members_are_candidates(l, admissible, k - shift, y);
            if j < shift {
                if x != g[0] {
                    assert(before(order, x, g[0]));
                    lemma_before_is_strict(order, x, g[0]);
                }
                assert(order.contains(y));
                let i = choose|i: int| 0 <= i < order.len() && order[i] == y;
                assert(order[0] == x);
                assert(y != x);
            } else {
                assert(leads(l, later[j - shift], x));
                lemma_before_in_part(l, order, x, y);
            }
        }
    }
}

/// A group is led by the same member in an order and in a part of it that holds
/// the group.
proof fn lemma_leads_in_part(
    part: Seq<usize>,
    admissible: spec_fn(usize, usize) -> bool,
    k: int,
    order: Seq<usize>,
    x: usize,
)
    requires
        part.no_duplicates(),
        order.no_duplicates(),
        in_order(part, order),
        0 <= k < linkage(part, admissible).len(),
    ensures
        leads(order, linkage(part, admissible)[k], x) == leads(
            part,
            linkage(part, admissible)[k],
            x,
        ),
{
    let group = linkage(part, admissible)[k];
    assert forall|y: usize| #[trigger] group.contains(y) && group.contains(x) implies before(
        order,
        x,
        y,
    ) == before(part, x, y) by {
        lemma_members_are_candidates(part, admissible, k, x);
        lemma_members_are_candidates(part, admissible, k, y);
        lemma_before_in_part(part, order, x, y);
    }
}

/// Whom a sweep leaves behind, a member that stands before them refused.
proof fn lemma_sweep_refuses_before(
    group: Seq<usize>,
    left: Seq<usize>,
    rest: Seq<usize>,
    admissible: spec_fn(usize, usize) -> bool,
    order: Seq<usize>,
)
    requires
        in_order(group + rest, order),
        forall|i: int|
            0 <= i < left.len() ==> refused_before(group, #[trigger] left[i], admissible, order),
    ensures
        forall|i: int|
            0 <= i < sweep(group, left, rest, admissible).1.len() ==> refused_before(
                sweep(group, left, rest, admissible).0,
                #[trigger] sweep(group, left, rest, admissible).1[i],
                admissible,
                order,
            ),
    decreases rest.len(),
{
    if rest.len() > 0 {
        let x = rest[0];
        let after = rest.drop_first();
        if fits(group, x, admissible) {
            let grown = group.push(x);
            assert(grown + after =~= group + rest);
            assert forall|i: int| 0 <= i < left.len() implies refused_before(
                grown,
                #[trigger] left[i],
                admissible,
                order,
            ) by {
                let z = choose|z: usize| #[trigger]
                    group.contains(z) && before(order, z, left[i]) && !admissible(z, left[i]);
                let k = choose|k: int| 0 <= k < group.len() && group[k] == z;
                assert(grown[k] == z);
                assert(grown.contains(z));
            }
            lemma_sweep_refuses_before(grown, left, after, admissible, order);
            assert(sweep(group, left, rest, admissible) == sweep(grown, left, after, admissible));
        } else {
            let k = choose|k: int| 0 <= k < group.len() && !admissible(#[trigger] group[k], x);
            assert((group + rest)[k] == group[k]);
            assert((group + rest)[group.len() as int] == x);
            assert(group.contains(group[k]));
            assert(refused_before(group, x, admissible, order));
            lemma_skipping_keeps_order(group, rest, order);
            lemma_sweep_refuses_before(group, left.push(x), after, admissible, order);
            assert(sweep(group, left, rest, admissible) == sweep(
                group,
                left.push(x),
                after,
                admissible,
            ));
        }
    } else {
        assert(sweep(group, left, rest, admissible) == (group, left));
    }
}

/// Whether a member of `group` that stands before `x` is not admissible with
/// it.
pub open spec fn refused_before(
    group: Seq<usize>,
    x: usize,
    admissible: spec_fn(usize, usize) -> bool,
    order: Seq<usize>,
) -> bool {
    exists|z: usize| #[trigger] group.contains(z) && before(order, z, x) && !admissible(z, x)
}

/// Whether no group that holds `y` has a member that stands before `x`.
pub open spec fn free_until(
    groups: Seq<Seq<usize>>,
    order: Seq<usize>,
    x: usize,
    y: usize,
) -> bool {
    forall|j: int, w: usize|
        0 <= j < groups.len() && groups[j].contains(y) && #[trigger] groups[j].contains(w)
            ==> !before(order, w, x)
}

/// Complete linkage is greedy: a candidate behind the first member of a group
/// that no group begun earlier holds stands outside the group only because a
/// member before it refused it.
pub proof fn linkage_is_greedy(
    order: Seq<usize>,
    admissible: spec_fn(usize, usize) -> bool,
    k: int,
    x: usize,
    y: usize,
)
    requires
        order.no_duplicates(),
        0 <= k < linkage(order, admissible).len(),
        leads(order, linkage(order, admissible)[k], x),
        order.contains(y),
        before(order, x, y),
        !linkage(order, admissible)[k].contains(y),
        free_until(linkage(order, admissible), order, x, y),
    ensures
        refused_before(linkage(order, admissible)[k], y, admissible, order),
    decreases order.len(),
{
    let (g, l) = sweep(seq![order[0]], Seq::empty(), order.drop_first(), admissible);
    lemma_first_group(order, admissible);
    lemma_first_group_in_order(order, admissible);
    let groups = linkage(order, admissible);
    let later = linkage(l, admissible);
    let shift = if g.len() > 1 {
        1int
    } else {
        0int
    };
    if g.len() > 1 {
        lemma_ascending(g);
        assert(groups[0] == g.sort_by(ascending()));
    }
    if k < shift {
        assert(l.contains(y));
        let i = choose|i: int| 0 <= i < l.len() && l[i] == y;
        assert(seq![order[0]] + order.drop_first() =~= order);
        lemma_sweep_refuses_before(
            seq![order[0]],
            Seq::empty(),
            order.drop_first(),
            admissible,
            order,
        );
        assert(refused_before(g, l[i], admissible, order));
        let z = choose|z: usize| #[trigger]
            g.contains(z) && before(order, z, y) && !admissible(z, y);
        assert(groups[0].contains(z));
    } else {
        assert(groups[k] == later[k - shift]);
        lemma_members_are_candidates(l, admissible, k - shift, x);
        let p = choose|p: int| 0 <= p < order.len() && order[p] == x;
        assert(x != order[0]);
        assert(before(order, order[0], x)) by {
            assert(order[0] != x);
        }
        if g.contains(y) {
            if g.len() > 1 {
                assert(groups[0].contains(y));
                assert(g.contains(g[0]));
                assert(groups[0].contains(order[0]));
            } else {
                assert(y == order[0]);
                lemma_before_is_strict(order, order[0], x);
            }
        }
        assert(l.contains(y));
        lemma_leads_in_part(l, admissible, k - shift, order, x);
        lemma_before_in_part(l, order, x, y);
        lemma_free_in_part(l, order, admissible, groups, shift, x, y);
        linkage_is_greedy(l, admissible, k - shift, x, y);
        let z = choose|z: usize| #[trigger]
            later[k - shift].contains(z) && before(l, z, y) && !admissible(z, y);
        lemma_before_in_part(l, order, z, y);
        assert(groups[k].contains(z));
    }
}

proof fn lemma_free_in_part(
    l: Seq<usize>,
    order: Seq<usize>,
    admissible: spec_fn(usize, usize) -> bool,
    groups: Seq<Seq<usize>>,
    shift: int,
    x: usize,
    y: usize,
)
    requires
        order.no_duplicates(),
        l.no_duplicates(),
        in_order(l, order),
        free_until(groups, order, x, y),
        0 <= shift,
        groups.len() == linkage(l, admissible).len() + shift,
        forall|j: int|
            0 <= j < linkage(l, admissible).len() ==> groups[j + shift] == #[trigger] linkage(
                l,
                admissible,
            )[j],
    ensures
        free_until(linkage(l, admissible), l, x, y),
{
    let later = linkage(l, admissible);
    assert forall|j: int, w: usize|
        0 <= j < later.len() && later[j].contains(y) && #[trigger] later[j].contains(w) implies
        !before(l, w, x) by {
        assert(groups[j + shift].contains(w));
        lemma_before_in_part(l, order, w, x);
    }
}

/// A candidate that complete linkage leaves alone is not admissible with any
/// candidate behind it that no group begun earlier holds.
pub proof fn linkage_leaves_alone_what_fits_nobody(
    order: Seq<usize>,
    admissible: spec_fn(usize, usize) -> bool,
    x: usize,
    y: usize,
)
    requires
        order.no_duplicates(),
        order.contains(x),
        !reported(linkage(order, admissible), x),
        order.contains(y),
        before(order, x, y),
        free_until(linkage(order, admissible), order, x, y),
    ensures
        !admissible(x, y),
    decreases order.len(),
{
    let (g, l) = sweep(seq![order[0]], Seq::empty(), order.drop_first(), admissible);
    lemma_first_group(order, admissible);
    lemma_first_group_in_order(order, admissible);
    let groups = linkage(order, admissible);
    let later = linkage(l, admissible);
    let shift = if g.len() > 1 {
        1int
    } else {
        0int
    };
    if g.len() > 1 {
        lemma_ascending(g);
        assert(groups[0] == g.sort_by(ascending()));
        if g.contains(x) {
            assert(groups[0].contains(x));
        }
    }
    lemma_before_is_strict(order, x, y);
    if g.contains(x) {
        assert(g[0] == x);
        assert(!g.contains(y)) by {
            if g.contains(y) {
                assert(g[0] == y);
            }
        }
        let i = choose|i: int| 0 <= i < l.len() && l[i] == y;
        assert(!fits(g, l[i], admissible));
    } else {
        assert(l.contains(x));
        let p = choose|p: int| 0 <= p < order.len() && order[p] == x;
        assert(g.contains(g[0]));
        assert(order[0] != x);
        assert(before(order, order[0], x));
        if g.contains(y) {
            if g.len() > 1 {
                assert(groups[0].contains(y));
                assert(groups[0].contains(order[0]));
            } else {
                assert(y == order[0]);
                lemma_before_is_strict(order, order[0], x);
            }
        }
        assert(l.contains(y));
        assert forall|j: int| 0 <= j < later.len() implies groups[j + shift]
            == #[trigger] later[j] by {}
        if reported(later, x) {
            let j = choose|j: int| 0 <= j < later.len() && (#[trigger] later[j]).contains(x);
            assert(groups[j + shift].contains(x));
        }
        lemma_before_in_part(l, order, x, y);
        lemma_free_in_part(l, order, admissible, groups, shift, x, y);
        linkage_leaves_alone_what_fits_nobody(l, admissible, x, y);
    }
}

/// Every pair of every group that complete linkage makes is admissible: a
/// chain of admissible pairs never carries an inadmissible one into a group.
pub proof fn linkage_is_bounded(order: Seq<usize>, admissible: spec_fn(usize, usize) -> bool)
    requires
        order.no_duplicates(),
        symmetric(admissible),
    ensures
        bounded(linkage(order, admissible), admissible),
    decreases order.len(),
{
    if order.len() > 0 {
        let (g, l) = sweep(seq![order[0]], Seq::empty(), order.drop_first(), admissible);
        lemma_first_group(order, admissible);
        linkage_is_bounded(l, admissible);
        let later = linkage(l, admissible);
        if g.len() > 1 {
            lemma_ascending(g);
            let groups = linkage(order, admissible);
            assert forall|k: int, x: usize, y: usize|
                0 <= k < groups.len() && #[trigger] groups[k].contains(x)
                    && #[trigger] groups[k].contains(y) && x != y implies admissible(x, y) by {
                if k == 0 {
                    assert(g.contains(x) && g.contains(y));
                    let i = choose|i: int| 0 <= i < g.len() && g[i] == x;
                    let j = choose|j: int| 0 <= j < g.len() && g[j] == y;
                    if i < j {
                        assert(admissible(g[i], g[j]));
                    } else {
                        assert(admissible(g[j], g[i]));
                    }
                } else {
                    assert(later[k - 1].contains(x) && later[k - 1].contains(y));
                }
            }
        }
    }
}

/// Nothing that could be grouped is passed over: two candidates that complete
/// linkage reports in no group are not admissible with each other.
pub proof fn linkage_leaves_no_pair(
    order: Seq<usize>,
    admissible: spec_fn(usize, usize) -> bool,
    x: usize,
    y: usize,
)
    requires
        order.no_duplicates(),
        symmetric(admissible),
        order.contains(x),
        order.contains(y),
        x != y,
        !reported(linkage(order, admissible), x),
        !reported(linkage(order, admissible), y),
    ensures
        !admissible(x, y),
    decreases order.len(),
{
    let (g, l) = sweep(seq![order[0]], Seq::empty(), order.drop_first(), admissible);
    lemma_first_group(order, admissible);
    let later = linkage(l, admissible);
    let groups = linkage(order, admissible);
    if g.len() > 1 {
        lemma_ascending(g);
        assert(groups[0] == g.sort_by(ascending()));
        if g.contains(x) {
            assert(groups[0].contains(x));
        }
        if g.contains(y) {
            assert(groups[0].contains(y));
        }
        assert forall|z: usize| !reported(groups, z) implies !reported(later, z) by {
            if reported(later, z) {
                let k = choose|k: int| 0 <= k < later.len() && (#[trigger] later[k]).contains(z);
                assert(groups[k + 1] == later[k]);
            }
        }
    }
    if l.contains(x) && l.contains(y) {
        linkage_leaves_no_pair(l, admissible, x, y);
    } else {
        // The group is one candidate alone, and it is `x` or `y`.
        assert(g.len() == 1);
        let (alone, other) = if g.contains(x) {
            (x, y)
        } else {
            (y, x)
        };
        assert(g.contains(alone));
        assert(g[0] == alone);
        if g.contains(other) {
            assert(g[0] == other);
        }
        let i = choose|i: int| 0 <= i < l.len() && l[i] == other;
        assert(!fits(g, l[i], admissible));
    }
}

/// Whether some member of `group` is not admissible with `x`.
pub open spec fn refuses(
    group: Seq<usize>,
    x: usize,
    admissible: spec_fn(usize, usize) -> bool,
) -> bool {
    exists|y: usize| #[trigger] group.contains(y) && !admissible(y, x)
}

/// A group is refused a candidate that does not fit it.
proof fn lemma_refuses(group: Seq<usize>, x: usize, admissible: spec_fn(usize, usize) -> bool)
    requires
        !fits(group, x, admissible),
    ensures
        refuses(group, x, admissible),
{
    let k = choose|k: int| 0 <= k < group.len() && !admissible(#[trigger] group[k], x);
    assert(group.contains(group[k]));
}

/// A group cannot grow: a candidate that complete linkage reports in no group
/// is refused by some member of every group.
pub proof fn linkage_groups_cannot_grow(
    order: Seq<usize>,
    admissible: spec_fn(usize, usize) -> bool,
    k: int,
    x: usize,
)
    requires
        order.no_duplicates(),
        symmetric(admissible),
        order.contains(x),
        0 <= k < linkage(order, admissible).len(),
        !reported(linkage(order, admissible), x),
    ensures
        refuses(linkage(order, admissible)[k], x, admissible),
    decreases order.len(),
{
    let (g, l) = sweep(seq![order[0]], Seq::empty(), order.drop_first(), admissible);
    lemma_first_group(order, admissible);
    let later = linkage(l, admissible);
    let groups = linkage(order, admissible);
    let at = if g.len() > 1 {
        k - 1
    } else {
        k
    };
    if g.len() > 1 {
        lemma_ascending(g);
        assert(groups[0] == g.sort_by(ascending()));
        if g.contains(x) {
            assert(groups[0].contains(x));
        }
        assert forall|j: int| 0 <= j < later.len() implies groups[j + 1] == #[trigger] later[j] by {}
        if reported(later, x) {
            let j = choose|j: int| 0 <= j < later.len() && (#[trigger] later[j]).contains(x);
            assert(groups[j + 1].contains(x));
        }
    } else {
        assert(groups == later);
    }
    if g.contains(x) {
        // `x` is a group of one: everybody left was refused by it.
        assert(g[0] == x);
        linkage_makes_groups(l, admissible);
        let y = later[at][0];
        assert(l.contains(y));
        let i = choose|i: int| 0 <= i < l.len() && l[i] == y;
        assert(!fits(g, l[i], admissible));
        assert(!admissible(x, y));
        assert(later[at].contains(y));
        assert(!admissible(y, x));
    } else {
        let i = choose|i: int| 0 <= i < l.len() && l[i] == x;
        assert(!fits(g, l[i], admissible));
        if g.len() > 1 && k == 0 {
            lemma_refuses(g, x, admissible);
            let y = choose|y: usize| #[trigger] g.contains(y) && !admissible(y, x);
            assert(groups[0].contains(y));
        } else {
            linkage_groups_cannot_grow(l, admissible, at, x);
        }
    }
}

/// Two groups cannot be merged: every member of the later one is refused by
/// some member of the earlier one.
pub proof fn linkage_groups_cannot_merge(
    order: Seq<usize>,
    admissible: spec_fn(usize, usize) -> bool,
    j: int,
    k: int,
    x: usize,
)
    requires
        order.no_duplicates(),
        0 <= j < k < linkage(order, admissible).len(),
        linkage(order, admissible)[k].contains(x),
    ensures
        refuses(linkage(order, admissible)[j], x, admissible),
    decreases order.len(),
{
    let (g, l) = sweep(seq![order[0]], Seq::empty(), order.drop_first(), admissible);
    lemma_first_group(order, admissible);
    let later = linkage(l, admissible);
    let groups = linkage(order, admissible);
    if g.len() > 1 {
        lemma_ascending(g);
        assert(groups[0] == g.sort_by(ascending()));
        assert(groups[k] == later[k - 1]);
        if j == 0 {
            linkage_makes_groups(l, admissible);
            let group = later[k - 1];
            let a = choose|a: int| 0 <= a < group.len() && group[a] == x;
            assert(l.contains(later[k - 1][a]));
            let i = choose|i: int| 0 <= i < l.len() && l[i] == x;
            assert(!fits(g, l[i], admissible));
            lemma_refuses(g, x, admissible);
            let y = choose|y: usize| #[trigger] g.contains(y) && !admissible(y, x);
            assert(groups[0].contains(y));
        } else {
            assert(groups[j] == later[j - 1]);
            linkage_groups_cannot_merge(l, admissible, j - 1, k - 1, x);
        }
    } else {
        assert(groups == later);
        linkage_groups_cannot_merge(l, admissible, j, k, x);
    }
}

/// Whether no admissible pair of candidates crosses the border of `inside`.
pub open spec fn closed_under(
    inside: spec_fn(usize) -> bool,
    candidates: Seq<usize>,
    admissible: spec_fn(usize, usize) -> bool,
) -> bool {
    forall|a: usize, b: usize|
        candidates.contains(a) && candidates.contains(b) && a != b && #[trigger] admissible(a, b)
            ==> inside(a) == inside(b)
}

proof fn lemma_filter_first(s: Seq<usize>, pred: spec_fn(usize) -> bool)
    requires
        s.len() > 0,
    ensures
        s.filter(pred) == if pred(s[0]) {
            seq![s[0]] + s.drop_first().filter(pred)
        } else {
            s.drop_first().filter(pred)
        },
{
    s.drop_first().lemma_filter_prepend(s[0], pred);
    assert(seq![s[0]] + s.drop_first() =~= s);
}

/// A filter keeps exactly what it is meant to keep.
pub proof fn lemma_filter_members<A>(s: Seq<A>, keep: spec_fn(A) -> bool, x: A)
    ensures
        s.filter(keep).contains(x) <==> s.contains(x) && keep(x),
{
    broadcast use vstd::seq_lib::group_filter_ensures;

    let kept = s.filter(keep);
    if kept.contains(x) {
        s.lemma_filter_contains_rev(keep, x);
        let i = choose|i: int| 0 <= i < kept.len() && kept[i] == x;
        assert(keep(kept[i]));
    }
    if s.contains(x) && keep(x) {
        let i = choose|i: int| 0 <= i < s.len() && s[i] == x;
        assert(kept.contains(s[i]));
    }
}

/// Candidates outside do not stand in the way of a group inside.
proof fn lemma_sweep_inside(
    group: Seq<usize>,
    left: Seq<usize>,
    rest: Seq<usize>,
    admissible: spec_fn(usize, usize) -> bool,
    inside: spec_fn(usize) -> bool,
)
    requires
        group.len() > 0,
        forall|i: int|
            0 <= i < rest.len() && admissible(group[0], #[trigger] rest[i]) ==> inside(rest[i]),
    ensures
        ({
            let (g, l) = sweep(group, left, rest, admissible);
            sweep(group, left.filter(inside), rest.filter(inside), admissible) == (
                g,
                l.filter(inside),
            )
        }),
    decreases rest.len(),
{
    if rest.len() == 0 {
        assert(rest.filter(inside) =~= Seq::empty()) by {
            rest.lemma_filter_len(inside);
        }
    } else {
        let x = rest[0];
        let after = rest.drop_first();
        lemma_filter_first(rest, inside);
        left.lemma_filter_push(x, inside);
        let kept = rest.filter(inside);
        if inside(x) {
            assert(kept[0] == x);
            assert(kept.drop_first() =~= after.filter(inside));
        }
        if fits(group, x, admissible) {
            assert(admissible(group[0], rest[0]));
            lemma_sweep_inside(group.push(x), left, after, admissible, inside);
        } else {
            lemma_sweep_inside(group, left.push(x), after, admissible, inside);
        }
    }
}

/// A group outside takes nobody inside.
proof fn lemma_sweep_outside(
    group: Seq<usize>,
    left: Seq<usize>,
    rest: Seq<usize>,
    admissible: spec_fn(usize, usize) -> bool,
    inside: spec_fn(usize) -> bool,
)
    requires
        group.len() > 0,
        forall|i: int|
            0 <= i < rest.len() && admissible(group[0], #[trigger] rest[i]) ==> !inside(rest[i]),
    ensures
        sweep(group, left, rest, admissible).1.filter(inside) == left.filter(inside)
            + rest.filter(inside),
    decreases rest.len(),
{
    if rest.len() == 0 {
        rest.lemma_filter_len(inside);
        assert(left.filter(inside) + rest.filter(inside) =~= left.filter(inside));
    } else {
        let x = rest[0];
        let after = rest.drop_first();
        lemma_filter_first(rest, inside);
        left.lemma_filter_push(x, inside);
        if fits(group, x, admissible) {
            assert(admissible(group[0], rest[0]));
            lemma_sweep_outside(group.push(x), left, after, admissible, inside);
        } else {
            lemma_sweep_outside(group, left.push(x), after, admissible, inside);
            assert(left.push(x).filter(inside) + after.filter(inside) =~= left.filter(inside)
                + rest.filter(inside));
        }
    }
}

/// The groups that start inside.
pub open spec fn groups_inside(
    groups: Seq<Seq<usize>>,
    inside: spec_fn(usize) -> bool,
) -> Seq<Seq<usize>> {
    groups.filter(|g: Seq<usize>| inside(g[0]))
}

/// A part of the candidates that no admissible pair leaves is grouped the same
/// way alone as among all of them.
pub proof fn linkage_splits_by_component(
    order: Seq<usize>,
    admissible: spec_fn(usize, usize) -> bool,
    inside: spec_fn(usize) -> bool,
)
    requires
        order.no_duplicates(),
        closed_under(inside, order, admissible),
    ensures
        linkage(order.filter(inside), admissible) == groups_inside(
            linkage(order, admissible),
            inside,
        ),
    decreases order.len(),
{
    let starts = |g: Seq<usize>| inside(g[0]);
    let groups = linkage(order, admissible);
    if order.len() == 0 {
        order.lemma_filter_len(inside);
        assert(order.filter(inside).len() == 0);
        groups.lemma_filter_len(starts);
        assert(groups.filter(starts) =~= Seq::empty());
    } else {
        let seed = order[0];
        let rest = order.drop_first();
        let (g, l) = sweep(seq![seed], Seq::empty(), rest, admissible);
        lemma_first_group(order, admissible);
        assert forall|i: int| 0 <= i < rest.len() && admissible(seed, #[trigger] rest[i]) implies inside(
            rest[i],
        ) == inside(seed) by {
            assert(rest[i] == order[i + 1]);
            assert(order.contains(seed) && order.contains(rest[i]));
        }
        let none = Seq::<usize>::empty();
        none.lemma_filter_len(inside);
        assert(none.filter(inside) =~= none);
        lemma_filter_first(order, inside);
        assert(closed_under(inside, l, admissible));
        linkage_splits_by_component(l, admissible, inside);
        let later = linkage(l, admissible);
        let kept = order.filter(inside);
        if inside(seed) {
            lemma_sweep_inside(seq![seed], none, rest, admissible, inside);
            assert(kept[0] == seed);
            assert(kept.drop_first() =~= rest.filter(inside));
        } else {
            lemma_sweep_outside(seq![seed], none, rest, admissible, inside);
            assert(none.filter(inside) + rest.filter(inside) =~= kept);
        }
        if g.len() > 1 {
            lemma_ascending(g);
            let sorted = g.sort_by(ascending());
            assert(sorted.contains(sorted[0]));
            assert(g.contains(sorted[0]));
            assert(inside(sorted[0]) == inside(seed)) by {
                let i = choose|i: int| 0 <= i < g.len() && g[i] == sorted[0];
                if i > 0 {
                    assert(admissible(g[0], g[i]));
                    assert(g.contains(g[i]));
                    assert(order.contains(seed) && order.contains(g[i]));
                }
            }
            later.lemma_filter_prepend(sorted, starts);
            assert(groups.filter(starts) == if starts(sorted) {
                seq![sorted] + later.filter(starts)
            } else {
                later.filter(starts)
            });
        }
    }
}

/// The shapes in a group, each as often as it occurs.
pub open spec fn shapes_in(group: Seq<usize>, shape: spec_fn(usize) -> u64) -> Multiset<u64> {
    group.map_values(shape).to_multiset()
}

/// The shapes in each group.
pub open spec fn shapes_of(
    groups: Seq<Seq<usize>>,
    shape: spec_fn(usize) -> u64,
) -> Seq<Multiset<u64>> {
    groups.map_values(|g: Seq<usize>| shapes_in(g, shape))
}

/// Whether the shapes of two different candidates decide if they are
/// admissible.
pub open spec fn decided_by_shape(
    admissible: spec_fn(usize, usize) -> bool,
    candidates: Seq<usize>,
    shape: spec_fn(usize) -> u64,
    rule: spec_fn(u64, u64) -> bool,
) -> bool {
    forall|a: usize, b: usize|
        candidates.contains(a) && candidates.contains(b) && a != b ==> #[trigger] admissible(a, b)
            == rule(shape(a), shape(b))
}

/// Reordering a sequence reorders what is read off it.
pub proof fn lemma_map_permutes<A, B>(s: Seq<A>, t: Seq<A>, f: spec_fn(A) -> B)
    requires
        s.to_multiset() == t.to_multiset(),
    ensures
        s.map_values(f).to_multiset() == t.map_values(f).to_multiset(),
    decreases s.len(),
{
    broadcast use vstd::seq_lib::group_to_multiset_ensures;

    assert(s.len() == s.to_multiset().len() && t.len() == t.to_multiset().len());
    if s.len() == 0 {
        assert(s.map_values(f) =~= t.map_values(f));
    } else {
        let x = s.last();
        assert(s.contains(x));
        assert(t.to_multiset().count(x) > 0);
        let i = choose|i: int| 0 <= i < t.len() && t[i] == x;
        let fewer = s.drop_last();
        let others = t.remove(i);
        assert(fewer.push(x) =~= s);
        assert(others.to_multiset() == t.to_multiset().remove(x));
        assert(fewer.to_multiset() =~= others.to_multiset());
        lemma_map_permutes(fewer, others, f);
        assert(s.map_values(f) =~= fewer.map_values(f).push(f(x)));
        assert(others.map_values(f) =~= t.map_values(f).remove(i));
        assert(t.map_values(f)[i] == f(x));
        assert(t.map_values(f).to_multiset().count(f(x)) > 0) by {
            assert(t.map_values(f).contains(f(x)));
        }
        assert(s.map_values(f).to_multiset() =~= t.map_values(f).to_multiset());
    }
}

/// Sweeps over candidates of the same shapes take the same shapes.
proof fn lemma_sweep_shapes(
    first: (Seq<usize>, Seq<usize>, Seq<usize>),
    second: (Seq<usize>, Seq<usize>, Seq<usize>),
    candidates: (Seq<usize>, Seq<usize>),
    admissible: (spec_fn(usize, usize) -> bool, spec_fn(usize, usize) -> bool),
    shape: (spec_fn(usize) -> u64, spec_fn(usize) -> u64),
    rule: spec_fn(u64, u64) -> bool,
)
    requires
        decided_by_shape(admissible.0, candidates.0, shape.0, rule),
        decided_by_shape(admissible.1, candidates.1, shape.1, rule),
        (first.0 + first.2).no_duplicates(),
        (second.0 + second.2).no_duplicates(),
        forall|i: int| 0 <= i < first.0.len() ==> candidates.0.contains(#[trigger] first.0[i]),
        forall|i: int| 0 <= i < first.2.len() ==> candidates.0.contains(#[trigger] first.2[i]),
        forall|i: int| 0 <= i < second.0.len() ==> candidates.1.contains(#[trigger] second.0[i]),
        forall|i: int| 0 <= i < second.2.len() ==> candidates.1.contains(#[trigger] second.2[i]),
        first.0.map_values(shape.0) == second.0.map_values(shape.1),
        first.1.map_values(shape.0) == second.1.map_values(shape.1),
        first.2.map_values(shape.0) == second.2.map_values(shape.1),
    ensures
        ({
            let (g, l) = sweep(first.0, first.1, first.2, admissible.0);
            let (h, m) = sweep(second.0, second.1, second.2, admissible.1);
            &&& g.map_values(shape.0) == h.map_values(shape.1)
            &&& l.map_values(shape.0) == m.map_values(shape.1)
        }),
    decreases first.2.len(),
{
    let (group, left, rest) = first;
    let (troop, over, tail) = second;
    assert(rest.len() == rest.map_values(shape.0).len() && tail.len() == tail.map_values(
        shape.1,
    ).len());
    assert(group.len() == group.map_values(shape.0).len() && troop.len() == troop.map_values(
        shape.1,
    ).len());
    if rest.len() > 0 {
        let x = rest[0];
        let y = tail[0];
        let after = rest.drop_first();
        let behind = tail.drop_first();
        assert(rest.map_values(shape.0)[0] == tail.map_values(shape.1)[0]);
        assert(shape.0(x) == shape.1(y));
        assert forall|k: int| 0 <= k < group.len() implies admissible.0(#[trigger] group[k], x)
            == admissible.1(troop[k], y) by {
            assert(group.map_values(shape.0)[k] == troop.map_values(shape.1)[k]);
            assert((group + rest)[k] == group[k] && (group + rest)[group.len() as int] == x);
            assert((troop + tail)[k] == troop[k] && (troop + tail)[troop.len() as int] == y);
        }
        assert(fits(group, x, admissible.0) == fits(troop, y, admissible.1)) by {
            if fits(group, x, admissible.0) {
                assert forall|k: int| 0 <= k < troop.len() implies admissible.1(
                    #[trigger] troop[k],
                    y,
                ) by {
                    assert(admissible.0(group[k], x));
                }
            }
        }
        assert(after.map_values(shape.0) =~= rest.map_values(shape.0).drop_first());
        assert(behind.map_values(shape.1) =~= tail.map_values(shape.1).drop_first());
        assert forall|i: int| 0 <= i < after.len() implies candidates.0.contains(
            #[trigger] after[i],
        ) by {
            assert(after[i] == rest[i + 1]);
        }
        assert forall|i: int| 0 <= i < behind.len() implies candidates.1.contains(
            #[trigger] behind[i],
        ) by {
            assert(behind[i] == tail[i + 1]);
        }
        if fits(group, x, admissible.0) {
            assert(group.push(x) + after =~= group + rest);
            assert(troop.push(y) + behind =~= troop + tail);
            assert(group.push(x).map_values(shape.0) =~= group.map_values(shape.0).push(
                shape.0(x),
            ));
            assert(troop.push(y).map_values(shape.1) =~= troop.map_values(shape.1).push(
                shape.1(y),
            ));
            lemma_sweep_shapes(
                (group.push(x), left, after),
                (troop.push(y), over, behind),
                candidates,
                admissible,
                shape,
                rule,
            );
        } else {
            lemma_drop_keeps_distinct(group, rest);
            lemma_drop_keeps_distinct(troop, tail);
            assert(left.push(x).map_values(shape.0) =~= left.map_values(shape.0).push(
                shape.0(x),
            ));
            assert(over.push(y).map_values(shape.1) =~= over.map_values(shape.1).push(
                shape.1(y),
            ));
            lemma_sweep_shapes(
                (group, left.push(x), after),
                (troop, over.push(y), behind),
                candidates,
                admissible,
                shape,
                rule,
            );
        }
    }
}

proof fn lemma_drop_keeps_distinct(group: Seq<usize>, rest: Seq<usize>)
    requires
        rest.len() > 0,
        (group + rest).no_duplicates(),
    ensures
        (group + rest.drop_first()).no_duplicates(),
{
    let whole = group + rest;
    let fewer = group + rest.drop_first();
    assert forall|i: int, j: int|
        0 <= i < fewer.len() && 0 <= j < fewer.len() && i != j implies fewer[i] != fewer[j] by {
        let a = if i < group.len() {
            i
        } else {
            i + 1
        };
        let b = if j < group.len() {
            j
        } else {
            j + 1
        };
        assert(whole[a] == fewer[i] && whole[b] == fewer[j]);
    }
}

/// Where shapes alone decide what is admissible, shapes alone decide the
/// groups: candidates whose shapes come in the same order fall into groups of
/// the same shapes, whoever they are.
pub proof fn linkage_depends_on_shapes(
    order: Seq<usize>,
    admissible: spec_fn(usize, usize) -> bool,
    shape: spec_fn(usize) -> u64,
    order2: Seq<usize>,
    admissible2: spec_fn(usize, usize) -> bool,
    shape2: spec_fn(usize) -> u64,
    rule: spec_fn(u64, u64) -> bool,
)
    requires
        order.no_duplicates(),
        order2.no_duplicates(),
        decided_by_shape(admissible, order, shape, rule),
        decided_by_shape(admissible2, order2, shape2, rule),
        order.map_values(shape) == order2.map_values(shape2),
    ensures
        shapes_of(linkage(order, admissible), shape) == shapes_of(
            linkage(order2, admissible2),
            shape2,
        ),
    decreases order.len(),
{
    assert(order.len() == order.map_values(shape).len() && order2.len() == order2.map_values(
        shape2,
    ).len());
    if order.len() == 0 {
        assert(shapes_of(linkage(order, admissible), shape) =~= shapes_of(
            linkage(order2, admissible2),
            shape2,
        ));
    } else {
        let rest = order.drop_first();
        let rest2 = order2.drop_first();
        let none = Seq::<usize>::empty();
        let seed = seq![order[0]];
        let seed2 = seq![order2[0]];
        let (g, l) = sweep(seed, none, rest, admissible);
        let (h, m) = sweep(seed2, none, rest2, admissible2);
        lemma_first_group(order, admissible);
        lemma_first_group(order2, admissible2);
        assert(seed + rest =~= order && seed2 + rest2 =~= order2);
        assert(order.map_values(shape)[0] == shape(order[0]));
        assert(order2.map_values(shape2)[0] == shape2(order2[0]));
        assert(seed.map_values(shape) =~= seed2.map_values(shape2));
        assert(rest.map_values(shape) =~= order.map_values(shape).drop_first());
        assert(rest2.map_values(shape2) =~= order2.map_values(shape2).drop_first());
        assert(none.map_values(shape) =~= none.map_values(shape2));
        assert forall|i: int| 0 <= i < rest.len() implies order.contains(#[trigger] rest[i]) by {
            assert(rest[i] == order[i + 1]);
        }
        assert forall|i: int| 0 <= i < rest2.len() implies order2.contains(#[trigger] rest2[i]) by {
            assert(rest2[i] == order2[i + 1]);
        }
        lemma_sweep_shapes(
            (seed, none, rest),
            (seed2, none, rest2),
            (order, order2),
            (admissible, admissible2),
            (shape, shape2),
            rule,
        );
        assert(decided_by_shape(admissible, l, shape, rule));
        assert(decided_by_shape(admissible2, m, shape2, rule));
        linkage_depends_on_shapes(l, admissible, shape, m, admissible2, shape2, rule);
        assert(g.len() == g.map_values(shape).len() && h.len() == h.map_values(shape2).len());
        let read = |k: Seq<usize>| shapes_in(k, shape);
        let read2 = |k: Seq<usize>| shapes_in(k, shape2);
        if g.len() > 1 {
            let sorted = g.sort_by(ascending());
            let sorted2 = h.sort_by(ascending());
            assert(total_ordering(ascending()));
            g.lemma_sort_by_ensures(ascending());
            h.lemma_sort_by_ensures(ascending());
            lemma_map_permutes(sorted, g, shape);
            lemma_map_permutes(sorted2, h, shape2);
            assert((seq![sorted] + linkage(l, admissible)).map_values(read) =~= seq![
                shapes_in(sorted, shape),
            ] + linkage(l, admissible).map_values(read));
            assert((seq![sorted2] + linkage(m, admissible2)).map_values(read2) =~= seq![
                shapes_in(sorted2, shape2),
            ] + linkage(m, admissible2).map_values(read2));
        }
    }
}

/// Two candidates of one shape fall into one group, where shapes alone decide
/// what is admissible and a shape is admissible with itself.
pub proof fn equal_shapes_stay_together(
    order: Seq<usize>,
    admissible: spec_fn(usize, usize) -> bool,
    shape: spec_fn(usize) -> u64,
    rule: spec_fn(u64, u64) -> bool,
    x: usize,
    y: usize,
)
    requires
        order.no_duplicates(),
        symmetric(admissible),
        decided_by_shape(admissible, order, shape, rule),
        order.contains(x),
        order.contains(y),
        x != y,
        shape(x) == shape(y),
        rule(shape(x), shape(x)),
    ensures
        exists|k: int|
            0 <= k < linkage(order, admissible).len() && #[trigger] linkage(
                order,
                admissible,
            )[k].contains(x) && linkage(order, admissible)[k].contains(y),
    decreases order.len(),
{
    let (g, l) = sweep(seq![order[0]], Seq::empty(), order.drop_first(), admissible);
    lemma_first_group(order, admissible);
    let groups = linkage(order, admissible);
    if l.contains(x) && l.contains(y) {
        assert(decided_by_shape(admissible, l, shape, rule));
        equal_shapes_stay_together(l, admissible, shape, rule, x, y);
        let later = linkage(l, admissible);
        let k = choose|k: int|
            0 <= k < later.len() && #[trigger] later[k].contains(x) && later[k].contains(y);
        if g.len() > 1 {
            assert(groups[k + 1] == later[k]);
        }
    } else {
        let (member, other) = if g.contains(x) {
            (x, y)
        } else {
            (y, x)
        };
        assert(g.contains(member));
        if l.contains(other) {
            let i = choose|i: int| 0 <= i < l.len() && l[i] == other;
            assert(!fits(g, l[i], admissible));
            let k = choose|k: int| 0 <= k < g.len() && !admissible(#[trigger] g[k], other);
            assert(g.contains(g[k]));
            let at = choose|at: int| 0 <= at < g.len() && g[at] == member;
            if k < at {
                assert(admissible(g[k], g[at]));
            } else if at < k {
                assert(admissible(g[at], g[k]));
                assert(admissible(g[k], g[at]));
            }
            assert(false);
        }
        assert(g.contains(x) && g.contains(y));
        if g.len() == 1 {
            assert(g[0] == x && g[0] == y);
        }
        lemma_ascending(g);
        assert(groups[0] == g.sort_by(ascending()));
        assert(groups[0].contains(x) && groups[0].contains(y));
    }
}

} // verus!
