//! Complete linkage: splitting a component into groups where every pair is
//! admissible.
//!
//! A connected component is not a finding. Similarity is not transitive, so
//! closing it transitively lets a chain of admissible pairs carry two members
//! into one group that resemble nothing of each other. Complete linkage
//! restores the bound by construction: a member joins only if it is admissible
//! with every member already in the group.

use vstd::laws_cmp::{
    obeys_cmp, obeys_cmp_ord, obeys_cmp_partial_ord, obeys_partial_cmp_spec_properties,
};
use vstd::laws_eq::obeys_eq_spec_properties;
use vstd::prelude::*;
use vstd::relations::{sorted_by, total_ordering};
use vstd::seq_lib::lemma_sorted_unique;
use vstd::std_specs::cmp::{OrdSpec, PartialEqSpec, PartialOrdSpec};

use super::linkage::{
    ascending, before, fits, has_lead, leads, lemma_map_permutes, lemma_members_are_candidates,
    linkage, linkage_is_bounded_in_order, linkage_lists_groups_in_order, sweep,
};
use crate::sorting::sort;

verus! {

/// Whether the key `x` comes strictly before the key `y`.
pub open spec fn precedes<K: Ord>(x: K, y: K) -> bool {
    x.cmp_spec(&y) == core::cmp::Ordering::Less
}

/// The order of candidates by key, ties by index.
pub open spec fn by_key<K: Ord>(key: spec_fn(usize) -> K) -> spec_fn(usize, usize) -> bool {
    |a: usize, b: usize| precedes(key(a), key(b)) || (!precedes(key(b), key(a)) && a <= b)
}

/// Whether `key` answers as the function `k` does, on the candidates.
pub open spec fn answers_key<K, F: Fn(usize) -> K>(
    key: F,
    k: spec_fn(usize) -> K,
    candidates: Seq<usize>,
) -> bool {
    forall|i: usize, v: K|
        candidates.contains(i) && #[trigger] key.ensures((i,), v) ==> v == k(i)
}

/// Whether `test` answers as the relation `r` does, on pairs of candidates.
pub open spec fn answers_test<A: Fn(usize, usize) -> bool>(
    test: A,
    r: spec_fn(usize, usize) -> bool,
    candidates: Seq<usize>,
) -> bool {
    forall|a: usize, b: usize, v: bool|
        candidates.contains(a) && candidates.contains(b) && #[trigger] test.ensures((a, b), v) ==> v
            == r(a, b)
}

/// Keys that obey their own order give a total order of candidates.
pub proof fn lemma_by_key_is_total<K: Ord>(key: spec_fn(usize) -> K)
    requires
        obeys_cmp::<K>(),
    ensures
        total_ordering(by_key(key)),
{
    reveal(obeys_eq_spec_properties);
    reveal(obeys_partial_cmp_spec_properties);
    reveal(obeys_cmp_partial_ord);
    reveal(obeys_cmp_ord);
    let leq = by_key(key);
    assert forall|a: usize, b: usize| #[trigger] leq(a, b) && #[trigger] leq(b, a) implies a == b by {
        lemma_precedes_is_strict(key(a), key(b), key(a));
    }
    assert forall|a: usize, b: usize, c: usize| #[trigger]
        leq(a, b) && #[trigger] leq(b, c) implies leq(a, c) by {
        lemma_precedes_is_strict(key(a), key(b), key(c));
        lemma_precedes_is_strict(key(c), key(b), key(a));
        lemma_precedes_is_strict(key(b), key(c), key(a));
        lemma_precedes_is_strict(key(c), key(a), key(b));
    }
    assert forall|a: usize| #[trigger] leq(a, a) by {
        lemma_precedes_is_strict(key(a), key(a), key(a));
    }
    assert forall|a: usize, b: usize| #[trigger] leq(a, b) || leq(b, a) by {
        lemma_precedes_is_strict(key(a), key(b), key(a));
    }
}

/// The order of candidates by a number, ties by index.
pub open spec fn by_number(number: spec_fn(usize) -> u64) -> spec_fn(usize, usize) -> bool {
    |a: usize, b: usize| number(a) < number(b) || (number(a) == number(b) && a <= b)
}

/// Numbers are keys, and the order by key is the order by number.
pub proof fn lemma_numbers_are_keys(number: spec_fn(usize) -> u64)
    ensures
        obeys_cmp::<u64>(),
        by_key(number) == by_number(number),
        total_ordering(by_number(number)),
{
    broadcast use vstd::laws_cmp::group_laws_cmp;

    assert(obeys_cmp::<u64>());
    assert(by_key(number) =~= by_number(number));
    lemma_by_key_is_total(number);
}

/// What keys that obey their order give: it is strict, it chains, and a key
/// between two keys stands apart from one of them.
proof fn lemma_precedes_is_strict<K: Ord>(x: K, y: K, z: K)
    requires
        obeys_cmp::<K>(),
    ensures
        !precedes(x, x),
        precedes(x, y) ==> !precedes(y, x),
        precedes(x, y) && precedes(y, z) ==> precedes(x, z),
        precedes(x, z) ==> precedes(x, y) || precedes(y, z),
{
    reveal(obeys_eq_spec_properties);
    reveal(obeys_partial_cmp_spec_properties);
    reveal(obeys_cmp_partial_ord);
    reveal(obeys_cmp_ord);
    assert(x.partial_cmp_spec(&y) == Some(x.cmp_spec(&y)));
    assert(y.partial_cmp_spec(&x) == Some(y.cmp_spec(&x)));
    assert(y.partial_cmp_spec(&z) == Some(y.cmp_spec(&z)));
    assert(z.partial_cmp_spec(&y) == Some(z.cmp_spec(&y)));
    assert(x.partial_cmp_spec(&z) == Some(x.cmp_spec(&z)));
    assert(z.partial_cmp_spec(&x) == Some(z.cmp_spec(&x)));
    assert(x.partial_cmp_spec(&x) == Some(x.cmp_spec(&x)));
    if precedes(x, z) && !precedes(x, y) && !precedes(y, z) {
        assert(y.eq_spec(&x) || precedes(y, x));
        assert(z.eq_spec(&y) || precedes(z, y));
        assert(false);
    }
}

/// The candidates of `order` from `from` up to `to` that no group has taken.
spec fn untaken(order: Seq<usize>, taken: Seq<bool>, from: int, to: int) -> Seq<usize>
    decreases to - from,
{
    if from >= to {
        Seq::empty()
    } else if taken[from] {
        untaken(order, taken, from + 1, to)
    } else {
        seq![order[from]] + untaken(order, taken, from + 1, to)
    }
}

proof fn lemma_untaken_agrees(
    order: Seq<usize>,
    taken: Seq<bool>,
    other: Seq<bool>,
    from: int,
    to: int,
)
    requires
        forall|p: int| from <= p < to ==> taken[p] == other[p],
    ensures
        untaken(order, taken, from, to) == untaken(order, other, from, to),
    decreases to - from,
{
    if from < to {
        lemma_untaken_agrees(order, taken, other, from + 1, to);
    }
}

proof fn lemma_untaken_extends(order: Seq<usize>, taken: Seq<bool>, from: int, to: int)
    requires
        from <= to,
    ensures
        untaken(order, taken, from, to + 1) == if taken[to] {
            untaken(order, taken, from, to)
        } else {
            untaken(order, taken, from, to).push(order[to])
        },
    decreases to - from,
{
    if from < to {
        lemma_untaken_extends(order, taken, from + 1, to);
        assert(untaken(order, taken, from, to + 1) =~= if taken[to] {
            untaken(order, taken, from, to)
        } else {
            untaken(order, taken, from, to).push(order[to])
        });
    } else {
        assert(untaken(order, taken, to + 1, to + 1) =~= Seq::empty());
        assert(untaken(order, taken, from, to + 1) =~= if taken[to] {
            untaken(order, taken, from, to)
        } else {
            untaken(order, taken, from, to).push(order[to])
        });
    }
}

proof fn lemma_untaken_all(order: Seq<usize>, taken: Seq<bool>, from: int)
    requires
        0 <= from <= order.len(),
        forall|p: int| 0 <= p < order.len() ==> !taken[p],
    ensures
        untaken(order, taken, from, order.len() as int) == order.skip(from),
    decreases order.len() - from,
{
    if from < order.len() {
        lemma_untaken_all(order, taken, from + 1);
        assert(seq![order[from]] + order.skip(from + 1) =~= order.skip(from));
    } else {
        assert(order.skip(from) =~= Seq::empty());
    }
}

/// Sort indices upwards.
fn sort_ascending(items: &Vec<usize>) -> (sorted: Vec<usize>)
    ensures
        sorted@ == items@.sort_by(ascending()),
{
    let leq = |a: usize, b: usize| -> (r: bool)
        ensures
            r == (a <= b),
        { a <= b };
    sort(items, &leq, Ghost(ascending()))
}

/// Where a run stands between two seeds: the groups so far and the linkage of
/// whoever is not taken are the linkage of all.
spec fn seeded(
    order: Seq<usize>,
    taken: Seq<bool>,
    seed: int,
    groups: Seq<Seq<usize>>,
    r: spec_fn(usize, usize) -> bool,
) -> bool {
    groups + linkage(untaken(order, taken, seed, order.len() as int), r) == linkage(order, r)
}

/// Whether `allowed` says of each position from `from` up to `to` if its
/// candidate is free and fits the group.
spec fn allows(
    order: Seq<usize>,
    taken: Seq<bool>,
    allowed: Seq<bool>,
    from: int,
    to: int,
    group: Seq<usize>,
    r: spec_fn(usize, usize) -> bool,
) -> bool {
    forall|p: int|
        from <= p < to ==> #[trigger] allowed[p] == (!taken[p] && fits(group, order[p], r))
}

/// Where a sweep stands before position `next`: what it still has to do gives
/// what the whole sweep from `first` gives.
spec fn sweeping(
    order: Seq<usize>,
    taken: Seq<bool>,
    seed: int,
    next: int,
    group: Seq<usize>,
    first: Seq<bool>,
    r: spec_fn(usize, usize) -> bool,
) -> bool {
    let n = order.len() as int;
    sweep(
        group,
        untaken(order, taken, seed + 1, next),
        untaken(order, taken, next, n),
        r,
    ) == sweep(seq![order[seed]], Seq::empty(), untaken(order, first, seed + 1, n), r)
}

proof fn lemma_fits_one_more(
    group: Seq<usize>,
    member: usize,
    x: usize,
    r: spec_fn(usize, usize) -> bool,
)
    ensures
        fits(group.push(member), x, r) == (fits(group, x, r) && r(member, x)),
{
    let grown = group.push(member);
    if fits(grown, x, r) {
        assert forall|q: int| 0 <= q < group.len() implies r(#[trigger] group[q], x) by {
            assert(grown[q] == group[q]);
        }
        assert(r(grown[group.len() as int], x));
    }
    if fits(group, x, r) && r(member, x) {
        assert forall|q: int| 0 <= q < grown.len() implies r(#[trigger] grown[q], x) by {
            if q < group.len() {
                assert(grown[q] == group[q]);
            }
        }
    }
}

/// A candidate that does not fit, or is taken, is passed over.
proof fn lemma_passed_over(
    order: Seq<usize>,
    taken: Seq<bool>,
    seed: int,
    next: int,
    group: Seq<usize>,
    first: Seq<bool>,
    r: spec_fn(usize, usize) -> bool,
)
    requires
        0 <= seed < next < order.len(),
        taken.len() == order.len(),
        sweeping(order, taken, seed, next, group, first, r),
        taken[next] || !fits(group, order[next], r),
    ensures
        sweeping(order, taken, seed, next + 1, group, first, r),
{
    let n = order.len() as int;
    lemma_untaken_extends(order, taken, seed + 1, next);
    if !taken[next] {
        let rest = untaken(order, taken, next, n);
        assert(rest[0] == order[next]);
        assert(rest.drop_first() =~= untaken(order, taken, next + 1, n));
    }
}

/// A free candidate that fits joins the group.
proof fn lemma_joins(
    order: Seq<usize>,
    taken: Seq<bool>,
    seed: int,
    next: int,
    group: Seq<usize>,
    first: Seq<bool>,
    r: spec_fn(usize, usize) -> bool,
)
    requires
        0 <= seed < next < order.len(),
        taken.len() == order.len(),
        sweeping(order, taken, seed, next, group, first, r),
        !taken[next],
        fits(group, order[next], r),
    ensures
        sweeping(
            order,
            taken.update(next, true),
            seed,
            next + 1,
            group.push(order[next]),
            first,
            r,
        ),
{
    let n = order.len() as int;
    let after = taken.update(next, true);
    let rest = untaken(order, taken, next, n);
    assert(rest[0] == order[next]);
    assert(rest.drop_first() =~= untaken(order, taken, next + 1, n));
    lemma_untaken_agrees(order, taken, after, seed + 1, next);
    lemma_untaken_agrees(order, taken, after, next + 1, n);
    lemma_untaken_extends(order, after, seed + 1, next);
}

/// A finished sweep is one step of the linkage.
proof fn lemma_next_seed(
    order: Seq<usize>,
    taken: Seq<bool>,
    seed: int,
    group: Seq<usize>,
    first: Seq<bool>,
    groups: Seq<Seq<usize>>,
    r: spec_fn(usize, usize) -> bool,
)
    requires
        0 <= seed < order.len(),
        first.len() == order.len(),
        !first[seed],
        seeded(order, first, seed, groups, r),
        sweeping(
            order,
            taken,
            seed,
            order.len() as int,
            group,
            first.update(seed, true),
            r,
        ),
    ensures
        seeded(
            order,
            taken,
            seed + 1,
            if group.len() > 1 {
                groups.push(group.sort_by(ascending()))
            } else {
                groups
            },
            r,
        ),
{
    let n = order.len() as int;
    let open = untaken(order, first, seed, n);
    lemma_untaken_agrees(order, first, first.update(seed, true), seed + 1, n);
    assert(open[0] == order[seed]);
    assert(open.drop_first() =~= untaken(order, first, seed + 1, n));
    assert(untaken(order, taken, n, n) =~= Seq::empty());
    let rest = linkage(untaken(order, taken, seed + 1, n), r);
    let sorted = group.sort_by(ascending());
    assert(groups.push(sorted) + rest =~= groups + (seq![sorted] + rest));
}

/// The groups of `linkage`, one sweep per seed and per member added.
fn greedy<A: Fn(usize, usize) -> bool>(order: &Vec<usize>, admissible: A) -> (groups: Vec<
    Vec<usize>,
>)
    requires
        forall|a: usize, b: usize|
            order@.contains(a) && order@.contains(b) ==> #[trigger] admissible.requires((a, b)),
    ensures
        forall|r: spec_fn(usize, usize) -> bool| #[trigger]
            answers_test(admissible, r, order@) ==> groups@.map_values(|g: Vec<usize>| g@)
                == linkage(order@, r),
{
    let n: usize = order.len();
    let mut taken: Vec<bool> = Vec::new();
    // `allowed[m]`: is `order[m]` still admissible with every member taken so
    // far. Rebuilt per seed, narrowed by each member added.
    let mut allowed: Vec<bool> = Vec::new();
    let mut k: usize = 0;
    while k < n
        invariant
            k <= n,
            taken@.len() == k,
            allowed@.len() == k,
            forall|p: int| 0 <= p < k ==> !#[trigger] taken@[p],
        decreases n - k,
    {
        taken.push(false);
        allowed.push(false);
        k += 1;
    }
    let mut groups: Vec<Vec<usize>> = Vec::new();
    let mut seed: usize = 0;
    proof {
        lemma_untaken_all(order@, taken@, 0);
        assert(order@.skip(0) =~= order@);
        let none = groups@.map_values(|g: Vec<usize>| g@);
        assert forall|r: spec_fn(usize, usize) -> bool| #[trigger]
            answers_test(admissible, r, order@) implies seeded(order@, taken@, 0, none, r) by {
            assert(none + linkage(order@, r) =~= linkage(order@, r));
        }
    }
    while seed < n
        invariant
            seed <= n,
            n == order@.len(),
            taken@.len() == n,
            allowed@.len() == n,
            forall|a: usize, b: usize|
                order@.contains(a) && order@.contains(b) ==> #[trigger] admissible.requires(
                    (a, b),
                ),
            forall|r: spec_fn(usize, usize) -> bool| #[trigger]
                answers_test(admissible, r, order@) ==> seeded(
                    order@,
                    taken@,
                    seed as int,
                    groups@.map_values(|g: Vec<usize>| g@),
                    r,
                ),
        decreases n - seed,
    {
        if taken[seed] {
            seed += 1;
            continue ;
        }
        let ghost first = taken@;
        taken.set(seed, true);
        let mut group: Vec<usize> = Vec::new();
        group.push(order[seed]);
        let mut m: usize = seed + 1;
        while m < n
            invariant
                seed < m <= n,
                n == order@.len(),
                allowed@.len() == n,
                taken@.len() == n,
                group@ == seq![order@[seed as int]],
                forall|a: usize, b: usize|
                    order@.contains(a) && order@.contains(b) ==> #[trigger] admissible.requires(
                        (a, b),
                    ),
                forall|r: spec_fn(usize, usize) -> bool| #[trigger]
                    answers_test(admissible, r, order@) ==> allows(
                        order@,
                        taken@,
                        allowed@,
                        seed + 1,
                        m as int,
                        group@,
                        r,
                    ),
            decreases n - m,
        {
            assert(order@.contains(order@[seed as int]));
            assert(order@.contains(order@[m as int]));
            let fine = !taken[m] && admissible(order[seed], order[m]);
            allowed.set(m, fine);
            proof {
                assert forall|r: spec_fn(usize, usize) -> bool| #[trigger]
                    answers_test(admissible, r, order@) implies allows(
                    order@,
                    taken@,
                    allowed@,
                    seed + 1,
                    m + 1,
                    group@,
                    r,
                ) by {
                    assert(fits(group@, order@[m as int], r) == r(group@[0], order@[m as int]));
                }
            }
            m += 1;
        }
        let mut next: usize = seed + 1;
        proof {
            assert(untaken(order@, taken@, seed + 1, seed + 1) =~= Seq::empty());
        }
        while next < n
            invariant
                seed < next <= n,
                n == order@.len(),
                allowed@.len() == n,
                taken@.len() == n,
                first.len() == n,
                forall|a: usize, b: usize|
                    order@.contains(a) && order@.contains(b) ==> #[trigger] admissible.requires(
                        (a, b),
                    ),
                forall|r: spec_fn(usize, usize) -> bool| #[trigger]
                    answers_test(admissible, r, order@) ==> allows(
                        order@,
                        taken@,
                        allowed@,
                        next as int,
                        n as int,
                        group@,
                        r,
                    ) && sweeping(
                        order@,
                        taken@,
                        seed as int,
                        next as int,
                        group@,
                        first.update(seed as int, true),
                        r,
                    ),
            decreases n - next,
        {
            let ghost before = taken@;
            let ghost group_before = group@;
            let ghost start = first.update(seed as int, true);
            if !allowed[next] {
                proof {
                    assert forall|r: spec_fn(usize, usize) -> bool| #[trigger]
                        answers_test(admissible, r, order@) implies sweeping(
                        order@,
                        before,
                        seed as int,
                        next + 1,
                        group@,
                        start,
                        r,
                    ) by {
                        lemma_passed_over(
                            order@,
                            before,
                            seed as int,
                            next as int,
                            group@,
                            start,
                            r,
                        );
                    }
                }
                next += 1;
                continue ;
            }
            taken.set(next, true);
            group.push(order[next]);
            proof {
                assert forall|r: spec_fn(usize, usize) -> bool| #[trigger]
                    answers_test(admissible, r, order@) implies sweeping(
                    order@,
                    taken@,
                    seed as int,
                    next + 1,
                    group@,
                    start,
                    r,
                ) by {
                    lemma_joins(
                        order@,
                        before,
                        seed as int,
                        next as int,
                        group_before,
                        start,
                        r,
                    );
                }
            }
            let mut m: usize = next + 1;
            while m < n
                invariant
                    next < m <= n,
                    next < n,
                    n == order@.len(),
                    allowed@.len() == n,
                    taken@.len() == n,
                    group@ == group_before.push(order@[next as int]),
                    forall|a: usize, b: usize|
                        order@.contains(a) && order@.contains(b)
                            ==> #[trigger] admissible.requires((a, b)),
                    forall|r: spec_fn(usize, usize) -> bool| #[trigger]
                        answers_test(admissible, r, order@) ==> allows(
                            order@,
                            taken@,
                            allowed@,
                            m as int,
                            n as int,
                            group_before,
                            r,
                        ) && allows(
                            order@,
                            taken@,
                            allowed@,
                            next + 1,
                            m as int,
                            group@,
                            r,
                        ),
                decreases n - m,
            {
                assert(order@.contains(order@[next as int]));
                assert(order@.contains(order@[m as int]));
                let fine = allowed[m] && admissible(order[next], order[m]);
                let ghost allowed_before = allowed@;
                allowed.set(m, fine);
                proof {
                    assert forall|r: spec_fn(usize, usize) -> bool| #[trigger]
                        answers_test(admissible, r, order@) implies allows(
                        order@,
                        taken@,
                        allowed@,
                        m + 1,
                        n as int,
                        group_before,
                        r,
                    ) && allows(order@, taken@, allowed@, next + 1, m + 1, group@, r) by {
                        let x = order@[m as int];
                        lemma_fits_one_more(group_before, order@[next as int], x, r);
                        assert(allowed_before[m as int] == (!taken@[m as int] && fits(
                            group_before,
                            x,
                            r,
                        )));
                    }
                }
                m += 1;
            }
            next += 1;
        }
        let ghost groups_before = groups@.map_values(|g: Vec<usize>| g@);
        proof {
            let grown = if group@.len() > 1 {
                groups_before.push(group@.sort_by(ascending()))
            } else {
                groups_before
            };
            assert forall|r: spec_fn(usize, usize) -> bool| #[trigger]
                answers_test(admissible, r, order@) implies seeded(
                order@,
                taken@,
                seed + 1,
                grown,
                r,
            ) by {
                lemma_next_seed(
                    order@,
                    taken@,
                    seed as int,
                    group@,
                    first,
                    groups_before,
                    r,
                );
            }
        }
        if group.len() > 1 {
            let sorted = sort_ascending(&group);
            groups.push(sorted);
            assert(groups@.map_values(|g: Vec<usize>| g@) =~= groups_before.push(sorted@));
        }
        seed += 1;
    }
    proof {
        let done = groups@.map_values(|g: Vec<usize>| g@);
        assert forall|r: spec_fn(usize, usize) -> bool| #[trigger]
            answers_test(admissible, r, order@) implies done == linkage(order@, r) by {
            assert(untaken(order@, taken@, n as int, n as int) =~= Seq::empty());
            assert(done + Seq::<Seq<usize>>::empty() =~= done);
        }
    }
    groups
}

/// The element of `s` at position `p`.
spec fn nth<T>(s: Seq<T>, p: usize) -> T {
    s[p as int]
}

/// All positions of a sequence of `n` elements.
spec fn positions(n: nat) -> Seq<usize> {
    Seq::new(n, |p: int| p as usize)
}

/// The order of positions by the key there, ties by the candidate there.
spec fn by_position<K: Ord>(keys: Seq<K>, candidates: Seq<usize>) -> spec_fn(
    usize,
    usize,
) -> bool {
    |p: usize, q: usize|
        precedes(nth(keys, p), nth(keys, q)) || (!precedes(nth(keys, q), nth(keys, p)) && (nth(
            candidates,
            p,
        ) < nth(candidates, q) || (nth(candidates, p) == nth(candidates, q) && p <= q)))
}

proof fn lemma_by_position_is_total<K: Ord>(keys: Seq<K>, candidates: Seq<usize>)
    requires
        obeys_cmp::<K>(),
    ensures
        total_ordering(by_position(keys, candidates)),
{
    let leq = by_position(keys, candidates);
    assert forall|a: usize, b: usize| #[trigger] leq(a, b) && #[trigger] leq(b, a) implies a == b by {
        lemma_precedes_is_strict(nth(keys, a), nth(keys, b), nth(keys, a));
    }
    assert forall|a: usize, b: usize, c: usize| #[trigger]
        leq(a, b) && #[trigger] leq(b, c) implies leq(a, c) by {
        let (x, y, z) = (nth(keys, a), nth(keys, b), nth(keys, c));
        lemma_precedes_is_strict(x, y, z);
        lemma_precedes_is_strict(z, y, x);
        lemma_precedes_is_strict(y, z, x);
        lemma_precedes_is_strict(z, x, y);
        lemma_precedes_is_strict(x, z, y);
        lemma_precedes_is_strict(y, x, z);
    }
    assert forall|a: usize| #[trigger] leq(a, a) by {
        lemma_precedes_is_strict(nth(keys, a), nth(keys, a), nth(keys, a));
    }
    assert forall|a: usize, b: usize| #[trigger] leq(a, b) || leq(b, a) by {
        lemma_precedes_is_strict(nth(keys, a), nth(keys, b), nth(keys, a));
    }
}

/// Sorting positions by the key there sorts the candidates by key.
proof fn lemma_positions_sort_candidates<K: Ord>(
    candidates: Seq<usize>,
    keys: Seq<K>,
    sorted: Seq<usize>,
    k: spec_fn(usize) -> K,
)
    requires
        obeys_cmp::<K>(),
        keys.len() == candidates.len(),
        candidates.len() <= usize::MAX,
        forall|p: int| 0 <= p < keys.len() ==> #[trigger] keys[p] == k(candidates[p]),
        sorted == positions(candidates.len()).sort_by(by_position(keys, candidates)),
    ensures
        sorted.map_values(|p: usize| nth(candidates, p)) == candidates.sort_by(by_key(k)),
{
    broadcast use vstd::seq_lib::group_to_multiset_ensures;

    let all = positions(candidates.len());
    let rule = by_position(keys, candidates);
    let read = |p: usize| nth(candidates, p);
    let order = sorted.map_values(read);
    lemma_by_position_is_total(keys, candidates);
    lemma_by_key_is_total(k);
    all.lemma_sort_by_ensures(rule);
    candidates.lemma_sort_by_ensures(by_key(k));
    lemma_map_permutes(sorted, all, read);
    assert(all.map_values(read) =~= candidates);
    assert forall|i: int, j: int| 0 <= i < j < order.len() implies by_key(k)(
        order[i],
        order[j],
    ) by {
        let (p, q) = (sorted[i], sorted[j]);
        assert(rule(p, q));
        assert(all.to_multiset().count(p) > 0) by {
            assert(sorted.contains(p));
        }
        assert(all.to_multiset().count(q) > 0) by {
            assert(sorted.contains(q));
        }
        lemma_in_positions(candidates.len(), p);
        lemma_in_positions(candidates.len(), q);
        lemma_nth_keys(candidates, keys, k, p);
        lemma_nth_keys(candidates, keys, k, q);
    }
    assert(sorted_by(order, by_key(k)));
    lemma_sorted_unique(order, candidates.sort_by(by_key(k)), by_key(k));
}

proof fn lemma_in_positions(n: nat, p: usize)
    requires
        n <= usize::MAX,
        positions(n).contains(p),
    ensures
        p < n,
{
}

proof fn lemma_nth_keys<K>(
    candidates: Seq<usize>,
    keys: Seq<K>,
    k: spec_fn(usize) -> K,
    p: usize,
)
    requires
        p < keys.len(),
        forall|p: int| 0 <= p < keys.len() ==> #[trigger] keys[p] == k(candidates[p]),
    ensures
        nth(keys, p) == k(nth(candidates, p)),
{
    assert(keys[p as int] == k(candidates[p as int]));
}

/// Every candidate of a component once, with its key beside it.
fn keys_of<K, F: Fn(usize) -> K>(component: &[usize], key: &F) -> (keys: Vec<K>)
    requires
        forall|i: usize| component@.contains(i) ==> #[trigger] key.requires((i,)),
    ensures
        keys@.len() == component@.len(),
        forall|k: spec_fn(usize) -> K, p: int| #[trigger]
            answers_key(*key, k, component@) && 0 <= p < keys@.len() ==> #[trigger] keys@[p] == k(
                component@[p],
            ),
{
    let mut keys: Vec<K> = Vec::new();
    let mut p: usize = 0;
    while p < component.len()
        invariant
            p <= component@.len(),
            keys@.len() == p,
            forall|i: usize| component@.contains(i) ==> #[trigger] key.requires((i,)),
            forall|k: spec_fn(usize) -> K, q: int| #[trigger]
                answers_key(*key, k, component@) && 0 <= q < p ==> #[trigger] keys@[q] == k(
                    component@[q],
                ),
        decreases component@.len() - p,
    {
        let i = component[p];
        assert(component@.contains(component@[p as int]));
        let answer = key(i);
        keys.push(answer);
        p += 1;
    }
    keys
}

fn all_positions(n: usize) -> (all: Vec<usize>)
    ensures
        all@ == positions(n as nat),
{
    let mut all: Vec<usize> = Vec::new();
    let mut p: usize = 0;
    while p < n
        invariant
            p <= n,
            all@ == positions(p as nat),
        decreases n - p,
    {
        all.push(p);
        p += 1;
        assert(all@ =~= positions(p as nat));
    }
    all
}

/// The candidates at the given positions.
fn read_positions(component: &[usize], sorted: &Vec<usize>) -> (order: Vec<usize>)
    requires
        forall|i: int| 0 <= i < sorted@.len() ==> #[trigger] sorted@[i] < component@.len(),
    ensures
        order@ == sorted@.map_values(|p: usize| nth(component@, p)),
{
    let mut order: Vec<usize> = Vec::new();
    let mut i: usize = 0;
    while i < sorted.len()
        invariant
            i <= sorted@.len(),
            forall|i: int| 0 <= i < sorted@.len() ==> #[trigger] sorted@[i] < component@.len(),
            order@ == sorted@.take(i as int).map_values(|p: usize| nth(component@, p)),
        decreases sorted@.len() - i,
    {
        order.push(component[sorted[i]]);
        i += 1;
        assert(order@ =~= sorted@.take(i as int).map_values(|p: usize| nth(component@, p)));
    }
    assert(sorted@.take(i as int) =~= sorted@);
    order
}

/// The component in the order of its keys.
fn in_key_order<K: Ord>(component: &[usize], keys: &Vec<K>) -> (order: Vec<usize>)
    requires
        obeys_cmp::<K>(),
        keys@.len() == component@.len(),
    ensures
        forall|i: usize| order@.contains(i) <==> component@.contains(i),
        forall|k: spec_fn(usize) -> K|
            #![trigger by_key(k)]
            (forall|p: int| 0 <= p < keys@.len() ==> #[trigger] keys@[p] == k(component@[p]))
                ==> order@ == component@.sort_by(by_key(k)),
{
    let n: usize = component.len();
    let all = all_positions(n);
    let ghost rule = by_position(keys@, component@);
    let leq = |p: usize, q: usize| -> (r: bool)
        requires
            p < keys@.len(),
            q < keys@.len(),
            keys@.len() == component@.len(),
            obeys_cmp::<K>(),
        ensures
            r == rule(p, q),
        {
            let first = &keys[p];
            let second = &keys[q];
            proof {
                reveal(obeys_cmp_partial_ord);
                reveal(obeys_cmp_ord);
                assert(first.partial_cmp_spec(second) == Some(first.cmp_spec(second)));
                assert(second.partial_cmp_spec(first) == Some(second.cmp_spec(first)));
            }
            if *first < *second {
                true
            } else if *second < *first {
                false
            } else {
                component[p] < component[q] || (component[p] == component[q] && p <= q)
            }
        };
    proof {
        lemma_by_position_is_total(keys@, component@);
        all@.lemma_sort_by_ensures(rule);
        assert forall|p: usize| all@.contains(p) implies p < n by {
            lemma_in_positions(component@.len(), p);
        }
    }
    let sorted = sort(&all, &leq, Ghost(rule));
    proof {
        broadcast use vstd::seq_lib::group_to_multiset_ensures;

        assert forall|i: int| 0 <= i < sorted@.len() implies #[trigger] sorted@[i] < n by {
            assert(sorted@.contains(sorted@[i]));
            assert(all@.to_multiset().count(sorted@[i]) > 0);
        }
    }
    let order = read_positions(component, &sorted);
    proof {
        broadcast use vstd::seq_lib::group_to_multiset_ensures;

        let read = |p: usize| nth(component@, p);
        lemma_map_permutes(sorted@, all@, read);
        assert(all@.map_values(read) =~= component@);
        assert forall|i: usize| order@.contains(i) <==> component@.contains(i) by {
            assert(order@.to_multiset().count(i) == component@.to_multiset().count(i));
        }
        assert forall|k: spec_fn(usize) -> K|
            #![trigger by_key(k)]
            (forall|p: int| 0 <= p < keys@.len() ==> #[trigger] keys@[p] == k(
                component@[p],
            )) implies order@ == component@.sort_by(by_key(k)) by {
            lemma_positions_sort_candidates(component@, keys@, sorted@, k);
        }
    }
    order
}

/// Split a component into groups where *every* pair is admissible.
///
/// `key` orders the candidates. It must be content-derived: seeding on the row
/// id or on the position in the candidate list would repartition the repository
/// when a file is edited above a symbol.
///
/// Greedy rather than optimal: the minimum such partition is a clique
/// partition, which is not even unique. Each seed and each member added costs
/// one sweep.
pub fn dense_groups<K: Ord, F: Fn(usize) -> K, A: Fn(usize, usize) -> bool>(
    component: &[usize],
    key: F,
    admissible: A,
) -> (groups: Vec<Vec<usize>>)
    requires
        obeys_cmp::<K>(),
        forall|i: usize| component@.contains(i) ==> #[trigger] key.requires((i,)),
        forall|a: usize, b: usize|
            component@.contains(a) && component@.contains(b) ==> #[trigger] admissible.requires(
                (a, b),
            ),
    ensures
        forall|k: spec_fn(usize) -> K, r: spec_fn(usize, usize) -> bool| #[trigger]
            answers_key(key, k, component@) && #[trigger] answers_test(admissible, r, component@)
                ==> groups@.map_values(|g: Vec<usize>| g@) == linkage(
                component@.sort_by(by_key(k)),
                r,
            ),
{
    let keys = keys_of(component, &key);
    let order = in_key_order(component, &keys);
    proof {
        assert forall|k: spec_fn(usize) -> K, r: spec_fn(usize, usize) -> bool| #[trigger]
            answers_key(key, k, component@) && #[trigger] answers_test(
                admissible,
                r,
                component@,
            ) implies order@ == component@.sort_by(by_key(k)) && answers_test(
            admissible,
            r,
            order@,
        ) by {
            let rule = by_key(k);
        }
    }
    greedy(&order, admissible)
}

/// Whether `x` comes first among the members of `group` by a rule.
pub open spec fn least_by(
    rule: spec_fn(usize, usize) -> bool,
    group: Seq<usize>,
    x: usize,
) -> bool {
    &&& group.contains(x)
    &&& forall|y: usize| #[trigger] group.contains(y) ==> rule(x, y)
}

/// Whether some member of `group` comes first by a rule.
pub open spec fn has_least(rule: spec_fn(usize, usize) -> bool, group: Seq<usize>) -> bool {
    exists|x: usize| #[trigger] least_by(rule, group, x)
}

/// What stands before in the order by key comes before by key.
pub proof fn lemma_before_by_key<K: Ord>(
    component: Seq<usize>,
    key: spec_fn(usize) -> K,
    x: usize,
    y: usize,
)
    requires
        obeys_cmp::<K>(),
        component.no_duplicates(),
        component.contains(x),
        component.contains(y),
        x != y,
    ensures
        before(component.sort_by(by_key(key)), x, y) <==> by_key(key)(x, y),
{
    broadcast use vstd::seq_lib::group_to_multiset_ensures;

    let rule = by_key(key);
    let order = component.sort_by(rule);
    lemma_by_key_is_total(key);
    component.lemma_sort_by_ensures(rule);
    assert(order.to_multiset().count(x) > 0 && order.to_multiset().count(y) > 0);
    let p = choose|p: int| 0 <= p < order.len() && order[p] == x;
    let q = choose|q: int| 0 <= q < order.len() && order[q] == y;
    if p < q {
        assert(rule(order[p], order[q]));
        assert(before(order, x, y));
    } else {
        assert(rule(order[q], order[p]));
        if before(order, x, y) {
            let (i, j) = choose|i: int, j: int|
                0 <= i < j < order.len() && #[trigger] order[i] == x && #[trigger] order[j] == y;
            assert(rule(order[i], order[j]));
        }
    }
}

/// The groups of [`dense_groups`] go by key: every pair of a group is
/// admissible, taken in the order of the keys, whether or not the test reads the
/// same both ways; every group has a member that comes first by key; and the
/// groups are listed in the order of these members.
pub proof fn groups_go_by_key<K: Ord>(
    component: Seq<usize>,
    key: spec_fn(usize) -> K,
    admissible: spec_fn(usize, usize) -> bool,
    groups: Seq<Seq<usize>>,
)
    requires
        obeys_cmp::<K>(),
        component.no_duplicates(),
        groups == linkage(component.sort_by(by_key(key)), admissible),
    ensures
        forall|k: int, x: usize, y: usize|
            0 <= k < groups.len() && #[trigger] groups[k].contains(x)
                && #[trigger] groups[k].contains(y) && x != y && by_key(key)(x, y) ==> admissible(
                x,
                y,
            ),
        forall|k: int| 0 <= k < groups.len() ==> has_least(by_key(key), #[trigger] groups[k]),
        forall|j: int, k: int, x: usize, y: usize|
            0 <= j < k < groups.len() && #[trigger] least_by(by_key(key), groups[j], x)
                && #[trigger] least_by(by_key(key), groups[k], y) ==> x != y && by_key(key)(x, y),
{
    broadcast use vstd::seq_lib::group_to_multiset_ensures;

    let rule = by_key(key);
    let order = component.sort_by(rule);
    lemma_by_key_is_total(key);
    component.lemma_sort_by_ensures(rule);
    component.lemma_multiset_has_no_duplicates();
    order.lemma_multiset_has_no_duplicates_conv();
    linkage_lists_groups_in_order(order, admissible);
    assert forall|k: int, x: usize|
        0 <= k < groups.len() && #[trigger] groups[k].contains(x) implies component.contains(x) by {
        lemma_members_are_candidates(order, admissible, k, x);
        assert(order.to_multiset().count(x) > 0);
        assert(component.to_multiset().count(x) > 0);
    }
    assert forall|k: int, x: usize, y: usize|
        0 <= k < groups.len() && #[trigger] groups[k].contains(x) && #[trigger] groups[k].contains(
            y,
        ) && x != y && rule(x, y) implies admissible(x, y) by {
        lemma_before_by_key(component, key, x, y);
        linkage_is_bounded_in_order(order, admissible, k, x, y);
    }
    assert forall|k: int, x: usize| 0 <= k < groups.len() implies #[trigger] leads(
        order,
        groups[k],
        x,
    ) == least_by(rule, groups[k], x) by {
        assert forall|y: usize| #[trigger] groups[k].contains(y) && groups[k].contains(x) && y
            != x implies before(order, x, y) == rule(x, y) by {
            lemma_before_by_key(component, key, x, y);
        }
        assert(rule(x, x));
    }
    assert forall|k: int| 0 <= k < groups.len() implies has_least(rule, #[trigger] groups[k]) by {
        assert(has_lead(order, groups[k]));
        let x = choose|x: usize| #[trigger] leads(order, groups[k], x);
        assert(least_by(rule, groups[k], x));
    }
    assert forall|j: int, k: int, x: usize, y: usize|
        0 <= j < k < groups.len() && #[trigger] least_by(rule, groups[j], x)
            && #[trigger] least_by(rule, groups[k], y) implies x != y && rule(x, y) by {
        assert(leads(order, groups[j], x) && leads(order, groups[k], y));
        assert(before(order, x, y));
        let (a, b) = choose|a: int, b: int|
            0 <= a < b < order.len() && #[trigger] order[a] == x && #[trigger] order[b] == y;
        assert(order[a] != order[b]);
        lemma_before_by_key(component, key, x, y);
    }
}

} // verus!
