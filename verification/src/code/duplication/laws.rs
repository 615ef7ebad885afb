//! What holds of every report of [`cluster`](super::cluster::cluster).

use vstd::multiset::Multiset;
use vstd::prelude::*;
use vstd::relations::{sorted_by, total_ordering};
use vstd::seq_lib::lemma_sorted_unique;

use super::bits::distance;
use super::cluster::{
    admissible_in, admissible_is_symmetric, candidate_order, findings, lemma_candidate_order,
    reports, shape, suppression, FingerprintView, Suppression,
};
use super::components::lemma_same_firsts;
use super::dense::{by_number, lemma_before_by_key, lemma_numbers_are_keys};
use super::linkage::{
    are_groups_of, before, decided_by_shape, free_until, leads, refused_before, equal_shapes_stay_together, lemma_map_permutes,
    linkage, linkage_depends_on_shapes, linkage_is_greedy, linkage_leaves_alone_what_fits_nobody, linkage_groups_cannot_grow, linkage_groups_cannot_merge,
    linkage_is_bounded, linkage_leaves_no_pair, linkage_makes_groups, reported, shapes_in, shapes_of,
};

verus! {

/// Every candidate, by index.
pub open spec fn all_candidates(fingerprints: Seq<FingerprintView>) -> Seq<usize> {
    Seq::new(fingerprints.len(), |i: int| i as usize)
}

/// What is reported are groups of candidates: two or more members each,
/// ascending, and no candidate in two of them.
pub proof fn a_report_partitions(
    groups: Seq<Seq<usize>>,
    fingerprints: Seq<FingerprintView>,
    threshold: u32,
    calls: Set<(i64, i64)>,
)
    requires
        fingerprints.len() <= usize::MAX,
        reports(groups, findings(fingerprints, threshold, calls)),
    ensures
        are_groups_of(groups, all_candidates(fingerprints)),
        forall|k: int| 0 <= k < groups.len() ==> (#[trigger] groups[k]).len() >= 2,
        forall|k: int, i: int, j: int|
            0 <= k < groups.len() && 0 <= i < j < groups[k].len() ==> #[trigger] groups[k][i]
                < #[trigger] groups[k][j] < fingerprints.len(),
        forall|j: int, k: int|
            0 <= j < k < groups.len() ==> (#[trigger] groups[j])[0] < (#[trigger] groups[k])[0],
        forall|j: int, k: int, x: usize|
            0 <= j < k < groups.len() && #[trigger] groups[j].contains(x)
                ==> !#[trigger] groups[k].contains(x),
{
    let found = findings(fingerprints, threshold, calls);
    let adm = admissible_in(fingerprints, threshold, calls);
    lemma_candidate_order(fingerprints);
    linkage_makes_groups(candidate_order(fingerprints), adm);
    assert forall|k: int| 0 <= k < groups.len() implies exists|m: int|
        0 <= m < found.len() && #[trigger] found[m] == #[trigger] groups[k] by {
        assert(groups.contains(groups[k]));
        assert(found.contains(groups[k]));
    }
    assert forall|k: int, i: int| 0 <= k < groups.len() && 0 <= i < groups[k].len() implies all_candidates(
        fingerprints,
    ).contains(#[trigger] groups[k][i]) by {
        let m = choose|m: int| 0 <= m < found.len() && #[trigger] found[m] == groups[k];
        let x = found[m][i];
        assert(candidate_order(fingerprints).contains(found[m][i]));
        assert(all_candidates(fingerprints)[x as int] == x);
    }
    assert forall|k: int, i: int, j: int|
        0 <= k < groups.len() && 0 <= i < j < groups[k].len() implies #[trigger] groups[k][i]
        < #[trigger] groups[k][j] by {
        let m = choose|m: int| 0 <= m < found.len() && #[trigger] found[m] == groups[k];
        assert(found[m][i] < found[m][j]);
    }
    assert forall|k: int, l: int, x: usize|
        0 <= k < groups.len() && 0 <= l < groups.len() && #[trigger] groups[k].contains(x)
            && #[trigger] groups[l].contains(x) implies k == l by {
        let m = choose|m: int| 0 <= m < found.len() && #[trigger] found[m] == groups[k];
        let n = choose|n: int| 0 <= n < found.len() && #[trigger] found[n] == groups[l];
        assert(found[m].contains(x) && found[n].contains(x));
        assert(m == n);
        if k < l {
            assert(groups[k][0] < groups[l][0]);
        } else if l < k {
            assert(groups[l][0] < groups[k][0]);
        }
    }
}

/// No reported group is wider than the threshold, and a pair that something
/// rules out never shares a group, not even through a third member.
pub proof fn a_report_is_bounded(
    groups: Seq<Seq<usize>>,
    fingerprints: Seq<FingerprintView>,
    threshold: u32,
    calls: Set<(i64, i64)>,
    k: int,
    x: usize,
    y: usize,
)
    requires
        fingerprints.len() <= usize::MAX,
        reports(groups, findings(fingerprints, threshold, calls)),
        0 <= k < groups.len(),
        groups[k].contains(x),
        groups[k].contains(y),
        x != y,
    ensures
        distance(fingerprints[x as int].simhash, fingerprints[y as int].simhash) <= threshold,
        suppression(fingerprints[x as int], fingerprints[y as int], calls) is None,
{
    let found = findings(fingerprints, threshold, calls);
    let adm = admissible_in(fingerprints, threshold, calls);
    lemma_candidate_order(fingerprints);
    admissible_is_symmetric(fingerprints, threshold, calls);
    linkage_is_bounded(candidate_order(fingerprints), adm);
    assert(groups.contains(groups[k]));
    let m = choose|m: int| 0 <= m < found.len() && found[m] == groups[k];
    assert(found[m].contains(x) && found[m].contains(y));
    assert(adm(x, y));
}

/// Two candidates that no group holds are no finding together: they are too
/// far apart, or something rules the pair out.
pub proof fn a_report_leaves_no_pair(
    groups: Seq<Seq<usize>>,
    fingerprints: Seq<FingerprintView>,
    threshold: u32,
    calls: Set<(i64, i64)>,
    x: usize,
    y: usize,
)
    requires
        fingerprints.len() <= usize::MAX,
        reports(groups, findings(fingerprints, threshold, calls)),
        x < fingerprints.len(),
        y < fingerprints.len(),
        x != y,
        !reported(groups, x),
        !reported(groups, y),
    ensures
        distance(fingerprints[x as int].simhash, fingerprints[y as int].simhash) > threshold
            || suppression(fingerprints[x as int], fingerprints[y as int], calls) is Some,
{
    let found = findings(fingerprints, threshold, calls);
    let adm = admissible_in(fingerprints, threshold, calls);
    let order = candidate_order(fingerprints);
    lemma_candidate_order(fingerprints);
    admissible_is_symmetric(fingerprints, threshold, calls);
    assert forall|z: usize| !reported(groups, z) implies !reported(found, z) by {
        if reported(found, z) {
            let m = choose|m: int| 0 <= m < found.len() && (#[trigger] found[m]).contains(z);
            assert(found.contains(found[m]));
            assert(groups.contains(found[m]));
            let k = choose|k: int| 0 <= k < groups.len() && groups[k] == found[m];
            assert(groups[k].contains(z));
        }
    }
    assert(order.contains(x) && order.contains(y));
    linkage_leaves_no_pair(order, adm, x, y);
    assert(!adm(x, y));
}

/// What some group of the findings holds, some group of the report holds.
proof fn lemma_reported_is_found(groups: Seq<Seq<usize>>, found: Seq<Seq<usize>>, x: usize)
    requires
        reports(groups, found),
        reported(found, x),
    ensures
        reported(groups, x),
{
    let m = choose|m: int| 0 <= m < found.len() && (#[trigger] found[m]).contains(x);
    assert(found.contains(found[m]));
    assert(groups.contains(found[m]));
    let k = choose|k: int| 0 <= k < groups.len() && groups[k] == found[m];
    assert(groups[k].contains(x));
}

/// No reported group can grow: of every group some member is too far from a
/// candidate that no group holds, or something rules the pair out.
pub proof fn a_group_cannot_grow(
    groups: Seq<Seq<usize>>,
    fingerprints: Seq<FingerprintView>,
    threshold: u32,
    calls: Set<(i64, i64)>,
    k: int,
    x: usize,
)
    requires
        fingerprints.len() <= usize::MAX,
        reports(groups, findings(fingerprints, threshold, calls)),
        0 <= k < groups.len(),
        x < fingerprints.len(),
        !reported(groups, x),
    ensures
        exists|y: usize| #[trigger]
            groups[k].contains(y) && (distance(
                fingerprints[y as int].simhash,
                fingerprints[x as int].simhash,
            ) > threshold || suppression(
                fingerprints[y as int],
                fingerprints[x as int],
                calls,
            ) is Some),
{
    let found = findings(fingerprints, threshold, calls);
    let adm = admissible_in(fingerprints, threshold, calls);
    let order = candidate_order(fingerprints);
    lemma_candidate_order(fingerprints);
    admissible_is_symmetric(fingerprints, threshold, calls);
    if reported(found, x) {
        lemma_reported_is_found(groups, found, x);
    }
    assert(groups.contains(groups[k]));
    let m = choose|m: int| 0 <= m < found.len() && found[m] == groups[k];
    assert(order.contains(x));
    linkage_groups_cannot_grow(order, adm, m, x);
    let y = choose|y: usize| #[trigger] groups[k].contains(y) && !adm(y, x);
    assert(groups[k].contains(y) && !adm(y, x));
}

/// No two reported groups can be merged: some pair across the two is too far
/// apart, or something rules it out.
pub proof fn groups_cannot_merge(
    groups: Seq<Seq<usize>>,
    fingerprints: Seq<FingerprintView>,
    threshold: u32,
    calls: Set<(i64, i64)>,
    j: int,
    k: int,
)
    requires
        fingerprints.len() <= usize::MAX,
        reports(groups, findings(fingerprints, threshold, calls)),
        0 <= j < groups.len(),
        0 <= k < groups.len(),
        j != k,
    ensures
        exists|x: usize, y: usize| #[trigger]
            groups[j].contains(x) && #[trigger] groups[k].contains(y) && (distance(
                fingerprints[x as int].simhash,
                fingerprints[y as int].simhash,
            ) > threshold || suppression(
                fingerprints[x as int],
                fingerprints[y as int],
                calls,
            ) is Some),
{
    let found = findings(fingerprints, threshold, calls);
    let adm = admissible_in(fingerprints, threshold, calls);
    let order = candidate_order(fingerprints);
    lemma_candidate_order(fingerprints);
    admissible_is_symmetric(fingerprints, threshold, calls);
    linkage_makes_groups(order, adm);
    assert(groups.contains(groups[j]) && groups.contains(groups[k]));
    let a = choose|a: int| 0 <= a < found.len() && found[a] == groups[j];
    let b = choose|b: int| 0 <= b < found.len() && found[b] == groups[k];
    assert(groups[j][0] != groups[k][0]);
    assert(a != b);
    if a < b {
        let y = found[b][0];
        assert(groups[k].contains(y));
        linkage_groups_cannot_merge(order, adm, a, b, y);
        let x = choose|x: usize| #[trigger] found[a].contains(x) && !adm(x, y);
        assert(groups[j].contains(x) && groups[k].contains(y) && !adm(x, y));
    } else {
        let x = found[a][0];
        assert(groups[j].contains(x));
        linkage_groups_cannot_merge(order, adm, b, a, x);
        let y = choose|y: usize| #[trigger] found[b].contains(y) && !adm(y, x);
        assert(groups[j].contains(x) && groups[k].contains(y) && !adm(y, x));
        assert(!adm(x, y));
    }
}

/// Two candidates with a call edge between them, whatever their owners, never
/// share a group, and neither do two with the same owner: of two members of one
/// group the edges hold no pair of their ids, lower id first, and they have not
/// one owner. And they are within the threshold.
pub proof fn a_group_holds_no_call_and_no_shared_owner(
    groups: Seq<Seq<usize>>,
    fingerprints: Seq<FingerprintView>,
    threshold: u32,
    calls: Set<(i64, i64)>,
    k: int,
    x: usize,
    y: usize,
)
    requires
        fingerprints.len() <= usize::MAX,
        reports(groups, findings(fingerprints, threshold, calls)),
        0 <= k < groups.len(),
        groups[k].contains(x),
        groups[k].contains(y),
        x != y,
    ensures
        !calls.contains((if fingerprints[x as int].symbol_id <= fingerprints[y as int].symbol_id {
            (fingerprints[x as int].symbol_id, fingerprints[y as int].symbol_id)
        } else {
            (fingerprints[y as int].symbol_id, fingerprints[x as int].symbol_id)
        })),
        !(fingerprints[x as int].owner_name is Some && fingerprints[x as int].owner_name
            == fingerprints[y as int].owner_name),
        distance(fingerprints[x as int].simhash, fingerprints[y as int].simhash) <= threshold,
{
    a_report_is_bounded(groups, fingerprints, threshold, calls, k, x, y);
}

/// Why a pair is left out: a call edge between the two, whatever their owners,
/// is named first; an owner that both have is named where there is no edge; and
/// without either nothing is.
pub proof fn a_call_edge_is_named_first(
    a: FingerprintView,
    b: FingerprintView,
    calls: Set<(i64, i64)>,
)
    ensures
        ({
            let edge = calls.contains(
                if a.symbol_id <= b.symbol_id {
                    (a.symbol_id, b.symbol_id)
                } else {
                    (b.symbol_id, a.symbol_id)
                },
            );
            let shared = a.owner_name is Some && b.owner_name is Some && a.owner_name->0
                == b.owner_name->0;
            &&& suppression(a, b, calls) == Some(Suppression::Calls) <==> edge
            &&& suppression(a, b, calls) == Some(Suppression::SharedOwner) <==> !edge && shared
            &&& suppression(a, b, calls) is None <==> !edge && !shared
            &&& suppression(a, b, calls) == suppression(b, a, calls)
        }),
{
}

/// Nothing else keeps a pair apart: two candidates within the threshold, with no
/// call edge between them and no owner in common, are admissible, and only
/// these.
pub proof fn only_distance_calls_and_owners_count(
    fingerprints: Seq<FingerprintView>,
    threshold: u32,
    calls: Set<(i64, i64)>,
    x: usize,
    y: usize,
)
    ensures
        admissible_in(fingerprints, threshold, calls)(x, y) <==> !(distance(
            fingerprints[x as int].simhash,
            fingerprints[y as int].simhash,
        ) > threshold || calls.contains((if fingerprints[x as int].symbol_id <= fingerprints[y as int].symbol_id {
            (fingerprints[x as int].symbol_id, fingerprints[y as int].symbol_id)
        } else {
            (fingerprints[y as int].symbol_id, fingerprints[x as int].symbol_id)
        })) || (fingerprints[x as int].owner_name is Some && fingerprints[x as int].owner_name
            == fingerprints[y as int].owner_name)),
{
}

/// Whether candidate `a` is taken before candidate `b`: the lower simhash
/// first, the lower index on a tie.
pub open spec fn earlier(fingerprints: Seq<FingerprintView>, a: usize, b: usize) -> bool {
    fingerprints[a as int].simhash < fingerprints[b as int].simhash || (
    fingerprints[a as int].simhash == fingerprints[b as int].simhash && a < b)
}

proof fn lemma_before_is_earlier(fingerprints: Seq<FingerprintView>, a: usize, b: usize)
    requires
        fingerprints.len() <= usize::MAX,
        a < fingerprints.len(),
        b < fingerprints.len(),
    ensures
        before(candidate_order(fingerprints), a, b) <==> earlier(fingerprints, a, b),
{
    let all = all_candidates(fingerprints);
    let number = shape(fingerprints);
    lemma_numbers_are_keys(number);
    assert(all[a as int] == a && all[b as int] == b);
    assert(all.contains(a) && all.contains(b));
    if a != b {
        lemma_before_by_key(all, number, a, b);
    } else {
        lemma_candidate_order(fingerprints);
    }
}

/// Whether no group that holds `y` has a member that is taken before `x`.
pub open spec fn open_until(
    groups: Seq<Seq<usize>>,
    fingerprints: Seq<FingerprintView>,
    x: usize,
    y: usize,
) -> bool {
    forall|j: int, w: usize|
        0 <= j < groups.len() && groups[j].contains(y) && #[trigger] groups[j].contains(w)
            ==> !earlier(fingerprints, w, x)
}

proof fn lemma_open_is_free(
    groups: Seq<Seq<usize>>,
    fingerprints: Seq<FingerprintView>,
    threshold: u32,
    calls: Set<(i64, i64)>,
    x: usize,
    y: usize,
)
    requires
        fingerprints.len() <= usize::MAX,
        reports(groups, findings(fingerprints, threshold, calls)),
        x < fingerprints.len(),
        open_until(groups, fingerprints, x, y),
    ensures
        free_until(
            findings(fingerprints, threshold, calls),
            candidate_order(fingerprints),
            x,
            y,
        ),
{
    let found = findings(fingerprints, threshold, calls);
    let adm = admissible_in(fingerprints, threshold, calls);
    let order = candidate_order(fingerprints);
    lemma_candidate_order(fingerprints);
    linkage_makes_groups(order, adm);
    assert forall|j: int, w: usize|
        0 <= j < found.len() && found[j].contains(y) && #[trigger] found[j].contains(w) implies
        !before(order, w, x) by {
        assert(found.contains(found[j]));
        assert(groups.contains(found[j]));
        let i = choose|i: int| 0 <= i < groups.len() && groups[i] == found[j];
        assert(groups[i].contains(w));
        let group = found[j];
        let p = choose|p: int| 0 <= p < group.len() && group[p] == w;
        assert(order.contains(found[j][p]));
        lemma_before_is_earlier(fingerprints, w, x);
    }
}

/// A report is greedy, and its seeds go by simhash. Let `x` be the member of a
/// group that is taken first. A candidate that is taken after `x`, and that no
/// group with a member taken before `x` holds, stands outside the group only
/// because a member taken before it is too far from it, or calls it or is called
/// by it, or has its owner.
pub proof fn a_report_is_greedy(
    groups: Seq<Seq<usize>>,
    fingerprints: Seq<FingerprintView>,
    threshold: u32,
    calls: Set<(i64, i64)>,
    k: int,
    x: usize,
    y: usize,
)
    requires
        fingerprints.len() <= usize::MAX,
        reports(groups, findings(fingerprints, threshold, calls)),
        0 <= k < groups.len(),
        groups[k].contains(x),
        forall|w: usize| #[trigger] groups[k].contains(w) && w != x ==> earlier(fingerprints, x, w),
        y < fingerprints.len(),
        earlier(fingerprints, x, y),
        !groups[k].contains(y),
        open_until(groups, fingerprints, x, y),
    ensures
        exists|z: usize| #[trigger]
            groups[k].contains(z) && earlier(fingerprints, z, y) && (distance(
            fingerprints[z as int].simhash,
            fingerprints[y as int].simhash,
        ) > threshold || calls.contains((if fingerprints[z as int].symbol_id <= fingerprints[y as int].symbol_id {
            (fingerprints[z as int].symbol_id, fingerprints[y as int].symbol_id)
        } else {
            (fingerprints[y as int].symbol_id, fingerprints[z as int].symbol_id)
        })) || (fingerprints[z as int].owner_name is Some && fingerprints[z as int].owner_name
            == fingerprints[y as int].owner_name)),
{
    let found = findings(fingerprints, threshold, calls);
    let adm = admissible_in(fingerprints, threshold, calls);
    let order = candidate_order(fingerprints);
    lemma_candidate_order(fingerprints);
    linkage_makes_groups(order, adm);
    assert(groups.contains(groups[k]));
    let m = choose|m: int| 0 <= m < found.len() && found[m] == groups[k];
    assert forall|w: usize| #[trigger] groups[k].contains(w) implies w < fingerprints.len() by {
        let group = found[m];
        let p = choose|p: int| 0 <= p < group.len() && group[p] == w;
        assert(order.contains(found[m][p]));
    }
    assert forall|w: usize| #[trigger] found[m].contains(w) && w != x implies before(
        order,
        x,
        w,
    ) by {
        assert(groups[k].contains(w));
        lemma_before_is_earlier(fingerprints, x, w);
    }
    assert(leads(order, found[m], x));
    lemma_before_is_earlier(fingerprints, x, y);
    lemma_open_is_free(groups, fingerprints, threshold, calls, x, y);
    assert(order.contains(y));
    linkage_is_greedy(order, adm, m, x, y);
    assert(refused_before(found[m], y, adm, order));
    let z = choose|z: usize| #[trigger]
        found[m].contains(z) && before(order, z, y) && !adm(z, y);
    assert(groups[k].contains(z));
    lemma_before_is_earlier(fingerprints, z, y);
    only_distance_calls_and_owners_count(fingerprints, threshold, calls, z, y);
}

/// A candidate that no group holds is too far from every candidate that is taken
/// after it and that no group with an earlier member holds, or a call edge or a
/// shared owner keeps the two apart.
pub proof fn a_lone_candidate_fits_nobody(
    groups: Seq<Seq<usize>>,
    fingerprints: Seq<FingerprintView>,
    threshold: u32,
    calls: Set<(i64, i64)>,
    x: usize,
    y: usize,
)
    requires
        fingerprints.len() <= usize::MAX,
        reports(groups, findings(fingerprints, threshold, calls)),
        x < fingerprints.len(),
        y < fingerprints.len(),
        forall|k: int| 0 <= k < groups.len() ==> !(#[trigger] groups[k]).contains(x),
        earlier(fingerprints, x, y),
        open_until(groups, fingerprints, x, y),
    ensures
        (distance(
            fingerprints[x as int].simhash,
            fingerprints[y as int].simhash,
        ) > threshold || calls.contains((if fingerprints[x as int].symbol_id <= fingerprints[y as int].symbol_id {
            (fingerprints[x as int].symbol_id, fingerprints[y as int].symbol_id)
        } else {
            (fingerprints[y as int].symbol_id, fingerprints[x as int].symbol_id)
        })) || (fingerprints[x as int].owner_name is Some && fingerprints[x as int].owner_name
            == fingerprints[y as int].owner_name)),
{
    let found = findings(fingerprints, threshold, calls);
    let adm = admissible_in(fingerprints, threshold, calls);
    let order = candidate_order(fingerprints);
    lemma_candidate_order(fingerprints);
    if reported(found, x) {
        lemma_reported_is_found(groups, found, x);
    }
    lemma_before_is_earlier(fingerprints, x, y);
    lemma_open_is_free(groups, fingerprints, threshold, calls, x, y);
    assert(order.contains(x) && order.contains(y));
    linkage_leaves_alone_what_fits_nobody(order, adm, x, y);
    only_distance_calls_and_owners_count(fingerprints, threshold, calls, x, y);
}

/// There is one report: the findings and the order of first members leave no
/// choice.
pub proof fn a_report_is_unique(
    first: Seq<Seq<usize>>,
    second: Seq<Seq<usize>>,
    found: Seq<Seq<usize>>,
)
    requires
        reports(first, found),
        reports(second, found),
    ensures
        first == second,
{
    lemma_report_sets(first, second, found);
    lemma_same_firsts(first, second);
}

proof fn lemma_report_sets(
    first: Seq<Seq<usize>>,
    second: Seq<Seq<usize>>,
    found: Seq<Seq<usize>>,
)
    requires
        reports(first, found),
        reports(second, found),
    ensures
        forall|g: Seq<usize>| #[trigger] first.contains(g) <==> second.contains(g),
{
    assert forall|g: Seq<usize>| #[trigger] first.contains(g) <==> second.contains(g) by {
        assert(first.contains(g) <==> found.contains(g));
        assert(second.contains(g) <==> found.contains(g));
    }
}

/// The simhashes of all candidates, each as often as it occurs.
pub open spec fn simhashes(fingerprints: Seq<FingerprintView>) -> Multiset<u64> {
    fingerprints.map_values(|f: FingerprintView| f.simhash).to_multiset()
}

/// The partition does not depend on the order the candidates arrived in: two
/// lists of the same shapes, in whatever order, are reported as groups of the
/// same shapes. It holds where shapes decide what is admissible: where nothing
/// is suppressed ([`distance_decides`]), and where no two candidates share a
/// shape ([`distinct_shapes_decide`]).
pub proof fn arrival_order_does_not_matter(
    groups: Seq<Seq<usize>>,
    fingerprints: Seq<FingerprintView>,
    calls: Set<(i64, i64)>,
    groups2: Seq<Seq<usize>>,
    fingerprints2: Seq<FingerprintView>,
    calls2: Set<(i64, i64)>,
    threshold: u32,
    rule: spec_fn(u64, u64) -> bool,
)
    requires
        fingerprints.len() <= usize::MAX,
        fingerprints2.len() <= usize::MAX,
        reports(groups, findings(fingerprints, threshold, calls)),
        reports(groups2, findings(fingerprints2, threshold, calls2)),
        simhashes(fingerprints) == simhashes(fingerprints2),
        decided_by_shape(
            admissible_in(fingerprints, threshold, calls),
            all_candidates(fingerprints),
            shape(fingerprints),
            rule,
        ),
        decided_by_shape(
            admissible_in(fingerprints2, threshold, calls2),
            all_candidates(fingerprints2),
            shape(fingerprints2),
            rule,
        ),
    ensures
        shapes_of(groups, shape(fingerprints)).to_multiset() == shapes_of(
            groups2,
            shape(fingerprints2),
        ).to_multiset(),
{
    let adm = admissible_in(fingerprints, threshold, calls);
    let adm2 = admissible_in(fingerprints2, threshold, calls2);
    let order = candidate_order(fingerprints);
    let order2 = candidate_order(fingerprints2);
    lemma_candidate_order(fingerprints);
    lemma_candidate_order(fingerprints2);
    lemma_order_of_shapes(fingerprints);
    lemma_order_of_shapes(fingerprints2);
    let upwards = |a: u64, b: u64| a <= b;
    assert(total_ordering(upwards));
    lemma_sorted_unique(
        order.map_values(shape(fingerprints)),
        order2.map_values(shape(fingerprints2)),
        upwards,
    );
    lemma_all_are_candidates(fingerprints);
    lemma_all_are_candidates(fingerprints2);
    linkage_depends_on_shapes(
        order,
        adm,
        shape(fingerprints),
        order2,
        adm2,
        shape(fingerprints2),
        rule,
    );
    lemma_report_permutes(groups, fingerprints, threshold, calls);
    lemma_report_permutes(groups2, fingerprints2, threshold, calls2);
    let read = |g: Seq<usize>| shapes_in(g, shape(fingerprints));
    let read2 = |g: Seq<usize>| shapes_in(g, shape(fingerprints2));
    lemma_map_permutes(groups, linkage(order, adm), read);
    lemma_map_permutes(groups2, linkage(order2, adm2), read2);
}

/// Two candidates of one shape are reported together, where shapes decide what
/// is admissible and two of this shape are admissible.
pub proof fn equal_shapes_are_reported_together(
    groups: Seq<Seq<usize>>,
    fingerprints: Seq<FingerprintView>,
    threshold: u32,
    calls: Set<(i64, i64)>,
    rule: spec_fn(u64, u64) -> bool,
    x: usize,
    y: usize,
)
    requires
        fingerprints.len() <= usize::MAX,
        reports(groups, findings(fingerprints, threshold, calls)),
        decided_by_shape(
            admissible_in(fingerprints, threshold, calls),
            all_candidates(fingerprints),
            shape(fingerprints),
            rule,
        ),
        x < fingerprints.len(),
        y < fingerprints.len(),
        x != y,
        fingerprints[x as int].simhash == fingerprints[y as int].simhash,
        rule(fingerprints[x as int].simhash, fingerprints[x as int].simhash),
    ensures
        exists|k: int|
            0 <= k < groups.len() && #[trigger] groups[k].contains(x) && groups[k].contains(y),
{
    let adm = admissible_in(fingerprints, threshold, calls);
    let order = candidate_order(fingerprints);
    let found = linkage(order, adm);
    lemma_candidate_order(fingerprints);
    lemma_all_are_candidates(fingerprints);
    admissible_is_symmetric(fingerprints, threshold, calls);
    assert(order.contains(x) && order.contains(y));
    equal_shapes_stay_together(order, adm, shape(fingerprints), rule, x, y);
    let m = choose|m: int|
        0 <= m < found.len() && #[trigger] found[m].contains(x) && found[m].contains(y);
    assert(found.contains(found[m]));
    assert(groups.contains(found[m]));
    let k = choose|k: int| 0 <= k < groups.len() && groups[k] == found[m];
    assert(groups[k].contains(x));
}

/// Whether no two candidates share a shape.
pub open spec fn distinct_shapes(fingerprints: Seq<FingerprintView>) -> bool {
    forall|a: int, b: int|
        0 <= a < b < fingerprints.len() ==> (#[trigger] fingerprints[a]).simhash != (
        #[trigger] fingerprints[b]).simhash
}

/// The rule that shapes follow where no two candidates share one: two shapes
/// are admissible where the candidates of these shapes are.
pub open spec fn rule_of_shapes(
    fingerprints: Seq<FingerprintView>,
    threshold: u32,
    calls: Set<(i64, i64)>,
) -> spec_fn(u64, u64) -> bool {
    |s: u64, t: u64|
        distance(s, t) <= threshold && exists|f: FingerprintView, g: FingerprintView|
            f.simhash == s && g.simhash == t && #[trigger] fingerprints.contains(f)
                && #[trigger] fingerprints.contains(g) && suppression(f, g, calls) is None
}

/// Where no two candidates share a shape, shapes decide what is admissible,
/// whatever is suppressed.
pub proof fn distinct_shapes_decide(
    fingerprints: Seq<FingerprintView>,
    threshold: u32,
    calls: Set<(i64, i64)>,
)
    requires
        fingerprints.len() <= usize::MAX,
        distinct_shapes(fingerprints),
    ensures
        decided_by_shape(
            admissible_in(fingerprints, threshold, calls),
            all_candidates(fingerprints),
            shape(fingerprints),
            rule_of_shapes(fingerprints, threshold, calls),
        ),
{
    let adm = admissible_in(fingerprints, threshold, calls);
    let all = all_candidates(fingerprints);
    let rule = rule_of_shapes(fingerprints, threshold, calls);
    assert forall|a: usize, b: usize|
        all.contains(a) && all.contains(b) && a != b implies #[trigger] adm(a, b) == rule(
        shape(fingerprints)(a),
        shape(fingerprints)(b),
    ) by {
        assert(a < fingerprints.len() && b < fingerprints.len());
        let x = fingerprints[a as int];
        let y = fingerprints[b as int];
        assert(fingerprints.contains(x) && fingerprints.contains(y));
        if rule(x.simhash, y.simhash) {
            let (f, g) = choose|f: FingerprintView, g: FingerprintView|
                f.simhash == x.simhash && g.simhash == y.simhash && #[trigger]
                    fingerprints.contains(f) && #[trigger] fingerprints.contains(g) && suppression(
                    f,
                    g,
                    calls,
                ) is None;
            lemma_shape_names_one(fingerprints, f, x);
            lemma_shape_names_one(fingerprints, g, y);
        }
    }
}

proof fn lemma_shape_names_one(
    fingerprints: Seq<FingerprintView>,
    f: FingerprintView,
    g: FingerprintView,
)
    requires
        distinct_shapes(fingerprints),
        fingerprints.contains(f),
        fingerprints.contains(g),
        f.simhash == g.simhash,
    ensures
        f == g,
{
    let i = choose|i: int| 0 <= i < fingerprints.len() && fingerprints[i] == f;
    let j = choose|j: int| 0 <= j < fingerprints.len() && fingerprints[j] == g;
    if i < j {
        assert(fingerprints[i].simhash != fingerprints[j].simhash);
    } else if j < i {
        assert(fingerprints[j].simhash != fingerprints[i].simhash);
    }
}

/// The partition of candidates that share no shape does not depend on the order
/// they arrived in, whatever is suppressed: the same candidates in another
/// order are reported as groups of the same shapes.
pub proof fn arrival_order_of_distinct_shapes_does_not_matter(
    groups: Seq<Seq<usize>>,
    fingerprints: Seq<FingerprintView>,
    groups2: Seq<Seq<usize>>,
    fingerprints2: Seq<FingerprintView>,
    threshold: u32,
    calls: Set<(i64, i64)>,
)
    requires
        fingerprints.len() <= usize::MAX,
        fingerprints2.len() <= usize::MAX,
        reports(groups, findings(fingerprints, threshold, calls)),
        reports(groups2, findings(fingerprints2, threshold, calls)),
        fingerprints.to_multiset() == fingerprints2.to_multiset(),
        distinct_shapes(fingerprints),
    ensures
        shapes_of(groups, shape(fingerprints)).to_multiset() == shapes_of(
            groups2,
            shape(fingerprints2),
        ).to_multiset(),
{
    broadcast use vstd::seq_lib::group_to_multiset_ensures;

    let rule = rule_of_shapes(fingerprints, threshold, calls);
    let read = |f: FingerprintView| f.simhash;
    lemma_map_permutes(fingerprints, fingerprints2, read);
    assert forall|f: FingerprintView| #[trigger] fingerprints.contains(f)
        == fingerprints2.contains(f) by {
        fingerprints.to_multiset_ensures();
        fingerprints2.to_multiset_ensures();
        assert(fingerprints.to_multiset().count(f) == fingerprints2.to_multiset().count(f));
        assert(fingerprints.contains(f) <==> fingerprints.to_multiset().count(f) > 0);
        assert(fingerprints2.contains(f) <==> fingerprints2.to_multiset().count(f) > 0);
    }
    let rule2 = rule_of_shapes(fingerprints2, threshold, calls);
    assert forall|s: u64, t: u64| #[trigger] rule(s, t) == rule2(s, t) by {
        if rule(s, t) {
            let (f, g) = choose|f: FingerprintView, g: FingerprintView|
                f.simhash == s && g.simhash == t && #[trigger] fingerprints.contains(f)
                    && #[trigger] fingerprints.contains(g) && suppression(f, g, calls) is None;
            assert(fingerprints2.contains(f) && fingerprints2.contains(g));
        }
        if rule2(s, t) {
            let (f, g) = choose|f: FingerprintView, g: FingerprintView|
                f.simhash == s && g.simhash == t && #[trigger] fingerprints2.contains(f)
                    && #[trigger] fingerprints2.contains(g) && suppression(f, g, calls) is None;
            assert(fingerprints.contains(f) && fingerprints.contains(g));
        }
    }
    assert(rule2 =~= rule);
    let shapes = fingerprints.map_values(read);
    let shapes2 = fingerprints2.map_values(read);
    assert forall|a: int, b: int| 0 <= a < shapes.len() && 0 <= b < shapes.len() && a
        != b implies shapes[a] != shapes[b] by {
        if a < b {
            assert(fingerprints[a].simhash != fingerprints[b].simhash);
        } else {
            assert(fingerprints[b].simhash != fingerprints[a].simhash);
        }
    }
    shapes.lemma_multiset_has_no_duplicates();
    shapes2.lemma_multiset_has_no_duplicates_conv();
    assert forall|a: int, b: int| 0 <= a < b < fingerprints2.len() implies (
    #[trigger] fingerprints2[a]).simhash != (#[trigger] fingerprints2[b]).simhash by {
        assert(shapes2[a] != shapes2[b]);
    }
    distinct_shapes_decide(fingerprints, threshold, calls);
    distinct_shapes_decide(fingerprints2, threshold, calls);
    arrival_order_does_not_matter(
        groups,
        fingerprints,
        calls,
        groups2,
        fingerprints2,
        calls,
        threshold,
        rule,
    );
}

/// Where nothing is suppressed, the distance decides what is admissible.
pub proof fn distance_decides(
    fingerprints: Seq<FingerprintView>,
    threshold: u32,
    calls: Set<(i64, i64)>,
)
    requires
        fingerprints.len() <= usize::MAX,
        forall|a: int, b: int|
            0 <= a < fingerprints.len() && 0 <= b < fingerprints.len() && a != b
                ==> #[trigger] suppression(fingerprints[a], fingerprints[b], calls) is None,
    ensures
        decided_by_shape(
            admissible_in(fingerprints, threshold, calls),
            all_candidates(fingerprints),
            shape(fingerprints),
            |s: u64, t: u64| distance(s, t) <= threshold,
        ),
{
    let adm = admissible_in(fingerprints, threshold, calls);
    let all = all_candidates(fingerprints);
    let rule = |s: u64, t: u64| distance(s, t) <= threshold;
    assert forall|a: usize, b: usize|
        all.contains(a) && all.contains(b) && a != b implies #[trigger] adm(a, b) == rule(
        shape(fingerprints)(a),
        shape(fingerprints)(b),
    ) by {
        assert(a < fingerprints.len() && b < fingerprints.len());
        assert(suppression(fingerprints[a as int], fingerprints[b as int], calls) is None);
    }
}

proof fn lemma_all_are_candidates(fingerprints: Seq<FingerprintView>)
    requires
        fingerprints.len() <= usize::MAX,
    ensures
        forall|i: usize| #[trigger]
            candidate_order(fingerprints).contains(i) ==> all_candidates(fingerprints).contains(i),
{
    lemma_candidate_order(fingerprints);
    assert forall|i: usize| #[trigger]
        candidate_order(fingerprints).contains(i) implies all_candidates(fingerprints).contains(
        i,
    ) by {
        assert(all_candidates(fingerprints)[i as int] == i);
    }
}

/// The candidate order lists the simhashes upwards.
proof fn lemma_order_of_shapes(fingerprints: Seq<FingerprintView>)
    requires
        fingerprints.len() <= usize::MAX,
    ensures
        candidate_order(fingerprints).map_values(shape(fingerprints)).to_multiset() == simhashes(
            fingerprints,
        ),
        sorted_by(
            candidate_order(fingerprints).map_values(shape(fingerprints)),
            |a: u64, b: u64| a <= b,
        ),
{
    let all = all_candidates(fingerprints);
    let order = candidate_order(fingerprints);
    let number = shape(fingerprints);
    lemma_numbers_are_keys(number);
    all.lemma_sort_by_ensures(by_number(number));
    lemma_map_permutes(order, all, number);
    assert(all.map_values(number) =~= fingerprints.map_values(|f: FingerprintView| f.simhash));
    let listed = order.map_values(number);
    assert forall|i: int, j: int| 0 <= i < j < listed.len() implies listed[i] <= listed[j] by {
        assert(by_number(number)(order[i], order[j]));
    }
}

/// A report is a rearrangement of the findings.
proof fn lemma_report_permutes(
    groups: Seq<Seq<usize>>,
    fingerprints: Seq<FingerprintView>,
    threshold: u32,
    calls: Set<(i64, i64)>,
)
    requires
        fingerprints.len() <= usize::MAX,
        reports(groups, findings(fingerprints, threshold, calls)),
    ensures
        groups.to_multiset() == findings(fingerprints, threshold, calls).to_multiset(),
{
    broadcast use vstd::seq_lib::group_to_multiset_ensures;

    let found = findings(fingerprints, threshold, calls);
    lemma_candidate_order(fingerprints);
    linkage_makes_groups(
        candidate_order(fingerprints),
        admissible_in(fingerprints, threshold, calls),
    );
    assert forall|j: int, k: int|
        0 <= j < found.len() && 0 <= k < found.len() && j != k implies found[j] != found[k] by {
        assert(found[j].contains(found[j][0]));
        if found[j] == found[k] {
            assert(found[k].contains(found[j][0]));
        }
    }
    assert forall|j: int, k: int|
        0 <= j < groups.len() && 0 <= k < groups.len() && j != k implies groups[j] != groups[k] by {
        if j < k {
            assert(groups[j][0] < groups[k][0]);
        } else {
            assert(groups[k][0] < groups[j][0]);
        }
    }
    groups.lemma_multiset_has_no_duplicates();
    found.lemma_multiset_has_no_duplicates();
    assert forall|g: Seq<usize>| groups.to_multiset().count(g) == found.to_multiset().count(g) by {
        assert(groups.contains(g) <==> found.contains(g));
        assert(groups.to_multiset().contains(g) ==> groups.to_multiset().count(g) == 1);
        assert(found.to_multiset().contains(g) ==> found.to_multiset().count(g) == 1);
        assert(groups.contains(g) <==> groups.to_multiset().count(g) > 0);
        assert(found.contains(g) <==> found.to_multiset().count(g) > 0);
    }
    assert(groups.to_multiset() =~= found.to_multiset());
}

} // verus!
