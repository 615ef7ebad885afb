//! Grouping candidates that share a shape, and dropping the pairs that share
//! it for a reason other than duplication.

use std::collections::HashSet;
use std::hash::BuildHasher;

use vstd::prelude::*;
use vstd::relations::sorted_by;
use vstd::seq_lib::lemma_sorted_unique;
use vstd::std_specs::hash::builds_valid_hashers;

use super::bits::{distance, distance_is_a_metric, hamming};
use super::dense::{answers_key, answers_test, by_number, lemma_numbers_are_keys};
use super::linkage::{
    are_groups_of, bounded, closed_under, groups_inside, lemma_filter_members, linkage,
    linkage_is_bounded, linkage_makes_groups, linkage_splits_by_component, symmetric,
};
use super::union_find::is_grouping;
pub use super::dense::dense_groups;
pub use super::union_find::UnionFind;

verus! {

/// Why a pair that looked alike is not reported.
///
/// Carried rather than discarded silently: a suppression is a decision the tool
/// made on the reader's behalf.
#[derive(Debug, Clone, Copy, PartialEq, Eq, Structural)]
pub enum Suppression {
    /// One calls the other, on an edge the resolver actually placed. A wrapper
    /// resembling what it wraps is the design, not a defect.
    Calls,
    /// Both are members of the same class or trait. Two methods of one type
    /// sharing a skeleton is what a type is for.
    SharedOwner,
}

/// What a pair is judged on, before any embedding exists.
#[derive(Debug, Clone, PartialEq, Eq)]
pub struct Fingerprint {
    /// Structural simhash of the body.
    pub simhash: u64,
    /// The symbol's row id, for looking the pair up among the call edges.
    pub symbol_id: i64,
    /// The class or trait this is a member of.
    pub owner_name: Option<String>,
}

/// A fingerprint with its owner as text.
pub struct FingerprintView {
    pub simhash: u64,
    pub symbol_id: i64,
    pub owner_name: Option<Seq<char>>,
}

impl View for Fingerprint {
    type V = FingerprintView;

    open spec fn view(&self) -> FingerprintView {
        FingerprintView {
            simhash: self.simhash,
            symbol_id: self.symbol_id,
            owner_name: match self.owner_name {
                Some(name) => Some(name@),
                None => None,
            },
        }
    }
}

/// A pair of symbol ids, lower id first.
pub open spec fn pair_of(a: i64, b: i64) -> (i64, i64) {
    if a <= b {
        (a, b)
    } else {
        (b, a)
    }
}

/// Why a pair is not duplication: a call edge first, then an owner that both
/// have. Two symbols without an owner share none.
pub open spec fn suppression(
    a: FingerprintView,
    b: FingerprintView,
    calls: Set<(i64, i64)>,
) -> Option<Suppression> {
    if calls.contains(pair_of(a.symbol_id, b.symbol_id)) {
        Some(Suppression::Calls)
    } else if a.owner_name is Some && a.owner_name == b.owner_name {
        Some(Suppression::SharedOwner)
    } else {
        None
    }
}

/// Whether a set of pairs holds a pair. `HashSet::contains` returns `true` if
/// the set contains the value; for keys that are pairs of integers.
#[verifier::external_body]
fn holds_pair<S: BuildHasher>(pairs: &HashSet<(i64, i64), S>, pair: (i64, i64)) -> (held: bool)
    requires
        builds_valid_hashers::<S>(),
    ensures
        held == pairs@.contains(pair),
{
    pairs.contains(&pair)
}

/// Why this pair is not duplication, or `None` if nothing rules it out.
///
/// Only signals the index can be *sure* of. There is deliberately no rule here
/// for "similar names" or "same file": both are guesses, and a guess that
/// suppresses removes the answer without saying so.
pub fn suppression_for<S: BuildHasher>(
    a: &Fingerprint,
    b: &Fingerprint,
    suppressed_pairs: &HashSet<(i64, i64), S>,
) -> (reason: Option<Suppression>)
    requires
        builds_valid_hashers::<S>(),
    ensures
        reason == suppression(a@, b@, suppressed_pairs@),
        reason == Some(Suppression::Calls) <==> suppressed_pairs@.contains(
            if a.symbol_id <= b.symbol_id {
                (a.symbol_id, b.symbol_id)
            } else {
                (b.symbol_id, a.symbol_id)
            },
        ),
        reason is None ==> !(a.owner_name is Some && b.owner_name is Some && a.owner_name->0@
            == b.owner_name->0@),
        reason == Some(Suppression::SharedOwner) ==> a.owner_name is Some && b.owner_name is Some
            && a.owner_name->0@ == b.owner_name->0@,
{
    let pair = if a.symbol_id <= b.symbol_id {
        (a.symbol_id, b.symbol_id)
    } else {
        (b.symbol_id, a.symbol_id)
    };
    if holds_pair(suppressed_pairs, pair) {
        return Some(Suppression::Calls);
    }
    match (&a.owner_name, &b.owner_name) {
        (Some(x), Some(y)) => {
            if *x == *y {
                Some(Suppression::SharedOwner)
            } else {
                None
            }
        },
        _ => None,
    }
}

/// The fingerprints, owners as text.
pub open spec fn views(fingerprints: Seq<Fingerprint>) -> Seq<FingerprintView> {
    fingerprints.map_values(|f: Fingerprint| f@)
}

/// The simhash of each candidate.
pub open spec fn shape(fingerprints: Seq<FingerprintView>) -> spec_fn(usize) -> u64 {
    |i: usize| fingerprints[i as int].simhash
}

/// Whether two candidates may stand in one group: close enough, and nothing
/// rules the pair out.
pub open spec fn admissible_in(
    fingerprints: Seq<FingerprintView>,
    threshold: u32,
    calls: Set<(i64, i64)>,
) -> spec_fn(usize, usize) -> bool {
    |a: usize, b: usize|
        distance(fingerprints[a as int].simhash, fingerprints[b as int].simhash) <= threshold
            && suppression(fingerprints[a as int], fingerprints[b as int], calls) is None
}

/// Every candidate, in the order of simhashes.
pub open spec fn candidate_order(fingerprints: Seq<FingerprintView>) -> Seq<usize> {
    Seq::new(fingerprints.len(), |i: int| i as usize).sort_by(by_number(shape(fingerprints)))
}

/// The groups that complete linkage makes of all candidates in the order of
/// their simhashes.
pub open spec fn findings(
    fingerprints: Seq<FingerprintView>,
    threshold: u32,
    calls: Set<(i64, i64)>,
) -> Seq<Seq<usize>> {
    linkage(candidate_order(fingerprints), admissible_in(fingerprints, threshold, calls))
}

/// Whether `groups` are the groups of `found`, ordered by their first member.
pub open spec fn reports(groups: Seq<Seq<usize>>, found: Seq<Seq<usize>>) -> bool {
    &&& forall|g: Seq<usize>| #[trigger] groups.contains(g) <==> found.contains(g)
    &&& forall|j: int, k: int|
        0 <= j < k < groups.len() ==> (#[trigger] groups[j])[0] < (#[trigger] groups[k])[0]
}

/// Every candidate stands in the candidate order once.
pub proof fn lemma_candidate_order(fingerprints: Seq<FingerprintView>)
    requires
        fingerprints.len() <= usize::MAX,
    ensures
        candidate_order(fingerprints).no_duplicates(),
        candidate_order(fingerprints).len() == fingerprints.len(),
        forall|i: usize| #[trigger]
            candidate_order(fingerprints).contains(i) <==> i < fingerprints.len(),
{
    broadcast use vstd::seq_lib::group_to_multiset_ensures;

    let all = Seq::new(fingerprints.len(), |i: int| i as usize);
    let order = candidate_order(fingerprints);
    lemma_numbers_are_keys(shape(fingerprints));
    all.lemma_sort_by_ensures(by_number(shape(fingerprints)));
    assert(all.no_duplicates());
    all.lemma_multiset_has_no_duplicates();
    order.lemma_multiset_has_no_duplicates_conv();
    assert(order.len() == order.to_multiset().len());
    assert forall|i: usize| #[trigger] order.contains(i) <==> i < fingerprints.len() by {
        assert(order.to_multiset().count(i) == all.to_multiset().count(i));
        if i < fingerprints.len() {
            assert(all[i as int] == i);
            assert(all.contains(i));
        }
    }
}

/// A pair is judged the same whichever of the two comes first.
pub proof fn admissible_is_symmetric(
    fingerprints: Seq<FingerprintView>,
    threshold: u32,
    calls: Set<(i64, i64)>,
)
    ensures
        symmetric(admissible_in(fingerprints, threshold, calls)),
{
    let adm = admissible_in(fingerprints, threshold, calls);
    assert forall|a: usize, b: usize| #[trigger] adm(a, b) == adm(b, a) by {
        let x = fingerprints[a as int];
        let y = fingerprints[b as int];
        distance_is_a_metric(x.simhash, y.simhash, x.simhash);
        assert(pair_of(x.symbol_id, y.symbol_id) == pair_of(y.symbol_id, x.symbol_id));
    }
}

/// A component that holds every candidate of one representative, sorted by
/// simhash, is the candidate order without the others.
proof fn lemma_component_order(
    fingerprints: Seq<FingerprintView>,
    component: Seq<usize>,
    inside: spec_fn(usize) -> bool,
)
    requires
        fingerprints.len() <= usize::MAX,
        component.no_duplicates(),
        forall|x: usize| #[trigger]
            component.contains(x) <==> x < fingerprints.len() && inside(x),
    ensures
        component.sort_by(by_number(shape(fingerprints))) == candidate_order(fingerprints).filter(
            inside,
        ),
{
    broadcast use vstd::seq_lib::group_to_multiset_ensures;

    let rule = by_number(shape(fingerprints));
    let order = candidate_order(fingerprints);
    let kept = order.filter(inside);
    lemma_numbers_are_keys(shape(fingerprints));
    lemma_candidate_order(fingerprints);
    Seq::new(fingerprints.len(), |i: int| i as usize).lemma_sort_by_ensures(rule);
    component.lemma_sort_by_ensures(rule);
    lemma_filter_keeps_order(order, inside, rule);
    component.lemma_multiset_has_no_duplicates();
    kept.lemma_multiset_has_no_duplicates();
    assert forall|x: usize| kept.to_multiset().count(x) == component.to_multiset().count(x) by {
        lemma_filter_members(order, inside, x);
        assert(component.contains(x) <==> component.to_multiset().count(x) > 0);
        assert(kept.contains(x) <==> kept.to_multiset().count(x) > 0);
        assert(component.to_multiset().contains(x) ==> component.to_multiset().count(x) == 1);
        assert(kept.to_multiset().contains(x) ==> kept.to_multiset().count(x) == 1);
    }
    assert(kept.to_multiset() =~= component.to_multiset());
    lemma_sorted_unique(kept, component.sort_by(rule), rule);
}

/// What a filter keeps stays sorted and distinct.
proof fn lemma_filter_keeps_order(
    s: Seq<usize>,
    keep: spec_fn(usize) -> bool,
    rule: spec_fn(usize, usize) -> bool,
)
    requires
        sorted_by(s, rule),
        s.no_duplicates(),
    ensures
        sorted_by(s.filter(keep), rule),
        s.filter(keep).no_duplicates(),
    decreases s.len(),
{
    reveal(Seq::filter);
    if s.len() > 0 {
        let fewer = s.drop_last();
        lemma_filter_keeps_order(fewer, keep, rule);
        let kept = fewer.filter(keep);
        assert forall|i: int| 0 <= i < kept.len() implies #[trigger] kept[i] != s.last() && rule(
            kept[i],
            s.last(),
        ) by {
            assert(kept.contains(kept[i]));
            lemma_filter_members(fewer, keep, kept[i]);
            let j = choose|j: int| 0 <= j < fewer.len() && fewer[j] == kept[i];
            assert(s[j] == fewer[j]);
            assert(rule(s[j], s[s.len() - 1]));
        }
    }
}

/// Whether two candidates may stand in one group.
fn admissible<S: BuildHasher>(
    fingerprints: &[Fingerprint],
    threshold: u32,
    suppressed_pairs: &HashSet<(i64, i64), S>,
    a: usize,
    b: usize,
) -> (fine: bool)
    requires
        builds_valid_hashers::<S>(),
        a < fingerprints@.len(),
        b < fingerprints@.len(),
    ensures
        fine == admissible_in(views(fingerprints@), threshold, suppressed_pairs@)(a, b),
{
    if hamming(fingerprints[a].simhash, fingerprints[b].simhash) > threshold {
        return false;
    }
    match suppression_for(&fingerprints[a], &fingerprints[b], suppressed_pairs) {
        None => true,
        Some(_) => false,
    }
}

/// Whether each pair of admissible candidates shares a representative.
spec fn covers(
    reps: Seq<usize>,
    adm: spec_fn(usize, usize) -> bool,
    a: usize,
    b: usize,
) -> bool {
    adm(a, b) ==> reps[a as int] == reps[b as int]
}

/// The candidates in sets, so that no admissible pair is split over two.
fn connect<S: BuildHasher>(
    fingerprints: &[Fingerprint],
    threshold: u32,
    suppressed_pairs: &HashSet<(i64, i64), S>,
) -> (sets: UnionFind)
    requires
        builds_valid_hashers::<S>(),
    ensures
        sets.wf(),
        sets@.len() == fingerprints@.len(),
        forall|a: usize, b: usize|
            a < b < fingerprints@.len() ==> #[trigger] covers(
                sets@,
                admissible_in(views(fingerprints@), threshold, suppressed_pairs@),
                a,
                b,
            ),
{
    let ghost adm = admissible_in(views(fingerprints@), threshold, suppressed_pairs@);
    let n: usize = fingerprints.len();
    let mut sets = UnionFind::new(n);
    let mut i: usize = 0;
    while i < n
        invariant
            i <= n,
            n == fingerprints@.len(),
            builds_valid_hashers::<S>(),
            adm == admissible_in(views(fingerprints@), threshold, suppressed_pairs@),
            sets.wf(),
            sets@.len() == n,
            forall|a: usize, b: usize|
                a < i && a < b < n ==> #[trigger] covers(sets@, adm, a, b),
        decreases n - i,
    {
        let mut j: usize = i + 1;
        while j < n
            invariant
                i < j <= n,
                n == fingerprints@.len(),
                builds_valid_hashers::<S>(),
                adm == admissible_in(views(fingerprints@), threshold, suppressed_pairs@),
                sets.wf(),
                sets@.len() == n,
                forall|a: usize, b: usize|
                    a < i && a < b < n ==> #[trigger] covers(sets@, adm, a, b),
                forall|b: usize| i < b < j ==> #[trigger] covers(sets@, adm, i, b),
            decreases n - j,
        {
            if admissible(fingerprints, threshold, suppressed_pairs, i, j) {
                let ghost before = sets@;
                let ghost ranks = sets.ranks();
                proof {
                    sets.lemma_wf();
                }
                sets.union(i, j);
                proof {
                    assert forall|a: usize, b: usize| a < i && a < b < n implies #[trigger] covers(
                        sets@,
                        adm,
                        a,
                        b,
                    ) by {
                        assert(covers(before, adm, a, b));
                    }
                    assert forall|b: usize| i < b < j implies #[trigger] covers(
                        sets@,
                        adm,
                        i,
                        b,
                    ) by {
                        assert(covers(before, adm, i, b));
                    }
                }
            }
            j += 1;
        }
        i += 1;
    }
    sets
}

/// The groups of one component.
fn component_groups<S: BuildHasher>(
    fingerprints: &[Fingerprint],
    threshold: u32,
    suppressed_pairs: &HashSet<(i64, i64), S>,
    component: &Vec<usize>,
) -> (groups: Vec<Vec<usize>>)
    requires
        builds_valid_hashers::<S>(),
        forall|i: int| 0 <= i < component@.len() ==> #[trigger] component@[i] < fingerprints@.len(),
    ensures
        groups@.map_values(|g: Vec<usize>| g@) == linkage(
            component@.sort_by(by_number(shape(views(fingerprints@)))),
            admissible_in(views(fingerprints@), threshold, suppressed_pairs@),
        ),
{
    let ghost number = shape(views(fingerprints@));
    let ghost adm = admissible_in(views(fingerprints@), threshold, suppressed_pairs@);
    let key = |i: usize| -> (simhash: u64)
        requires
            i < fingerprints@.len(),
        ensures
            simhash == number(i),
        { fingerprints[i].simhash };
    let test = |a: usize, b: usize| -> (fine: bool)
        requires
            a < fingerprints@.len(),
            b < fingerprints@.len(),
            builds_valid_hashers::<S>(),
        ensures
            fine == adm(a, b),
        { admissible(fingerprints, threshold, suppressed_pairs, a, b) };
    proof {
        lemma_numbers_are_keys(number);
        assert(answers_key(key, number, component@));
        assert(answers_test(test, adm, component@));
    }
    dense_groups(component.as_slice(), key, test)
}

/// The groups as sequences.
pub open spec fn group_views(groups: Seq<Vec<usize>>) -> Seq<Seq<usize>> {
    groups.map_values(|g: Vec<usize>| g@)
}

/// Groups that start at different candidates.
spec fn distinct_firsts(groups: Seq<Seq<usize>>) -> bool {
    &&& forall|j: int| 0 <= j < groups.len() ==> (#[trigger] groups[j]).len() > 0
    &&& forall|j: int, k: int|
        0 <= j < k < groups.len() ==> (#[trigger] groups[j])[0] != (#[trigger] groups[k])[0]
}

/// Whether a candidate's representative is that of one of the first `upto`
/// components.
spec fn belongs(reps: Seq<usize>, components: Seq<Seq<usize>>, upto: int, x: usize) -> bool {
    exists|j: int|
        0 <= j < upto && reps[x as int] == reps[(#[trigger] components[j])[0] as int]
}

/// What is gathered after the first `upto` components: their findings, and
/// nothing else.
spec fn gathered(
    flat: Seq<Seq<usize>>,
    found: Seq<Seq<usize>>,
    reps: Seq<usize>,
    components: Seq<Seq<usize>>,
    upto: int,
) -> bool {
    &&& distinct_firsts(flat)
    &&& forall|a: int|
        0 <= a < flat.len() ==> found.contains(#[trigger] flat[a]) && belongs(
            reps,
            components,
            upto,
            flat[a][0],
        )
    &&& forall|k: int|
        0 <= k < found.len() && belongs(reps, components, upto, (#[trigger] found[k])[0])
            ==> flat.contains(found[k])
}

/// Whether a candidate stands in one component.
spec fn stands_in(reps: Seq<usize>, component: Seq<usize>) -> spec_fn(usize) -> bool {
    |x: usize| x < reps.len() && reps[x as int] == reps[component[0] as int]
}

proof fn lemma_gather(
    flat: Seq<Seq<usize>>,
    found: Seq<Seq<usize>>,
    candidates: Seq<usize>,
    reps: Seq<usize>,
    components: Seq<Seq<usize>>,
    at: int,
    part: Seq<Seq<usize>>,
)
    requires
        0 <= at < components.len(),
        is_grouping(reps, components),
        gathered(flat, found, reps, components, at),
        are_groups_of(found, candidates),
        forall|i: usize| #[trigger] candidates.contains(i) <==> i < reps.len(),
        part == groups_inside(found, stands_in(reps, components[at])),
        are_groups_of(part, components[at]),
    ensures
        gathered(flat + part, found, reps, components, at + 1),
{
    let inside = stands_in(reps, components[at]);
    let starts = |g: Seq<usize>| inside(g[0]);
    let after = flat + part;
    assert(part == found.filter(starts));
    assert forall|a: int| 0 <= a < part.len() implies found.contains(#[trigger] part[a]) && inside(
        part[a][0],
    ) by {
        assert(part.contains(part[a]));
        lemma_filter_members(found, starts, part[a]);
    }
    assert forall|x: usize| belongs(reps, components, at, x) implies belongs(
        reps,
        components,
        at + 1,
        x,
    ) by {
        let j = choose|j: int|
            0 <= j < at && reps[x as int] == reps[(#[trigger] components[j])[0] as int];
        assert(reps[x as int] == reps[components[j][0] as int]);
    }
    assert forall|a: int| 0 <= a < after.len() implies found.contains(#[trigger] after[a])
        && belongs(reps, components, at + 1, after[a][0]) by {
        if a < flat.len() {
            assert(after[a] == flat[a]);
        } else {
            assert(after[a] == part[a - flat.len()]);
            assert(reps[after[a][0] as int] == reps[components[at][0] as int]);
        }
    }
    assert forall|k: int|
        0 <= k < found.len() && belongs(
            reps,
            components,
            at + 1,
            (#[trigger] found[k])[0],
        ) implies after.contains(found[k]) by {
        let g = found[k];
        if belongs(reps, components, at, g[0]) {
            assert(flat.contains(g));
            let a = choose|a: int| 0 <= a < flat.len() && flat[a] == g;
            assert(after[a] == g);
        } else {
            assert(reps[g[0] as int] == reps[components[at][0] as int]);
            assert(candidates.contains(found[k][0]));
            assert(found.contains(found[k]));
            lemma_filter_members(found, starts, g);
            let a = choose|a: int| 0 <= a < part.len() && part[a] == g;
            assert(after[flat.len() + a] == g);
        }
    }
    assert forall|j: int, k: int| 0 <= j < k < after.len() implies (#[trigger] after[j])[0] != (
    #[trigger] after[k])[0] by {
        if k < flat.len() {
            assert(after[j] == flat[j] && after[k] == flat[k]);
        } else {
            let m = k - flat.len();
            assert(after[k] == part[m]);
            if j < flat.len() {
                assert(after[j] == flat[j]);
                if flat[j][0] == part[m][0] {
                    let c = choose|c: int|
                        0 <= c < at && reps[flat[j][0] as int] == reps[(
                        #[trigger] components[c])[0] as int];
                    lemma_components_differ(reps, components, c, at);
                }
            } else {
                let l = j - flat.len();
                assert(after[j] == part[l]);
                assert(part[l].contains(part[l][0]));
                if part[l][0] == part[m][0] {
                    assert(part[m][0] == part[l][0]);
                    assert(part[m].contains(part[l][0]));
                }
            }
        }
    }
}

/// Two components have two representatives.
proof fn lemma_components_differ(
    reps: Seq<usize>,
    components: Seq<Seq<usize>>,
    c: int,
    d: int,
)
    requires
        is_grouping(reps, components),
        0 <= c < d < components.len(),
    ensures
        reps[components[c][0] as int] != reps[components[d][0] as int],
{
    let first = components[c][0];
    let second = components[d][0];
    assert(first < second);
    assert(first < reps.len());
    if reps[first as int] == reps[second as int] {
        assert(components[d].contains(first));
        let i = choose|i: int| 0 <= i < components[d].len() && components[d][i] == first;
        assert(components[d][0] <= components[d][i]);
    }
}

/// Every component gathered is every finding gathered.
proof fn lemma_all_gathered(
    flat: Seq<Seq<usize>>,
    found: Seq<Seq<usize>>,
    candidates: Seq<usize>,
    reps: Seq<usize>,
    components: Seq<Seq<usize>>,
    adm: spec_fn(usize, usize) -> bool,
)
    requires
        is_grouping(reps, components),
        gathered(flat, found, reps, components, components.len() as int),
        are_groups_of(found, candidates),
        bounded(found, adm),
        forall|i: usize| #[trigger] candidates.contains(i) <==> i < reps.len(),
        forall|a: usize, b: usize| a < b < reps.len() ==> #[trigger] covers(reps, adm, a, b),
    ensures
        forall|g: Seq<usize>| #[trigger] flat.contains(g) <==> found.contains(g),
{
    assert forall|g: Seq<usize>| #[trigger] flat.contains(g) <==> found.contains(g) by {
        if found.contains(g) {
            let k = choose|k: int| 0 <= k < found.len() && found[k] == g;
            let x = found[k][0];
            let y = found[k][1];
            assert(found[k][0] < found[k][1]);
            assert(candidates.contains(found[k][0]) && candidates.contains(found[k][1]));
            assert(found[k].contains(x) && found[k].contains(y));
            assert(adm(x, y));
            assert(covers(reps, adm, x, y));
            assert(reps[x as int] == reps[y as int]);
            let c = choose|c: int|
                0 <= c < components.len() && #[trigger] components[c].contains(x as int as usize);
            assert(components[c].contains(x));
            let i = choose|i: int| 0 <= i < components[c].len() && components[c][i] == x;
            assert(reps[components[c][i] as int] == reps[components[c][0] as int]);
            assert(belongs(reps, components, components.len() as int, found[k][0]));
        }
    }
}

/// The groups, ordered by their first member.
fn by_first(groups: Vec<Vec<usize>>) -> (sorted: Vec<Vec<usize>>)
    requires
        distinct_firsts(group_views(groups@)),
    ensures
        reports(group_views(sorted@), group_views(groups@)),
{
    let ghost all = group_views(groups@);
    let mut rest = groups;
    let mut sorted: Vec<Vec<usize>> = Vec::new();
    while rest.len() > 0
        invariant
            distinct_firsts(all),
            rest@.len() <= all.len(),
            group_views(rest@) == all.take(rest@.len() as int),
            forall|j: int, k: int|
                0 <= j < k < sorted@.len() ==> (#[trigger] sorted@[j])@[0] < (
                #[trigger] sorted@[k])@[0],
            forall|j: int|
                0 <= j < sorted@.len() ==> all.skip(rest@.len() as int).contains(
                    (#[trigger] sorted@[j])@,
                ),
            forall|k: int|
                rest@.len() <= k < all.len() ==> group_views(sorted@).contains(#[trigger] all[k]),
        decreases rest@.len(),
    {
        let ghost before = sorted@;
        let ghost at = rest@.len() - 1;
        assert(group_views(rest@)[at] == all[at]);
        let group = rest.pop().unwrap();
        assert(group@ == all[at]);
        assert(group_views(rest@) =~= all.take(at));
        let first = group[0];
        let mut pos: usize = 0;
        assert forall|j: int| 0 <= j < before.len() implies (#[trigger] before[j])@.len() > 0
            && before[j]@[0] != first by {
            let later = all.skip(at + 1);
            let m = choose|m: int| 0 <= m < later.len() && later[m] == before[j]@;
            assert(later[m] == all[at + 1 + m]);
        }
        while pos < sorted.len() && sorted[pos][0] < first
            invariant
                pos <= sorted@.len(),
                sorted@ == before,
                forall|j: int| 0 <= j < before.len() ==> (#[trigger] before[j])@.len() > 0,
                forall|j: int| 0 <= j < pos ==> (#[trigger] before[j])@[0] < first,
            decreases sorted@.len() - pos,
        {
            pos += 1;
        }
        sorted.insert(pos, group);
        proof {
            assert forall|j: int| 0 <= j < sorted@.len() implies all.skip(at).contains(
                (#[trigger] sorted@[j])@,
            ) by {
                if j == pos {
                    assert(all.skip(at)[0] == all[at]);
                } else {
                    let i = if j < pos {
                        j
                    } else {
                        j - 1
                    };
                    assert(sorted@[j] == before[i]);
                    let later = all.skip(at + 1);
                    let m = choose|m: int| 0 <= m < later.len() && later[m] == before[i]@;
                    assert(all.skip(at)[m + 1] == later[m]);
                }
            }
            assert forall|k: int| at <= k < all.len() implies group_views(sorted@).contains(
                #[trigger] all[k],
            ) by {
                if k == at {
                    assert(group_views(sorted@)[pos as int] == all[at]);
                } else {
                    let views = group_views(before);
                    let m = choose|m: int| 0 <= m < views.len() && views[m] == all[k];
                    let j = if m < pos {
                        m
                    } else {
                        m + 1
                    };
                    assert(sorted@[j] == before[m]);
                    assert(group_views(sorted@)[j] == all[k]);
                }
            }
        }
    }
    proof {
        assert forall|g: Seq<usize>| #[trigger]
            group_views(sorted@).contains(g) <==> all.contains(g) by {
            let views = group_views(sorted@);
            if views.contains(g) {
                let j = choose|j: int| 0 <= j < views.len() && views[j] == g;
                assert(sorted@[j]@ == g);
                assert(all.skip(0) =~= all);
            }
            if all.contains(g) {
                let k = choose|k: int| 0 <= k < all.len() && all[k] == g;
            }
        }
    }
    sorted
}

/// Group fingerprints within `threshold` bits of each other.
///
/// Quadratic in the candidate count, and deliberately: this is the *cheap*
/// half, one xor and one popcount per pair.
///
/// `suppressed_pairs` holds symbol-id pairs, lower id first.
pub fn cluster<S: BuildHasher>(
    fingerprints: &[Fingerprint],
    threshold: u32,
    suppressed_pairs: &HashSet<(i64, i64), S>,
) -> (groups: Vec<Vec<usize>>)
    requires
        builds_valid_hashers::<S>(),
    ensures
        reports(
            group_views(groups@),
            findings(views(fingerprints@), threshold, suppressed_pairs@),
        ),
{
    let ghost fps = views(fingerprints@);
    let ghost adm = admissible_in(fps, threshold, suppressed_pairs@);
    let ghost candidates = candidate_order(fps);
    let ghost found = linkage(candidates, adm);
    // Union-find first, but only as a cheap pre-filter: it says which
    // candidates *could* share a group. The bound is applied inside each one.
    let mut sets = connect(fingerprints, threshold, suppressed_pairs);
    let ghost reps = sets@;
    let components = sets.groups();
    let ghost parts = components@.map_values(|g: Vec<usize>| g@);
    proof {
        assert(fingerprints@.len() == fingerprints.len());
        lemma_candidate_order(fps);
        admissible_is_symmetric(fps, threshold, suppressed_pairs@);
        linkage_makes_groups(candidates, adm);
        linkage_is_bounded(candidates, adm);
    }
    let mut flat: Vec<Vec<usize>> = Vec::new();
    let mut k: usize = 0;
    while k < components.len()
        invariant
            k <= components@.len(),
            builds_valid_hashers::<S>(),
            fps == views(fingerprints@),
            fps.len() <= usize::MAX,
            reps.len() == fps.len(),
            adm == admissible_in(fps, threshold, suppressed_pairs@),
            candidates == candidate_order(fps),
            candidates.no_duplicates(),
            forall|i: usize| #[trigger] candidates.contains(i) <==> i < reps.len(),
            found == linkage(candidates, adm),
            are_groups_of(found, candidates),
            symmetric(adm),
            parts == components@.map_values(|g: Vec<usize>| g@),
            is_grouping(reps, parts),
            forall|a: usize, b: usize| a < b < reps.len() ==> #[trigger] covers(reps, adm, a, b),
            gathered(group_views(flat@), found, reps, parts, k as int),
        decreases components@.len() - k,
    {
        let ghost before = group_views(flat@);
        let ghost inside = stands_in(reps, parts[k as int]);
        assert(parts[k as int] == components@[k as int]@);
        assert forall|i: int| 0 <= i < components@[k as int]@.len() implies #[trigger] components@[k as int]@[i]
            < fingerprints@.len() by {
            assert(parts[k as int][i] < reps.len());
        }
        let mut part = component_groups(fingerprints, threshold, suppressed_pairs, &components[k]);
        let ghost part_views = group_views(part@);
        proof {
            let component = parts[k as int];
            lemma_component_members(reps, parts, k as int);
            lemma_component_order(fps, component, inside);
            lemma_closed(reps, adm, candidates, component);
            linkage_splits_by_component(candidates, adm, inside);
            let own = component.sort_by(by_number(shape(fps)));
            lemma_sorted_component(fps, component);
            linkage_makes_groups(own, adm);
            assert forall|g: int, i: int|
                0 <= g < part_views.len() && 0 <= i < part_views[g].len() implies component.contains(
                #[trigger] part_views[g][i],
            ) by {
                assert(own.contains(part_views[g][i]));
            }
            assert(are_groups_of(part_views, component));
            lemma_gather(before, found, candidates, reps, parts, k as int, part_views);
        }
        flat.append(&mut part);
        assert(group_views(flat@) =~= before + part_views);
        k += 1;
    }
    proof {
        lemma_all_gathered(group_views(flat@), found, candidates, reps, parts, adm);
    }
    by_first(flat)
}

/// A component holds every candidate of its representative, once.
proof fn lemma_component_members(reps: Seq<usize>, components: Seq<Seq<usize>>, at: int)
    requires
        0 <= at < components.len(),
        is_grouping(reps, components),
    ensures
        components[at].no_duplicates(),
        forall|x: usize| #[trigger]
            components[at].contains(x) <==> x < reps.len() && stands_in(reps, components[at])(x),
{
    let component = components[at];
    assert forall|i: int, j: int|
        0 <= i < component.len() && 0 <= j < component.len() && i != j implies component[i]
        != component[j] by {
        if i < j {
            assert(components[at][i] < components[at][j]);
        } else {
            assert(components[at][j] < components[at][i]);
        }
    }
    assert forall|x: usize| #[trigger] components[at].contains(x) implies x < reps.len()
        && stands_in(reps, component)(x) by {
        let i = choose|i: int| 0 <= i < component.len() && component[i] == x;
        assert(components[at][i] < reps.len());
    }
}

proof fn lemma_closed(
    reps: Seq<usize>,
    adm: spec_fn(usize, usize) -> bool,
    candidates: Seq<usize>,
    component: Seq<usize>,
)
    requires
        symmetric(adm),
        forall|i: usize| #[trigger] candidates.contains(i) <==> i < reps.len(),
        forall|a: usize, b: usize| a < b < reps.len() ==> #[trigger] covers(reps, adm, a, b),
    ensures
        closed_under(stands_in(reps, component), candidates, adm),
{
    let inside = stands_in(reps, component);
    assert forall|a: usize, b: usize|
        candidates.contains(a) && candidates.contains(b) && a != b && #[trigger] adm(
            a,
            b,
        ) implies inside(a) == inside(b) by {
        if a < b {
            assert(covers(reps, adm, a, b));
        } else {
            assert(adm(b, a));
            assert(covers(reps, adm, b, a));
        }
    }
}

proof fn lemma_sorted_component(fingerprints: Seq<FingerprintView>, component: Seq<usize>)
    requires
        component.no_duplicates(),
    ensures
        component.sort_by(by_number(shape(fingerprints))).no_duplicates(),
        forall|x: usize| #[trigger]
            component.sort_by(by_number(shape(fingerprints))).contains(x) <==> component.contains(
                x,
            ),
{
    broadcast use vstd::seq_lib::group_to_multiset_ensures;

    let rule = by_number(shape(fingerprints));
    let own = component.sort_by(rule);
    lemma_numbers_are_keys(shape(fingerprints));
    component.lemma_sort_by_ensures(rule);
    component.lemma_multiset_has_no_duplicates();
    own.lemma_multiset_has_no_duplicates_conv();
    assert forall|x: usize| #[trigger] own.contains(x) <==> component.contains(x) by {
        assert(own.to_multiset().count(x) == component.to_multiset().count(x));
    }
}

} // verus!
