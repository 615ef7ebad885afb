//! Clusters of fingerprints, and the groups complete linkage makes.

use std::collections::HashSet;

use mdkb::code::duplication::body::hamming;
use mdkb::code::duplication::cluster::{
    cluster, dense_groups, suppression_for, Fingerprint, Suppression, UnionFind,
};

fn fp(symbol_id: i64, simhash: u64, owner: Option<&str>) -> Fingerprint {
    Fingerprint {
        simhash,
        symbol_id,
        owner_name: owner.map(str::to_string),
    }
}

fn no_calls() -> HashSet<(i64, i64)> {
    HashSet::new()
}

#[test]
fn two_fingerprints_within_the_threshold_are_one_cluster() {
    // One bit apart.
    let fps = [fp(1, 0b1010, None), fp(2, 0b1011, None)];

    assert_eq!(cluster(&fps, 12, &no_calls()), vec![vec![0, 1]]);
}

#[test]
fn two_fingerprints_past_the_threshold_are_not_a_cluster() {
    let fps = [fp(1, 0, None), fp(2, u64::MAX, None)];

    assert!(
        cluster(&fps, 12, &no_calls()).is_empty(),
        "64 bits apart is not a near-duplicate"
    );
}

#[test]
fn a_pair_exactly_at_the_threshold_still_clusters() {
    // Threshold is inclusive: `> threshold` is the rejection, so a pair
    // exactly at it is a finding. An off-by-one here changes what the tool
    // reports across the whole repository.
    let fps = [fp(1, 0, None), fp(2, 0b1111, None)];

    assert_eq!(cluster(&fps, 4, &no_calls()), vec![vec![0, 1]]);
    assert!(cluster(&fps, 3, &no_calls()).is_empty());
}

#[test]
fn three_mutually_similar_candidates_are_one_cluster_not_three_pairs() {
    let fps = [
        fp(1, 0b0000, None),
        fp(2, 0b0001, None),
        fp(3, 0b0011, None),
    ];

    assert_eq!(cluster(&fps, 12, &no_calls()), vec![vec![0, 1, 2]]);
}

#[test]
fn a_chain_past_the_threshold_is_split_rather_than_joined() {
    // A resembles B, B resembles C, A does not resemble C. Closing that
    // transitively would make a group wider than the threshold says is
    // possible. A resembles B, and that is the whole finding.
    let fps = [
        fp(1, 0b0000_0000, None),
        fp(2, 0b0000_1111, None),
        fp(3, 0b1111_1111, None),
    ];

    assert_eq!(
        cluster(&fps, 4, &no_calls()),
        vec![vec![0, 1]],
        "C is 8 bits from A: it belongs to neither group, and alone it is \
         not a finding"
    );
}

/// Every pair of every reported group is within the threshold.
///
/// The contract the report renders — "same shape, N bits apart", where N is
/// the widest pair — is only meaningful if N cannot exceed the threshold.
fn assert_bounded(groups: &[Vec<usize>], fps: &[Fingerprint], threshold: u32) {
    for group in groups {
        for (n, &i) in group.iter().enumerate() {
            for &j in &group[n + 1..] {
                let d = hamming(fps[i].simhash, fps[j].simhash);
                assert!(
                    d <= threshold,
                    "group {group:?} holds a pair {d} bits apart, above the \
                     threshold of {threshold}"
                );
            }
        }
    }
}

/// A spread of shapes dense enough that a connected-component pass chains
/// most of them together: consecutive values differ by few bits.
fn a_chainable_spread() -> Vec<Fingerprint> {
    (0..64u64)
        .map(|n| fp(n as i64 + 1, (1u64 << n) - 1, None))
        .collect()
}

#[test]
fn no_reported_group_is_wider_than_the_threshold() {
    let fps = a_chainable_spread();
    for threshold in [1, 4, 12, 20] {
        let groups = cluster(&fps, threshold, &no_calls());
        assert!(
            !groups.is_empty(),
            "threshold {threshold} must still find something to bound"
        );
        assert_bounded(&groups, &fps, threshold);
    }
}

#[test]
fn the_connected_component_pass_would_have_failed_that_bound() {
    // The control: connected components of the same input hold a group far
    // wider than the threshold, so the test above is not passing because
    // the fixture is easy.
    let fps = a_chainable_spread();
    let mut uf = UnionFind::new(fps.len());
    for i in 0..fps.len() {
        for j in (i + 1)..fps.len() {
            if hamming(fps[i].simhash, fps[j].simhash) <= 12 {
                uf.union(i, j);
            }
        }
    }
    let component = uf.groups().into_iter().max_by_key(Vec::len).expect("one");
    let widest = component
        .iter()
        .flat_map(|&i| component.iter().map(move |&j| (i, j)))
        .map(|(i, j)| hamming(fps[i].simhash, fps[j].simhash))
        .max()
        .expect("pairs");
    assert!(
        widest > 12,
        "the fixture must actually chain: widest pair was {widest}"
    );
}

#[test]
fn the_partition_does_not_depend_on_the_order_the_candidates_arrived_in() {
    // Determinism is tie-broken on the fingerprint, not on the row id or the
    // position in the candidate list — both of which move when a file is
    // edited above the symbol.
    let fps = a_chainable_spread();
    let shapes = |groups: Vec<Vec<usize>>, source: &[Fingerprint]| {
        let mut out: Vec<Vec<u64>> = groups
            .iter()
            .map(|g| {
                let mut s: Vec<u64> = g.iter().map(|&i| source[i].simhash).collect();
                s.sort_unstable();
                s
            })
            .collect();
        out.sort();
        out
    };

    let forward = shapes(cluster(&fps, 12, &no_calls()), &fps);

    let mut reversed: Vec<Fingerprint> = fps.clone();
    reversed.reverse();
    let backward = shapes(cluster(&reversed, 12, &no_calls()), &reversed);

    assert_eq!(forward, backward, "the same index, two arrival orders");
}

#[test]
fn a_suppressed_pair_cannot_rejoin_through_a_third_member() {
    // Three identical shapes, one pair suppressed by a call edge. Under a
    // connected component the third member reinstates the pair the
    // suppression removed, which makes the suppression decorative.
    let fps = [
        fp(1, 0b1010, None),
        fp(2, 0b1010, None),
        fp(3, 0b1010, None),
    ];
    let calls = HashSet::from([(1i64, 2i64)]);

    for group in cluster(&fps, 12, &calls) {
        assert!(
            !(group.contains(&0) && group.contains(&1)),
            "the suppressed pair is back in {group:?}"
        );
    }
}

#[test]
fn two_unrelated_clusters_stay_apart() {
    let fps = [
        fp(1, 0b0000, None),
        fp(2, 0b0001, None),
        fp(3, u64::MAX, None),
        fp(4, u64::MAX - 1, None),
    ];

    assert_eq!(cluster(&fps, 4, &no_calls()), vec![vec![0, 1], vec![2, 3]]);
}

#[test]
fn a_lone_candidate_is_not_a_finding() {
    let fps = [fp(1, 0, None)];

    assert!(cluster(&fps, 12, &no_calls()).is_empty());
}

#[test]
fn no_candidates_is_no_clusters_not_a_panic() {
    assert!(cluster(&[], 12, &no_calls()).is_empty());
}

#[test]
fn a_confident_call_edge_suppresses_the_pair() {
    let fps = [fp(1, 0b1010, None), fp(2, 0b1010, None)];
    let calls = HashSet::from([(1i64, 2i64)]);

    assert!(
        cluster(&fps, 12, &calls).is_empty(),
        "a wrapper resembling what it wraps is the design"
    );
}

#[test]
fn suppression_does_not_care_which_way_the_call_went() {
    let fps = [fp(9, 0b1010, None), fp(5, 0b1010, None)];
    let calls = HashSet::from([(5i64, 9i64)]);

    assert!(cluster(&fps, 12, &calls).is_empty());
}

#[test]
fn two_methods_of_the_same_type_are_suppressed() {
    let fps = [fp(1, 0b1010, Some("Store")), fp(2, 0b1010, Some("Store"))];

    assert!(cluster(&fps, 12, &no_calls()).is_empty());
}

#[test]
fn two_methods_of_different_types_are_not_suppressed() {
    // The interesting finding: the same logic written into two types.
    let fps = [fp(1, 0b1010, Some("Store")), fp(2, 0b1010, Some("Cache"))];

    assert_eq!(cluster(&fps, 12, &no_calls()), vec![vec![0, 1]]);
}

#[test]
fn two_free_functions_do_not_share_an_owner() {
    // Both owners are NULL. Reading that as "same owner" would suppress
    // every free-function finding in the repository — the common case.
    let fps = [fp(1, 0b1010, None), fp(2, 0b1010, None)];

    assert_eq!(cluster(&fps, 12, &no_calls()), vec![vec![0, 1]]);
}

#[test]
fn a_method_and_a_free_function_are_not_suppressed() {
    let fps = [fp(1, 0b1010, Some("Store")), fp(2, 0b1010, None)];

    assert_eq!(cluster(&fps, 12, &no_calls()), vec![vec![0, 1]]);
}

/// Suppressing one pair must not break the cluster the other two form.
#[test]
fn suppressing_one_pair_leaves_the_rest_of_the_cluster() {
    let fps = [
        fp(1, 0b1010, None),
        fp(2, 0b1010, None),
        fp(3, 0b1010, None),
    ];
    let calls = HashSet::from([(1i64, 2i64)]);

    // 1-2 is suppressed. 1-3 and 2-3 are not, and either is a finding, but
    // a partition has to choose: symbol 3 can hold one of them, not both.
    // The alternative is overlapping groups, which shows the same symbol
    // twice and leaves the reader to work out it is one decision. The pair
    // the suppression removed stays removed either way, which is the point.
    assert_eq!(cluster(&fps, 12, &calls), vec![vec![0, 2]]);
}

#[test]
fn suppression_names_its_reason() {
    let calls = HashSet::from([(1i64, 2i64)]);
    assert_eq!(
        suppression_for(&fp(1, 0, None), &fp(2, 0, None), &calls),
        Some(Suppression::Calls)
    );
    assert_eq!(
        suppression_for(&fp(3, 0, Some("T")), &fp(4, 0, Some("T")), &no_calls()),
        Some(Suppression::SharedOwner)
    );
    assert_eq!(
        suppression_for(&fp(3, 0, Some("T")), &fp(4, 0, Some("U")), &no_calls()),
        None
    );
}

#[test]
fn union_find_keeps_groups_sorted_and_ordered() {
    let mut uf = UnionFind::new(6);
    uf.union(4, 1);
    uf.union(5, 2);
    uf.union(1, 0);

    assert_eq!(uf.groups(), vec![vec![0, 1, 4], vec![2, 5]]);
}

#[test]
fn union_find_survives_a_long_chain() {
    // Path halving: a degenerate chain must not become a linear find.
    let mut uf = UnionFind::new(1000);
    for i in 1..1000 {
        uf.union(i - 1, i);
    }

    let groups = uf.groups();
    assert_eq!(groups.len(), 1);
    assert_eq!(groups[0].len(), 1000);
}

#[test]
fn the_union_of_two_sets_leaves_the_others_alone() {
    let mut sets = UnionFind::new(5);
    sets.union(0, 1);
    sets.union(2, 3);
    assert_eq!(sets.find(0), sets.find(1));
    assert_ne!(sets.find(0), sets.find(2));
    assert_eq!(sets.find(4), 4);
    sets.union(1, 3);
    assert_eq!(sets.find(0), sets.find(2));
    assert_eq!(sets.groups(), vec![vec![0, 1, 2, 3]]);
}

#[test]
fn a_group_is_sorted_by_index_and_seeded_by_key() {
    // Keys 3, 1, 2: candidate 1 seeds, takes 2, and 0 is left alone.
    let keys = [3u64, 1, 2];
    let groups = dense_groups(&[0, 1, 2], |i| keys[i], |a, b| keys[a].abs_diff(keys[b]) <= 1);
    assert_eq!(groups, vec![vec![1, 2]]);
}

#[test]
fn the_seed_depends_on_the_key_not_on_the_index() {
    let up = dense_groups(&[0, 1, 2], |i| i, |a, b| a.abs_diff(b) <= 1);
    assert_eq!(up, vec![vec![0, 1]]);
    let down = dense_groups(&[0, 1, 2], |i| 9 - i, |a, b| a.abs_diff(b) <= 1);
    assert_eq!(down, vec![vec![1, 2]]);
}

#[test]
fn two_candidates_left_alone_are_never_admissible_together() {
    let fps: Vec<Fingerprint> = (0..40u64)
        .map(|n| fp(n as i64, n.wrapping_mul(0x9e37_79b9_7f4a_7c15), None))
        .collect();
    let groups = cluster(&fps, 28, &no_calls());
    let grouped: Vec<usize> = groups.concat();
    for i in 0..fps.len() {
        for j in i + 1..fps.len() {
            if !grouped.contains(&i) && !grouped.contains(&j) {
                assert!(hamming(fps[i].simhash, fps[j].simhash) > 28);
            }
        }
    }
}

#[test]
fn no_candidate_is_reported_twice() {
    let fps: Vec<Fingerprint> = (0..40u64)
        .map(|n| fp(n as i64, n.wrapping_mul(0x9e37_79b9_7f4a_7c15), None))
        .collect();
    let mut grouped: Vec<usize> = cluster(&fps, 28, &no_calls()).concat();
    let before = grouped.len();
    grouped.sort_unstable();
    grouped.dedup();
    assert_eq!(grouped.len(), before);
}

#[test]
fn equal_shapes_are_reported_together() {
    let fps = [fp(1, 7, None), fp(2, u64::MAX, None), fp(3, 7, None)];
    assert_eq!(cluster(&fps, 0, &no_calls()), vec![vec![0, 2]]);
}

#[test]
fn the_distance_counts_differing_bits() {
    assert_eq!(hamming(0, 0), 0);
    assert_eq!(hamming(0, u64::MAX), 64);
    assert_eq!(hamming(0b1010, 0b0110), 2);
    assert_eq!(hamming(1 << 63, 1), 2);
}

#[test]
fn no_group_can_grow_and_no_two_can_merge() {
    let fps: Vec<Fingerprint> = (0..40u64)
        .map(|n| fp(n as i64, n.wrapping_mul(0x9e37_79b9_7f4a_7c15), None))
        .collect();
    let far = |a: usize, b: usize| hamming(fps[a].simhash, fps[b].simhash) > 28;
    let groups = cluster(&fps, 28, &no_calls());
    assert!(groups.len() > 1);
    let grouped: Vec<usize> = groups.concat();
    for (j, group) in groups.iter().enumerate() {
        for x in (0..fps.len()).filter(|x| !grouped.contains(x)) {
            assert!(group.iter().any(|&y| far(x, y)), "{x} fits {group:?}");
        }
        for other in &groups[j + 1..] {
            assert!(
                group.iter().any(|&x| other.iter().any(|&y| far(x, y))),
                "{group:?} and {other:?} are one"
            );
        }
    }
}

#[test]
fn groups_are_the_components_of_the_joined_pairs() {
    // 0-4-2 and 1-5 hang together; 3 is alone and so is 6, joined with itself.
    let pairs = [(4, 0), (1, 5), (2, 4), (6, 6), (0, 2)];
    let mut sets = UnionFind::new(7);
    for (a, b) in pairs {
        sets.union(a, b);
    }
    let groups = sets.groups();
    assert_eq!(groups, vec![vec![0, 2, 4], vec![1, 5]]);
    assert_eq!(sets.groups(), groups, "asking again changes nothing");
    assert!(UnionFind::new(3).groups().is_empty());
}

#[test]
fn a_test_that_reads_one_way_bounds_the_groups_in_key_order() {
    // Admissible upwards only: in the order of the keys every pair is.
    let up = dense_groups(&[2, 0, 1], |i| i, |a, b| a < b);
    assert_eq!(up, vec![vec![0, 1, 2]]);
    let down = dense_groups(&[2, 0, 1], |i| 9 - i, |a, b| a < b);
    assert!(down.is_empty());
    // Groups are listed by their first member in that order.
    let listed = dense_groups(&[0, 1, 2, 3], |i| 9 - i, |a, b| a / 2 == b / 2);
    assert_eq!(listed, vec![vec![2, 3], vec![0, 1]]);
}

#[test]
fn distinct_shapes_are_reported_alike_in_any_order() {
    let mut fps: Vec<Fingerprint> = (0..12u64).map(|n| fp(n as i64, n, None)).collect();
    let calls: HashSet<(i64, i64)> = [(0, 1), (2, 6), (3, 7)].into_iter().collect();
    let shapes = |fps: &[Fingerprint]| {
        let mut groups: Vec<Vec<u64>> = cluster(fps, 2, &calls)
            .iter()
            .map(|g| {
                let mut shapes: Vec<u64> = g.iter().map(|&i| fps[i].simhash).collect();
                shapes.sort_unstable();
                shapes
            })
            .collect();
        groups.sort();
        groups
    };
    let before = shapes(&fps);
    assert!(!before.is_empty());
    fps.reverse();
    assert_eq!(shapes(&fps), before);
    fps.rotate_left(5);
    assert_eq!(shapes(&fps), before);
}
