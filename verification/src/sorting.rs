//! A merge sort proved to give the one sequence that a total order allows.

use vstd::prelude::*;
use vstd::relations::{sorted_by, total_ordering};
use vstd::seq_lib::{lemma_multiset_commutative, lemma_sorted_unique};

verus! {

/// Whether `leq`, as code, answers what the relation `order` says, on the
/// elements of `domain`.
pub open spec fn decides<T, F: Fn(T, T) -> bool>(
    leq: F,
    order: spec_fn(T, T) -> bool,
    domain: Seq<T>,
) -> bool {
    &&& forall|a: T, b: T|
        domain.contains(a) && domain.contains(b) ==> #[trigger] leq.requires((a, b))
    &&& forall|a: T, b: T, r: bool|
        domain.contains(a) && domain.contains(b) && #[trigger] leq.ensures((a, b), r) ==> r
            == order(a, b)
}

/// The elements of two sorted runs, in order.
fn merge<T: Copy, F: Fn(T, T) -> bool>(
    left: &Vec<T>,
    right: &Vec<T>,
    leq: &F,
    Ghost(order): Ghost<spec_fn(T, T) -> bool>,
) -> (merged: Vec<T>)
    requires
        total_ordering(order),
        decides(*leq, order, left@ + right@),
        sorted_by(left@, order),
        sorted_by(right@, order),
    ensures
        sorted_by(merged@, order),
        merged@.to_multiset() == (left@ + right@).to_multiset(),
{
    let mut merged: Vec<T> = Vec::new();
    let mut i: usize = 0;
    let mut j: usize = 0;
    proof {
        lemma_multiset_commutative(left@.take(0), right@.take(0));
        assert(left@.take(0) + right@.take(0) =~= merged@);
    }
    while i < left.len() || j < right.len()
        invariant
            total_ordering(order),
            decides(*leq, order, left@ + right@),
            sorted_by(left@, order),
            sorted_by(right@, order),
            i <= left@.len(),
            j <= right@.len(),
            sorted_by(merged@, order),
            forall|a: int, b: int|
                0 <= a < merged@.len() && i <= b < left@.len() ==> order(
                    #[trigger] merged@[a],
                    #[trigger] left@[b],
                ),
            forall|a: int, b: int|
                0 <= a < merged@.len() && j <= b < right@.len() ==> order(
                    #[trigger] merged@[a],
                    #[trigger] right@[b],
                ),
            merged@.to_multiset() == left@.take(i as int).to_multiset().add(
                right@.take(j as int).to_multiset(),
            ),
        decreases (left@.len() - i) + (right@.len() - j),
    {
        proof {
            broadcast use vstd::seq_lib::group_to_multiset_ensures;

            let all = left@ + right@;
            if i < left@.len() {
                assert(all[i as int] == left@[i as int]);
                assert(all.contains(left@[i as int]));
                assert(left@.take(i + 1) =~= left@.take(i as int).push(left@[i as int]));
            }
            if j < right@.len() {
                assert(all[left@.len() + j] == right@[j as int]);
                assert(all.contains(right@[j as int]));
                assert(right@.take(j + 1) =~= right@.take(j as int).push(right@[j as int]));
            }
            assert(forall|x: T| #[trigger] order(x, x));
        }
        let take_left = if i >= left.len() {
            false
        } else if j >= right.len() {
            true
        } else {
            leq(left[i], right[j])
        };
        let ghost picked = if take_left {
            left@[i as int]
        } else {
            right@[j as int]
        };
        proof {
            assert forall|b: int| i <= b < left@.len() implies order(picked, #[trigger] left@[b]) by {
                assert(order(picked, left@[i as int]));
                assert(order(left@[i as int], left@[b]));
            }
            assert forall|b: int| j <= b < right@.len() implies order(
                picked,
                #[trigger] right@[b],
            ) by {
                assert(order(picked, right@[j as int]));
                assert(order(right@[j as int], right@[b]));
            }
        }
        if take_left {
            merged.push(left[i]);
            i += 1;
        } else {
            merged.push(right[j]);
            j += 1;
        }
        proof {
            broadcast use vstd::seq_lib::group_to_multiset_ensures;

            assert(merged@.to_multiset() =~= left@.take(i as int).to_multiset().add(
                right@.take(j as int).to_multiset(),
            ));
        }
    }
    proof {
        assert(left@.take(left@.len() as int) =~= left@);
        assert(right@.take(right@.len() as int) =~= right@);
        lemma_multiset_commutative(left@, right@);
    }
    merged
}

/// The elements of `items` in the order that `leq` decides.
pub(crate) fn sort<T: Copy, F: Fn(T, T) -> bool>(
    items: &Vec<T>,
    leq: &F,
    Ghost(order): Ghost<spec_fn(T, T) -> bool>,
) -> (sorted: Vec<T>)
    requires
        total_ordering(order),
        decides(*leq, order, items@),
    ensures
        sorted@ == items@.sort_by(order),
    decreases items@.len(),
{
    proof {
        items@.lemma_sort_by_ensures(order);
    }
    if items.len() <= 1 {
        let sorted = copied(items, 0, items.len());
        proof {
            assert(sorted@ =~= items@);
            assert(sorted_by(sorted@, order));
            lemma_sorted_unique(sorted@, items@.sort_by(order), order);
        }
        return sorted;
    }
    let mid: usize = items.len() / 2;
    let left = copied(items, 0, mid);
    let right = copied(items, mid, items.len());
    proof {
        assert(left@ + right@ =~= items@);
        assert forall|a: T| left@.contains(a) implies items@.contains(a) by {
            let k = choose|k: int| 0 <= k < left@.len() && left@[k] == a;
            assert(items@[k] == a);
        }
        assert forall|a: T| right@.contains(a) implies items@.contains(a) by {
            let k = choose|k: int| 0 <= k < right@.len() && right@[k] == a;
            assert(items@[k + mid] == a);
        }
    }
    let left_sorted = sort(&left, leq, Ghost(order));
    let right_sorted = sort(&right, leq, Ghost(order));
    proof {
        left@.lemma_sort_by_ensures(order);
        right@.lemma_sort_by_ensures(order);
        assert forall|a: T| (left_sorted@ + right_sorted@).contains(a) implies items@.contains(
            a,
        ) by {
            let both = left_sorted@ + right_sorted@;
            let k = choose|k: int| 0 <= k < both.len() && both[k] == a;
            if k < left_sorted@.len() {
                assert(left_sorted@.contains(a));
                assert(left@.contains(a));
            } else {
                assert(right_sorted@[k - left_sorted@.len()] == a);
                assert(right_sorted@.contains(a));
                assert(right@.contains(a));
            }
        }
    }
    let merged = merge(&left_sorted, &right_sorted, leq, Ghost(order));
    proof {
        lemma_multiset_commutative(left@, right@);
        lemma_multiset_commutative(left_sorted@, right_sorted@);
        lemma_sorted_unique(merged@, items@.sort_by(order), order);
    }
    merged
}

/// The elements of `items` from `start` up to `end`.
fn copied<T: Copy>(items: &Vec<T>, start: usize, end: usize) -> (part: Vec<T>)
    requires
        start <= end <= items@.len(),
    ensures
        part@ == items@.subrange(start as int, end as int),
{
    let mut part: Vec<T> = Vec::new();
    let mut k: usize = start;
    while k < end
        invariant
            start <= k <= end <= items@.len(),
            part@ == items@.subrange(start as int, k as int),
        decreases end - k,
    {
        part.push(items[k]);
        k += 1;
        assert(part@ =~= items@.subrange(start as int, k as int));
    }
    part
}

} // verus!
