//! Pairs of texts with the answer that a code embedding model is expected to
//! give.

use vstd::prelude::*;

verus! {

/// One evaluation pair and the answer a model is expected to give.
///
/// `high` is the ground truth: true when the two texts are the same logic and a
/// model *should* score them close, false when they are not and it should not.
#[derive(Debug, Clone, PartialEq, Eq)]
pub struct GapCase {
    pub a: String,
    pub b: String,
    pub high: bool,
}

impl GapCase {
    /// A pair that ought to score high: the two texts are the same logic.
    pub fn high(a: &str, b: &str) -> (case: Self)
        ensures
            case.a@ == a@,
            case.b@ == b@,
            case.high,
    {
        GapCase { a: a.to_owned(), b: b.to_owned(), high: true }
    }

    /// A pair that ought to score low: the two texts are not the same logic.
    pub fn low(a: &str, b: &str) -> (case: Self)
        ensures
            case.a@ == a@,
            case.b@ == b@,
            !case.high,
    {
        GapCase { a: a.to_owned(), b: b.to_owned(), high: false }
    }
}

/// How many of the first `n` cases ought to score high.
pub open spec fn high_among(cases: Seq<GapCase>, n: int) -> nat
    decreases n,
{
    if n <= 0 {
        0
    } else {
        high_among(cases, n - 1) + if cases[n - 1].high {
            1nat
        } else {
            0nat
        }
    }
}

/// How many pairs ought to score high, and how many low: the sizes of the two
/// populations whose means are compared.
pub fn populations(cases: &[GapCase]) -> (sizes: (usize, usize))
    ensures
        sizes.0 == high_among(cases@, cases@.len() as int),
        sizes.0 + sizes.1 == cases@.len(),
        sizes.0 == cases@.filter(|c: GapCase| c.high).len(),
        sizes.1 == cases@.filter(|c: GapCase| !c.high).len(),
{
    let mut high: usize = 0;
    let mut low: usize = 0;
    let mut i: usize = 0;
    while i < cases.len()
        invariant
            i <= cases@.len(),
            high == high_among(cases@, i as int),
            high + low == i,
        decreases cases@.len() - i,
    {
        if cases[i].high {
            high += 1;
        } else {
            low += 1;
        }
        i += 1;
    }
    proof {
        lemma_populations(cases@, cases@.len() as int);
        assert(cases@.take(cases@.len() as int) =~= cases@);
    }
    (high, low)
}

/// Every case is in one of the two populations, by what is expected of it.
pub proof fn every_case_is_in_one_population(cases: Seq<GapCase>)
    ensures
        high_among(cases, cases.len() as int) == cases.filter(|c: GapCase| c.high).len(),
        cases.filter(|c: GapCase| c.high).len() + cases.filter(|c: GapCase| !c.high).len()
            == cases.len(),
{
    lemma_populations(cases, cases.len() as int);
    assert(cases.take(cases.len() as int) =~= cases);
}

proof fn lemma_populations(cases: Seq<GapCase>, n: int)
    requires
        0 <= n <= cases.len(),
    ensures
        high_among(cases, n) == cases.take(n).filter(|c: GapCase| c.high).len(),
        n - high_among(cases, n) == cases.take(n).filter(|c: GapCase| !c.high).len(),
    decreases n,
{
    let high = |c: GapCase| c.high;
    let low = |c: GapCase| !c.high;
    if n == 0 {
        cases.take(0).lemma_filter_len(high);
        cases.take(0).lemma_filter_len(low);
    } else {
        lemma_populations(cases, n - 1);
        assert(cases.take(n) =~= cases.take(n - 1).push(cases[n - 1]));
        cases.take(n - 1).lemma_filter_push(cases[n - 1], high);
        cases.take(n - 1).lemma_filter_push(cases[n - 1], low);
    }
}

} // verus!
