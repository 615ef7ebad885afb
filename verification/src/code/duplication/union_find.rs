//! Disjoint sets over candidate indices, with union by rank and path halving.
//!
//! Three mutually similar functions are one finding a reader acts on once, not
//! three pairs they read as three separate problems. The sets are what turns
//! pairs into findings.

use vstd::arithmetic::power2::{lemma2_to64, lemma_pow2_unfold, pow2};
use vstd::prelude::*;

verus! {

/// No rank reaches this: a root of rank `r` stands for at least two to the `r`
/// elements, and fewer than two to the 64 elements can be held.
pub const RANK_LIMIT: u32 = 64;

/// Parent links that lead upwards: every link stays inside the structure, and
/// a link that is not a loop goes to a higher rank.
spec fn linked(parent: Seq<usize>, rank: Seq<u32>) -> bool {
    &&& parent.len() == rank.len()
    &&& forall|i: int| 0 <= i < parent.len() ==> (#[trigger] parent[i]) < parent.len()
    &&& forall|i: int| 0 <= i < rank.len() ==> (#[trigger] rank[i]) < RANK_LIMIT
    &&& forall|i: int|
        0 <= i < parent.len() && (#[trigger] parent[i]) != i ==> rank[i] < rank[parent[i] as int]
}

/// The element at the top of the links above `i`.
spec fn root(parent: Seq<usize>, rank: Seq<u32>, i: int) -> int
    decreases RANK_LIMIT - rank[i],
    when linked(parent, rank) && 0 <= i < parent.len()
{
    if parent[i] == i {
        i
    } else {
        root(parent, rank, parent[i] as int)
    }
}

/// What each element counts towards the bound on ranks: a root two to its rank,
/// any other element nothing.
spec fn shares(parent: Seq<usize>, rank: Seq<u32>) -> Seq<nat> {
    Seq::new(
        parent.len(),
        |i: int|
            if parent[i] == i {
                pow2(rank[i] as nat)
            } else {
                0
            },
    )
}

spec fn total(s: Seq<nat>) -> nat
    decreases s.len(),
{
    if s.len() == 0 {
        0
    } else {
        total(s.drop_last()) + s.last()
    }
}

proof fn lemma_total_update(s: Seq<nat>, i: int, v: nat)
    requires
        0 <= i < s.len(),
    ensures
        total(s.update(i, v)) == total(s) - s[i] + v,
        s[i] <= total(s),
    decreases s.len(),
{
    let t = s.update(i, v);
    if i == s.len() - 1 {
        assert(t.drop_last() =~= s.drop_last());
    } else {
        lemma_total_update(s.drop_last(), i, v);
        assert(t.drop_last() =~= s.drop_last().update(i, v));
    }
}

proof fn lemma_root_is_top(parent: Seq<usize>, rank: Seq<u32>, i: int)
    requires
        linked(parent, rank),
        0 <= i < parent.len(),
    ensures
        0 <= root(parent, rank, i) < parent.len(),
        parent[root(parent, rank, i)] == root(parent, rank, i),
        rank[i] <= rank[root(parent, rank, i)],
    decreases RANK_LIMIT - rank[i],
{
    if parent[i] != i {
        lemma_root_is_top(parent, rank, parent[i] as int);
    }
}

/// Pointing `i` at its grandparent moves no element to another root.
proof fn lemma_halving(parent: Seq<usize>, rank: Seq<u32>, i: int)
    requires
        linked(parent, rank),
        0 <= i < parent.len(),
        parent[i] != i,
    ensures
        ({
            let halved = parent.update(i, parent[parent[i] as int]);
            &&& linked(halved, rank)
            &&& shares(halved, rank) == shares(parent, rank)
            &&& rank[i] < rank[halved[i] as int]
            &&& forall|j: int|
                0 <= j < parent.len() ==> #[trigger] root(halved, rank, j) == root(parent, rank, j)
        }),
{
    let halved = parent.update(i, parent[parent[i] as int]);
    let up = parent[i] as int;
    assert(rank[i] < rank[up]);
    assert(parent[up] != up ==> rank[up] < rank[parent[up] as int]);
    assert(rank[i] < rank[halved[i] as int]);
    assert(linked(halved, rank));
    assert(shares(halved, rank) =~= shares(parent, rank));
    assert forall|j: int| 0 <= j < parent.len() implies #[trigger] root(halved, rank, j) == root(
        parent,
        rank,
        j,
    ) by {
        lemma_halving_root(parent, rank, i, j);
    }
}

proof fn lemma_halving_root(parent: Seq<usize>, rank: Seq<u32>, i: int, j: int)
    requires
        linked(parent, rank),
        0 <= i < parent.len(),
        0 <= j < parent.len(),
        parent[i] != i,
        linked(parent.update(i, parent[parent[i] as int]), rank),
    ensures
        root(parent.update(i, parent[parent[i] as int]), rank, j) == root(parent, rank, j),
    decreases RANK_LIMIT - rank[j],
{
    let halved = parent.update(i, parent[parent[i] as int]);
    if halved[j] != j {
        lemma_halving_root(parent, rank, i, halved[j] as int);
        if j == i {
            assert(root(parent, rank, i) == root(parent, rank, parent[i] as int));
            if parent[parent[i] as int] != parent[i] {
                assert(root(parent, rank, parent[i] as int) == root(
                    parent,
                    rank,
                    parent[parent[i] as int] as int,
                ));
            }
        }
    } else {
        assert(j != i) by {
            if j == i {
                let up = parent[i] as int;
                assert(rank[i] < rank[up]);
                assert(parent[up] != up ==> rank[up] < rank[parent[up] as int]);
            }
        }
    }
}

/// Hanging the root `small` under the root `large` moves the elements of
/// `small`, and no others, to `large`.
proof fn lemma_linking_root(
    parent: Seq<usize>,
    rank: Seq<u32>,
    rank_after: Seq<u32>,
    small: int,
    large: usize,
    j: int,
)
    requires
        linked(parent, rank),
        linked(parent.update(small, large), rank_after),
        0 <= small < parent.len(),
        0 <= large < parent.len(),
        small != large,
        parent[small] == small,
        parent[large as int] == large,
        0 <= j < parent.len(),
    ensures
        root(parent.update(small, large), rank_after, j) == if root(parent, rank, j) == small {
            large as int
        } else {
            root(parent, rank, j)
        },
    decreases RANK_LIMIT - rank[j],
{
    let after = parent.update(small, large);
    if j == small {
        assert(after[large as int] == large);
        assert(root(after, rank_after, large as int) == large);
        assert(root(after, rank_after, j) == root(after, rank_after, large as int));
    } else if parent[j] != j {
        lemma_linking_root(parent, rank, rank_after, small, large, parent[j] as int);
        assert(after[j] == parent[j]);
    }
}

/// Groups of two or more, each in ascending order, ordered by their smallest
/// member, that hold exactly the elements that share a representative with
/// another one.
pub open spec fn is_grouping(reps: Seq<usize>, groups: Seq<Seq<usize>>) -> bool {
    &&& forall|g: int| 0 <= g < groups.len() ==> (#[trigger] groups[g]).len() >= 2
    &&& forall|g: int, a: int, b: int|
        0 <= g < groups.len() && 0 <= a < b < groups[g].len() ==> (#[trigger] groups[g][a]) < (
        #[trigger] groups[g][b])
    &&& forall|g: int, a: int|
        0 <= g < groups.len() && 0 <= a < groups[g].len() ==> (#[trigger] groups[g][a])
            < reps.len() && reps[groups[g][a] as int] == reps[groups[g][0] as int]
    &&& forall|g: int, x: usize|
        0 <= g < groups.len() && x < reps.len() && reps[x as int] == reps[groups[g][0] as int]
            ==> #[trigger] groups[g].contains(x)
    &&& forall|x: int, y: int|
        0 <= x < reps.len() && 0 <= y < reps.len() && x != y && #[trigger] reps[x]
            == #[trigger] reps[y] ==> exists|g: int|
            0 <= g < groups.len() && #[trigger] groups[g].contains(x as usize)
    &&& forall|g: int, h: int|
        0 <= g < h < groups.len() ==> (#[trigger] groups[g])[0] < (#[trigger] groups[h])[0]
}

/// The sets met among the first `i` elements, and where each stands.
spec fn collected(reps: Seq<usize>, sets: Seq<Seq<usize>>, slot: Seq<usize>, i: int) -> bool {
    &&& slot.len() == reps.len()
    &&& sets.len() <= i <= reps.len()
    &&& forall|g: int| 0 <= g < sets.len() ==> (#[trigger] sets[g]).len() >= 1
    &&& forall|g: int, a: int, b: int|
        0 <= g < sets.len() && 0 <= a < b < sets[g].len() ==> (#[trigger] sets[g][a]) < (
        #[trigger] sets[g][b])
    &&& forall|g: int, a: int|
        0 <= g < sets.len() && 0 <= a < sets[g].len() ==> (#[trigger] sets[g][a]) < i
            && reps[sets[g][a] as int] == reps[sets[g][0] as int]
    &&& forall|g: int, x: usize|
        0 <= g < sets.len() && x < i && reps[x as int] == reps[sets[g][0] as int]
            ==> #[trigger] sets[g].contains(x)
    &&& forall|x: int| 0 <= x < i ==> slot[#[trigger] reps[x] as int] < sets.len()
    &&& forall|r: int|
        0 <= r < reps.len() && (#[trigger] slot[r]) != reps.len() ==> slot[r] < sets.len()
            && reps[sets[slot[r] as int][0] as int] == r
    &&& forall|g: int, h: int|
        0 <= g < h < sets.len() ==> (#[trigger] sets[g])[0] < (#[trigger] sets[h])[0]
}

proof fn lemma_collect(
    reps: Seq<usize>,
    before: Seq<Seq<usize>>,
    slot: Seq<usize>,
    i: usize,
    after: Seq<Seq<usize>>,
    slot_after: Seq<usize>,
)
    requires
        collected(reps, before, slot, i as int),
        i < reps.len() <= usize::MAX,
        forall|x: int| 0 <= x < reps.len() ==> (#[trigger] reps[x]) < reps.len(),
        slot[reps[i as int] as int] == reps.len() ==> {
            &&& after == before.push(seq![i])
            &&& slot_after == slot.update(reps[i as int] as int, before.len() as usize)
        },
        slot[reps[i as int] as int] != reps.len() ==> {
            let at = slot[reps[i as int] as int] as int;
            &&& after == before.update(at, before[at].push(i))
            &&& slot_after == slot
        },
    ensures
        collected(reps, after, slot_after, i + 1),
{
    let r = reps[i as int] as int;
    if slot[r] == reps.len() {
        let new = before.len() as int;
        assert(after[new] == seq![i]);
        assert forall|g: int, x: usize|
            0 <= g < after.len() && x < i + 1 && reps[x as int]
                == reps[after[g][0] as int] implies #[trigger] after[g].contains(x) by {
            if g < new {
                assert(after[g] == before[g]);
                if x == i {
                    assert(before[g][0] < i);
                    assert(slot[reps[before[g][0] as int] as int] < before.len());
                    assert(false);
                }
                assert(before[g].contains(x));
            } else {
                if x != i {
                    assert(slot[reps[x as int] as int] < before.len());
                    assert(false);
                }
                assert(seq![i][0] == x);
            }
        }
        assert forall|g: int, a: int| 0 <= g < after.len() && 0 <= a < after[g].len() implies (
        #[trigger] after[g][a]) < i + 1 && reps[after[g][a] as int]
            == reps[after[g][0] as int] by {
            if g < new {
                assert(after[g] == before[g]);
            }
        }
    } else {
        let at = slot[r] as int;
        assert(after[at] == before[at].push(i));
        assert(after[at][0] == before[at][0]);
        assert forall|g: int, x: usize|
            0 <= g < after.len() && x < i + 1 && reps[x as int]
                == reps[after[g][0] as int] implies #[trigger] after[g].contains(x) by {
            if g != at {
                assert(after[g] == before[g]);
                if x == i {
                    let other = before[g][0];
                    assert(other < i);
                    assert(reps[other as int] == reps[before[at][0] as int]);
                    assert(before[at].contains(other));
                    let k = choose|k: int| 0 <= k < before[at].len() && before[at][k] == other;
                    assert(before[g].contains(before[at][0]));
                    let m = choose|m: int|
                        0 <= m < before[g].len() && before[g][m] == before[at][0];
                    assert(before[g][0] <= before[g][m]);
                    assert(before[at][0] <= before[at][k]);
                    assert(before[g][0] == before[at][0]);
                    assert(false);
                }
                assert(before[g].contains(x));
            } else if x == i {
                assert(after[at][before[at].len() as int] == x);
            } else {
                assert(before[at].contains(x));
                let k = choose|k: int| 0 <= k < before[at].len() && before[at][k] == x;
                assert(after[at][k] == x);
            }
        }
        assert forall|g: int, a: int| 0 <= g < after.len() && 0 <= a < after[g].len() implies (
        #[trigger] after[g][a]) < i + 1 && reps[after[g][a] as int]
            == reps[after[g][0] as int] by {
            if g != at {
                assert(after[g] == before[g]);
            } else if a < before[at].len() {
                assert(after[at][a] == before[at][a]);
            }
        }
        assert forall|g: int, a: int, b: int|
            0 <= g < after.len() && 0 <= a < b < after[g].len() implies (#[trigger] after[g][a])
            < (#[trigger] after[g][b]) by {
            if g != at {
                assert(after[g] == before[g]);
            } else {
                assert(after[at][a] == before[at][a]);
                if b < before[at].len() {
                    assert(after[at][b] == before[at][b]);
                }
            }
        }
        assert forall|g: int, h: int| 0 <= g < h < after.len() implies (#[trigger] after[g])[0] < (
        #[trigger] after[h])[0] by {
            assert(after[g][0] == before[g][0]);
            assert(after[h][0] == before[h][0]);
        }
        assert forall|s: int|
            0 <= s < reps.len() && (#[trigger] slot_after[s]) != reps.len() implies slot_after[s]
            < after.len() && reps[after[slot_after[s] as int][0] as int] == s by {
            assert(after[slot[s] as int][0] == before[slot[s] as int][0]);
        }
    }
}

/// Leaving out the sets of one keeps a grouping.
proof fn lemma_grouping(
    reps: Seq<usize>,
    all: Seq<Seq<usize>>,
    slot: Seq<usize>,
    groups: Seq<Seq<usize>>,
)
    requires
        collected(reps, all, slot, reps.len() as int),
        reps.len() <= usize::MAX,
        forall|x: int| 0 <= x < reps.len() ==> (#[trigger] reps[x]) < reps.len(),
        groups == all.filter(|g: Seq<usize>| g.len() > 1),
    ensures
        is_grouping(reps, groups),
{
    let many = |g: Seq<usize>| g.len() > 1;
    broadcast use vstd::seq_lib::group_filter_ensures;

    lemma_filter_positions(all, many);
    let from = filter_positions(all, many);
    assert forall|g: int| 0 <= g < groups.len() implies #[trigger] groups[g] == all[from[g]] && 0
        <= from[g] < all.len() && groups[g].len() >= 2 by {
        assert(many(groups[g]));
    }
    assert forall|g: int, h: int| 0 <= g < h < groups.len() implies (#[trigger] groups[g])[0] < (
    #[trigger] groups[h])[0] by {
        assert(from[g] < from[h]);
    }
    assert forall|x: int, y: int|
        0 <= x < reps.len() && 0 <= y < reps.len() && x != y && #[trigger] reps[x]
            == #[trigger] reps[y] implies exists|g: int|
        0 <= g < groups.len() && #[trigger] groups[g].contains(x as usize) by {
        let at = slot[reps[x] as int] as int;
        assert(reps[all[at][0] as int] == reps[x]);
        assert(all[at].contains(x as usize));
        assert(all[at].contains(y as usize));
        let a = choose|a: int| 0 <= a < all[at].len() && all[at][a] == x as usize;
        let b = choose|b: int| 0 <= b < all[at].len() && all[at][b] == y as usize;
        assert(a != b);
        assert(many(all[at]));
        assert(groups.contains(all[at]));
    }
}

/// The positions in `s` of the elements that a filter keeps.
spec fn filter_positions<T>(s: Seq<T>, keep: spec_fn(T) -> bool) -> Seq<int>
    decreases s.len(),
{
    if s.len() == 0 {
        Seq::empty()
    } else if keep(s.last()) {
        filter_positions(s.drop_last(), keep).push(s.len() - 1)
    } else {
        filter_positions(s.drop_last(), keep)
    }
}

proof fn lemma_filter_positions<T>(s: Seq<T>, keep: spec_fn(T) -> bool)
    ensures
        filter_positions(s, keep).len() == s.filter(keep).len(),
        forall|k: int|
            0 <= k < s.filter(keep).len() ==> 0 <= #[trigger] filter_positions(s, keep)[k]
                < s.len() && s[filter_positions(s, keep)[k]] == s.filter(keep)[k] && keep(
                s.filter(keep)[k],
            ),
        forall|j: int, k: int|
            0 <= j < k < s.filter(keep).len() ==> #[trigger] filter_positions(s, keep)[j]
                < #[trigger] filter_positions(s, keep)[k],
    decreases s.len(),
{
    reveal(Seq::filter);
    if s.len() > 0 {
        lemma_filter_positions(s.drop_last(), keep);
    }
}

/// The representative of every element after the sets of `a` and `b` became
/// one: the root of lower rank, `b`'s on a tie, now answers to the other one.
pub open spec fn joined(reps: Seq<usize>, ranks: Seq<u32>, a: usize, b: usize) -> Seq<usize> {
    let ra = reps[a as int];
    let rb = reps[b as int];
    let (small, large) = if ranks[ra as int] < ranks[rb as int] {
        (ra, rb)
    } else {
        (rb, ra)
    };
    Seq::new(
        reps.len(),
        |x: int|
            if reps[x] == small {
                large
            } else {
                reps[x]
            },
    )
}

/// Joining makes one set of exactly two: afterwards two elements share a set if
/// they did before, or if each was in the set of `a` or of `b`.
pub proof fn joining_joins_two_sets(
    reps: Seq<usize>,
    ranks: Seq<u32>,
    a: usize,
    b: usize,
    x: int,
    y: int,
)
    requires
        a < reps.len(),
        b < reps.len(),
        0 <= x < reps.len(),
        0 <= y < reps.len(),
    ensures
        joined(reps, ranks, a, b)[x] == joined(reps, ranks, a, b)[y] <==> {
            ||| reps[x] == reps[y]
            ||| {
                &&& reps[x] == reps[a as int] || reps[x] == reps[b as int]
                &&& reps[y] == reps[a as int] || reps[y] == reps[b as int]
            }
        },
{
}

/// The root of higher rank stays, `a`'s on a tie, and answers for both sets. No
/// other set changes. The rank of the root that stays goes up by one where two
/// different roots tied, and no other rank changes.
pub proof fn the_root_of_higher_rank_stays(
    reps: Seq<usize>,
    ranks: Seq<u32>,
    a: usize,
    b: usize,
    x: int,
)
    requires
        a < reps.len(),
        b < reps.len(),
        reps[a as int] < ranks.len(),
        reps[b as int] < ranks.len(),
        ranks[reps[a as int] as int] < u32::MAX,
        0 <= x < reps.len(),
        0 <= x < ranks.len(),
    ensures
        reps[x] != reps[a as int] && reps[x] != reps[b as int] ==> joined(reps, ranks, a, b)[x]
            == reps[x],
        (reps[x] == reps[a as int] || reps[x] == reps[b as int]) && ranks[reps[a as int] as int]
            >= ranks[reps[b as int] as int] ==> joined(reps, ranks, a, b)[x] == reps[a as int],
        (reps[x] == reps[a as int] || reps[x] == reps[b as int]) && ranks[reps[a as int] as int]
            < ranks[reps[b as int] as int] ==> joined(reps, ranks, a, b)[x] == reps[b as int],
        joined_ranks(reps, ranks, a, b)[x] == ranks[x] + if x == reps[a as int] && reps[a as int]
            != reps[b as int] && ranks[reps[a as int] as int] == ranks[reps[b as int] as int] {
            1int
        } else {
            0int
        },
{
}

/// The ranks after the sets of `a` and `b` became one: a tie between two
/// different roots lifts the root that stays.
pub open spec fn joined_ranks(reps: Seq<usize>, ranks: Seq<u32>, a: usize, b: usize) -> Seq<u32> {
    let ra = reps[a as int];
    let rb = reps[b as int];
    if ra != rb && ranks[ra as int] == ranks[rb as int] {
        ranks.update(ra as int, (ranks[ra as int] + 1) as u32)
    } else {
        ranks
    }
}

/// Disjoint sets over the indices below a bound.
#[derive(Debug)]
pub struct UnionFind {
    parent: Vec<usize>,
    rank: Vec<u32>,
}

impl View for UnionFind {
    type V = Seq<usize>;

    /// The representative of each element.
    closed spec fn view(&self) -> Seq<usize> {
        Seq::new(self.parent@.len(), |i: int| root(self.parent@, self.rank@, i) as usize)
    }
}

impl UnionFind {
    /// The rank of each element.
    pub closed spec fn ranks(&self) -> Seq<u32> {
        self.rank@
    }

    /// Every chain of links ends, and the ranks are bounded by the logarithm of
    /// the number of elements.
    pub closed spec fn wf(&self) -> bool {
        &&& linked(self.parent@, self.rank@)
        &&& total(shares(self.parent@, self.rank@)) <= self.parent@.len()
    }

    /// What a caller may rely on of every set of disjoint sets: there is one
    /// rank per element, and a representative represents itself.
    pub proof fn lemma_wf(&self)
        requires
            self.wf(),
        ensures
            self.ranks().len() == self@.len(),
            self@.len() <= usize::MAX,
            forall|i: int|
                #![trigger self@[i]]
                0 <= i < self@.len() ==> self@[i] < self@.len() && self@[self@[i] as int]
                    == self@[i],
            forall|i: int| 0 <= i < self@.len() ==> (#[trigger] self.ranks()[i]) < RANK_LIMIT,
    {
        assert(self.parent@.len() == self.parent.len());
        assert forall|i: int| #![trigger self@[i]] 0 <= i < self@.len() implies self@[i]
            < self@.len() && self@[self@[i] as int] == self@[i] by {
            lemma_root_is_top(self.parent@, self.rank@, i);
        }
    }

    /// `n` elements, each in a set of its own.
    pub fn new(n: usize) -> (sets: Self)
        ensures
            sets.wf(),
            sets@ == Seq::new(n as nat, |i: int| i as usize),
            sets.ranks() == Seq::new(n as nat, |i: int| 0u32),
    {
        let mut parent: Vec<usize> = Vec::new();
        let mut rank: Vec<u32> = Vec::new();
        let mut i: usize = 0;
        proof {
            lemma2_to64();
            assert(shares(parent@, rank@) =~= Seq::<nat>::empty());
        }
        while i < n
            invariant
                i <= n,
                parent@ == Seq::new(i as nat, |k: int| k as usize),
                rank@ == Seq::new(i as nat, |k: int| 0u32),
                total(shares(parent@, rank@)) == i,
                pow2(0) == 1,
            decreases n - i,
        {
            let ghost before = shares(parent@, rank@);
            parent.push(i);
            rank.push(0);
            i += 1;
            proof {
                assert(parent@ =~= Seq::new(i as nat, |k: int| k as usize));
                assert(rank@ =~= Seq::new(i as nat, |k: int| 0u32));
                assert(shares(parent@, rank@) =~= before.push(1));
                assert(before.push(1).drop_last() =~= before);
            }
        }
        let sets = UnionFind { parent, rank };
        proof {
            assert(linked(sets.parent@, sets.rank@));
            assert forall|k: int| 0 <= k < n implies root(sets.parent@, sets.rank@, k) == k by {
                assert(sets.parent@[k] == k);
            }
            assert(sets@ =~= Seq::new(n as nat, |k: int| k as usize));
        }
        sets
    }

    /// Representative of `i`'s set, halving the path on the way up.
    pub fn find(&mut self, i: usize) -> (top: usize)
        requires
            old(self).wf(),
            i < old(self)@.len(),
        ensures
            final(self).wf(),
            final(self)@ == old(self)@,
            final(self).ranks() == old(self).ranks(),
            top == old(self)@[i as int],
    {
        let mut at: usize = i;
        while self.parent[at] != at
            invariant
                linked(self.parent@, self.rank@),
                at < self.parent@.len(),
                self.parent@.len() == old(self).parent@.len(),
                self.rank@ == old(self).rank@,
                shares(self.parent@, self.rank@) == shares(old(self).parent@, old(self).rank@),
                forall|j: int|
                    0 <= j < self.parent@.len() ==> #[trigger] root(self.parent@, self.rank@, j)
                        == root(old(self).parent@, old(self).rank@, j),
                root(self.parent@, self.rank@, at as int) == root(
                    old(self).parent@,
                    old(self).rank@,
                    i as int,
                ),
            decreases RANK_LIMIT - self.rank@[at as int],
        {
            let ghost before = self.parent@;
            let up = self.parent[at];
            proof {
                lemma_halving(before, self.rank@, at as int);
                assert(root(before, self.rank@, at as int) == root(
                    old(self).parent@,
                    old(self).rank@,
                    at as int,
                ));
            }
            let above = self.parent[up];
            self.parent.set(at, above);
            proof {
                assert(self.parent@ =~= before.update(at as int, before[before[at as int] as int]));
                assert forall|j: int| 0 <= j < self.parent@.len() implies #[trigger] root(
                    self.parent@,
                    self.rank@,
                    j,
                ) == root(old(self).parent@, old(self).rank@, j) by {
                    assert(root(before, self.rank@, j) == root(
                        old(self).parent@,
                        old(self).rank@,
                        j,
                    ));
                }
                assert(root(self.parent@, self.rank@, at as int) == root(
                    self.parent@,
                    self.rank@,
                    above as int,
                ));
            }
            at = above;
        }
        proof {
            assert(self@ =~= old(self)@);
            lemma_root_is_top(old(self).parent@, old(self).rank@, i as int);
        }
        at
    }

    /// Make one set of the sets of `a` and `b`.
    pub fn union(&mut self, a: usize, b: usize)
        requires
            old(self).wf(),
            a < old(self)@.len(),
            b < old(self)@.len(),
        ensures
            final(self).wf(),
            final(self)@ == joined(old(self)@, old(self).ranks(), a, b),
            final(self).ranks() == joined_ranks(old(self)@, old(self).ranks(), a, b),
    {
        let ra = self.find(a);
        let rb = self.find(b);
        proof {
            self.lemma_wf();
            lemma_root_is_top(self.parent@, self.rank@, a as int);
            lemma_root_is_top(self.parent@, self.rank@, b as int);
        }
        if ra == rb {
            assert(self@ =~= joined(old(self)@, old(self).ranks(), a, b));
            return ;
        }
        let (small, large) = if self.rank[ra] < self.rank[rb] {
            (ra, rb)
        } else {
            (rb, ra)
        };
        let ghost parent = self.parent@;
        let ghost rank = self.rank@;
        let ghost terms = shares(parent, rank);
        let lifted = self.rank[small] == self.rank[large];
        proof {
            lemma_total_update(terms, small as int, 0);
            let without = terms.update(small as int, 0);
            lemma_total_update(without, large as int, pow2(rank[large as int] as nat + 1));
            lemma_pow2_unfold((rank[large as int] + 1) as nat);
            if lifted {
                assert(terms[small as int] == terms[large as int]);
                assert(pow2(rank[large as int] as nat + 1) == 2 * terms[large as int]);
                assert(pow2(rank[large as int] as nat + 1) <= terms.len());
                lemma2_to64();
                if rank[large as int] + 1 >= 64 {
                    assert(rank[large as int] == 63);
                    assert(pow2(64) == 0x1_0000_0000_0000_0000);
                    assert(false);
                }
            }
        }
        self.parent.set(small, large);
        if lifted {
            let above = self.rank[large] + 1;
            self.rank.set(large, above);
        }
        proof {
            assert(linked(self.parent@, self.rank@));
            let after = shares(self.parent@, self.rank@);
            if lifted {
                assert(after =~= terms.update(small as int, 0).update(
                    large as int,
                    pow2(rank[large as int] as nat + 1),
                ));
            } else {
                assert(after =~= terms.update(small as int, 0));
            }
            assert forall|j: int| 0 <= j < parent.len() implies #[trigger] root(
                self.parent@,
                self.rank@,
                j,
            ) == if root(parent, rank, j) == small {
                large as int
            } else {
                root(parent, rank, j)
            } by {
                lemma_linking_root(parent, rank, self.rank@, small as int, large, j);
            }
            assert forall|j: int| 0 <= j < parent.len() implies #[trigger] self@[j] == joined(
                old(self)@,
                old(self).ranks(),
                a,
                b,
            )[j] by {
                assert(old(self)@[j] == root(parent, rank, j) as usize) by {
                    assert(old(self)@[j] == Seq::new(
                        parent.len(),
                        |i: int| root(parent, rank, i) as usize,
                    )[j]);
                }
                lemma_root_is_top(parent, rank, j);
                assert(root(self.parent@, self.rank@, j) == if root(parent, rank, j) == small {
                    large as int
                } else {
                    root(parent, rank, j)
                });
            }
            assert(self@ =~= joined(old(self)@, old(self).ranks(), a, b));
        }
    }

    /// Sets of two or more, each sorted, ordered by their smallest member.
    ///
    /// Singletons are dropped: a symbol resembling nothing is not a finding.
    pub fn groups(&mut self) -> (groups: Vec<Vec<usize>>)
        requires
            old(self).wf(),
        ensures
            final(self).wf(),
            final(self)@ == old(self)@,
            final(self).ranks() == old(self).ranks(),
            is_grouping(old(self)@, groups@.map_values(|g: Vec<usize>| g@)),
    {
        let n: usize = self.parent.len();
        let ghost reps = self@;
        // `slot[r]` is where the set that `r` represents stands in `sets`, `n`
        // for a set not met yet.
        let mut slot: Vec<usize> = Vec::new();
        let mut k: usize = 0;
        while k < n
            invariant
                k <= n,
                slot@ == Seq::new(k as nat, |j: int| n),
            decreases n - k,
        {
            slot.push(n);
            k += 1;
            assert(slot@ =~= Seq::new(k as nat, |j: int| n));
        }
        let mut sets: Vec<Vec<usize>> = Vec::new();
        let mut i: usize = 0;
        while i < n
            invariant
                i <= n,
                self.wf(),
                self@ == reps,
                self.ranks() == old(self).ranks(),
                reps.len() == n,
                slot@.len() == n,
                collected(reps, sets@.map_values(|g: Vec<usize>| g@), slot@, i as int),
            decreases n - i,
        {
            let ghost before = sets@.map_values(|g: Vec<usize>| g@);
            let ghost slot_before = slot@;
            proof {
                self.lemma_wf();
            }
            let r = self.find(i);
            let at = slot[r];
            if at == n {
                let mut set: Vec<usize> = Vec::new();
                set.push(i);
                slot.set(r, sets.len());
                sets.push(set);
                assert(sets@.map_values(|g: Vec<usize>| g@) =~= before.push(seq![i]));
            } else {
                sets[at].push(i);
                assert(sets@.map_values(|g: Vec<usize>| g@) =~= before.update(
                    at as int,
                    before[at as int].push(i),
                ));
            }
            proof {
                lemma_collect(
                    reps,
                    before,
                    slot_before,
                    i,
                    sets@.map_values(|g: Vec<usize>| g@),
                    slot@,
                );
            }
            i += 1;
        }
        let ghost all = sets@.map_values(|g: Vec<usize>| g@);
        let mut groups: Vec<Vec<usize>> = Vec::new();
        for set in sets_iter: sets
            invariant
                sets_iter.seq() == sets@,
                all == sets@.map_values(|g: Vec<usize>| g@),
                groups@.map_values(|g: Vec<usize>| g@) == all.take(sets_iter.index()).filter(
                    |g: Seq<usize>| g.len() > 1,
                ),
        {
            let ghost before = groups@.map_values(|g: Vec<usize>| g@);
            let ghost set_view = set@;
            proof {
                reveal(Seq::filter);
                assert(all.take(sets_iter.index() + 1).drop_last() =~= all.take(sets_iter.index()));
                assert(all.take(sets_iter.index() + 1).last() == set_view);
            }
            if set.len() > 1 {
                groups.push(set);
                assert(groups@.map_values(|g: Vec<usize>| g@) =~= before.push(set_view));
            }
        }
        proof {
            assert(all.take(all.len() as int) =~= all);
            self.lemma_wf();
            lemma_grouping(reps, all, slot@, groups@.map_values(|g: Vec<usize>| g@));
        }
        groups
    }
}

} // verus!
