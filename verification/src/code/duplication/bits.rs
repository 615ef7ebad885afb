//! The bits of a fingerprint, and how many of them two fingerprints do not share.

use vstd::prelude::*;

verus! {

/// Bit `i` of `x`, counted from the lowest.
pub open spec fn bit(x: u64, i: int) -> bool {
    (x >> (i as u64)) & 1 == 1
}

/// How many of the lowest `n` bits of `x` are set.
pub open spec fn ones_below(x: u64, n: nat) -> nat
    decreases n,
{
    if n == 0 {
        0
    } else {
        ones_below(x, (n - 1) as nat) + if bit(x, n - 1) {
            1nat
        } else {
            0nat
        }
    }
}

/// How many of the lowest `n` bits differ between `a` and `b`.
pub open spec fn differing_below(a: u64, b: u64, n: nat) -> nat
    decreases n,
{
    if n == 0 {
        0
    } else {
        differing_below(a, b, (n - 1) as nat) + if bit(a, n - 1) != bit(b, n - 1) {
            1nat
        } else {
            0nat
        }
    }
}

/// The number of bit positions at which two fingerprints differ.
pub open spec fn distance(a: u64, b: u64) -> nat {
    differing_below(a, b, 64)
}

/// `u64::count_ones`: the number of ones in the binary representation.
pub assume_specification[ u64::count_ones ](x: u64) -> (ones: u32)
    ensures
        ones == ones_below(x, 64),
;

proof fn lemma_ones_of_xor(a: u64, b: u64, n: nat)
    requires
        n <= 64,
    ensures
        ones_below(a ^ b, n) == differing_below(a, b, n),
        differing_below(a, b, n) <= n,
    decreases n,
{
    if n > 0 {
        lemma_ones_of_xor(a, b, (n - 1) as nat);
        let i = (n - 1) as u64;
        assert(((a ^ b) >> i) & 1 == ((a >> i) & 1) ^ ((b >> i) & 1)) by (bit_vector);
        assert((a >> i) & 1 == 0 || (a >> i) & 1 == 1) by (bit_vector);
        assert((b >> i) & 1 == 0 || (b >> i) & 1 == 1) by (bit_vector);
        assert(0u64 ^ 0 == 0 && 0u64 ^ 1 == 1 && 1u64 ^ 0 == 1 && 1u64 ^ 1 == 0) by (bit_vector);
    }
}

/// Bits by which two fingerprints differ.
pub fn hamming(a: u64, b: u64) -> (bits: u32)
    ensures
        bits == distance(a, b),
        bits <= 64,
{
    proof {
        lemma_ones_of_xor(a, b, 64);
    }
    (a ^ b).count_ones()
}

proof fn lemma_differing_symmetric(a: u64, b: u64, n: nat)
    ensures
        differing_below(a, b, n) == differing_below(b, a, n),
    decreases n,
{
    if n > 0 {
        lemma_differing_symmetric(a, b, (n - 1) as nat);
    }
}

proof fn lemma_differing_triangle(a: u64, b: u64, c: u64, n: nat)
    ensures
        differing_below(a, c, n) <= differing_below(a, b, n) + differing_below(b, c, n),
    decreases n,
{
    if n > 0 {
        lemma_differing_triangle(a, b, c, (n - 1) as nat);
    }
}

proof fn lemma_differing_self(a: u64, n: nat)
    ensures
        differing_below(a, a, n) == 0,
    decreases n,
{
    if n > 0 {
        lemma_differing_self(a, (n - 1) as nat);
    }
}

/// Values that agree on every bit are the same value.
pub proof fn lemma_same_bits(a: u64, b: u64)
    requires
        forall|i: int| 0 <= i < 64 ==> #[trigger] bit(a, i) == bit(b, i),
    ensures
        a == b,
{
    lemma_same_low_bits(a, b, 63);
    assert(a & 0xffff_ffff_ffff_ffff == a) by (bit_vector);
    assert(b & 0xffff_ffff_ffff_ffff == b) by (bit_vector);
    assert(0xffff_ffff_ffff_ffffu64 >> (63 - 63u64) as u64 == 0xffff_ffff_ffff_ffff) by (bit_vector);
}

proof fn lemma_same_low_bits(a: u64, b: u64, top: u64)
    requires
        top < 64,
        forall|i: int| 0 <= i < 64 ==> #[trigger] bit(a, i) == bit(b, i),
    ensures
        a & (0xffff_ffff_ffff_ffffu64 >> (63 - top) as u64) == b & (0xffff_ffff_ffff_ffffu64 >> (63
            - top) as u64),
    decreases top,
{
    assert(bit(a, top as int) == bit(b, top as int));
    assert((a >> top) & 1 == 0 || (a >> top) & 1 == 1) by (bit_vector);
    assert((b >> top) & 1 == 0 || (b >> top) & 1 == 1) by (bit_vector);
    if top == 0 {
        assert(a & (0xffff_ffff_ffff_ffffu64 >> 63u64) == b & (0xffff_ffff_ffff_ffffu64 >> 63u64))
            by (bit_vector)
            requires
                (a >> 0u64) & 1 == (b >> 0u64) & 1,
        ;
    } else {
        lemma_same_low_bits(a, b, (top - 1) as u64);
        let below = (63 - (top - 1)) as u64;
        let here = (63 - top) as u64;
        assert(a & (0xffff_ffff_ffff_ffffu64 >> here) == b & (0xffff_ffff_ffff_ffffu64 >> here))
            by (bit_vector)
            requires
                0 < top < 64,
                here == 63 - top,
                below == 64 - top,
                (a >> top) & 1 == (b >> top) & 1,
                a & (0xffff_ffff_ffff_ffffu64 >> below) == b & (0xffff_ffff_ffff_ffffu64 >> below),
        ;
    }
}

proof fn lemma_no_difference(a: u64, b: u64, n: nat, i: int)
    requires
        differing_below(a, b, n) == 0,
        0 <= i < n,
    ensures
        bit(a, i) == bit(b, i),
    decreases n,
{
    if i < n - 1 {
        lemma_no_difference(a, b, (n - 1) as nat, i);
    }
}

/// The distance between fingerprints is a metric: nothing differs from itself,
/// different fingerprints differ somewhere, the distance is the same both ways,
/// and a detour is never shorter.
pub proof fn distance_is_a_metric(a: u64, b: u64, c: u64)
    ensures
        distance(a, b) == 0 <==> a == b,
        distance(a, b) == distance(b, a),
        distance(a, c) <= distance(a, b) + distance(b, c),
        distance(a, b) <= 64,
{
    lemma_differing_self(a, 64);
    lemma_differing_symmetric(a, b, 64);
    lemma_differing_triangle(a, b, c, 64);
    lemma_ones_of_xor(a, b, 64);
    if distance(a, b) == 0 {
        assert forall|i: int| 0 <= i < 64 implies #[trigger] bit(a, i) == bit(b, i) by {
            lemma_no_difference(a, b, 64, i);
        }
        lemma_same_bits(a, b);
    }
}

/// One bit more is one more: where `b` and `c` differ in bit `i` alone, and `a`
/// has this bit as `b` has it, `c` is exactly one further from `a` than `b` is.
pub proof fn each_bit_counts_once(a: u64, b: u64, c: u64, i: u64)
    requires
        i < 64,
        forall|j: u64| j < 64 && j != i ==> #[trigger] (b >> j) & 1 == (c >> j) & 1,
        (b >> i) & 1 != (c >> i) & 1,
        (a >> i) & 1 == (b >> i) & 1,
    ensures
        distance(a, c) == distance(a, b) + 1,
{
    lemma_bit_counts_once(a, b, c, i, 64);
}

proof fn lemma_bit_counts_once(a: u64, b: u64, c: u64, i: u64, n: nat)
    requires
        i < 64,
        n <= 64,
        forall|j: u64| j < 64 && j != i ==> #[trigger] (b >> j) & 1 == (c >> j) & 1,
        (b >> i) & 1 != (c >> i) & 1,
        (a >> i) & 1 == (b >> i) & 1,
    ensures
        differing_below(a, c, n) == differing_below(a, b, n) + if i < n {
            1nat
        } else {
            0nat
        },
    decreases n,
{
    if n > 0 {
        lemma_bit_counts_once(a, b, c, i, (n - 1) as nat);
        let j = (n - 1) as u64;
        if j != i {
            assert((b >> j) & 1 == (c >> j) & 1);
        } else {
            let (x, y) = (b >> i, c >> i);
            assert(x & 1 == 0 || x & 1 == 1) by (bit_vector);
            assert(y & 1 == 0 || y & 1 == 1) by (bit_vector);
        }
    }
}

} // verus!
