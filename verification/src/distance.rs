//! Squared Euclidean distance between fixed-point feature vectors.
//!
//! The square root is monotone, so ordering samples by squared distance is
//! ordering them by distance; the squared form is exact in integers.

use vstd::prelude::*;

verus! {

/// The square of the difference of two feature values.
pub open spec fn square_diff(x: i32, y: i32) -> nat {
    ((x - y) * (x - y)) as nat
}

/// The sum of the squared differences over the first `n` dimensions.
pub open spec fn prefix_distance(a: Seq<i32>, b: Seq<i32>, n: nat) -> nat
    decreases n,
{
    if n == 0 {
        0
    } else {
        prefix_distance(a, b, (n - 1) as nat) + square_diff(a[n - 1], b[n - 1])
    }
}

/// The number of dimensions that two vectors share.
pub open spec fn shared_len(a: Seq<i32>, b: Seq<i32>) -> nat {
    if a.len() <= b.len() {
        a.len()
    } else {
        b.len()
    }
}

/// The squared Euclidean distance of `a` and `b`. Dimensions are paired by
/// position; where the lengths differ, only the shared prefix is compared.
pub open spec fn squared_distance(a: Seq<i32>, b: Seq<i32>) -> nat {
    prefix_distance(a, b, shared_len(a, b))
}

/// A squared difference of two `i32` values stays below `2^64`.
pub proof fn lemma_square_diff_bound(x: i32, y: i32)
    ensures
        square_diff(x, y) == (x - y) * (x - y),
        square_diff(x, y) <= 0xFFFF_FFFF_FFFF_FFFF,
{
    let d: int = x - y;
    assert(-0xFFFF_FFFF <= d <= 0xFFFF_FFFF);
    assert(0 <= d * d <= 0xFFFF_FFFF * 0xFFFF_FFFF) by (nonlinear_arith)
        requires
            -0xFFFF_FFFF <= d <= 0xFFFF_FFFF,
    ;
}

/// The squared distance is zero exactly when the vectors agree on every
/// shared dimension.
pub proof fn lemma_prefix_distance_zero(a: Seq<i32>, b: Seq<i32>, n: nat)
    requires
        n <= a.len(),
        n <= b.len(),
    ensures
        prefix_distance(a, b, n) == 0 <==> (forall|i: int| 0 <= i < n ==> a[i] == b[i]),
    decreases n,
{
    if n > 0 {
        lemma_prefix_distance_zero(a, b, (n - 1) as nat);
        let x = a[n - 1];
        let y = b[n - 1];
        lemma_square_diff_bound(x, y);
        let d: int = x - y;
        assert(d * d == 0 <==> d == 0) by (nonlinear_arith);
    }
}

/// Vectors of one length are at distance zero exactly when they are equal.
pub proof fn lemma_distance_zero_iff_equal(a: Seq<i32>, b: Seq<i32>)
    requires
        a.len() == b.len(),
    ensures
        squared_distance(a, b) == 0 <==> a == b,
{
    lemma_prefix_distance_zero(a, b, a.len());
    if squared_distance(a, b) == 0 {
        assert(a =~= b);
    }
}

/// Computes the squared Euclidean distance of two feature vectors.
pub fn squared_euclidean_distance(a: &[i32], b: &[i32]) -> (dist: u128)
    ensures
        dist == squared_distance(a@, b@),
{
    let n: usize = if a.len() <= b.len() {
        a.len()
    } else {
        b.len()
    };
    let mut acc: u128 = 0;
    let mut i: usize = 0;
    while i < n
        invariant
            i <= n,
            n == shared_len(a@, b@),
            acc == prefix_distance(a@, b@, i as nat),
            acc <= i * 0xFFFF_FFFF_FFFF_FFFF,
        decreases n - i,
    {
        let x: i32 = a[i];
        let y: i32 = b[i];
        let d: i128 = x as i128 - y as i128;
        proof {
            lemma_square_diff_bound(x, y);
            assert(d * d == square_diff(x, y));
            assert((i + 1) * 0xFFFF_FFFF_FFFF_FFFF == i * 0xFFFF_FFFF_FFFF_FFFF
                + 0xFFFF_FFFF_FFFF_FFFF) by (nonlinear_arith);
            assert(i * 0xFFFF_FFFF_FFFF_FFFF <= 0xFFFF_FFFF_FFFF_FFFF * 0xFFFF_FFFF_FFFF_FFFF)
                by (nonlinear_arith)
                requires
                    0 <= i <= 0xFFFF_FFFF_FFFF_FFFF,
            ;
        }
        let sq: u128 = (d * d) as u128;
        acc = acc + sq;
        i = i + 1;
    }
    acc
}

} // verus!
