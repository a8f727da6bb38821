//! The distance collaborator consumed by the index.
//!
//! The engine never reads vector coordinates itself: it only asks a metric
//! for the distance between two stored vectors.  A metric must be symmetric,
//! non-negative and zero on identical inputs; distances are reported as
//! `u64` so that the engine can compare them exactly.

use vstd::prelude::*;

verus! {

/// A distance function over equal-width integer vectors.
///
/// The distance is expected to be symmetric and zero on identical inputs.
/// A verified implementation fixes the mathematical distance by overriding
/// `spec_distance` and must show that the executable `distance` computes
/// it.  An unverified collaborator outside the library overrides only
/// `distance` and inherits the default `spec_distance`, so its contract
/// then reads `distance == 0` — a claim that nothing checks against such
/// an implementation, and that verified code never relies on, since no
/// verified code instantiates the index at an unverified metric.
pub trait Metric: Sized {
    /// The mathematical distance between two vectors.
    open spec fn spec_distance(&self, x: Seq<i64>, y: Seq<i64>) -> u64 {
        0
    }

    /// Compute the distance between two vectors.
    fn distance(&self, x: &Vec<i64>, y: &Vec<i64>) -> (d: u64)
        ensures
            d == self.spec_distance(x@, y@),
    ;
}

/// The sum of the squared coordinate differences over the first `n`
/// positions, as an unbounded integer.
pub open spec fn sq_diff_sum(x: Seq<i64>, y: Seq<i64>, n: int) -> int
    decreases n,
{
    if n <= 0 {
        0
    } else {
        sq_diff_sum(x, y, n - 1) + (x[n - 1] - y[n - 1]) * (x[n - 1] - y[n - 1])
    }
}

/// The length both vectors are read up to: the shorter of the two.
pub open spec fn common_len(x: Seq<i64>, y: Seq<i64>) -> int {
    if x.len() <= y.len() {
        x.len() as int
    } else {
        y.len() as int
    }
}

/// Squared Euclidean distance, saturated at `u64::MAX`.
///
/// Coordinates beyond the shorter vector's length are ignored, and the sum
/// of squared differences is clamped into `u64`, so the distance is total.
pub struct SquaredEuclidean;

/// What `SquaredEuclidean` computes: the squared Euclidean distance over the
/// common prefix, clamped to `u64::MAX`.
pub open spec fn spec_squared_euclidean(x: Seq<i64>, y: Seq<i64>) -> u64 {
    if sq_diff_sum(x, y, common_len(x, y)) <= u64::MAX {
        sq_diff_sum(x, y, common_len(x, y)) as u64
    } else {
        u64::MAX
    }
}

proof fn lemma_sq_diff_sum_nonneg(x: Seq<i64>, y: Seq<i64>, n: int)
    ensures
        sq_diff_sum(x, y, n) >= 0,
    decreases n,
{
    if n > 0 {
        lemma_sq_diff_sum_nonneg(x, y, n - 1);
        let d = x[n - 1] - y[n - 1];
        assert(d * d >= 0) by (nonlinear_arith);
    }
}

proof fn lemma_sq_diff_sum_monotonic(x: Seq<i64>, y: Seq<i64>, m: int, n: int)
    requires
        m <= n,
    ensures
        sq_diff_sum(x, y, m) <= sq_diff_sum(x, y, n),
    decreases n - m,
{
    if m < n {
        lemma_sq_diff_sum_monotonic(x, y, m, n - 1);
        let d = x[n - 1] - y[n - 1];
        assert(d * d >= 0) by (nonlinear_arith);
    }
}

proof fn lemma_sq_diff_sum_symmetric(x: Seq<i64>, y: Seq<i64>, n: int)
    ensures
        sq_diff_sum(x, y, n) == sq_diff_sum(y, x, n),
    decreases n,
{
    if n > 0 {
        lemma_sq_diff_sum_symmetric(x, y, n - 1);
        let d = x[n - 1] - y[n - 1];
        let e = y[n - 1] - x[n - 1];
        assert(d * d == e * e) by (nonlinear_arith)
            requires
                e == -d,
        ;
    }
}

proof fn lemma_sq_diff_sum_self(x: Seq<i64>, n: int)
    ensures
        sq_diff_sum(x, x, n) == 0,
    decreases n,
{
    if n > 0 {
        lemma_sq_diff_sum_self(x, n - 1);
    }
}

/// The squared Euclidean distance is symmetric in its two arguments.
pub proof fn lemma_squared_euclidean_symmetric(x: Seq<i64>, y: Seq<i64>)
    ensures
        spec_squared_euclidean(x, y) == spec_squared_euclidean(y, x),
{
    lemma_sq_diff_sum_symmetric(x, y, common_len(x, y));
    assert(common_len(x, y) == common_len(y, x));
}

/// A vector is at squared Euclidean distance zero from itself.
pub proof fn lemma_squared_euclidean_self_zero(x: Seq<i64>)
    ensures
        spec_squared_euclidean(x, x) == 0,
{
    lemma_sq_diff_sum_self(x, common_len(x, x));
}

impl Metric for SquaredEuclidean {
    open spec fn spec_distance(&self, x: Seq<i64>, y: Seq<i64>) -> u64 {
        spec_squared_euclidean(x, y)
    }

    fn distance(&self, x: &Vec<i64>, y: &Vec<i64>) -> (d: u64) {
        let n = if x.len() <= y.len() {
            x.len()
        } else {
            y.len()
        };
        let mut acc: u128 = 0;
        let mut i: usize = 0;
        while i < n
            invariant
                0 <= i <= n,
                n == common_len(x@, y@),
                n <= x@.len() && n <= y@.len(),
                acc == sq_diff_sum(x@, y@, i as int),
            decreases n - i,
        {
            let d128: i128 = x[i] as i128 - y[i] as i128;
            let mag: u128 = if d128 < 0 {
                (-d128) as u128
            } else {
                d128 as u128
            };
            proof {
                let xi = x@[i as int] as int;
                let yi = y@[i as int] as int;
                assert(mag * mag == (xi - yi) * (xi - yi)) by (nonlinear_arith)
                    requires
                        mag == if xi - yi < 0 { -(xi - yi) } else { xi - yi },
                ;
                assert(mag * mag <= u128::MAX) by (nonlinear_arith)
                    requires
                        0 <= mag <= u64::MAX,
                ;
                lemma_sq_diff_sum_nonneg(x@, y@, i as int);
            }
            let sq: u128 = mag * mag;
            match acc.checked_add(sq) {
                Some(next) => {
                    acc = next;
                },
                None => {
                    proof {
                        lemma_sq_diff_sum_monotonic(x@, y@, i + 1, n as int);
                    }
                    return u64::MAX;
                },
            }
            i = i + 1;
        }
        if acc > u64::MAX as u128 {
            u64::MAX
        } else {
            acc as u64
        }
    }
}

} // verus!
