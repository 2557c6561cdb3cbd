//! Mathematical model of the bounded 1-D k-means iteration.
//!
//! The executable solver is specified against the functions in this module:
//! a `pass` recomputes every cluster boundary from the current centroids by
//! counting how many samples fall below the pairwise thresholds, and
//! `iterate` repeats passes until the centroids stop changing or the
//! iteration budget runs out.

use vstd::arithmetic::div_mod::{
    lemma_div_is_ordered, lemma_div_is_strictly_smaller, lemma_div_multiples_vanish,
    lemma_div_multiples_vanish_fancy, lemma_div_pos_is_pos,
};
use vstd::arithmetic::mul::lemma_mul_inequality;
use vstd::prelude::*;

verus! {

/// The sequence is in non-decreasing order.
pub open spec fn sorted(s: Seq<i32>) -> bool {
    forall|i: int, j: int| 0 <= i <= j < s.len() ==> s[i] <= s[j]
}

/// Sum of the first `j` elements of `s`, as a mathematical integer.
pub open spec fn prefix_sum(s: Seq<i32>, j: int) -> int
    decreases j,
{
    if j <= 0 {
        0
    } else {
        prefix_sum(s, j - 1) + s[j - 1]
    }
}

/// Number of elements of `s` that are `<= t`.
pub open spec fn count_le(s: Seq<i32>, t: int) -> int
    decreases s.len(),
{
    if s.len() == 0 {
        0
    } else {
        count_le(s.drop_last(), t) + if s.last() <= t {
            1int
        } else {
            0int
        }
    }
}

/// Number of elements of `s` that are `< t`.
pub open spec fn count_lt(s: Seq<i32>, t: int) -> int
    decreases s.len(),
{
    if s.len() == 0 {
        0
    } else {
        count_lt(s.drop_last(), t) + if s.last() < t {
            1int
        } else {
            0int
        }
    }
}

/// Midpoint between two adjacent centroids, rounding halves up.
pub open spec fn threshold(a: int, b: int) -> int {
    (a + b + 1) / 2
}

/// Division that truncates toward zero, as the `/` operator of `i64` does.
pub open spec fn trunc_div(num: int, den: int) -> int
    recommends
        den >= 1,
{
    if num >= 0 {
        num / den
    } else {
        -((-num) / den)
    }
}

/// The mean of a cluster with the given element sum and size, rounded by
/// adding half the size before the truncating division.
pub open spec fn round_mean(total: int, cnt: int) -> int
    recommends
        cnt >= 1,
{
    trunc_div(total + cnt / 2, cnt)
}

/// Lower boundary of cluster `j` after a pass driven by centroids `c`:
/// the first cluster starts at 0, and every other cluster starts right
/// after the samples that lie strictly below the threshold shared with its
/// left neighbour.
pub open spec fn cluster_low(data: Seq<i32>, c: Seq<i32>, j: int) -> int {
    if j == 0 {
        0
    } else {
        count_lt(data, threshold(c[j - 1] as int, c[j] as int))
    }
}

/// Upper boundary of cluster `j` after a pass driven by centroids `c`:
/// the last cluster ends at the end of the data, and every other cluster
/// ends after the samples that lie at or below the threshold shared with
/// its right neighbour.
pub open spec fn cluster_high(data: Seq<i32>, c: Seq<i32>, j: int) -> int {
    if j == c.len() - 1 {
        data.len() as int
    } else {
        count_le(data, threshold(c[j] as int, c[j + 1] as int))
    }
}

/// Centroid of cluster `j` after one pass: the rounded mean of the samples
/// between the recomputed boundaries, or the old centroid if the cluster
/// came out empty.
pub open spec fn pass_centroid(data: Seq<i32>, c: Seq<i32>, j: int) -> i32 {
    let lo = cluster_low(data, c, j);
    let hi = cluster_high(data, c, j);
    if hi > lo {
        round_mean(prefix_sum(data, hi) - prefix_sum(data, lo), hi - lo) as i32
    } else {
        c[j]
    }
}

/// One full iteration of the solver: recompute every boundary from the
/// current centroids, then every centroid from its cluster.
pub open spec fn pass(data: Seq<i32>, c: Seq<i32>) -> Seq<i32> {
    Seq::new(c.len(), |j: int| pass_centroid(data, c, j))
}

/// Repeat passes until the centroids reach a fixed point or the fuel runs
/// out; both exits return the current centroids.
pub open spec fn iterate(data: Seq<i32>, c: Seq<i32>, fuel: nat) -> Seq<i32>
    decreases fuel,
{
    if fuel == 0 {
        c
    } else {
        let c2 = pass(data, c);
        if c2 == c {
            c
        } else {
            iterate(data, c2, (fuel - 1) as nat)
        }
    }
}

/// Index of the sample that seeds centroid `j`: the `k` seeds are spread
/// evenly over the data, degenerating to index 0 when there is one cluster.
pub open spec fn init_index(len: int, k: int, j: int) -> int {
    if k == 1 {
        0
    } else {
        (j * (len - 1)) / (k - 1)
    }
}

/// The seed centroids: the samples at the evenly spread indices.
pub open spec fn init_centroids(data: Seq<i32>, k: int) -> Seq<i32> {
    Seq::new(k as nat, |j: int| data[init_index(data.len() as int, k, j)])
}

/// Number of binary digits of `n` (0 for `n <= 0`).
pub open spec fn bit_length(n: int) -> nat
    decreases n,
{
    if n <= 0 {
        0
    } else {
        (1 + bit_length(n / 2)) as nat
    }
}

/// The iteration budget: twice the bit length of the sample count, which
/// bounds the total work of the solver by `O(n log n)`.
pub open spec fn iteration_limit(n: int) -> nat {
    2 * bit_length(n)
}

/// The solver accepts a cluster count between 1 and the sample count.
pub open spec fn valid_args(data: Seq<i32>, k: int) -> bool {
    1 <= k <= data.len()
}

/// The centroids the solver returns: the fixed point (or budget-limited
/// iterate) of `pass`, starting from the seed centroids.
pub open spec fn kmeans_spec(data: Seq<i32>, k: int) -> Seq<i32>
    recommends
        valid_args(data, k),
{
    iterate(data, init_centroids(data, k), iteration_limit(data.len() as int))
}

/// The two counts are at most the length, and counting with a strict
/// comparison never counts more than with a non-strict one.
pub proof fn lemma_count_bounds(s: Seq<i32>, t: int)
    ensures
        0 <= count_le(s, t) <= s.len(),
        0 <= count_lt(s, t) <= s.len(),
        count_lt(s, t) <= count_le(s, t),
    decreases s.len(),
{
    if s.len() > 0 {
        lemma_count_bounds(s.drop_last(), t);
    }
}

/// When every element is `<= t`, all of them are counted.
pub proof fn lemma_count_le_full(s: Seq<i32>, t: int)
    requires
        forall|i: int| 0 <= i < s.len() ==> s[i] <= t,
    ensures
        count_le(s, t) == s.len(),
    decreases s.len(),
{
    if s.len() > 0 {
        assert(forall|i: int| 0 <= i < s.len() - 1 ==> s.drop_last()[i] == s[i]);
        lemma_count_le_full(s.drop_last(), t);
    }
}

/// Dropping the last element keeps a sequence sorted.
proof fn lemma_sorted_drop_last(s: Seq<i32>)
    requires
        sorted(s),
        s.len() > 0,
    ensures
        sorted(s.drop_last()),
{
    let d = s.drop_last();
    assert forall|i: int, j: int| 0 <= i <= j < d.len() implies d[i] <= d[j] by {
        assert(d[i] == s[i]);
        assert(d[j] == s[j]);
    }
}

/// In a sorted sequence, the elements `<= t` are exactly the first
/// `count_le(s, t)` ones.
pub proof fn lemma_count_le_sorted(s: Seq<i32>, t: int)
    requires
        sorted(s),
    ensures
        0 <= count_le(s, t) <= s.len(),
        forall|i: int| 0 <= i < count_le(s, t) ==> s[i] <= t,
        forall|i: int| count_le(s, t) <= i < s.len() ==> s[i] > t,
    decreases s.len(),
{
    lemma_count_bounds(s, t);
    if s.len() > 0 {
        if s.last() <= t {
            assert forall|i: int| 0 <= i < s.len() implies s[i] <= t by {
                assert(s[i] <= s[s.len() - 1]);
            }
            lemma_count_le_full(s, t);
        } else {
            let d = s.drop_last();
            lemma_sorted_drop_last(s);
            lemma_count_le_sorted(d, t);
            assert(forall|i: int| 0 <= i < d.len() ==> d[i] == s[i]);
            assert(count_le(s, t) == count_le(d, t));
        }
    }
}

/// In a sorted sequence, the elements `< t` are exactly the first
/// `count_lt(s, t)` ones.
pub proof fn lemma_count_lt_sorted(s: Seq<i32>, t: int)
    requires
        sorted(s),
    ensures
        0 <= count_lt(s, t) <= s.len(),
        forall|i: int| 0 <= i < count_lt(s, t) ==> s[i] < t,
        forall|i: int| count_lt(s, t) <= i < s.len() ==> s[i] >= t,
    decreases s.len(),
{
    lemma_count_bounds(s, t);
    if s.len() > 0 {
        if s.last() < t {
            assert forall|i: int| 0 <= i < s.len() implies s[i] < t by {
                assert(s[i] <= s[s.len() - 1]);
            }
            lemma_count_le_full(s, t - 1);
            lemma_count_lt_eq_le_pred(s, t);
        } else {
            let d = s.drop_last();
            lemma_sorted_drop_last(s);
            lemma_count_lt_sorted(d, t);
            assert(forall|i: int| 0 <= i < d.len() ==> d[i] == s[i]);
            assert(count_lt(s, t) == count_lt(d, t));
        }
    }
}

/// Strictly below `t` is the same as at or below `t - 1` for integers.
pub proof fn lemma_count_lt_eq_le_pred(s: Seq<i32>, t: int)
    ensures
        count_lt(s, t) == count_le(s, t - 1),
    decreases s.len(),
{
    if s.len() > 0 {
        lemma_count_lt_eq_le_pred(s.drop_last(), t);
    }
}

/// In a sorted sequence, a position whose left neighbour is `<= t` and
/// whose own element is `> t` is exactly `count_le(s, t)`.
pub proof fn lemma_count_le_unique(s: Seq<i32>, t: int, j: int)
    requires
        sorted(s),
        0 <= j <= s.len(),
        j == 0 || s[j - 1] <= t,
        j == s.len() || s[j] > t,
    ensures
        j == count_le(s, t),
{
    lemma_count_le_sorted(s, t);
    let c = count_le(s, t);
    if j < c {
        assert(s[j] <= t);
        assert(false);
    } else if j > c {
        assert(s[j - 1] > t);
        assert(false);
    }
}

/// In a sorted sequence, a position whose left neighbour is `< t` and
/// whose own element is `>= t` is exactly `count_lt(s, t)`.
pub proof fn lemma_count_lt_unique(s: Seq<i32>, t: int, j: int)
    requires
        sorted(s),
        0 <= j <= s.len(),
        j == 0 || s[j - 1] < t,
        j == s.len() || s[j] >= t,
    ensures
        j == count_lt(s, t),
{
    lemma_count_lt_sorted(s, t);
    let c = count_lt(s, t);
    if j < c {
        assert(s[j] < t);
        assert(false);
    } else if j > c {
        assert(s[j - 1] >= t);
        assert(false);
    }
}

/// Both counts grow with the cut-off, and a strictly larger cut-off takes
/// the strict count past the non-strict one.
pub proof fn lemma_count_mono(s: Seq<i32>, t1: int, t2: int)
    requires
        t1 <= t2,
    ensures
        count_le(s, t1) <= count_le(s, t2),
        count_lt(s, t1) <= count_lt(s, t2),
        t1 < t2 ==> count_le(s, t1) <= count_lt(s, t2),
    decreases s.len(),
{
    if s.len() > 0 {
        lemma_count_mono(s.drop_last(), t1, t2);
    }
}

/// The sum over an index range of `i32` values is bounded by the range
/// width times the extreme `i32` values.
pub proof fn lemma_prefix_range_bound(s: Seq<i32>, a: int, b: int)
    requires
        0 <= a <= b <= s.len(),
    ensures
        (b - a) * (-0x8000_0000) <= prefix_sum(s, b) - prefix_sum(s, a),
        prefix_sum(s, b) - prefix_sum(s, a) <= (b - a) * 0x7fff_ffff,
    decreases b - a,
{
    if b > a {
        lemma_prefix_range_bound(s, a, b - 1);
        assert((b - a) * (-0x8000_0000) == (b - 1 - a) * (-0x8000_0000) + (-0x8000_0000))
            by (nonlinear_arith);
        assert((b - a) * 0x7fff_ffff == (b - 1 - a) * 0x7fff_ffff + 0x7fff_ffff)
            by (nonlinear_arith);
    }
}

/// Over sorted data, the sum of the samples in `[a, b)` is bounded by the
/// width of the range times its first and last samples.
pub proof fn lemma_prefix_sorted_bounds(s: Seq<i32>, a: int, b: int)
    requires
        sorted(s),
        0 <= a < b <= s.len(),
    ensures
        (b - a) * (s[a] as int) <= prefix_sum(s, b) - prefix_sum(s, a),
        prefix_sum(s, b) - prefix_sum(s, a) <= (b - a) * (s[b - 1] as int),
    decreases b - a,
{
    if b == a + 1 {
        assert((1int) * (s[a] as int) == s[a] as int) by (nonlinear_arith);
    } else {
        lemma_prefix_sorted_bounds(s, a, b - 1);
        let d = prefix_sum(s, b - 1) - prefix_sum(s, a);
        let w = b - 1 - a;
        assert(s[a] <= s[b - 1] && s[b - 2] <= s[b - 1]);
        assert(w * (s[b - 2] as int) + (s[b - 1] as int) <= (w + 1) * (s[b - 1] as int))
            by (nonlinear_arith)
            requires
                w >= 1,
                s[b - 2] as int <= s[b - 1] as int,
        ;
        assert((w + 1) * (s[a] as int) <= w * (s[a] as int) + (s[b - 1] as int))
            by (nonlinear_arith)
            requires
                w >= 1,
                s[a] as int <= s[b - 1] as int,
        ;
    }
}

/// Truncating division by a positive divisor is at least `m` whenever the
/// numerator is at least `den * m`.
pub proof fn lemma_trunc_div_lower(num: int, den: int, m: int)
    requires
        den >= 1,
        den * m <= num,
    ensures
        trunc_div(num, den) >= m,
{
    if num >= 0 {
        lemma_div_is_ordered(den * m, num, den);
        lemma_div_multiples_vanish(m, den);
    } else {
        assert(-num <= den * (-m)) by (nonlinear_arith)
            requires
                den * m <= num,
        ;
        lemma_div_is_ordered(-num, den * (-m), den);
        lemma_div_multiples_vanish(-m, den);
    }
}

/// Truncating division by a positive divisor is at most a non-negative
/// `mm` whenever the numerator is below `den * (mm + 1)`.
pub proof fn lemma_trunc_div_upper(num: int, den: int, mm: int)
    requires
        den >= 1,
        num <= den * mm + den - 1,
        0 <= mm,
    ensures
        trunc_div(num, den) <= mm,
{
    if num >= 0 {
        lemma_div_is_ordered(num, den * mm + den - 1, den);
        lemma_div_multiples_vanish_fancy(mm, den - 1, den);
    } else {
        lemma_div_pos_is_pos(-num, den);
    }
}

/// Truncating division keeps the sign of a negative numerator at or below
/// zero.
pub proof fn lemma_trunc_div_neg(num: int, den: int)
    requires
        den >= 1,
        num < 0,
    ensures
        trunc_div(num, den) <= 0,
{
    lemma_div_pos_is_pos(-num, den);
}

/// Truncating division by one is the identity.
pub proof fn lemma_trunc_div_by_one(num: int)
    ensures
        trunc_div(num, 1) == num,
{
    if num >= 0 {
        lemma_div_multiples_vanish(num, 1);
    } else {
        lemma_div_multiples_vanish(-num, 1);
    }
}

/// The rounded mean of the samples in a non-empty range of sorted data is
/// at least the first sample of the range and at most the larger of zero
/// and its last sample; in particular it always fits in an `i32`.
pub proof fn lemma_round_mean_bounds(s: Seq<i32>, a: int, b: int)
    requires
        sorted(s),
        0 <= a < b <= s.len(),
    ensures
        s[a] as int <= round_mean(prefix_sum(s, b) - prefix_sum(s, a), b - a),
        s[b - 1] >= 0 ==> round_mean(prefix_sum(s, b) - prefix_sum(s, a), b - a) <= s[b - 1] as int,
        s[b - 1] < 0 ==> round_mean(prefix_sum(s, b) - prefix_sum(s, a), b - a) <= 0,
        i32::MIN <= round_mean(prefix_sum(s, b) - prefix_sum(s, a), b - a) <= i32::MAX,
{
    let total = prefix_sum(s, b) - prefix_sum(s, a);
    let cnt = b - a;
    let h = cnt / 2;
    lemma_prefix_sorted_bounds(s, a, b);
    lemma_div_pos_is_pos(cnt, 2);
    if cnt == 1 {
        assert(h == 0);
    } else {
        lemma_div_is_strictly_smaller(cnt, 2);
    }
    let num = total + h;
    lemma_trunc_div_lower(num, cnt, s[a] as int);
    if s[b - 1] >= 0 {
        lemma_trunc_div_upper(num, cnt, s[b - 1] as int);
    } else {
        assert(cnt * (s[b - 1] as int) <= cnt * (-1)) by {
            lemma_mul_inequality(s[b - 1] as int, -1, cnt);
            assert(cnt * (s[b - 1] as int) == (s[b - 1] as int) * cnt) by (nonlinear_arith);
            assert(cnt * (-1) == (-1int) * cnt) by (nonlinear_arith);
        }
        assert(num < 0);
        lemma_trunc_div_neg(num, cnt);
    }
}

} // verus!
