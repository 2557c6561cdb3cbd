//! Proved properties of the k-means iteration.
//!
//! Each public proof function here states a law of the algorithm over the
//! model functions that the solver's contract uses, so the laws carry over
//! to every value the executable solver returns.

use vstd::arithmetic::div_mod::{
    lemma_div_by_multiple, lemma_div_is_ordered, lemma_div_is_strictly_smaller,
    lemma_div_multiples_vanish, lemma_div_multiples_vanish_fancy, lemma_div_pos_is_pos,
};
use vstd::arithmetic::mul::lemma_mul_inequality;
use vstd::prelude::*;

use crate::model::{
    bit_length, cluster_high, cluster_low, count_le, count_lt, init_centroids, init_index,
    iterate, iteration_limit, kmeans_spec, lemma_count_bounds, lemma_count_le_sorted,
    lemma_count_le_unique, lemma_count_lt_sorted, lemma_count_lt_unique, lemma_count_mono,
    lemma_prefix_sorted_bounds, lemma_round_mean_bounds, lemma_trunc_div_by_one,
    lemma_trunc_div_lower, lemma_trunc_div_neg, pass, pass_centroid, prefix_sum,
    round_mean, sorted, threshold, trunc_div, valid_args,
};

verus! {

/// Every value of `c` lies in the closed interval `[lo, hi]`.
pub open spec fn within(c: Seq<i32>, lo: int, hi: int) -> bool {
    forall|j: int| 0 <= j < c.len() ==> lo <= c[j] && c[j] <= hi
}

/// Transitive closure of adjacent order.
proof fn lemma_le_span(c: Seq<i32>, i: int, j: int)
    requires
        forall|m: int| 0 <= m < c.len() - 1 ==> #[trigger] c[m] <= c[m + 1],
        0 <= i <= j < c.len(),
    ensures
        c[i] <= c[j],
    decreases j - i,
{
    if i < j {
        lemma_le_span(c, i, j - 1);
    }
}

/// A sequence whose adjacent elements are ordered is sorted.
proof fn lemma_adjacent_sorted(c: Seq<i32>)
    requires
        forall|m: int| 0 <= m < c.len() - 1 ==> #[trigger] c[m] <= c[m + 1],
    ensures
        sorted(c),
{
    assert forall|i: int, j: int| 0 <= i <= j < c.len() implies c[i] <= c[j] by {
        lemma_le_span(c, i, j);
    }
}

/// The threshold of an ordered pair lies between the pair.
proof fn lemma_threshold_between(a: int, b: int)
    requires
        a <= b,
    ensures
        a <= threshold(a, b) <= b,
{
    lemma_div_is_ordered(2 * a + 1, a + b + 1, 2);
    lemma_div_is_ordered(a + b + 1, 2 * b + 1, 2);
    lemma_div_multiples_vanish_fancy(a, 1, 2);
    lemma_div_multiples_vanish_fancy(b, 1, 2);
}

/// Thresholds grow when both centroids grow.
proof fn lemma_threshold_mono(a1: int, b1: int, a2: int, b2: int)
    requires
        a1 <= a2,
        b1 <= b2,
    ensures
        threshold(a1, b1) <= threshold(a2, b2),
{
    lemma_div_is_ordered(a1 + b1 + 1, a2 + b2 + 1, 2);
}

/// One pass keeps each centroid inside the data's value range, over
/// sorted non-negative data and sorted in-range centroids.
proof fn lemma_pass_centroid_in_range(data: Seq<i32>, c: Seq<i32>, j: int)
    requires
        sorted(data),
        1 <= c.len() <= data.len(),
        0 <= data[0],
        sorted(c),
        within(c, data[0] as int, data[data.len() - 1] as int),
        0 <= j < c.len(),
    ensures
        data[0] <= pass_centroid(data, c, j) <= data[data.len() - 1],
{
    let n = data.len() as int;
    let nn = c.len() as int;
    let lo = cluster_low(data, c, j);
    let hi = cluster_high(data, c, j);
    if j >= 1 {
        lemma_count_lt_sorted(data, threshold(c[j - 1] as int, c[j] as int));
    }
    if j < nn - 1 {
        lemma_count_le_sorted(data, threshold(c[j] as int, c[j + 1] as int));
    }
    if 1 <= j < nn - 1 {
        lemma_threshold_mono(c[j - 1] as int, c[j] as int, c[j] as int, c[j + 1] as int);
        lemma_count_mono(
            data,
            threshold(c[j - 1] as int, c[j] as int),
            threshold(c[j] as int, c[j + 1] as int),
        );
        lemma_count_bounds(data, threshold(c[j - 1] as int, c[j] as int));
    }
    assert(0 <= lo && hi <= n && lo <= hi);
    if hi > lo {
        lemma_round_mean_bounds(data, lo, hi);
        assert(data[0] <= data[lo] && data[0] <= data[hi - 1] && data[hi - 1] <= data[n - 1]);
    }
}

/// One pass keeps the centroids sorted and inside the data's value range,
/// over sorted non-negative data.
proof fn lemma_pass_preserves(data: Seq<i32>, c: Seq<i32>)
    requires
        sorted(data),
        1 <= c.len() <= data.len(),
        0 <= data[0],
        sorted(c),
        within(c, data[0] as int, data[data.len() - 1] as int),
    ensures
        sorted(pass(data, c)),
        within(pass(data, c), data[0] as int, data[data.len() - 1] as int),
{
    let p = pass(data, c);
    assert forall|j: int| 0 <= j < p.len() implies data[0] as int <= p[j]
        && p[j] <= data[data.len() - 1] as int by {
        lemma_pass_centroid_in_range(data, c, j);
    }
    lemma_pass_sorted(data, c);
}

/// Iterating passes keeps the centroids sorted and inside the data's
/// value range, over sorted non-negative data.
proof fn lemma_iterate_preserves(data: Seq<i32>, c: Seq<i32>, fuel: nat)
    requires
        sorted(data),
        1 <= c.len() <= data.len(),
        0 <= data[0],
        sorted(c),
        within(c, data[0] as int, data[data.len() - 1] as int),
    ensures
        iterate(data, c, fuel).len() == c.len(),
        sorted(iterate(data, c, fuel)),
        within(iterate(data, c, fuel), data[0] as int, data[data.len() - 1] as int),
    decreases fuel,
{
    if fuel > 0 {
        let c2 = pass(data, c);
        if c2 != c {
            lemma_pass_preserves(data, c);
            lemma_iterate_preserves(data, c2, (fuel - 1) as nat);
        }
    }
}

/// The seed centroids are `k` samples taken at non-decreasing indices, so
/// they are sorted and within the data's value range.
proof fn lemma_init_centroids_props(data: Seq<i32>, k: int)
    requires
        sorted(data),
        valid_args(data, k),
    ensures
        init_centroids(data, k).len() == k,
        sorted(init_centroids(data, k)),
        within(init_centroids(data, k), data[0] as int, data[data.len() - 1] as int),
{
    let n = data.len() as int;
    let ic = init_centroids(data, k);
    assert forall|j: int| 0 <= j < k implies 0 <= init_index(n, k, j) && init_index(n, k, j)
        < n by {
        if k > 1 {
            lemma_div_pos_is_pos(j * (n - 1), k - 1);
            lemma_mul_inequality(j, k - 1, n - 1);
            lemma_div_is_ordered(j * (n - 1), (k - 1) * (n - 1), k - 1);
            lemma_div_multiples_vanish(n - 1, k - 1);
            assert(j * (n - 1) >= 0) by (nonlinear_arith)
                requires
                    j >= 0 && n >= 1,
            ;
        }
    }
    assert forall|j: int| 0 <= j < k - 1 implies #[trigger] ic[j] <= ic[j + 1] by {
        if k > 1 {
            lemma_mul_inequality(j, j + 1, n - 1);
            lemma_div_is_ordered(j * (n - 1), (j + 1) * (n - 1), k - 1);
        }
    }
    lemma_adjacent_sorted(ic);
}

/// LAW: for any sorted input and valid cluster count, the returned
/// centroids are in non-decreasing order.
pub proof fn lemma_centroids_sorted(data: Seq<i32>, k: int)
    requires
        sorted(data),
        valid_args(data, k),
    ensures
        sorted(kmeans_spec(data, k)),
{
    lemma_init_centroids_props(data, k);
    lemma_iterate_sorted(data, init_centroids(data, k), iteration_limit(data.len() as int));
}

/// LAW (shown for non-negative samples): every returned centroid lies
/// within the input's overall value range.
pub proof fn lemma_centroids_in_range(data: Seq<i32>, k: int)
    requires
        sorted(data),
        valid_args(data, k),
        0 <= data[0],
    ensures
        kmeans_spec(data, k).len() == k,
        forall|j: int|
            0 <= j < k ==> data[0] as int <= kmeans_spec(data, k)[j] && kmeans_spec(data, k)[j]
                <= data[data.len() - 1] as int,
{
    lemma_init_centroids_props(data, k);
    lemma_iterate_preserves(data, init_centroids(data, k), iteration_limit(data.len() as int));
}

/// LAW: the algorithm is deterministic.  Any two results obtained for the
/// same data and cluster count are equal, so re-running the solver on the
/// same input yields the same centroids.
pub proof fn lemma_deterministic(data: Seq<i32>, k: int, r1: Seq<i32>, r2: Seq<i32>)
    requires
        r1 == kmeans_spec(data, k),
        r2 == kmeans_spec(data, k),
    ensures
        r1 == r2,
{
}

/// Passes leave a fixed point unchanged.
proof fn lemma_iterate_fixpoint(data: Seq<i32>, c: Seq<i32>, fuel: nat)
    requires
        pass(data, c) == c,
    ensures
        iterate(data, c, fuel) == c,
{
}

/// The length of the result is the length of the seed.
proof fn lemma_iterate_len(data: Seq<i32>, c: Seq<i32>, fuel: nat)
    ensures
        iterate(data, c, fuel).len() == c.len(),
    decreases fuel,
{
    if fuel > 0 {
        let c2 = pass(data, c);
        if c2 != c {
            lemma_iterate_len(data, c2, (fuel - 1) as nat);
        }
    }
}

/// The solver returns exactly `k` centroids.
pub proof fn lemma_kmeans_len(data: Seq<i32>, k: int)
    requires
        0 <= k,
    ensures
        kmeans_spec(data, k).len() == k,
{
    lemma_iterate_len(data, init_centroids(data, k), iteration_limit(data.len() as int));
}

/// With one sample per cluster and gaps of at least two between the
/// samples, the pass recomputes each centroid from exactly its own
/// sample.
proof fn lemma_identity_pass_centroid(data: Seq<i32>, j: int)
    requires
        sorted(data),
        forall|m: int| 0 <= m < data.len() - 1 ==> #[trigger] data[m] + 2 <= data[m + 1],
        0 <= j < data.len(),
    ensures
        pass_centroid(data, data, j) == data[j],
{
    let n = data.len() as int;
    let c = data;
    if j < n - 1 {
        let t = threshold(data[j] as int, data[j + 1] as int);
        assert(data[j] as int + 1 <= t) by {
            lemma_div_is_ordered(
                2 * (data[j] as int + 1) + 1,
                data[j] as int + data[j + 1] as int + 1,
                2,
            );
            lemma_div_multiples_vanish_fancy(data[j] as int + 1, 1, 2);
        }
        assert(t <= data[j + 1] as int - 1) by {
            lemma_div_is_ordered(
                data[j] as int + data[j + 1] as int + 1,
                2 * (data[j + 1] as int - 1) + 1,
                2,
            );
            lemma_div_multiples_vanish_fancy(data[j + 1] as int - 1, 1, 2);
        }
        lemma_count_le_unique(data, t, j + 1);
        assert(cluster_high(data, c, j) == j + 1);
    } else {
        assert(cluster_high(data, c, j) == n);
    }
    if j >= 1 {
        let t0 = threshold(data[j - 1] as int, data[j] as int);
        assert(data[j - 1] as int + 1 <= t0) by {
            lemma_div_is_ordered(
                2 * (data[j - 1] as int + 1) + 1,
                data[j - 1] as int + data[j] as int + 1,
                2,
            );
            lemma_div_multiples_vanish_fancy(data[j - 1] as int + 1, 1, 2);
        }
        assert(t0 <= data[j] as int - 1) by {
            lemma_div_is_ordered(
                data[j - 1] as int + data[j] as int + 1,
                2 * (data[j] as int - 1) + 1,
                2,
            );
            lemma_div_multiples_vanish_fancy(data[j] as int - 1, 1, 2);
        }
        lemma_count_lt_unique(data, t0, j);
        assert(cluster_low(data, c, j) == j);
    }
    let lo = cluster_low(data, c, j);
    let hi = cluster_high(data, c, j);
    assert(lo == j && hi == j + 1);
    assert(prefix_sum(data, j + 1) - prefix_sum(data, j) == data[j] as int);
    assert((1int) / 2 == 0) by {
        lemma_div_pos_is_pos(1, 2);
        lemma_div_is_strictly_smaller(1, 2);
    }
    lemma_trunc_div_by_one(data[j] as int);
    assert(round_mean(data[j] as int, 1) == data[j] as int);
}

/// LAW (shown for samples that are pairwise at least two apart): with one
/// cluster per sample, every centroid equals its own sample exactly.
pub proof fn lemma_one_sample_per_cluster(data: Seq<i32>)
    requires
        data.len() >= 1,
        forall|j: int| 0 <= j < data.len() - 1 ==> #[trigger] data[j] + 2 <= data[j + 1],
    ensures
        kmeans_spec(data, data.len() as int) == data,
{
    let n = data.len() as int;
    let k = n;
    assert(forall|m: int| 0 <= m < data.len() - 1 ==> #[trigger] data[m] <= data[m + 1]);
    lemma_adjacent_sorted(data);
    let ic = init_centroids(data, k);
    assert forall|j: int| 0 <= j < k implies ic[j] == data[j] by {
        if k > 1 {
            lemma_div_by_multiple(j, n - 1);
            assert(init_index(n, k, j) == j);
        }
    }
    assert(ic =~= data);
    assert forall|j: int| 0 <= j < k implies #[trigger] pass(data, data)[j] == data[j] by {
        lemma_identity_pass_centroid(data, j);
    }
    assert(pass(data, data) =~= data);
    lemma_iterate_fixpoint(data, data, iteration_limit(n));
}

/// The rounded mean of the entire sample sequence, with the solver's
/// rounding rule.
pub open spec fn rounded_mean(data: Seq<i32>) -> int {
    round_mean(prefix_sum(data, data.len() as int), data.len() as int)
}

/// LAW: with a single cluster, the one centroid is the rounded mean of
/// the entire sequence.
pub proof fn lemma_single_cluster_mean(data: Seq<i32>)
    requires
        sorted(data),
        data.len() >= 1,
    ensures
        kmeans_spec(data, 1).len() == 1,
        i32::MIN <= rounded_mean(data) <= i32::MAX,
        kmeans_spec(data, 1)[0] as int == rounded_mean(data),
{
    let n = data.len() as int;
    lemma_round_mean_bounds(data, 0, n);
    let m = rounded_mean(data);
    let c1 = init_centroids(data, 1);
    assert(c1.len() == 1);
    assert(c1[0] == data[0]);
    let p1 = pass(data, c1);
    assert(pass_centroid(data, c1, 0) == m as i32);
    assert(p1 =~= seq![m as i32]);
    let fuel = iteration_limit(n);
    assert(bit_length(n) >= 1);
    if p1 == c1 {
        assert(iterate(data, c1, fuel) == c1);
    } else {
        assert(iterate(data, c1, fuel) == iterate(data, p1, (fuel - 1) as nat));
        assert(pass_centroid(data, p1, 0) == m as i32);
        assert(pass(data, p1) =~= p1);
        lemma_iterate_fixpoint(data, p1, (fuel - 1) as nat);
    }
    assert(kmeans_spec(data, 1)[0] == m as i32);
}

/// Bounds of the truncating division around multiples of the divisor,
/// covering numerators of either sign.
proof fn lemma_trunc_div_tight(num: int, den: int, mm: int)
    requires
        den >= 1,
    ensures
        (0 <= num && num <= den * mm + den - 1) ==> trunc_div(num, den) <= mm,
        (num < 0 && num <= den * mm + den - 1) ==> trunc_div(num, den) <= mm + 1,
        (num < 0 && num <= den * mm) ==> trunc_div(num, den) <= mm,
        (mm <= -1 && den * mm + 1 <= num) ==> trunc_div(num, den) >= mm + 1,
{
    if 0 <= num && num <= den * mm + den - 1 {
        lemma_div_is_ordered(num, den * mm + den - 1, den);
        lemma_div_multiples_vanish_fancy(mm, den - 1, den);
    }
    if num < 0 {
        if num <= den * mm + den - 1 {
            assert(den * (-mm - 1) + 1 <= -num) by (nonlinear_arith)
                requires
                    num <= den * mm + den - 1,
            ;
            lemma_div_is_ordered(den * (-mm - 1), -num, den);
            lemma_div_multiples_vanish(-mm - 1, den);
        }
        if num <= den * mm {
            assert(den * (-mm) <= -num) by (nonlinear_arith)
                requires
                    num <= den * mm,
            ;
            lemma_div_is_ordered(den * (-mm), -num, den);
            lemma_div_multiples_vanish(-mm, den);
        }
    }
    if mm <= -1 && den * mm + 1 <= num {
        if num >= 0 {
            lemma_div_pos_is_pos(num, den);
        } else {
            assert(-num <= den * (-mm - 1) + den - 1) by (nonlinear_arith)
                requires
                    den * mm + 1 <= num,
            ;
            lemma_div_is_ordered(-num, den * (-mm - 1) + den - 1, den);
            lemma_div_multiples_vanish_fancy(-mm - 1, den - 1, den);
        }
    }
}

/// The sum over a constant range.
proof fn lemma_prefix_constant(data: Seq<i32>, a: int, b: int, v: int)
    requires
        0 <= a <= b <= data.len(),
        forall|i: int| a <= i < b ==> data[i] == v,
    ensures
        prefix_sum(data, b) - prefix_sum(data, a) == (b - a) * v,
    decreases b - a,
{
    if b > a {
        lemma_prefix_constant(data, a, b - 1, v);
        assert(data[b - 1] == v);
        assert(prefix_sum(data, b) == prefix_sum(data, b - 1) + v);
        assert((b - a) * v == (b - 1 - a) * v + v) by (nonlinear_arith);
    } else {
        assert((b - a) * v == 0) by (nonlinear_arith)
            requires
                b == a,
        ;
    }
}

/// The samples of a cluster that stretches from `lo` to the split
/// position of `t` sum to at most the cluster size times `t`; when at
/// most one sample equals `t`, all others fall at least one short of it.
proof fn lemma_cluster_sum_below(data: Seq<i32>, lo: int, t: int)
    requires
        sorted(data),
        0 <= lo <= count_lt(data, t),
        lo < count_le(data, t),
    ensures
        prefix_sum(data, count_le(data, t)) - prefix_sum(data, lo) <= (count_le(data, t) - lo)
            * t,
        count_le(data, t) - count_lt(data, t) <= 1 ==> prefix_sum(data, count_le(data, t))
            - prefix_sum(data, lo) <= (count_le(data, t) - lo) * t - (count_le(data, t) - lo)
            + 1,
{
    let m = count_lt(data, t);
    let hi = count_le(data, t);
    let cnt = hi - lo;
    lemma_count_lt_sorted(data, t);
    lemma_count_le_sorted(data, t);
    lemma_count_bounds(data, t);
    assert forall|i: int| m <= i < hi implies data[i] == t by {
        assert(data[i] >= t && data[i] <= t);
    }
    lemma_prefix_constant(data, m, hi, t);
    let part1 = prefix_sum(data, m) - prefix_sum(data, lo);
    let part2 = prefix_sum(data, hi) - prefix_sum(data, m);
    if m > lo {
        lemma_prefix_sorted_bounds(data, lo, m);
        assert(data[m - 1] as int <= t - 1);
        assert((m - lo) * (data[m - 1] as int) <= (m - lo) * (t - 1)) by {
            lemma_mul_inequality(data[m - 1] as int, t - 1, m - lo);
            assert((m - lo) * (data[m - 1] as int) == (data[m - 1] as int) * (m - lo))
                by (nonlinear_arith);
            assert((m - lo) * (t - 1) == (t - 1) * (m - lo)) by (nonlinear_arith);
        }
    } else {
        assert(part1 <= (m - lo) * (t - 1)) by (nonlinear_arith)
            requires
                m == lo && part1 == 0,
        ;
    }
    assert(part1 + part2 <= cnt * t - (m - lo)) by (nonlinear_arith)
        requires
            part1 <= (m - lo) * (t - 1),
            part2 == (hi - m) * t,
            cnt == hi - lo,
            lo <= m <= hi,
    ;
    if hi - m <= 1 {
        assert(m - lo >= cnt - 1);
    }
}

/// Adjacent centroids stay ordered across one pass, over any sorted data.
///
/// When the shared threshold `t` is negative, the truncating division can
/// push the left cluster's rounded mean one past `t`; that happens only
/// when at least two samples equal `t`, and then the right cluster holds
/// at least two samples as well and its rounded mean moves past `t` too.
proof fn lemma_pass_pair_ordered(data: Seq<i32>, c: Seq<i32>, j: int)
    requires
        sorted(data),
        1 <= c.len() <= data.len(),
        sorted(c),
        0 <= j < c.len() - 1,
    ensures
        pass_centroid(data, c, j) <= pass_centroid(data, c, j + 1),
{
    let n = data.len() as int;
    let nn = c.len() as int;
    let t = threshold(c[j] as int, c[j + 1] as int);
    lemma_threshold_between(c[j] as int, c[j + 1] as int);
    lemma_count_le_sorted(data, t);
    lemma_count_lt_sorted(data, t);
    lemma_count_bounds(data, t);
    let m = count_lt(data, t);
    let hi = count_le(data, t);
    let e = hi - m;
    let lo = cluster_low(data, c, j);
    assert(cluster_high(data, c, j) == hi);
    if j >= 1 {
        lemma_threshold_mono(c[j - 1] as int, c[j] as int, c[j] as int, c[j + 1] as int);
        lemma_count_mono(data, threshold(c[j - 1] as int, c[j] as int), t);
        lemma_count_bounds(data, threshold(c[j - 1] as int, c[j] as int));
    }
    assert(0 <= lo && lo <= m);
    let pj = pass_centroid(data, c, j) as int;
    if hi > lo {
        let cnt = hi - lo;
        let total = prefix_sum(data, hi) - prefix_sum(data, lo);
        let half = cnt / 2;
        let num = total + half;
        lemma_cluster_sum_below(data, lo, t);
        lemma_div_pos_is_pos(cnt, 2);
        if cnt >= 2 {
            lemma_div_is_strictly_smaller(cnt, 2);
        }
        assert(0 <= half && half <= cnt - 1);
        lemma_round_mean_bounds(data, lo, hi);
        assert(pj == trunc_div(num, cnt));
        assert(num <= cnt * t + cnt - 1);
        lemma_trunc_div_tight(num, cnt, t);
        if num < 0 {
            lemma_trunc_div_neg(num, cnt);
        }
        assert(pj <= t + 1);
        assert(t >= 0 ==> pj <= t);
        if e <= 1 {
            assert(num <= cnt * t);
            assert(pj <= t);
        }
    } else {
        assert(pj == c[j] as int);
        assert(pj <= t);
    }
    assert(cluster_low(data, c, j + 1) == m);
    let hi2 = cluster_high(data, c, j + 1);
    if j + 1 < nn - 1 {
        lemma_threshold_mono(c[j] as int, c[j + 1] as int, c[j + 1] as int, c[j + 2] as int);
        lemma_count_mono(data, t, threshold(c[j + 1] as int, c[j + 2] as int));
        lemma_count_bounds(data, threshold(c[j + 1] as int, c[j + 2] as int));
    }
    assert(hi <= hi2 && hi2 <= n);
    let pj1 = pass_centroid(data, c, j + 1) as int;
    if hi2 > m {
        let cnt2 = hi2 - m;
        let total2 = prefix_sum(data, hi2) - prefix_sum(data, m);
        let half2 = cnt2 / 2;
        let num2 = total2 + half2;
        lemma_prefix_sorted_bounds(data, m, hi2);
        assert(data[m] as int >= t);
        assert(cnt2 * t <= cnt2 * (data[m] as int)) by {
            lemma_mul_inequality(t, data[m] as int, cnt2);
            assert(cnt2 * t == t * cnt2) by (nonlinear_arith);
            assert(cnt2 * (data[m] as int) == (data[m] as int) * cnt2) by (nonlinear_arith);
        }
        lemma_div_pos_is_pos(cnt2, 2);
        lemma_round_mean_bounds(data, m, hi2);
        assert(pj1 == trunc_div(num2, cnt2));
        lemma_trunc_div_lower(num2, cnt2, t);
        assert(pj1 >= t);
        if t <= -1 && e >= 2 {
            assert(cnt2 >= 2);
            assert(half2 >= 1) by {
                lemma_div_is_ordered(2, cnt2, 2);
                lemma_div_multiples_vanish(1, 2);
            }
            assert(num2 >= cnt2 * t + 1);
            lemma_trunc_div_tight(num2, cnt2, t);
            assert(pj1 >= t + 1);
        }
    } else {
        assert(pj1 == c[j + 1] as int);
        assert(pj1 >= t);
    }
    if t >= 0 || e <= 1 {
        assert(pj <= t && pj1 >= t);
    } else {
        assert(pj <= t + 1 && pj1 >= t + 1);
    }
}

/// One pass keeps the centroids sorted, over any sorted data.
proof fn lemma_pass_sorted(data: Seq<i32>, c: Seq<i32>)
    requires
        sorted(data),
        1 <= c.len() <= data.len(),
        sorted(c),
    ensures
        sorted(pass(data, c)),
{
    let p = pass(data, c);
    assert forall|j: int| 0 <= j < p.len() - 1 implies #[trigger] p[j] <= p[j + 1] by {
        lemma_pass_pair_ordered(data, c, j);
    }
    lemma_adjacent_sorted(p);
}

/// Iterating passes keeps the centroids sorted, over any sorted data.
proof fn lemma_iterate_sorted(data: Seq<i32>, c: Seq<i32>, fuel: nat)
    requires
        sorted(data),
        1 <= c.len() <= data.len(),
        sorted(c),
    ensures
        sorted(iterate(data, c, fuel)),
        iterate(data, c, fuel).len() == c.len(),
    decreases fuel,
{
    if fuel > 0 {
        let c2 = pass(data, c);
        if c2 != c {
            lemma_pass_sorted(data, c);
            lemma_iterate_sorted(data, c2, (fuel - 1) as nat);
        }
    }
}

} // verus!
