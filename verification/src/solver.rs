//! The executable bounded 1-D k-means solver.

use vstd::arithmetic::div_mod::{
    lemma_div_is_ordered, lemma_div_multiples_vanish, lemma_div_multiples_vanish_fancy,
    lemma_div_of0, lemma_div_pos_is_pos, lemma_fundamental_div_mod,
    lemma_fundamental_div_mod_converse,
};
use vstd::arithmetic::mul::{lemma_mul_inequality, lemma_mul_upper_bound};
use vstd::arithmetic::power2::{lemma2_to64, lemma_pow2_unfold, pow2};
use vstd::prelude::*;

use crate::model::{
    bit_length, cluster_high, cluster_low, count_le, count_lt, init_centroids, init_index,
    iterate, iteration_limit, kmeans_spec, lemma_count_le_unique, lemma_count_lt_unique,
    lemma_prefix_range_bound, lemma_round_mean_bounds, pass, pass_centroid, prefix_sum,
    round_mean, sorted, threshold, trunc_div, valid_args,
};

verus! {

/// Error returned when the arguments violate the solver's contract.
#[derive(Clone, Copy, Debug, PartialEq, Eq)]
pub enum KmeansError {
    /// The cluster count was zero, or exceeded the number of samples.
    InvalidInput,
}

/// Truncating division of `num` by `den`, the semantics of `/` on `i64`,
/// computed through unsigned division on the magnitude.
fn exec_trunc_div(num: i64, den: u64) -> (q: i64)
    requires
        1 <= den <= 0x8000_0000_0000_0000,
        -0x7fff_ffff_ffff_ffff <= num,
    ensures
        q as int == trunc_div(num as int, den as int),
{
    if num >= 0 {
        let m: u64 = num as u64;
        let qu: u64 = m / den;
        proof {
            lemma_div_is_ordered(0, num as int, den as int);
            lemma_div_is_ordered(m as int, m as int * 1, den as int);
            assert(qu as int == num as int / den as int);
            assert(qu <= m) by {
                lemma_div_nonincreasing_u64(m as int, den as int);
            }
        }
        qu as i64
    } else {
        let m: u64 = (-num) as u64;
        let qu: u64 = m / den;
        proof {
            assert(m as int == -(num as int));
            assert(qu <= m) by {
                lemma_div_nonincreasing_u64(m as int, den as int);
            }
        }
        -(qu as i64)
    }
}

/// For a non-negative numerator and positive denominator, the quotient is
/// at most the numerator.
proof fn lemma_div_nonincreasing_u64(x: int, d: int)
    requires
        0 <= x,
        1 <= d,
    ensures
        0 <= x / d <= x,
{
    lemma_div_is_ordered(0, x, d);
    assert(x / d <= x / 1) by {
        vstd::arithmetic::div_mod::lemma_div_is_ordered_by_denominator(x, 1, d);
    }
    lemma_div_multiples_vanish(x, 1);
}

/// Floor division of `v` by two (the arithmetic right shift by one),
/// computed through unsigned division on the magnitude.
fn exec_floor_half(v: i64) -> (h: i64)
    requires
        -0x1_0000_0000_0000 <= v <= 0x1_0000_0000_0000,
    ensures
        h as int == v as int / 2,
{
    if v >= 0 {
        let qu: u64 = (v as u64) / 2;
        proof {
            lemma_div_is_ordered(0, v as int, 2);
            lemma_div_nonincreasing_u64(v as int, 2);
        }
        qu as i64
    } else {
        let m: u64 = (-v) as u64;
        let qu: u64 = (m + 1) / 2;
        proof {
            let mi = m as int;
            let a = mi / 2;
            let b = mi % 2;
            lemma_fundamental_div_mod(mi, 2);
            if b == 0 {
                lemma_fundamental_div_mod_converse(mi + 1, 2, a, 1);
                assert(qu as int == a);
                lemma_fundamental_div_mod_converse(v as int, 2, -a, 0);
            } else {
                lemma_fundamental_div_mod_converse(mi + 1, 2, a + 1, 0);
                assert(qu as int == a + 1);
                lemma_fundamental_div_mod_converse(v as int, 2, -(a + 1), 1);
            }
        }
        -(qu as i64)
    }
}

/// The threshold between two adjacent centroids: the midpoint of their
/// values, rounding halves up.
fn exec_threshold(a: i32, b: i32) -> (t: i64)
    ensures
        t as int == threshold(a as int, b as int),
        -0x1_0000_0000 <= t <= 0x1_0000_0000,
{
    let v: i64 = a as i64 + b as i64 + 1;
    let h: i64 = exec_floor_half(v);
    proof {
        lemma_div_is_ordered(v as int, 0x2_0000_0000, 2);
        lemma_div_is_ordered(-0x2_0000_0000, v as int, 2);
        lemma_div_multiples_vanish(0x1_0000_0000, 2);
        lemma_div_multiples_vanish(-0x1_0000_0000, 2);
    }
    h
}

/// Any difference of two prefix sums of at most `2^31` samples fits well
/// within `i64`.
proof fn lemma_prefix_diff_fits(s: Seq<i32>, a: int, b: int)
    requires
        0 <= a <= s.len(),
        0 <= b <= s.len(),
        s.len() <= 0x8000_0000,
    ensures
        -0x4000_0000_0000_0000 <= prefix_sum(s, b) - prefix_sum(s, a) <= 0x4000_0000_0000_0000,
{
    if a <= b {
        lemma_prefix_range_bound(s, a, b);
        assert((b - a) * (-0x8000_0000) >= -0x4000_0000_0000_0000 && (b - a) * 0x7fff_ffff
            <= 0x4000_0000_0000_0000) by (nonlinear_arith)
            requires
                0 <= b - a <= 0x8000_0000,
        ;
    } else {
        lemma_prefix_range_bound(s, b, a);
        assert((a - b) * (-0x8000_0000) >= -0x4000_0000_0000_0000 && (a - b) * 0x7fff_ffff
            <= 0x4000_0000_0000_0000) by (nonlinear_arith)
            requires
                0 <= a - b <= 0x8000_0000,
        ;
    }
}

/// Move an upper cluster boundary to the split position of threshold `t`:
/// the returned position has exactly the samples `<= t` on its left, and
/// the returned accumulator holds the sum of the samples between `anchor`
/// and that position.
fn scan_le(data: &Vec<i32>, t: i64, start: usize, s0: i64, anchor: Ghost<int>) -> (r: (usize, i64))
    requires
        sorted(data@),
        data@.len() <= 0x8000_0000,
        start <= data@.len(),
        0 <= anchor@ <= data@.len(),
        s0 as int == prefix_sum(data@, start as int) - prefix_sum(data@, anchor@),
    ensures
        r.0 as int == count_le(data@, t as int),
        r.0 <= data@.len(),
        r.1 as int == prefix_sum(data@, r.0 as int) - prefix_sum(data@, anchor@),
{
    let n: usize = data.len();
    let mut m: usize = start;
    let mut s: i64 = s0;
    while m > 0 && data[m - 1] as i64 > t
        invariant
            sorted(data@),
            data@.len() <= 0x8000_0000,
            n == data@.len(),
            m <= n,
            0 <= anchor@ <= n,
            s as int == prefix_sum(data@, m as int) - prefix_sum(data@, anchor@),
        decreases m,
    {
        proof {
            lemma_prefix_diff_fits(data@, anchor@, m as int - 1);
            assert(prefix_sum(data@, m as int) == prefix_sum(data@, m as int - 1)
                + data@[m as int - 1]);
        }
        s = s - data[m - 1] as i64;
        m = m - 1;
    }
    while m < n && data[m] as i64 <= t
        invariant
            sorted(data@),
            data@.len() <= 0x8000_0000,
            n == data@.len(),
            m <= n,
            0 <= anchor@ <= n,
            s as int == prefix_sum(data@, m as int) - prefix_sum(data@, anchor@),
            m == 0 || data@[m as int - 1] as int <= t as int,
        decreases n - m,
    {
        proof {
            lemma_prefix_diff_fits(data@, anchor@, m as int + 1);
            assert(prefix_sum(data@, m as int + 1) == prefix_sum(data@, m as int)
                + data@[m as int]);
        }
        s = s + data[m] as i64;
        m = m + 1;
    }
    proof {
        lemma_count_le_unique(data@, t as int, m as int);
    }
    (m, s)
}

/// Move a lower cluster boundary to the split position of threshold `t`:
/// the returned position has exactly the samples `< t` on its left, and
/// the returned accumulator holds the sum of the samples between that
/// position and `anchor`.
fn scan_lt(data: &Vec<i32>, t: i64, start: usize, s0: i64, anchor: Ghost<int>) -> (r: (usize, i64))
    requires
        sorted(data@),
        data@.len() <= 0x8000_0000,
        start <= data@.len(),
        0 <= anchor@ <= data@.len(),
        s0 as int == prefix_sum(data@, anchor@) - prefix_sum(data@, start as int),
    ensures
        r.0 as int == count_lt(data@, t as int),
        r.0 <= data@.len(),
        r.1 as int == prefix_sum(data@, anchor@) - prefix_sum(data@, r.0 as int),
{
    let n: usize = data.len();
    let mut m: usize = start;
    let mut s: i64 = s0;
    while m < n && (data[m] as i64) < t
        invariant
            sorted(data@),
            data@.len() <= 0x8000_0000,
            n == data@.len(),
            m <= n,
            0 <= anchor@ <= n,
            s as int == prefix_sum(data@, anchor@) - prefix_sum(data@, m as int),
        decreases n - m,
    {
        proof {
            lemma_prefix_diff_fits(data@, anchor@, m as int + 1);
            assert(prefix_sum(data@, m as int + 1) == prefix_sum(data@, m as int)
                + data@[m as int]);
        }
        s = s - data[m] as i64;
        m = m + 1;
    }
    while m > 0 && data[m - 1] as i64 >= t
        invariant
            sorted(data@),
            data@.len() <= 0x8000_0000,
            n == data@.len(),
            m <= n,
            0 <= anchor@ <= n,
            s as int == prefix_sum(data@, anchor@) - prefix_sum(data@, m as int),
            m == n || data@[m as int] as int >= t as int,
        decreases m,
    {
        proof {
            lemma_prefix_diff_fits(data@, anchor@, m as int - 1);
            assert(prefix_sum(data@, m as int) == prefix_sum(data@, m as int - 1)
                + data@[m as int - 1]);
        }
        s = s + data[m - 1] as i64;
        m = m - 1;
    }
    proof {
        lemma_count_lt_unique(data@, t as int, m as int);
    }
    (m, s)
}

/// Everything below `2^k` has at most `k` binary digits.
proof fn lemma_bit_length_le(n: int, k: nat)
    requires
        0 <= n < pow2(k),
    ensures
        bit_length(n) <= k,
    decreases k,
{
    if n > 0 {
        if k == 0 {
            lemma2_to64();
            assert(false);
        } else {
            lemma_pow2_unfold(k);
            let p = pow2((k - 1) as nat) as int;
            lemma_div_is_ordered(n, 2 * (p - 1) + 1, 2);
            lemma_div_multiples_vanish_fancy(p - 1, 1, 2);
            lemma_div_pos_is_pos(n, 2);
            lemma_bit_length_le(n / 2, (k - 1) as nat);
        }
    }
}

/// The iteration budget: twice the number of binary digits of the sample
/// count.
fn exec_iteration_limit(n: usize) -> (limit: u64)
    requires
        n <= 0x8000_0000,
    ensures
        limit as nat == iteration_limit(n as int),
{
    proof {
        lemma2_to64();
        lemma_bit_length_le(n as int, 32);
    }
    let mut m: usize = n;
    let mut bits: u64 = 0;
    while m > 0
        invariant
            bits as nat + bit_length(m as int) == bit_length(n as int),
            bit_length(n as int) <= 32,
        decreases m,
    {
        m = m / 2;
        bits = bits + 1;
    }
    2 * bits
}

/// The sample index that seeds centroid `j`: the seeds are spread evenly
/// over the data.
fn exec_init_index(n: usize, k: usize, j: usize) -> (idx: usize)
    requires
        1 <= k <= n,
        n <= 0x8000_0000,
        j < k,
    ensures
        idx as int == init_index(n as int, k as int, j as int),
        idx < n,
{
    if k == 1 {
        0
    } else {
        proof {
            lemma_mul_upper_bound(j as int, 0x8000_0000, (n - 1) as int, 0x8000_0000);
        }
        let num: u64 = (j as u64) * ((n - 1) as u64);
        let q: u64 = num / ((k - 1) as u64);
        proof {
            lemma_mul_inequality(j as int, (k - 1) as int, (n - 1) as int);
            lemma_div_is_ordered(
                (j as int) * ((n - 1) as int),
                ((k - 1) as int) * ((n - 1) as int),
                (k - 1) as int,
            );
            lemma_div_multiples_vanish((n - 1) as int, (k - 1) as int);
            lemma_div_pos_is_pos((j as int) * ((n - 1) as int), (k - 1) as int);
            assert((j as int) * ((n - 1) as int) >= 0) by (nonlinear_arith)
                requires
                    j >= 0 && n >= 1,
            ;
        }
        q as usize
    }
}

/// One boundary sweep: each pair of adjacent centroids moves the upper
/// boundary of its left cluster and the lower boundary of its right
/// cluster to its threshold's split position, carrying the running sums
/// along.
fn update_boundaries(
    data: &Vec<i32>,
    centroids: &Vec<i32>,
    low: &mut Vec<usize>,
    high: &mut Vec<usize>,
    sum: &mut Vec<i64>,
)
    requires
        sorted(data@),
        data@.len() <= 0x8000_0000,
        1 <= centroids@.len() <= data@.len(),
        old(low)@.len() == centroids@.len(),
        old(high)@.len() == centroids@.len(),
        old(sum)@.len() == centroids@.len(),
        old(low)@[0] == 0,
        old(high)@[centroids@.len() - 1] as int == data@.len(),
        forall|j: int| 0 <= j < centroids@.len() ==> old(low)@[j] <= data@.len(),
        forall|j: int| 0 <= j < centroids@.len() ==> old(high)@[j] <= data@.len(),
        forall|j: int|
            0 <= j < centroids@.len() ==> old(sum)@[j] as int == prefix_sum(
                data@,
                old(high)@[j] as int,
            ) - prefix_sum(data@, old(low)@[j] as int),
    ensures
        final(low)@.len() == centroids@.len(),
        final(high)@.len() == centroids@.len(),
        final(sum)@.len() == centroids@.len(),
        forall|j: int|
            0 <= j < centroids@.len() ==> final(low)@[j] as int == cluster_low(
                data@,
                centroids@,
                j,
            ),
        forall|j: int|
            0 <= j < centroids@.len() ==> final(high)@[j] as int == cluster_high(
                data@,
                centroids@,
                j,
            ),
        forall|j: int| 0 <= j < centroids@.len() ==> final(low)@[j] <= data@.len(),
        forall|j: int| 0 <= j < centroids@.len() ==> final(high)@[j] <= data@.len(),
        forall|j: int|
            0 <= j < centroids@.len() ==> final(sum)@[j] as int == prefix_sum(
                data@,
                final(high)@[j] as int,
            ) - prefix_sum(data@, final(low)@[j] as int),
        final(low)@[0] == 0,
        final(high)@[centroids@.len() - 1] as int == data@.len(),
{
    let k: usize = centroids.len();
    let n: usize = data.len();
    let mut i: usize = 0;
    while i < k - 1
        invariant
            sorted(data@),
            data@.len() <= 0x8000_0000,
            1 <= k <= data@.len(),
            k == centroids@.len(),
            n == data@.len(),
            i <= k - 1,
            low@.len() == k,
            high@.len() == k,
            sum@.len() == k,
            low@[0] == 0,
            high@[k - 1] as int == n,
            forall|j: int| 0 <= j < k ==> low@[j] <= n,
            forall|j: int| 0 <= j < k ==> high@[j] <= n,
            forall|j: int|
                0 <= j < k ==> sum@[j] as int == prefix_sum(data@, high@[j] as int) - prefix_sum(
                    data@,
                    low@[j] as int,
                ),
            forall|j: int| 0 <= j < i ==> high@[j] as int == cluster_high(data@, centroids@, j),
            forall|j: int| 1 <= j <= i ==> low@[j] as int == cluster_low(data@, centroids@, j),
        decreases k - 1 - i,
    {
        let t: i64 = exec_threshold(centroids[i], centroids[i + 1]);
        let (mh, sh): (usize, i64) = scan_le(
            data,
            t,
            high[i],
            sum[i],
            Ghost(low@[i as int] as int),
        );
        high.set(i, mh);
        sum.set(i, sh);
        let (ml, sl): (usize, i64) = scan_lt(
            data,
            t,
            low[i + 1],
            sum[i + 1],
            Ghost(high@[i as int + 1] as int),
        );
        low.set(i + 1, ml);
        sum.set(i + 1, sl);
        proof {
            assert(high@[i as int] as int == cluster_high(data@, centroids@, i as int));
            assert(low@[i as int + 1] as int == cluster_low(data@, centroids@, i as int + 1));
        }
        i = i + 1;
    }
}

/// Recompute every centroid as the rounded mean of its cluster, keeping
/// the previous centroid where the cluster is empty; report whether any
/// centroid changed.
#[verifier::rlimit(60)]
fn update_centroids(
    data: &Vec<i32>,
    centroids: &mut Vec<i32>,
    low: &Vec<usize>,
    high: &Vec<usize>,
    sum: &Vec<i64>,
) -> (changed: bool)
    requires
        sorted(data@),
        data@.len() <= 0x8000_0000,
        1 <= old(centroids)@.len() <= data@.len(),
        low@.len() == old(centroids)@.len(),
        high@.len() == old(centroids)@.len(),
        sum@.len() == old(centroids)@.len(),
        forall|j: int|
            0 <= j < old(centroids)@.len() ==> low@[j] as int == cluster_low(
                data@,
                old(centroids)@,
                j,
            ),
        forall|j: int|
            0 <= j < old(centroids)@.len() ==> high@[j] as int == cluster_high(
                data@,
                old(centroids)@,
                j,
            ),
        forall|j: int| 0 <= j < old(centroids)@.len() ==> low@[j] <= data@.len(),
        forall|j: int| 0 <= j < old(centroids)@.len() ==> high@[j] <= data@.len(),
        forall|j: int|
            0 <= j < old(centroids)@.len() ==> sum@[j] as int == prefix_sum(
                data@,
                high@[j] as int,
            ) - prefix_sum(data@, low@[j] as int),
    ensures
        final(centroids)@ == pass(data@, old(centroids)@),
        final(centroids)@.len() == old(centroids)@.len(),
        changed <==> final(centroids)@ != old(centroids)@,
{
    let ghost c0 = centroids@;
    let k: usize = centroids.len();
    let mut changed: bool = false;
    let mut j: usize = 0;
    while j < k
        invariant
            sorted(data@),
            data@.len() <= 0x8000_0000,
            1 <= k <= data@.len(),
            c0.len() == k,
            centroids@.len() == k,
            low@.len() == k,
            high@.len() == k,
            sum@.len() == k,
            j <= k,
            forall|m: int| 0 <= m < k ==> low@[m] as int == cluster_low(data@, c0, m),
            forall|m: int| 0 <= m < k ==> high@[m] as int == cluster_high(data@, c0, m),
            forall|m: int| 0 <= m < k ==> low@[m] <= data@.len(),
            forall|m: int| 0 <= m < k ==> high@[m] <= data@.len(),
            forall|m: int|
                0 <= m < k ==> sum@[m] as int == prefix_sum(data@, high@[m] as int) - prefix_sum(
                    data@,
                    low@[m] as int,
                ),
            forall|m: int| 0 <= m < j ==> centroids@[m] == pass_centroid(data@, c0, m),
            forall|m: int| j <= m < k ==> centroids@[m] == c0[m],
            changed <==> exists|m: int| 0 <= m < j && centroids@[m] != c0[m],
        decreases k - j,
    {
        let lo: usize = low[j];
        let hi: usize = high[j];
        if hi > lo {
            let cnt: u64 = (hi - lo) as u64;
            let half: u64 = cnt / 2;
            proof {
                lemma_prefix_diff_fits(data@, lo as int, hi as int);
                lemma_div_nonincreasing_u64(cnt as int, 2);
            }
            let num: i64 = sum[j] + half as i64;
            let q: i64 = exec_trunc_div(num, cnt);
            proof {
                lemma_round_mean_bounds(data@, lo as int, hi as int);
                assert(q as int == round_mean(
                    prefix_sum(data@, hi as int) - prefix_sum(data@, lo as int),
                    hi as int - lo as int,
                ));
            }
            let nc: i32 = q as i32;
            proof {
                assert(nc == pass_centroid(data@, c0, j as int));
            }
            if nc != centroids[j] {
                changed = true;
            }
            centroids.set(j, nc);
        } else {
            proof {
                assert(centroids@[j as int] == pass_centroid(data@, c0, j as int));
            }
        }
        j = j + 1;
    }
    proof {
        assert(centroids@ =~= pass(data@, c0));
        if changed {
            let m = choose|m: int| 0 <= m < k && centroids@[m] != c0[m];
            assert(centroids@[m] != c0[m]);
        } else {
            assert(centroids@ =~= c0);
        }
    }
    changed
}

/// Bounded one-dimensional k-means: find `k` centroids for the sorted
/// samples in `data`.
///
/// The returned centroids are exactly the fixed point (or budget-limited
/// iterate) of the boundary-scan pass described by
/// [`kmeans_spec`](crate::model::kmeans_spec); a cluster count of zero, or
/// one larger than the number of samples, is rejected.  The cap on the
/// sample count keeps every running sum of the clusters within the 64-bit
/// accumulator.
pub fn kmeans(data: &Vec<i32>, k: usize) -> (result: Result<Vec<i32>, KmeansError>)
    requires
        sorted(data@),
        data@.len() <= 0x8000_0000,
    ensures
        match result {
            Ok(centroids) => valid_args(data@, k as int) && centroids@ == kmeans_spec(
                data@,
                k as int,
            ),
            Err(e) => !valid_args(data@, k as int) && e == KmeansError::InvalidInput,
        },
{
    let n: usize = data.len();
    if k == 0 || k > n {
        return Err(KmeansError::InvalidInput);
    }
    let mut centroids: Vec<i32> = Vec::new();
    let mut low: Vec<usize> = Vec::new();
    let mut high: Vec<usize> = Vec::new();
    let mut sum: Vec<i64> = Vec::new();
    let mut j: usize = 0;
    while j < k
        invariant
            sorted(data@),
            data@.len() <= 0x8000_0000,
            1 <= k <= n,
            n == data@.len(),
            j <= k,
            centroids@.len() == j,
            low@.len() == j,
            high@.len() == j,
            sum@.len() == j,
            forall|m: int| 0 <= m < j ==> low@[m] as int == init_index(n as int, k as int, m),
            forall|m: int| 0 <= m < j ==> high@[m] == low@[m],
            forall|m: int| 0 <= m < j ==> low@[m] < n,
            forall|m: int|
                0 <= m < j ==> centroids@[m] == data@[init_index(n as int, k as int, m)],
            forall|m: int| 0 <= m < j ==> sum@[m] == 0,
        decreases k - j,
    {
        let idx: usize = exec_init_index(n, k, j);
        centroids.push(data[idx]);
        low.push(idx);
        high.push(idx);
        sum.push(0);
        j = j + 1;
    }
    high.set(k - 1, n);
    let mut mi: usize = low[k - 1];
    let mut s: i64 = 0;
    let ghost lo_last = low@[k - 1] as int;
    while mi < n
        invariant
            sorted(data@),
            data@.len() <= 0x8000_0000,
            n == data@.len(),
            0 <= lo_last <= mi,
            mi <= n,
            s as int == prefix_sum(data@, mi as int) - prefix_sum(data@, lo_last),
        decreases n - mi,
    {
        proof {
            lemma_prefix_diff_fits(data@, lo_last, mi as int + 1);
            assert(prefix_sum(data@, mi as int + 1) == prefix_sum(data@, mi as int)
                + data@[mi as int]);
        }
        s = s + data[mi] as i64;
        mi = mi + 1;
    }
    sum.set(k - 1, s);
    let limit: u64 = exec_iteration_limit(n);
    let ghost target = kmeans_spec(data@, k as int);
    proof {
        if k > 1 {
            lemma_div_of0((k - 1) as int);
        }
        assert(low@[0] == 0);
        assert(centroids@ =~= init_centroids(data@, k as int));
        assert(iterate(data@, centroids@, limit as nat) == target);
    }
    let mut it: u64 = 0;
    let mut done: bool = false;
    while it < limit && !done
        invariant
            sorted(data@),
            data@.len() <= 0x8000_0000,
            1 <= k <= n,
            n == data@.len(),
            centroids@.len() == k,
            low@.len() == k,
            high@.len() == k,
            sum@.len() == k,
            low@[0] == 0,
            high@[k - 1] as int == n,
            forall|m: int| 0 <= m < k ==> low@[m] <= n,
            forall|m: int| 0 <= m < k ==> high@[m] <= n,
            forall|m: int|
                0 <= m < k ==> sum@[m] as int == prefix_sum(data@, high@[m] as int) - prefix_sum(
                    data@,
                    low@[m] as int,
                ),
            it <= limit,
            !done ==> iterate(data@, centroids@, (limit - it) as nat) == target,
            done ==> centroids@ == target,
        decreases (limit - it) as int + (if done {
            0int
        } else {
            1int
        }),
    {
        let ghost c0 = centroids@;
        update_boundaries(data, &centroids, &mut low, &mut high, &mut sum);
        let changed: bool = update_centroids(data, &mut centroids, &low, &high, &sum);
        proof {
            let fuel = (limit - it) as nat;
            assert(fuel > 0);
            if centroids@ == c0 {
                assert(iterate(data@, c0, fuel) == c0);
            } else {
                assert(iterate(data@, c0, fuel) == iterate(data@, centroids@, (fuel - 1) as nat));
            }
        }
        if !changed {
            done = true;
        } else {
            it = it + 1;
        }
    }
    proof {
        if !done {
            assert(iterate(data@, centroids@, (limit - it) as nat) == centroids@);
        }
    }
    Ok(centroids)
}

} // verus!
