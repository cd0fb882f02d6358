//! Estimators over a window of samples: mean, population standard deviation
//! and the margin of error of the mean at 95% confidence.
//!
//! Samples and results are whole nanoseconds. The mean and the standard
//! deviation are the floors of their exact values. The margin of error is
//! taken from the standard deviation as it is returned, and rounded down
//! once more.

use vstd::prelude::*;
use vstd::arithmetic::div_mod::{
    lemma_div_denominator,
    lemma_div_is_ordered_by_denominator,
    lemma_div_is_ordered,
    lemma_fundamental_div_mod,
    lemma_fundamental_div_mod_converse,
    lemma_mod_bound,
};

verus! {

/// The largest sample, as a mathematical integer.
pub open spec fn sample_max() -> nat {
    0xFFFF_FFFF_FFFF_FFFF
}

/// The sum of the samples.
pub open spec fn total(samples: Seq<u64>) -> nat
    decreases samples.len(),
{
    if samples.len() == 0 {
        0
    } else {
        total(samples.drop_last()) + samples.last() as nat
    }
}

/// The sum of the squares of the samples.
pub open spec fn square_total(samples: Seq<u64>) -> nat
    decreases samples.len(),
{
    if samples.len() == 0 {
        0
    } else {
        square_total(samples.drop_last()) + (samples.last() as nat) * (samples.last() as nat)
    }
}

/// The arithmetic mean, rounded down to a whole nanosecond.
pub open spec fn mean_of(samples: Seq<u64>) -> nat
    recommends
        samples.len() > 0,
{
    total(samples) / samples.len()
}

/// `n` times the sum of squares minus the square of the sum: the population
/// variance multiplied by the square of the sample count.
pub open spec fn spread(samples: Seq<u64>) -> int {
    samples.len() * square_total(samples) - total(samples) * total(samples)
}

/// The population variance (squared deviations divided by the sample count,
/// not by one less), rounded down to a whole square nanosecond.
pub open spec fn variance_of(samples: Seq<u64>) -> int
    recommends
        samples.len() > 0,
{
    spread(samples) / ((samples.len() * samples.len()) as int)
}

/// The integer square root: the largest `r` whose square does not exceed `v`.
pub open spec fn floor_sqrt(v: nat) -> nat
    decreases v,
{
    if v == 0 {
        0
    } else {
        let below = floor_sqrt((v - 1) as nat);
        if (below + 1) * (below + 1) <= v {
            below + 1
        } else {
            below
        }
    }
}

/// The population standard deviation, rounded down to a whole nanosecond.
pub open spec fn std_dev_of(samples: Seq<u64>) -> nat
    recommends
        samples.len() > 0,
{
    floor_sqrt(variance_of(samples) as nat)
}

/// The margin of error at 95% confidence for a standard deviation of
/// `deviation` over `count` samples: 1.96 (that is, 49/25) times the
/// deviation, divided by the square root of the count, rounded down.
pub open spec fn margin(deviation: nat, count: nat) -> nat
    recommends
        count > 0,
{
    floor_sqrt(2401 * deviation * deviation / (625 * count))
}

/// The margin of error of the mean of the samples, taken from their
/// standard deviation in whole nanoseconds.
pub open spec fn error_of(samples: Seq<u64>) -> nat
    recommends
        samples.len() > 0,
{
    margin(std_dev_of(samples), samples.len())
}

/// Half the range of samples, rounded up: no standard deviation exceeds it.
pub open spec fn deviation_max() -> nat {
    0x8000_0000_0000_0000
}

/// The sample in the middle of the range of samples.
pub open spec fn sample_middle() -> int {
    0x7FFF_FFFF_FFFF_FFFF
}

/// The square of the largest distance between a sample and the middle of the
/// range: no variance exceeds it.
pub open spec fn variance_max() -> int {
    0x4000_0000_0000_0000_0000_0000_0000_0000
}

/// The sum of the signed distances of the samples from `center`.
pub open spec fn offset_total(samples: Seq<u64>, center: int) -> int
    decreases samples.len(),
{
    if samples.len() == 0 {
        0
    } else {
        offset_total(samples.drop_last(), center) + (samples.last() - center)
    }
}

/// The sum of the squared distances of the samples from `center`.
pub open spec fn offset_square_total(samples: Seq<u64>, center: int) -> int
    decreases samples.len(),
{
    if samples.len() == 0 {
        0
    } else {
        offset_square_total(samples.drop_last(), center) + (samples.last() - center) * (
        samples.last() - center)
    }
}

/// `floor_sqrt(v)` squared does not exceed `v`, and the next square does.
pub proof fn lemma_floor_sqrt_bounds(v: nat)
    ensures
        floor_sqrt(v) * floor_sqrt(v) <= v < (floor_sqrt(v) + 1) * (floor_sqrt(v) + 1),
    decreases v,
{
    if v > 0 {
        lemma_floor_sqrt_bounds((v - 1) as nat);
        let below = floor_sqrt((v - 1) as nat);
        let r = floor_sqrt(v);
        assert(r * r <= v < (r + 1) * (r + 1)) by (nonlinear_arith)
            requires
                below * below <= v - 1 < (below + 1) * (below + 1),
                ((below + 1) * (below + 1) <= v && r == below + 1) || ((below + 1) * (below + 1) > v
                    && r == below),
        ;
    } else {
        assert(0 * 0 <= 0 < (0 + 1) * (0 + 1)) by (nonlinear_arith);
    }
}

/// Only one number lies between the square bounds of `v`.
pub proof fn lemma_floor_sqrt_unique(v: nat, r: nat)
    requires
        r * r <= v < (r + 1) * (r + 1),
    ensures
        r == floor_sqrt(v),
{
    lemma_floor_sqrt_bounds(v);
    let s = floor_sqrt(v);
    assert(r == s) by (nonlinear_arith)
        requires
            r * r <= v < (r + 1) * (r + 1),
            s * s <= v < (s + 1) * (s + 1),
    {
        if r < s {
            assert((r + 1) * (r + 1) <= s * s);
        } else if s < r {
            assert((s + 1) * (s + 1) <= r * r);
        }
    }
}

/// The integer square root never decreases as its argument grows.
pub proof fn lemma_floor_sqrt_monotone(a: nat, b: nat)
    requires
        a <= b,
    ensures
        floor_sqrt(a) <= floor_sqrt(b),
{
    lemma_floor_sqrt_bounds(a);
    lemma_floor_sqrt_bounds(b);
    let r = floor_sqrt(a);
    let s = floor_sqrt(b);
    assert(r <= s) by (nonlinear_arith)
        requires
            r * r <= a,
            a <= b,
            b < (s + 1) * (s + 1),
    {
        if s < r {
            assert((s + 1) * (s + 1) <= r * r);
        }
    }
}

/// For a fixed standard deviation, more samples never widen the margin of
/// error.
pub proof fn lemma_margin_shrinks_with_count(deviation: nat, fewer: nat, more: nat)
    requires
        0 < fewer <= more,
    ensures
        margin(deviation, more) <= margin(deviation, fewer),
{
    let scaled = 2401 * deviation * deviation;
    lemma_div_is_ordered_by_denominator(scaled as int, (625 * fewer) as int, (625 * more) as int);
    lemma_floor_sqrt_monotone(scaled / (625 * more), scaled / (625 * fewer));
}

/// Of two windows with the same standard deviation, the one with more
/// samples has the smaller or equal margin of error.
pub proof fn lemma_error_shrinks_with_samples(fewer: Seq<u64>, more: Seq<u64>)
    requires
        0 < fewer.len() <= more.len(),
        std_dev_of(fewer) == std_dev_of(more),
    ensures
        error_of(more) <= error_of(fewer),
{
    lemma_margin_shrinks_with_count(std_dev_of(fewer), fewer.len(), more.len());
}

/// For a fixed number of samples, a smaller standard deviation never widens
/// the margin of error.
pub proof fn lemma_margin_grows_with_deviation(smaller: nat, larger: nat, count: nat)
    requires
        smaller <= larger,
        count > 0,
    ensures
        margin(smaller, count) <= margin(larger, count),
{
    let low = 2401 * smaller * smaller;
    let high = 2401 * larger * larger;
    let d = (625 * count) as int;
    assert(low <= high) by (nonlinear_arith)
        requires
            smaller <= larger,
            low == 2401 * smaller * smaller,
            high == 2401 * larger * larger,
    ;
    lemma_div_is_ordered(low as int, high as int, d);
    lemma_floor_sqrt_monotone(low / (625 * count), high / (625 * count));
}

/// The margin of error is the largest `e` with `25 * e * sqrt(count)` at most
/// `49 * deviation`, stated over the squares.
pub proof fn lemma_margin_is_scaled_deviation(deviation: nat, count: nat)
    requires
        count > 0,
    ensures
        625 * count * (margin(deviation, count) * margin(deviation, count)) <= 2401 * (deviation
            * deviation),
        2401 * (deviation * deviation) < 625 * count * ((margin(deviation, count) + 1) * (margin(
            deviation,
            count,
        ) + 1)),
{
    let scaled = (2401 * deviation * deviation) as int;
    let d = (625 * count) as int;
    let e = margin(deviation, count) as int;
    lemma_floor_sqrt_bounds((scaled / d) as nat);
    lemma_fundamental_div_mod(scaled, d);
    lemma_mod_bound(scaled, d);
    assert(scaled == 2401 * (deviation * deviation)) by (nonlinear_arith)
        requires
            scaled == 2401 * deviation * deviation,
    ;
    assert(d * (e * e) <= scaled && scaled < d * ((e + 1) * (e + 1))) by (nonlinear_arith)
        requires
            e * e <= scaled / d,
            scaled / d < (e + 1) * (e + 1),
            scaled == d * (scaled / d) + scaled % d,
            0 <= scaled % d < d,
    ;
}

/// How sums taken around a center relate to the plain sums.
proof fn lemma_offsets(samples: Seq<u64>, center: int)
    requires
        0 <= center <= sample_max(),
    ensures
        offset_total(samples, center) == total(samples) - samples.len() * center,
        offset_square_total(samples, center) == square_total(samples) - 2 * center * total(samples)
            + samples.len() * center * center,
        offset_square_total(samples, center) >= offset_total(samples, center),
        0 <= offset_square_total(samples, center) <= samples.len() * (sample_max() * sample_max()),
        total(samples) <= samples.len() * sample_max(),
    decreases samples.len(),
{
    if samples.len() > 0 {
        let front = samples.drop_last();
        lemma_offsets(front, center);
        let x = samples.last() as int;
        let n = front.len() as int;
        let t = total(front) as int;
        let q = square_total(front) as int;
        let d = x - center;
        let m = sample_max() as int;
        assert(d * d >= d && d * d >= 0) by (nonlinear_arith);
        assert(d * d <= m * m) by (nonlinear_arith)
            requires
                -m <= d <= m,
        ;
        let k = m * m;
        assert((n + 1) * k == n * k + k) by (nonlinear_arith);
        assert(samples.len() * (sample_max() * sample_max()) == (n + 1) * k);
        assert(front.len() * (sample_max() * sample_max()) == n * k);
        assert((n + 1) * m == n * m + m) by (nonlinear_arith);
        assert((n + 1) * center == n * center + center) by (nonlinear_arith);
        assert(q - 2 * center * t + n * center * center + d * d == (q + x * x) - 2 * center * (t
            + x) + (n + 1) * center * center) by (nonlinear_arith)
            requires
                d == x - center,
        ;
    } else {
        assert(samples.len() * (sample_max() * sample_max()) == 0) by (nonlinear_arith)
            requires
                samples.len() == 0,
        ;
    }
}

/// The spread is never negative, so the variance is a natural number.
pub proof fn lemma_spread_nonnegative(samples: Seq<u64>)
    ensures
        spread(samples) >= 0,
        samples.len() > 0 ==> variance_of(samples) >= 0,
{
    let n = samples.len() as int;
    if n > 0 {
        let s = total(samples) as int;
        let center = s / n;
        let rest = s % n;
        lemma_fundamental_div_mod(s, n);
        lemma_mod_bound(s, n);
        lemma_offsets(samples, 0);
        assert(0 <= center <= sample_max()) by (nonlinear_arith)
            requires
                s == n * center + rest,
                0 <= rest < n,
                0 <= s <= n * sample_max(),
        ;
        lemma_offsets(samples, center);
        lemma_spread_around(samples, center, rest);
        let d = offset_square_total(samples, center);
        assert(n * d - rest * rest >= 0) by (nonlinear_arith)
            requires
                d >= rest,
                0 <= rest < n,
        ;
        assert(spread(samples) / (n * n) >= 0) by (nonlinear_arith)
            requires
                spread(samples) >= 0,
                n > 0,
        ;
    }
}

/// The spread, written over distances from a center that leaves `rest` as
/// the sum of the distances.
proof fn lemma_spread_around(samples: Seq<u64>, center: int, rest: int)
    requires
        offset_total(samples, center) == total(samples) - samples.len() * center,
        offset_square_total(samples, center) == square_total(samples) - 2 * center * total(samples)
            + samples.len() * center * center,
        total(samples) == samples.len() * center + rest,
    ensures
        spread(samples) == samples.len() * offset_square_total(samples, center) - rest * rest,
        offset_total(samples, center) == rest,
{
    let n = samples.len() as int;
    let s = total(samples) as int;
    let q = square_total(samples) as int;
    let d = offset_square_total(samples, center);
    assert(n * q - s * s == n * d - rest * rest) by (nonlinear_arith)
        requires
            d == q - 2 * center * s + n * center * center,
            s == n * center + rest,
    ;
}

/// The squared distances from the middle of the range sum to at most the
/// largest variance for each sample.
proof fn lemma_offsets_from_middle(samples: Seq<u64>)
    ensures
        0 <= offset_square_total(samples, sample_middle()) <= samples.len() * variance_max(),
    decreases samples.len(),
{
    if samples.len() > 0 {
        let front = samples.drop_last();
        lemma_offsets_from_middle(front);
        let d = samples.last() - sample_middle();
        let n = front.len() as int;
        assert(0 <= d * d <= variance_max()) by (nonlinear_arith)
            requires
                -0x8000_0000_0000_0000 <= d <= 0x8000_0000_0000_0000,
                variance_max() == 0x8000_0000_0000_0000 * 0x8000_0000_0000_0000,
        ;
        assert((n + 1) * variance_max() == n * variance_max() + variance_max())
            by (nonlinear_arith);
    } else {
        assert(samples.len() * variance_max() == 0) by (nonlinear_arith)
            requires
                samples.len() == 0,
        ;
    }
}

/// The variance of a window is at least zero and at most the square of half
/// the range of samples; that of a single sample is zero.
pub proof fn lemma_variance_range(samples: Seq<u64>)
    requires
        samples.len() > 0,
    ensures
        0 <= variance_of(samples) <= variance_max(),
        samples.len() == 1 ==> variance_of(samples) == 0,
{
    let n = samples.len() as int;
    let s = spread(samples);
    let c = sample_middle();
    let rest = total(samples) - n * c;
    let d = offset_square_total(samples, c);
    lemma_spread_nonnegative(samples);
    lemma_offsets(samples, c);
    lemma_offsets_from_middle(samples);
    lemma_spread_around(samples, c, rest);
    let nn = (samples.len() * samples.len()) as int;
    assert(s / nn <= variance_max()) by (nonlinear_arith)
        requires
            s == n * d - rest * rest,
            d <= n * variance_max(),
            nn == n * n,
            n > 0,
            variance_max() >= 0,
    ;
    if n == 1 {
        assert(total(samples.drop_last()) == 0);
        assert(square_total(samples.drop_last()) == 0);
        let x = samples.last() as int;
        assert(s == 1 * (x * x) - x * x);
        assert(s == 0) by (nonlinear_arith)
            requires
                s == 1 * (x * x) - x * x,
        ;
        assert(nn == 1) by (nonlinear_arith)
            requires
                nn == n * n,
                n == 1,
        ;
    }
}

/// The standard deviation of a window is at most half the range of
/// samples.
pub proof fn lemma_deviation_range(samples: Seq<u64>)
    requires
        samples.len() > 0,
    ensures
        std_dev_of(samples) <= deviation_max(),
{
    lemma_variance_range(samples);
    let v = variance_of(samples) as nat;
    let deviation = floor_sqrt(v);
    lemma_floor_sqrt_bounds(v);
    assert(deviation <= 0x8000_0000_0000_0000) by (nonlinear_arith)
        requires
            deviation * deviation <= v,
            v <= 0x8000_0000_0000_0000 * 0x8000_0000_0000_0000,
    {
        if deviation > 0x8000_0000_0000_0000 {
            assert(deviation * deviation > 0x8000_0000_0000_0000 * 0x8000_0000_0000_0000);
        }
    }
}

/// Every sample lies between `low` and `high`.
pub open spec fn within(samples: Seq<u64>, low: u64, high: u64) -> bool {
    forall|i: int| 0 <= i < samples.len() ==> low <= #[trigger] samples[i] <= high
}

/// Sums of samples that lie between two bounds lie between the sums of the
/// bounds.
proof fn lemma_totals_within(samples: Seq<u64>, low: u64, high: u64)
    requires
        within(samples, low, high),
    ensures
        samples.len() * low <= total(samples) <= samples.len() * high,
        offset_square_total(samples, low as int) <= samples.len() * ((high - low) * (high - low)),
    decreases samples.len(),
{
    let reach = (high - low) * (high - low);
    if samples.len() > 0 {
        let front = samples.drop_last();
        assert(within(front, low, high)) by {
            assert forall|i: int| 0 <= i < front.len() implies low <= #[trigger] front[i]
                <= high by {
                assert(front[i] == samples[i]);
            }
        }
        lemma_totals_within(front, low, high);
        let n = front.len() as int;
        let d = samples.last() - low;
        assert(low <= samples[samples.len() - 1] <= high);
        assert(d * d <= reach) by (nonlinear_arith)
            requires
                0 <= d <= high - low,
                reach == (high - low) * (high - low),
        ;
        assert((n + 1) * reach == n * reach + reach) by (nonlinear_arith);
        assert((n + 1) * low == n * low + low) by (nonlinear_arith);
        assert((n + 1) * high == n * high + high) by (nonlinear_arith);
    } else {
        assert(samples.len() * low == 0 && samples.len() * high == 0 && samples.len() * reach
            == 0) by (nonlinear_arith)
            requires
                samples.len() == 0,
        ;
    }
}

/// The mean of a window lies between its smallest and its largest sample,
/// and its standard deviation is at most the distance between the two.
pub proof fn lemma_estimates_within_range(samples: Seq<u64>, low: u64, high: u64)
    requires
        samples.len() > 0,
        within(samples, low, high),
    ensures
        low <= mean_of(samples) <= high,
        std_dev_of(samples) <= high - low,
{
    let n = samples.len() as int;
    let t = total(samples) as int;
    lemma_totals_within(samples, low, high);
    assert(low <= t / n <= high) by (nonlinear_arith)
        requires
            n * low <= t <= n * high,
            n > 0,
    ;
    let rest = t - n * low;
    let d = offset_square_total(samples, low as int);
    let s = spread(samples);
    let reach = (high - low) * (high - low);
    let nn = (samples.len() * samples.len()) as int;
    lemma_offsets(samples, low as int);
    lemma_spread_around(samples, low as int, rest);
    lemma_spread_nonnegative(samples);
    assert(s / nn <= reach) by (nonlinear_arith)
        requires
            s == n * d - rest * rest,
            d <= n * reach,
            nn == n * n,
            n > 0,
            reach >= 0,
    ;
    let v = variance_of(samples) as nat;
    let deviation = floor_sqrt(v);
    lemma_floor_sqrt_bounds(v);
    assert(deviation <= high - low) by (nonlinear_arith)
        requires
            deviation * deviation <= v,
            v <= (high - low) * (high - low),
            high - low >= 0,
    {
        if deviation > high - low {
            assert(deviation * deviation > (high - low) * (high - low));
        }
    }
}

fn sum_nanos(durations: &Vec<u64>) -> (sum: u128)
    ensures
        sum == total(durations@),
        sum <= durations@.len() * sample_max(),
{
    let mut sum: u128 = 0;
    let mut i: usize = 0;
    while i < durations.len()
        invariant
            i <= durations@.len(),
            sum == total(durations@.take(i as int)),
            sum <= i * sample_max(),
        decreases durations@.len() - i,
    {
        proof {
            assert(durations@.take(i + 1).drop_last() =~= durations@.take(i as int));
            assert((i + 1) * sample_max() == i * sample_max() + sample_max()) by (nonlinear_arith);
            assert((i + 1) * sample_max() <= sample_max() * sample_max()) by (nonlinear_arith)
                requires
                    i + 1 <= sample_max(),
            ;
        }
        sum = sum + durations[i] as u128;
        i = i + 1;
    }
    proof {
        assert(durations@.take(i as int) =~= durations@);
    }
    sum
}

/// The mean of the samples, or nothing for an empty window.
pub fn durations_mean(durations: &Vec<u64>) -> (r: Option<u64>)
    ensures
        durations@.len() == 0 <==> r is None,
        r matches Some(mean) ==> mean == mean_of(durations@),
{
    if durations.len() == 0 {
        None
    } else {
        let sum = sum_nanos(durations);
        let n = durations.len() as u128;
        proof {
            assert(sum / n <= sample_max()) by (nonlinear_arith)
                requires
                    sum <= n * sample_max(),
                    n > 0,
            ;
        }
        Some((sum / n) as u64)
    }
}

/// The integer square root of `v`.
pub fn isqrt(v: u128) -> (r: u64)
    ensures
        r == floor_sqrt(v as nat),
{
    let mut lo: u128 = 0;
    let mut hi: u128 = 0x1_0000_0000_0000_0000;
    proof {
        assert(0x1_0000_0000_0000_0000 * 0x1_0000_0000_0000_0000 > v) by (nonlinear_arith)
            requires
                v <= 0xFFFF_FFFF_FFFF_FFFF_FFFF_FFFF_FFFF_FFFF,
        ;
    }
    while hi - lo > 1
        invariant
            lo < hi <= 0x1_0000_0000_0000_0000,
            lo * lo <= v < hi * hi,
        decreases hi - lo,
    {
        let mid: u128 = lo + (hi - lo) / 2;
        proof {
            assert(mid * mid <= 0xFFFF_FFFF_FFFF_FFFF * 0xFFFF_FFFF_FFFF_FFFF) by (nonlinear_arith)
                requires
                    mid <= 0xFFFF_FFFF_FFFF_FFFF,
            ;
        }
        if mid * mid <= v {
            lo = mid;
        } else {
            hi = mid;
        }
    }
    proof {
        lemma_floor_sqrt_unique(v as nat, lo as nat);
    }
    lo as u64
}

/// The population variance of a non-empty window, rounded down.
///
/// The squared distances from the rounded-down mean are summed as a quotient
/// and a remainder by the sample count, so that no intermediate value leaves
/// 128 bits.
fn variance_nanos(durations: &Vec<u64>) -> (variance: u128)
    requires
        durations@.len() > 0,
    ensures
        variance == variance_of(durations@),
{
    let n: u128 = durations.len() as u128;
    let sum: u128 = sum_nanos(durations);
    let center_wide: u128 = sum / n;
    let rest: u128 = sum % n;
    proof {
        lemma_fundamental_div_mod(sum as int, n as int);
        lemma_mod_bound(sum as int, n as int);
        assert(center_wide <= sample_max()) by (nonlinear_arith)
            requires
                sum <= n * sample_max(),
                n > 0,
                center_wide == sum / n,
        ;
    }
    let center: u64 = center_wide as u64;
    let ghost bound: int = (sample_max() * sample_max()) as int;
    let mut whole: u128 = 0;
    let mut part: u128 = 0;
    let mut i: usize = 0;
    while i < durations.len()
        invariant
            i <= durations@.len(),
            n == durations@.len(),
            n > 0,
            bound == sample_max() * sample_max(),
            whole * n + part == offset_square_total(durations@.take(i as int), center as int),
            part < n,
        decreases durations@.len() - i,
    {
        let x: u64 = durations[i];
        let d: u64 = if x >= center {
            x - center
        } else {
            center - x
        };
        let ghost after: int = offset_square_total(durations@.take(i + 1), center as int);
        proof {
            assert(durations@.take(i + 1).drop_last() =~= durations@.take(i as int));
            lemma_offsets(durations@.take(i + 1), center as int);
            assert(d * d == (x - center) * (x - center)) by (nonlinear_arith)
                requires
                    d == x - center || d == center - x,
            ;
            assert(d * d <= bound) by (nonlinear_arith)
                requires
                    0 <= d <= sample_max(),
                    bound == sample_max() * sample_max(),
            ;
            assert(after <= n * bound) by (nonlinear_arith)
                requires
                    after <= (i + 1) * bound,
                    i + 1 <= n,
                    bound >= 0,
            ;
        }
        let square: u128 = (d as u128) * (d as u128);
        let a: u128 = square / n;
        let b: u128 = square % n;
        proof {
            lemma_fundamental_div_mod(square as int, n as int);
            lemma_mod_bound(square as int, n as int);
            let carry: int = if part + b >= n {
                1
            } else {
                0
            };
            assert((whole + a + carry) * n <= after) by (nonlinear_arith)
                requires
                    after == whole * n + part + square,
                    square == n * a + b,
                    carry * n <= part + b,
            ;
            assert(whole + a + carry <= bound) by (nonlinear_arith)
                requires
                    (whole + a + carry) * n <= after,
                    after <= n * bound,
                    n > 0,
            ;
            assert((whole + a + carry) * n + (part + b - carry * n) == after) by (nonlinear_arith)
                requires
                    after == whole * n + part + square,
                    square == n * a + b,
            ;
        }
        whole = whole + a;
        part = part + b;
        if part >= n {
            whole = whole + 1;
            part = part - n;
        }
        i = i + 1;
    }
    let ghost around: int = offset_square_total(durations@, center as int);
    proof {
        assert(durations@.take(i as int) =~= durations@);
        lemma_offsets(durations@, center as int);
        lemma_spread_around(durations@, center as int, rest as int);
        assert(rest * rest <= sample_max() * sample_max()) by (nonlinear_arith)
            requires
                0 <= rest <= sample_max(),
        ;
    }
    let rest_square: u128 = rest * rest;
    let floor: u128 = rest_square / n;
    let ceiling: u128 = if rest_square % n == 0 {
        floor
    } else {
        floor + 1
    };
    proof {
        lemma_fundamental_div_mod(rest_square as int, n as int);
        lemma_mod_bound(rest_square as int, n as int);
        assert(n * ceiling >= rest_square) by (nonlinear_arith)
            requires
                rest_square == n * floor + (rest_square % n),
                0 <= rest_square % n < n,
                ceiling == floor + 1 || (ceiling == floor && rest_square % n == 0),
        ;
        assert(n * (ceiling - 1) < rest_square || ceiling == 0) by (nonlinear_arith)
            requires
                rest_square == n * floor + (rest_square % n),
                0 <= rest_square % n < n,
                (ceiling == floor + 1 && rest_square % n > 0) || (ceiling == floor && rest_square
                    % n == 0),
                n > 0,
                floor >= 0,
        ;
        assert(ceiling <= rest) by (nonlinear_arith)
            requires
                n * (ceiling - 1) < rest_square || ceiling == 0,
                rest_square == rest * rest,
                0 <= rest < n,
                ceiling >= 0,
        ;
        if part < ceiling {
            assert(whole >= 1) by (nonlinear_arith)
                requires
                    whole * n + part == around,
                    around >= rest,
                    part < ceiling,
                    ceiling <= rest,
                    whole >= 0,
                    n > 0,
            ;
        }
    }
    let variance: u128 = if part >= ceiling {
        whole
    } else {
        whole - 1
    };
    proof {
        let s = spread(durations@);
        let nn: int = n * n;
        let left: int = s - variance * nn;
        assert(0 <= left < nn && s == variance * nn + left) by (nonlinear_arith)
            requires
                s == n * around - rest_square,
                whole * n + part == around,
                0 <= part < n,
                0 <= rest < n,
                rest_square == rest * rest,
                n * ceiling >= rest_square,
                n * (ceiling - 1) < rest_square || ceiling == 0,
                (part >= ceiling && variance == whole) || (part < ceiling && variance == whole - 1),
                nn == n * n,
                left == s - variance * nn,
                n > 0,
        ;
        assert(nn != 0) by (nonlinear_arith)
            requires
                nn == n * n,
                n > 0,
        ;
        lemma_fundamental_div_mod_converse(s, nn, variance as int, left);
    }
    variance
}

/// The population standard deviation of the samples, or nothing for an
/// empty window. A single sample has deviation zero.
pub fn durations_std_dev(durations: &Vec<u64>) -> (r: Option<u64>)
    ensures
        durations@.len() == 0 <==> r is None,
        r matches Some(deviation) ==> deviation == std_dev_of(durations@),
        durations@.len() == 1 ==> r == Some(0u64),
{
    if durations.len() == 0 {
        None
    } else {
        proof {
            lemma_variance_range(durations@);
        }
        Some(isqrt(variance_nanos(durations)))
    }
}

/// The margin of error of the mean at 95% confidence, or nothing for an
/// empty window. The estimate is meaningful from about thirty samples on;
/// for fewer it is still returned.
pub fn durations_error_with_ci(durations: &Vec<u64>) -> (r: Option<u64>)
    ensures
        durations@.len() == 0 <==> r is None,
        r matches Some(error) ==> error == error_of(durations@),
{
    if durations.len() == 0 {
        None
    } else {
        let n: u128 = durations.len() as u128;
        let deviation: u64 = isqrt(variance_nanos(durations));
        proof {
            lemma_deviation_range(durations@);
            assert(deviation * deviation <= 0x4000_0000_0000_0000_0000_0000_0000_0000)
                by (nonlinear_arith)
                requires
                    0 <= deviation <= 0x8000_0000_0000_0000,
            ;
        }
        let square: u128 = (deviation as u128) * (deviation as u128);
        let scaled: u128 = 2401 * (square / 625) + 2401 * (square % 625) / 625;
        proof {
            let exact = 2401 * square;
            lemma_fundamental_div_mod_converse(
                exact,
                625,
                scaled as int,
                (2401 * (square % 625)) % 625,
            );
            lemma_div_denominator(exact, 625, n as int);
            assert(2401 * (deviation as nat) * (deviation as nat) == exact) by (nonlinear_arith)
                requires
                    square == deviation * deviation,
                    exact == 2401 * square,
            ;
        }
        Some(isqrt(scaled / n))
    }
}

} // verus!
