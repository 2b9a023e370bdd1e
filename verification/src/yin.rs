//! The YIN fundamental-frequency estimator on integer samples.
//!
//! The difference function is computed exactly. Each normalized difference is
//! the exact quotient rounded down to a millionth, and is absent where the
//! running sum of differences is zero, so that silence never crosses a
//! threshold.

use vstd::prelude::*;
use vstd::arithmetic::div_mod::{lemma_div_is_ordered, lemma_div_by_multiple};
use crate::Pitch;

verus! {

/// The value that stands for 1 in normalized differences, confidences and lags.
pub const SCALE: u64 = 1_000_000;

/// The longest window whose sums fit the estimator's arithmetic.
pub const MAX_WINDOW: usize = 4_194_304;

/// The largest squared difference of two samples: (2^32 - 1)^2.
pub open spec fn delta_squared_max() -> int {
    18446744065119617025
}

/// The largest value of the difference function on a window of at most
/// `MAX_WINDOW` samples: 4 194 304 times the largest squared difference.
pub open spec fn difference_max() -> int {
    77371252419307470166425600
}

/// The squared difference of two samples.
pub open spec fn squared_delta(a: i32, b: i32) -> int {
    (a as int - b as int) * (a as int - b as int)
}

/// Sum of the squared differences of the first `n` sample pairs at distance `lag`.
pub open spec fn delta_sum(samples: Seq<i32>, lag: int, n: int) -> int
    decreases n,
{
    if n <= 0 {
        0
    } else {
        delta_sum(samples, lag, n - 1) + squared_delta(samples[n - 1], samples[n - 1 + lag])
    }
}

/// The difference function: 0 at lag 0, and the sum over every pair of
/// samples that lie `lag` apart elsewhere.
pub open spec fn difference_at(samples: Seq<i32>, lag: int) -> int {
    if lag <= 0 {
        0
    } else {
        delta_sum(samples, lag, samples.len() - lag)
    }
}

/// Number of lags examined in a window of `len` samples.
pub open spec fn lag_count(len: int) -> int {
    if len / 2 >= 1 {
        len / 2
    } else {
        1
    }
}

proof fn lemma_squared_delta_bound(a: i32, b: i32)
    ensures
        0 <= squared_delta(a, b) <= delta_squared_max(),
{
    let d = a as int - b as int;
    assert(-4294967295 <= d <= 4294967295);
    assert(0 <= d * d <= 18446744065119617025) by (nonlinear_arith)
        requires
            -4294967295 <= d <= 4294967295,
    ;
}

/// Squared difference of two samples.
fn squared_difference(a: i32, b: i32) -> (r: u128)
    ensures
        r == squared_delta(a, b),
        r <= delta_squared_max(),
{
    let wide_a: i64 = a as i64;
    let wide_b: i64 = b as i64;
    let distance: u64 = if wide_a >= wide_b {
        (wide_a - wide_b) as u64
    } else {
        (wide_b - wide_a) as u64
    };
    proof {
        lemma_squared_delta_bound(a, b);
        let d = a as int - b as int;
        assert(distance as int * distance as int == d * d) by (nonlinear_arith)
            requires
                distance as int == d || distance as int == -d,
        ;
    }
    (distance as u128) * (distance as u128)
}

/// The difference function of the window at every lag below half its length.
pub fn difference(samples: &[i32]) -> (r: Vec<u128>)
    requires
        samples.len() <= MAX_WINDOW,
    ensures
        r.len() == lag_count(samples.len() as int),
        forall|t: int| 0 <= t < r.len() ==> r[t] == difference_at(samples@, t),
        forall|t: int| 0 <= t < r.len() ==> r[t] <= difference_max(),
{
    let len: usize = samples.len();
    let lags: usize = len / 2;
    let mut differences: Vec<u128> = Vec::new();
    differences.push(0);
    let mut lag: usize = 1;
    while lag < lags
        invariant
            len == samples.len(),
            len <= MAX_WINDOW,
            lags == len / 2,
            1 <= lag,
            lag <= lags || lag == 1,
            differences.len() == lag,
            forall|t: int| 0 <= t < lag ==> differences[t] == difference_at(samples@, t),
            forall|t: int| 0 <= t < lag ==> differences[t] <= difference_max(),
        decreases lags - lag,
    {
        let pairs: usize = len - lag;
        let mut sum: u128 = 0;
        let mut i: usize = 0;
        while i < pairs
            invariant
                len == samples.len(),
                len <= MAX_WINDOW,
                1 <= lag < len,
                pairs == len - lag,
                i <= pairs,
                sum == delta_sum(samples@, lag as int, i as int),
                sum <= i * delta_squared_max(),
            decreases pairs - i,
        {
            let term: u128 = squared_difference(samples[i], samples[i + lag]);
            sum = sum + term;
            i = i + 1;
        }
        differences.push(sum);
        lag = lag + 1;
    }
    differences
}

/// Sum of the differences at lags 1 to `t`.
pub open spec fn running_sum(differences: Seq<u128>, t: int) -> int
    decreases t,
{
    if t <= 0 {
        0
    } else {
        running_sum(differences, t - 1) + differences[t]
    }
}

/// The cumulative mean normalized difference at lag `t`, in millionths:
/// 1 at lag 0; elsewhere the difference times `t` over the running sum,
/// rounded down, and absent where the running sum is zero.
pub open spec fn normalized_at(differences: Seq<u128>, t: int) -> Option<u64> {
    if t <= 0 {
        Some(SCALE)
    } else if running_sum(differences, t) == 0 {
        None
    } else {
        Some((differences[t] * t * SCALE / running_sum(differences, t)) as u64)
    }
}

/// A normalized difference is at most its lag: a difference never exceeds
/// the running sum that holds it.
pub proof fn lemma_normalized_bound(difference: int, t: int, sum: int)
    requires
        0 <= difference <= sum,
        0 < sum,
        0 <= t,
    ensures
        0 <= difference * t * SCALE / sum <= t * SCALE,
{
    let k = t * SCALE;
    assert(difference * t * SCALE == difference * k) by (nonlinear_arith)
        requires
            k == t * SCALE,
    ;
    assert(0 <= difference * k <= sum * k) by (nonlinear_arith)
        requires
            0 <= difference <= sum,
            0 <= k,
    ;
    lemma_div_is_ordered(difference * k, sum * k, sum);
    lemma_div_is_ordered(0, difference * k, sum);
    assert(sum * k == k * sum) by (nonlinear_arith);
    lemma_div_by_multiple(k, sum);
}

/// Normalizes each difference by the mean of the differences up to its lag.
pub fn cumulative_mean_normalized_difference(differences: &Vec<u128>) -> (r: Vec<Option<u64>>)
    requires
        differences.len() <= MAX_WINDOW,
        forall|t: int| 0 <= t < differences.len() ==> differences[t] <= difference_max(),
    ensures
        r.len() == differences.len(),
        forall|t: int| 0 <= t < r.len() ==> r[t] == normalized_at(differences@, t),
{
    let len: usize = differences.len();
    let mut normalized: Vec<Option<u64>> = Vec::new();
    if len == 0 {
        return normalized;
    }
    normalized.push(Some(SCALE));
    let mut sum: u128 = 0;
    let mut t: usize = 1;
    while t < len
        invariant
            len == differences.len(),
            len <= MAX_WINDOW,
            forall|j: int| 0 <= j < len ==> differences[j] <= difference_max(),
            1 <= t <= len,
            normalized.len() == t,
            sum == running_sum(differences@, t - 1),
            sum <= (t - 1) * 77371252419307470166425600,
            forall|j: int| 0 <= j < t ==> normalized[j] == normalized_at(differences@, j),
        decreases len - t,
    {
        let current: u128 = differences[t];
        sum = sum + current;
        if sum == 0 {
            normalized.push(None);
        } else {
            proof {
                lemma_normalized_bound(current as int, t as int, sum as int);
                assert(current * t <= difference_max() * 4_194_304) by (nonlinear_arith)
                    requires
                        0 <= current <= difference_max(),
                        0 <= t <= 4_194_304,
                ;
                assert(current * t * SCALE <= difference_max() * 4_194_304 * 1_000_000)
                    by (nonlinear_arith)
                    requires
                        0 <= current * t <= difference_max() * 4_194_304,
                        SCALE == 1_000_000,
                ;
            }
            let scaled: u128 = current * (t as u128) * (SCALE as u128);
            let quotient: u128 = scaled / sum;
            normalized.push(Some(quotient as u64));
        }
        t = t + 1;
    }
    normalized
}

/// Whether a normalized difference is present and at or below the threshold.
pub open spec fn crosses(value: Option<u64>, threshold: u64) -> bool {
    value is Some && value->0 <= threshold
}

/// Whether the value at lag `t + 1` is present and strictly smaller than the
/// one at lag `t`.
pub open spec fn falls(normalized: Seq<Option<u64>>, t: int) -> bool {
    &&& normalized[t] is Some
    &&& normalized[t + 1] is Some
    &&& normalized[t + 1]->0 < normalized[t]->0
}

/// No lag from 2 on is at or below the threshold.
pub open spec fn unvoiced(normalized: Seq<Option<u64>>, threshold: u64) -> bool {
    forall|t: int| 2 <= t < normalized.len() ==> !crosses(#[trigger] normalized[t], threshold)
}

/// `first` is the first lag from 2 on at or below the threshold, and `lag` is
/// where the values stop falling after it.
pub open spec fn selects(normalized: Seq<Option<u64>>, threshold: u64, first: int, lag: int) -> bool {
    &&& 2 <= first <= lag < normalized.len()
    &&& crosses(normalized[first], threshold)
    &&& forall|t: int| 2 <= t < first ==> !crosses(#[trigger] normalized[t], threshold)
    &&& forall|t: int| first <= t < lag ==> #[trigger] falls(normalized, t)
    &&& lag + 1 < normalized.len() ==> !falls(normalized, lag)
}

/// The neighbour after lag `t`, where there is one.
pub open spec fn value_after(normalized: Seq<Option<u64>>, t: int) -> Option<u64> {
    if t + 1 < normalized.len() {
        normalized[t + 1]
    } else {
        None
    }
}

/// At most one lag is selected.
pub proof fn lemma_selection_unique(
    normalized: Seq<Option<u64>>,
    threshold: u64,
    first_a: int,
    lag_a: int,
    first_b: int,
    lag_b: int,
)
    requires
        selects(normalized, threshold, first_a, lag_a),
        selects(normalized, threshold, first_b, lag_b),
    ensures
        first_a == first_b,
        lag_a == lag_b,
{
    if first_a < first_b {
        assert(!crosses(normalized[first_a], threshold));
    }
    if first_b < first_a {
        assert(!crosses(normalized[first_b], threshold));
    }
    if lag_a < lag_b {
        assert(falls(normalized, lag_a));
    }
    if lag_b < lag_a {
        assert(falls(normalized, lag_b));
    }
}

/// A selected lag rules out silence, and silence rules out a selected lag.
pub proof fn lemma_selection_is_voiced(
    normalized: Seq<Option<u64>>,
    threshold: u64,
    first: int,
    lag: int,
)
    requires
        selects(normalized, threshold, first, lag),
    ensures
        !unvoiced(normalized, threshold),
{
    assert(crosses(normalized[first], threshold));
}

fn is_crossing(value: Option<u64>, threshold: u64) -> (r: bool)
    ensures
        r == crosses(value, threshold),
{
    match value {
        Some(v) => v <= threshold,
        None => false,
    }
}

fn is_below(value: Option<u64>, best: u64) -> (r: bool)
    ensures
        r == (value is Some && value->0 < best),
{
    match value {
        Some(v) => v < best,
        None => false,
    }
}

/// Searches for the lag to report: skips lags 0 and 1 and every lag above
/// the threshold, then follows the values down to where they stop falling.
/// Returns the lag with the values before it, at it and after it.
pub fn absolute_threshold(normalized: &Vec<Option<u64>>, threshold: u64) -> (r: Option<
    (usize, (Option<u64>, u64, Option<u64>)),
>)
    ensures
        r is None <==> unvoiced(normalized@, threshold),
        r is Some ==> {
            let (lag, (prev, selected, next)) = r->0;
            &&& exists|first: int| selects(normalized@, threshold, first, lag as int)
            &&& normalized[lag as int] == Some(selected)
            &&& selected <= threshold
            &&& prev == normalized[lag - 1]
            &&& next == value_after(normalized@, lag as int)
        },
{
    let len: usize = normalized.len();
    let mut t: usize = 2;
    while t < len && !is_crossing(normalized[t], threshold)
        invariant
            len == normalized.len(),
            2 <= t,
            forall|j: int| 2 <= j < t && j < len ==> !crosses(#[trigger] normalized[j], threshold),
        decreases len - t,
    {
        t = t + 1;
    }
    if t >= len {
        return None;
    }
    let first: usize = t;
    let mut best: u64 = match normalized[t] {
        Some(v) => v,
        None => 0,
    };
    while t + 1 < len && is_below(normalized[t + 1], best)
        invariant
            len == normalized.len(),
            2 <= first <= t < len,
            normalized[t as int] == Some(best),
            best <= threshold,
            forall|j: int| first <= j < t ==> #[trigger] falls(normalized@, j),
        decreases len - t,
    {
        best = match normalized[t + 1] {
            Some(v) => v,
            None => best,
        };
        t = t + 1;
    }
    let prev: Option<u64> = normalized[t - 1];
    let next: Option<u64> = if t + 1 < len {
        normalized[t + 1]
    } else {
        None
    };
    proof {
        assert(selects(normalized@, threshold, first as int, t as int));
        lemma_selection_is_voiced(normalized@, threshold, first as int, t as int);
    }
    Some((t, (prev, best, next)))
}

/// The vertex of the parabola through the values before, at and after lag
/// `t`, in millionths of a sample:
/// `t + (prev - next) / (2 * (prev + next - 2 * selected))`, the quotient
/// rounded towards `t`.
pub open spec fn vertex_lag(t: int, prev: u64, selected: u64, next: u64) -> int {
    let curvature = (prev - selected) + (next - selected);
    if prev >= next {
        t * SCALE + (prev - next) * SCALE / (2 * curvature)
    } else {
        t * SCALE - (next - prev) * SCALE / (2 * curvature)
    }
}

/// The selected lag refined by its neighbours, in millionths of a sample.
///
/// With both neighbours, the vertex of the parabola through the three
/// points, where that parabola has a minimum there: the selected value is
/// not above either neighbour and is below at least one. (The search
/// selects such a lag whenever the threshold is below 1; see the contract of
/// [`pitch`].) With one neighbour, that neighbour's lag where its value is
/// strictly larger than the selected one. Otherwise the lag itself.
pub open spec fn refined_lag(t: int, prev: Option<u64>, selected: u64, next: Option<u64>) -> int {
    match (prev, next) {
        (Some(p), Some(n)) => {
            if selected <= p && selected <= n && (selected < p || selected < n) {
                vertex_lag(t, p, selected, n)
            } else {
                t * SCALE
            }
        },
        (Some(p), None) => if p > selected {
            (t - 1) * SCALE
        } else {
            t * SCALE
        },
        (None, Some(n)) => if n > selected {
            (t + 1) * SCALE
        } else {
            t * SCALE
        },
        (None, None) => t * SCALE,
    }
}

/// The vertex of the parabola lies within half a sample of the selected lag.
pub proof fn lemma_vertex_offset_bound(gap: int, curvature: int)
    requires
        0 <= gap <= curvature,
        0 < curvature,
    ensures
        0 <= gap * SCALE / (2 * curvature) <= SCALE / 2,
{
    let half: int = 500_000;
    assert(0 <= gap * SCALE <= curvature * SCALE) by (nonlinear_arith)
        requires
            0 <= gap <= curvature,
    ;
    assert(curvature * SCALE == half * (2 * curvature)) by (nonlinear_arith)
        requires
            half == 500_000,
            SCALE == 1_000_000,
    ;
    lemma_div_is_ordered(gap * SCALE, curvature * SCALE, 2 * curvature);
    lemma_div_is_ordered(0, gap * SCALE, 2 * curvature);
    lemma_div_by_multiple(half, 2 * curvature);
}

/// Refines the selected lag by parabolic interpolation over its neighbours.
pub fn parabolic_interpolation(
    selected_index: usize,
    prev_value: Option<u64>,
    selected_value: u64,
    next_value: Option<u64>,
) -> (r: u128)
    requires
        prev_value is Some ==> selected_index >= 1,
    ensures
        r == refined_lag(selected_index as int, prev_value, selected_value, next_value),
        selected_index * SCALE - SCALE <= r <= selected_index * SCALE + SCALE,
        prev_value is Some && next_value is Some ==> selected_index * SCALE - SCALE / 2 <= r,
{
    let unit: u128 = SCALE as u128;
    let at: u128 = (selected_index as u128) * unit;
    match (prev_value, next_value) {
        (Some(p), Some(n)) => {
            if selected_value <= p && selected_value <= n && (selected_value < p || selected_value
                < n) {
                let curvature: u128 = ((p - selected_value) as u128) + ((n - selected_value) as u128);
                if p >= n {
                    proof {
                        lemma_vertex_offset_bound((p - n) as int, curvature as int);
                    }
                    at + ((p - n) as u128) * unit / (2 * curvature)
                } else {
                    proof {
                        lemma_vertex_offset_bound((n - p) as int, curvature as int);
                    }
                    at - ((n - p) as u128) * unit / (2 * curvature)
                }
            } else {
                at
            }
        },
        (Some(p), None) => if p > selected_value {
            at - unit
        } else {
            at
        },
        (None, Some(n)) => if n > selected_value {
            at + unit
        } else {
            at
        },
        (None, None) => at,
    }
}

/// The difference function of a window, lag by lag.
pub open spec fn difference_seq(samples: Seq<i32>) -> Seq<u128> {
    Seq::new(lag_count(samples.len() as int) as nat, |t: int| difference_at(samples, t) as u128)
}

/// The cumulative mean normalized difference of a window, lag by lag.
pub open spec fn normalized_seq(samples: Seq<i32>) -> Seq<Option<u64>> {
    Seq::new(
        lag_count(samples.len() as int) as nat,
        |t: int| normalized_at(difference_seq(samples), t),
    )
}

/// Whether the refined lag for `lag` is the vertex of the parabola through
/// its neighbours, within half a sample of `lag`, where a lag follows it, and
/// the lag before where none follows.
pub open spec fn refines_to_vertex(normalized: Seq<Option<u64>>, lag: int) -> bool {
    if lag + 1 < normalized.len() {
        &&& refined_at(normalized, lag) == vertex_lag(
            lag,
            normalized[lag - 1]->0,
            normalized[lag]->0,
            normalized[lag + 1]->0,
        )
        &&& lag * SCALE - SCALE / 2 <= refined_at(normalized, lag) <= lag * SCALE + SCALE / 2
    } else {
        refined_at(normalized, lag) == (lag - 1) * SCALE
    }
}

/// The refined lag for lag `lag` of a window's normalized differences.
pub open spec fn refined_at(normalized: Seq<Option<u64>>, lag: int) -> int {
    refined_lag(lag, normalized[lag - 1], normalized[lag]->0, value_after(normalized, lag))
}

/// Whether the value at `lag` is a minimum among its neighbours: the value
/// before it is present and strictly larger, and the value after it, where a
/// lag follows, is present and not smaller.
pub open spec fn is_minimum(normalized: Seq<Option<u64>>, lag: int) -> bool {
    &&& normalized[lag] is Some
    &&& normalized[lag - 1] is Some
    &&& normalized[lag - 1]->0 > normalized[lag]->0
    &&& lag + 1 < normalized.len() ==> normalized[lag + 1] is Some && normalized[lag + 1]->0
        >= normalized[lag]->0
}

/// The estimate reported for a selected lag: the sample rate over the refined
/// lag, in millihertz rounded down, with 1 minus the selected value as its
/// confidence (0 where the value exceeds 1).
pub open spec fn pitch_at(normalized: Seq<Option<u64>>, sample_rate: u32, lag: int) -> Pitch {
    let selected = normalized[lag]->0;
    Pitch {
        value: (sample_rate * 1000 * SCALE / refined_at(normalized, lag)) as u64,
        confidence: if selected <= SCALE {
            (SCALE - selected) as u64
        } else {
            0
        },
        time: 0,
    }
}

/// Whether the search ends at `lag`.
pub open spec fn is_selected(normalized: Seq<Option<u64>>, threshold: u64, lag: int) -> bool {
    exists|first: int| selects(normalized, threshold, first, lag)
}

/// The lag that the search selects in a voiced window.
pub open spec fn selected_lag(normalized: Seq<Option<u64>>, threshold: u64) -> int {
    choose|lag: int| is_selected(normalized, threshold, lag)
}

/// The estimate for a window of samples: none where no lag from 2 on is at
/// or below the threshold, else the estimate at the selected lag.
pub open spec fn pitch_of(samples: Seq<i32>, sample_rate: u32, threshold: u64) -> Option<Pitch> {
    let normalized = normalized_seq(samples);
    if unvoiced(normalized, threshold) {
        None
    } else {
        Some(pitch_at(normalized, sample_rate, selected_lag(normalized, threshold)))
    }
}

/// Estimates the fundamental frequency of a window of samples taken at
/// `sample_rate` hertz, with `threshold` in millionths.
pub fn pitch(samples: &[i32], sample_rate: u32, threshold: u64) -> (r: Option<Pitch>)
    requires
        samples.len() <= MAX_WINDOW,
    ensures
        r == pitch_of(samples@, sample_rate, threshold),
        r is Some ==> r->0.value <= sample_rate * 1000 && r->0.confidence <= SCALE && r->0.time
            == 0,
        r is Some && sample_rate * 1000 >= lag_count(samples.len() as int) ==> r->0.value > 0,
        r is Some ==> is_selected(
            normalized_seq(samples@),
            threshold,
            selected_lag(normalized_seq(samples@), threshold),
        ),
        r is Some && threshold <= SCALE ==> r->0.confidence >= SCALE - threshold,
        r is Some && threshold < SCALE ==> is_minimum(
            normalized_seq(samples@),
            selected_lag(normalized_seq(samples@), threshold),
        ) && refines_to_vertex(
            normalized_seq(samples@),
            selected_lag(normalized_seq(samples@), threshold),
        ),
{
    let differences = difference(samples);
    assert(differences@ =~= difference_seq(samples@));
    let normalized = cumulative_mean_normalized_difference(&differences);
    assert(normalized@ =~= normalized_seq(samples@));
    match absolute_threshold(&normalized, threshold) {
        None => None,
        Some((selected_index, (prev_value, selected_value, next_value))) => {
            let refined = parabolic_interpolation(
                selected_index,
                prev_value,
                selected_value,
                next_value,
            );
            proof {
                let first = choose|first: int|
                    selects(normalized@, threshold, first, selected_index as int);
                assert(is_selected(normalized@, threshold, selected_index as int));
                let chosen = selected_lag(normalized@, threshold);
                let chosen_first = choose|f: int| selects(normalized@, threshold, f, chosen);
                lemma_selection_unique(
                    normalized@,
                    threshold,
                    first,
                    selected_index as int,
                    chosen_first,
                    chosen,
                );
                lemma_selection_is_voiced(normalized@, threshold, first, selected_index as int);
                assert(refined >= SCALE);
                if threshold < SCALE {
                    lemma_selected_lag_is_a_minimum(
                        samples@,
                        threshold,
                        first,
                        selected_index as int,
                    );
                }
            }
            let numerator: u128 = (sample_rate as u128) * 1000 * (SCALE as u128);
            proof {
                vstd::arithmetic::div_mod::lemma_div_is_ordered_by_denominator(
                    numerator as int,
                    SCALE as int,
                    refined as int,
                );
                assert(numerator as int == (sample_rate * 1000) * SCALE) by (nonlinear_arith)
                    requires
                        numerator as int == sample_rate * 1000 * SCALE,
                ;
                lemma_div_by_multiple(sample_rate * 1000, SCALE as int);
                if sample_rate * 1000 >= lag_count(samples.len() as int) {
                    assert(refined <= numerator) by (nonlinear_arith)
                        requires
                            refined <= selected_index * SCALE + SCALE,
                            selected_index + 1 <= sample_rate * 1000,
                            numerator == sample_rate * 1000 * SCALE,
                    ;
                    lemma_div_is_ordered(refined as int, numerator as int, refined as int);
                    vstd::arithmetic::div_mod::lemma_div_basics(refined as int);
                }
            }
            let value: u64 = (numerator / refined) as u64;
            let confidence: u64 = if selected_value <= SCALE {
                SCALE - selected_value
            } else {
                0
            };
            Some(Pitch { value, confidence, time: 0 })
        },
    }
}

proof fn lemma_steady_delta_sum(samples: Seq<i32>, level: i32, lag: int, n: int)
    requires
        forall|i: int| 0 <= i < samples.len() ==> #[trigger] samples[i] == level,
        0 <= lag,
        n + lag <= samples.len(),
    ensures
        delta_sum(samples, lag, n) == 0,
    decreases n,
{
    if n > 0 {
        lemma_steady_delta_sum(samples, level, lag, n - 1);
        assert(samples[n - 1] == level);
        assert(samples[n - 1 + lag] == level);
    }
}

proof fn lemma_zero_running_sum(differences: Seq<u128>, t: int)
    requires
        0 <= t < differences.len(),
        forall|j: int| 0 <= j < differences.len() ==> differences[j] == 0,
    ensures
        running_sum(differences, t) == 0,
    decreases t,
{
    if t > 0 {
        lemma_zero_running_sum(differences, t - 1);
    }
}

/// A window whose samples all equal `level`, silence for `level` 0, has no
/// pitch at any threshold.
pub proof fn lemma_steady_window_is_unvoiced(
    samples: Seq<i32>,
    level: i32,
    sample_rate: u32,
    threshold: u64,
)
    requires
        forall|i: int| 0 <= i < samples.len() ==> #[trigger] samples[i] == level,
    ensures
        unvoiced(normalized_seq(samples), threshold),
        pitch_of(samples, sample_rate, threshold) is None,
{
    let differences = difference_seq(samples);
    assert forall|j: int| 0 <= j < differences.len() implies differences[j] == 0 by {
        if j > 0 {
            lemma_steady_delta_sum(samples, level, j, samples.len() - j);
        }
    }
    let normalized = normalized_seq(samples);
    assert forall|t: int| 2 <= t < normalized.len() implies !crosses(
        #[trigger] normalized[t],
        threshold,
    ) by {
        lemma_zero_running_sum(differences, t);
    }
}

/// A window of at most five samples has no pitch.
pub proof fn lemma_short_window_is_unvoiced(samples: Seq<i32>, sample_rate: u32, threshold: u64)
    requires
        samples.len() <= 5,
    ensures
        unvoiced(normalized_seq(samples), threshold),
        pitch_of(samples, sample_rate, threshold) is None,
{
}

proof fn lemma_running_sum_grows(differences: Seq<u128>, t: int)
    requires
        0 <= t < differences.len(),
    ensures
        0 <= running_sum(differences, t),
        t >= 1 ==> running_sum(differences, t) == running_sum(differences, t - 1) + differences[t],
        t >= 1 ==> 0 <= running_sum(differences, t - 1),
    decreases t,
{
    if t > 0 {
        lemma_running_sum_grows(differences, t - 1);
    }
}

/// Where the running sum is positive for the first time, the normalized
/// difference equals the lag.
proof fn lemma_first_normalized_value(differences: Seq<u128>, t: int)
    requires
        1 <= t < differences.len(),
        differences.len() <= MAX_WINDOW,
        running_sum(differences, t - 1) == 0,
        running_sum(differences, t) != 0,
    ensures
        normalized_at(differences, t) == Some((t * SCALE) as u64),
{
    lemma_running_sum_grows(differences, t);
    let d = differences[t] as int;
    assert(d * t * SCALE == (t * SCALE) * d) by (nonlinear_arith);
    lemma_div_by_multiple(t * SCALE, d);
}

/// With a threshold below 1, the selected lag of a window is a minimum among
/// its neighbours. Where a lag follows it, the refined lag is then the vertex
/// of the parabola and lies within half a sample of the selected lag; where
/// none follows, it is the lag before.
pub proof fn lemma_selected_lag_is_a_minimum(
    samples: Seq<i32>,
    threshold: u64,
    first: int,
    lag: int,
)
    requires
        samples.len() <= MAX_WINDOW,
        threshold < SCALE,
        selects(normalized_seq(samples), threshold, first, lag),
    ensures
        is_minimum(normalized_seq(samples), lag),
        refines_to_vertex(normalized_seq(samples), lag),
{
    let differences = difference_seq(samples);
    let normalized = normalized_seq(samples);
    assert(crosses(normalized[first], threshold));
    assert(normalized[lag] is Some) by {
        if lag > first {
            assert(falls(normalized, lag - 1));
        }
    }
    let selected = normalized[lag]->0;
    lemma_running_sum_grows(differences, lag);
    if lag > first {
        assert(falls(normalized, lag - 1));
    } else {
        let before = first - 1;
        lemma_running_sum_grows(differences, before);
        if running_sum(differences, before) == 0 {
            lemma_first_normalized_value(differences, first);
            assert(false);
        }
        if before == 1 {
            let d = differences[1] as int;
            assert(running_sum(differences, 0) == 0);
            assert(d * 1 * SCALE == SCALE * d) by (nonlinear_arith);
            lemma_div_by_multiple(SCALE as int, d);
        } else {
            assert(!crosses(normalized[before], threshold));
        }
    }
    if lag + 1 < normalized.len() {
        lemma_running_sum_grows(differences, lag + 1);
        assert(!falls(normalized, lag));
        let p = normalized[lag - 1]->0;
        let n = normalized[lag + 1]->0;
        let curvature = (p - selected) + (n - selected);
        if p >= n {
            lemma_vertex_offset_bound(p - n, curvature);
        } else {
            lemma_vertex_offset_bound(n - p, curvature);
        }
    }
}

/// The first lag from 2 up to `upto` that is at or below the threshold.
proof fn first_crossing(normalized: Seq<Option<u64>>, threshold: u64, upto: int) -> (first: int)
    requires
        2 <= upto < normalized.len(),
        crosses(normalized[upto], threshold),
    ensures
        2 <= first <= upto,
        crosses(normalized[first], threshold),
        forall|t: int| 2 <= t < first ==> !crosses(#[trigger] normalized[t], threshold),
    decreases upto,
{
    if exists|t: int| 2 <= t < upto && crosses(#[trigger] normalized[t], threshold) {
        let earlier = choose|t: int| 2 <= t < upto && crosses(#[trigger] normalized[t], threshold);
        first_crossing(normalized, threshold, earlier)
    } else {
        upto
    }
}

/// The lag at which the values stop falling after `from`.
proof fn descent_end(normalized: Seq<Option<u64>>, from: int) -> (lag: int)
    requires
        0 <= from < normalized.len(),
    ensures
        from <= lag < normalized.len(),
        forall|t: int| from <= t < lag ==> #[trigger] falls(normalized, t),
        lag + 1 < normalized.len() ==> !falls(normalized, lag),
    decreases normalized.len() - from,
{
    if from + 1 < normalized.len() && falls(normalized, from) {
        descent_end(normalized, from + 1)
    } else {
        from
    }
}

/// In a voiced window the search selects a lag: the lag that the estimate
/// is taken at exists.
pub proof fn lemma_voiced_window_has_a_selected_lag(normalized: Seq<Option<u64>>, threshold: u64)
    requires
        !unvoiced(normalized, threshold),
    ensures
        is_selected(normalized, threshold, selected_lag(normalized, threshold)),
{
    let crossing = choose|t: int|
        2 <= t < normalized.len() && crosses(#[trigger] normalized[t], threshold);
    let first = first_crossing(normalized, threshold, crossing);
    let lag = descent_end(normalized, first);
    assert(selects(normalized, threshold, first, lag));
    assert(is_selected(normalized, threshold, lag));
}

proof fn lemma_periodic_delta_sum(samples: Seq<i32>, period: int, n: int)
    requires
        0 <= period,
        0 <= n,
        n + period <= samples.len(),
        forall|i: int|
            0 <= i && i + period < samples.len() ==> #[trigger] samples[i] == samples[i + period],
    ensures
        delta_sum(samples, period, n) == 0,
    decreases n,
{
    if n > 0 {
        lemma_periodic_delta_sum(samples, period, n - 1);
        assert(samples[n - 1] == samples[n - 1 + period]);
    }
}

proof fn lemma_delta_sum_holds_each_term(samples: Seq<i32>, lag: int, n: int, i: int)
    requires
        0 <= i < n,
    ensures
        delta_sum(samples, lag, n) >= squared_delta(samples[i], samples[i + lag]),
        delta_sum(samples, lag, n) >= 0,
    decreases n,
{
    lemma_squared_delta_bound(samples[n - 1], samples[n - 1 + lag]);
    if n - 1 > i {
        lemma_delta_sum_holds_each_term(samples, lag, n - 1, i);
    } else {
        lemma_delta_sum_bound(samples, lag, n - 1);
    }
}

proof fn lemma_running_sum_keeps_the_first(differences: Seq<u128>, t: int)
    requires
        1 <= t < differences.len(),
    ensures
        running_sum(differences, t) >= differences[1],
    decreases t,
{
    if t > 1 {
        lemma_running_sum_keeps_the_first(differences, t - 1);
    } else {
        assert(running_sum(differences, 0) == 0);
    }
}

/// A window that repeats after `period` samples, and in which two
/// neighbouring samples differ, is voiced at every threshold: its normalized
/// difference at the period is 0, and the lag selected in it is at most the
/// period.
pub proof fn lemma_periodic_window_is_voiced(
    samples: Seq<i32>,
    period: int,
    step: int,
    sample_rate: u32,
    threshold: u64,
)
    requires
        samples.len() <= MAX_WINDOW,
        2 <= period < lag_count(samples.len() as int),
        forall|i: int|
            0 <= i && i + period < samples.len() ==> #[trigger] samples[i] == samples[i + period],
        0 <= step,
        step + 1 < samples.len(),
        samples[step] != samples[step + 1],
    ensures
        normalized_seq(samples)[period] == Some(0u64),
        pitch_of(samples, sample_rate, threshold) is Some,
        is_selected(
            normalized_seq(samples),
            threshold,
            selected_lag(normalized_seq(samples), threshold),
        ),
        2 <= selected_lag(normalized_seq(samples), threshold) <= period,
{
    let differences = difference_seq(samples);
    let normalized = normalized_seq(samples);
    lemma_periodic_delta_sum(samples, period, samples.len() - period);
    lemma_delta_sum_holds_each_term(samples, 1, samples.len() - 1, step);
    let a = samples[step] as int;
    let b = samples[step + 1] as int;
    assert((a - b) * (a - b) > 0) by (nonlinear_arith)
        requires
            a != b,
    ;
    lemma_delta_sum_bound(samples, 1, samples.len() - 1);
    assert(differences[1] > 0);
    lemma_running_sum_keeps_the_first(differences, period);
    assert(differences[period] == 0);
    assert(0 * period * SCALE == 0) by (nonlinear_arith);
    assert(0int / running_sum(differences, period) == 0) by (nonlinear_arith)
        requires
            running_sum(differences, period) > 0,
    ;
    assert(normalized[period] == Some(0u64));
    assert(crosses(normalized[period], threshold));
    lemma_voiced_window_has_a_selected_lag(normalized, threshold);
    let lag = selected_lag(normalized, threshold);
    let first = choose|first: int| selects(normalized, threshold, first, lag);
    if first > period {
        assert(!crosses(normalized[period], threshold));
    }
    if lag > period {
        assert(falls(normalized, period));
    }
}

proof fn lemma_delta_sum_bound(samples: Seq<i32>, lag: int, n: int)
    requires
        0 <= n,
    ensures
        0 <= delta_sum(samples, lag, n) <= n * 18446744065119617025,
    decreases n,
{
    if n > 0 {
        lemma_delta_sum_bound(samples, lag, n - 1);
        lemma_squared_delta_bound(samples[n - 1], samples[n - 1 + lag]);
    }
}

} // verus!
