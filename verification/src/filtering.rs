//! What the filter bank's outputs are in terms of the low-pass that it was made
//! of.

use crate::algebra;
use crate::complex;
use crate::complex::Complex;
use crate::exact;
use crate::fractional_delay;
use crate::fractional_delay::PfbView;
use crate::number;
use crate::number::{Real, Sample};
use vstd::prelude::*;

verus! {

/// Filtering is linear in the `level` of a sample: its value where it is a
/// number, that of either part where it is complex.
pub open spec fn is_linear<K, S: Sample<K>>(
    value: spec_fn(K) -> real,
    level: spec_fn(S) -> real,
) -> bool {
    &&& forall|r: S| #[trigger] number::is_silence::<K, S>(r) ==> level(r) == 0real
    &&& forall|a: S, b: S, r: S|
        #[trigger] number::is_mix::<K, S>(a, b, r) ==> level(r) == level(a) + level(b)
    &&& forall|a: S, gain: K, r: S|
        #[trigger] number::is_scaling(a, gain, r) ==> level(r) == level(a) * value(gain)
}

/// Where arithmetic is exact, filtering is linear in real samples and in both
/// parts of complex ones.
pub proof fn exact_filtering_is_linear<T: Real>(value: spec_fn(T) -> real)
    requires
        exact::is_exact(value),
    ensures
        is_linear::<T, T>(value, value),
        is_linear::<T, Complex<T>>(value, |z: Complex<T>| value(z.re)),
        is_linear::<T, Complex<T>>(value, |z: Complex<T>| value(z.im)),
{
    assert forall|r: T| #[trigger] number::is_silence::<T, T>(r) implies value(r) == 0real by {
        assert(number::is_zero(r));
    }
    assert forall|a: T, b: T, r: T| #[trigger] number::is_mix::<T, T>(a, b, r) implies value(r)
        == value(a) + value(b) by {
        assert(number::is_sum(a, b, r));
    }
    assert forall|a: T, gain: T, r: T| #[trigger]
        number::is_scaling::<T, T>(a, gain, r) implies value(r) == value(a) * value(gain) by {
        assert(number::is_product(a, gain, r));
    }
    assert forall|r: Complex<T>| #[trigger] number::is_silence::<T, Complex<T>>(r) implies value(
        r.re,
    ) == 0real && value(r.im) == 0real by {
        assert(number::is_zero(r.re) && number::is_zero(r.im));
    }
    assert forall|a: Complex<T>, b: Complex<T>, r: Complex<T>| #[trigger]
        number::is_mix::<T, Complex<T>>(a, b, r) implies value(r.re) == value(a.re) + value(b.re)
        && value(r.im) == value(a.im) + value(b.im) by {
        assert(complex::is_complex_sum(a, b, r));
    }
    assert forall|a: Complex<T>, gain: T, r: Complex<T>| #[trigger]
        number::is_scaling::<T, Complex<T>>(a, gain, r) implies value(r.re) == value(a.re) * value(
        gain,
    ) && value(r.im) == value(a.im) * value(gain) by {
        assert(complex::is_complex_scaling(a, gain, r));
    }
}

/// The sum of each sample's level times its coefficient's value.
pub open spec fn weighted_level<K, S>(
    value: spec_fn(K) -> real,
    level: spec_fn(S) -> real,
    samples: Seq<S>,
    coefficients: Seq<K>,
) -> real
    decreases samples.len(),
{
    if samples.len() == 0 {
        0real
    } else {
        weighted_level(value, level, samples.drop_last(), coefficients.drop_last()) + level(
            samples.last(),
        ) * value(coefficients.last())
    }
}

proof fn lemma_weighted_sum_level<K, S: Sample<K>>(
    value: spec_fn(K) -> real,
    level: spec_fn(S) -> real,
    samples: Seq<S>,
    coefficients: Seq<K>,
    r: S,
)
    requires
        is_linear(value, level),
        fractional_delay::is_weighted_sum(samples, coefficients, r),
    ensures
        level(r) == weighted_level(value, level, samples, coefficients),
    decreases samples.len(),
{
    if samples.len() > 0 {
        let (partial, term) = choose|partial: S, term: S|
            {
                &&& fractional_delay::is_weighted_sum(
                    samples.drop_last(),
                    coefficients.drop_last(),
                    partial,
                )
                &&& number::is_scaling(samples.last(), coefficients.last(), term)
                &&& #[trigger] number::is_mix::<K, S>(partial, term, r)
            };
        assert(number::is_mix::<K, S>(partial, term, r));
        lemma_weighted_sum_level(
            value,
            level,
            samples.drop_last(),
            coefficients.drop_last(),
            partial,
        );
    }
}

/// A sample whose coefficient is zero has no weight.
proof fn lemma_weightless_sample<K, S>(
    value: spec_fn(K) -> real,
    level: spec_fn(S) -> real,
    samples: Seq<S>,
    others: Seq<S>,
    coefficients: Seq<K>,
)
    requires
        samples.len() == others.len(),
        coefficients.len() == samples.len(),
        forall|k: int|
            0 <= k < samples.len() ==> value(#[trigger] coefficients[k]) == 0real || level(
                samples[k],
            ) == level(others[k]),
    ensures
        weighted_level(value, level, samples, coefficients) == weighted_level(
            value,
            level,
            others,
            coefficients,
        ),
    decreases samples.len(),
{
    if samples.len() > 0 {
        let last = samples.len() - 1;
        assert forall|k: int| 0 <= k < last implies value(#[trigger] coefficients.drop_last()[k])
            == 0real || level(samples.drop_last()[k]) == level(others.drop_last()[k]) by {
            assert(coefficients[k] == coefficients.drop_last()[k]);
        }
        lemma_weightless_sample(
            value,
            level,
            samples.drop_last(),
            others.drop_last(),
            coefficients.drop_last(),
        );
        assert(value(coefficients[last]) == 0real || level(samples[last]) == level(others[last]));
        if value(coefficients[last]) == 0real {
            algebra::lemma_annihilates(level(samples[last]));
            algebra::lemma_annihilates(level(others[last]));
        }
    }
}

/// On every branch but the first, the oldest sample meets the prototype's zero
/// tail, in both banks.
pub proof fn oldest_coefficient_is_zero<K: Real>(
    bank: PfbView<K>,
    num_phases: usize,
    min_len: usize,
    lowpass: Seq<K>,
    phase: int,
)
    requires
        min_len > 1,
        bank.is_made_of(num_phases, min_len, lowpass),
        1 <= phase < num_phases,
    ensures
        number::is_zero(
            fractional_delay::branch(
                bank.interpolation,
                bank.num_phases,
                bank.taps_per_phase,
                phase,
            )[0],
        ),
        number::is_zero(
            fractional_delay::branch(
                bank.derivative,
                bank.num_phases,
                bank.taps_per_phase,
                phase,
            )[0],
        ),
{
    let (p, taps) = (num_phases as int, bank.taps_per_phase as int);
    let n = (taps - 1 - 0) * p + phase;
    algebra::lemma_last_tap(p, taps, phase);
    assert(lowpass.len() <= n < bank.interpolation.len());
    assert(number::is_zero(bank.interpolation[n]));
    assert(number::is_zero(bank.derivative[n]));
}

/// On every branch but the first, the oldest sample of a window has no weight:
/// two windows that differ in it alone give the same output of either bank.
pub proof fn oldest_sample_has_no_weight<K: Real, S: Sample<K>>(
    value: spec_fn(K) -> real,
    level: spec_fn(S) -> real,
    bank: PfbView<K>,
    num_phases: usize,
    min_len: usize,
    lowpass: Seq<K>,
    phase: int,
    window: Seq<S>,
    other: Seq<S>,
    outputs: (S, S),
    other_outputs: (S, S),
)
    requires
        exact::is_exact(value),
        is_linear(value, level),
        min_len > 1,
        bank.is_made_of(num_phases, min_len, lowpass),
        1 <= phase < num_phases,
        window.len() == bank.taps_per_phase,
        other.len() == window.len(),
        forall|k: int| 0 < k < window.len() ==> #[trigger] other[k] == window[k],
        bank.interpolates(phase, window, outputs.0),
        bank.differentiates(phase, window, outputs.1),
        bank.interpolates(phase, other, other_outputs.0),
        bank.differentiates(phase, other, other_outputs.1),
    ensures
        level(other_outputs.0) == level(outputs.0),
        level(other_outputs.1) == level(outputs.1),
{
    oldest_coefficient_is_zero(bank, num_phases, min_len, lowpass, phase);
    let interpolation = fractional_delay::branch(
        bank.interpolation,
        bank.num_phases,
        bank.taps_per_phase,
        phase,
    );
    let derivative = fractional_delay::branch(
        bank.derivative,
        bank.num_phases,
        bank.taps_per_phase,
        phase,
    );
    lemma_weighted_sum_level(value, level, window, interpolation, outputs.0);
    lemma_weighted_sum_level(value, level, other, interpolation, other_outputs.0);
    lemma_weighted_sum_level(value, level, window, derivative, outputs.1);
    lemma_weighted_sum_level(value, level, other, derivative, other_outputs.1);
    assert forall|k: int| 0 <= k < window.len() implies value(#[trigger] interpolation[k]) == 0real
        || level(window[k]) == level(other[k]) by {
        if k > 0 {
            assert(other[k] == window[k]);
        }
    }
    assert forall|k: int| 0 <= k < window.len() implies value(#[trigger] derivative[k]) == 0real
        || level(window[k]) == level(other[k]) by {
        if k > 0 {
            assert(other[k] == window[k]);
        }
    }
    lemma_weightless_sample(value, level, window, other, interpolation);
    lemma_weightless_sample(value, level, window, other, derivative);
}

proof fn lemma_central_difference_of_sums<K, S>(
    value: spec_fn(K) -> real,
    level: spec_fn(S) -> real,
    samples: Seq<S>,
    slope: Seq<K>,
    next: Seq<K>,
    previous: Seq<K>,
    factor: real,
)
    requires
        slope.len() == samples.len(),
        next.len() == samples.len(),
        previous.len() == samples.len(),
        forall|k: int|
            0 <= k < samples.len() ==> value(#[trigger] slope[k]) * 2real == factor * (value(
                next[k],
            ) - value(previous[k])),
    ensures
        weighted_level(value, level, samples, slope) * 2real == factor * (weighted_level(
            value,
            level,
            samples,
            next,
        ) - weighted_level(value, level, samples, previous)),
    decreases samples.len(),
{
    if samples.len() == 0 {
        algebra::lemma_annihilates(factor);
    } else {
        let last = samples.len() - 1;
        assert forall|k: int| 0 <= k < last implies value(#[trigger] slope.drop_last()[k]) * 2real
            == factor * (value(next.drop_last()[k]) - value(previous.drop_last()[k])) by {
            assert(slope[k] == slope.drop_last()[k]);
        }
        lemma_central_difference_of_sums(
            value,
            level,
            samples.drop_last(),
            slope.drop_last(),
            next.drop_last(),
            previous.drop_last(),
            factor,
        );
        assert(value(slope[last]) * 2real == factor * (value(next[last]) - value(previous[last])));
        algebra::lemma_central_term(
            weighted_level(value, level, samples.drop_last(), slope.drop_last()),
            weighted_level(value, level, samples.drop_last(), next.drop_last()),
            weighted_level(value, level, samples.drop_last(), previous.drop_last()),
            level(samples[last]),
            value(slope[last]),
            value(next[last]),
            value(previous[last]),
            factor,
        );
    }
}

/// A coefficient of the derivative bank, away from the ends of a branch range,
/// is half of `num_phases` times the difference of its neighbours in the
/// interpolation bank.
proof fn lemma_slope_coefficient<K: Real>(
    value: spec_fn(K) -> real,
    bank: PfbView<K>,
    num_phases: usize,
    min_len: usize,
    lowpass: Seq<K>,
    tap: int,
    phase: int,
)
    requires
        exact::is_exact(value),
        min_len > 1,
        bank.is_made_of(num_phases, min_len, lowpass),
        2 <= phase,
        phase + 2 <= num_phases,
        0 <= tap < bank.taps_per_phase,
    ensures
        ({
            let n = tap * num_phases + phase;
            value(bank.derivative[n]) * 2real == (num_phases as real) * (value(
                bank.interpolation[n + 1],
            ) - value(bank.interpolation[n - 1]))
        }),
{
    let (p, taps) = (num_phases as int, bank.taps_per_phase as int);
    let n = tap * p + phase;
    let (phases, two, scale) = choose|phases: K, two: K, scale: K|
        {
            &&& #[trigger] number::is_count(num_phases, phases)
            &&& number::is_count(2, two)
            &&& #[trigger] number::is_quotient(phases, two, scale)
            &&& fractional_delay::is_scaled_lowpass(lowpass, phases, bank.interpolation)
            &&& fractional_delay::is_derivative(
                bank.interpolation,
                lowpass.len() as int,
                scale,
                bank.derivative,
            )
        };
    assert(number::is_count(num_phases, phases) && number::is_count(2, two));
    assert(number::is_quotient(phases, two, scale));
    assert(value(scale) * 2real == num_phases as real);
    algebra::lemma_inner_tap(p, taps, tap, phase);
    if tap < taps - 1 {
        assert(0 < n < lowpass.len() - 1);
        let slope = bank.derivative[n];
        let (previous, next) = (bank.interpolation[n - 1], bank.interpolation[n + 1]);
        assert(fractional_delay::is_central_difference(previous, next, scale, slope));
        let rise = choose|rise: K|
            #[trigger] number::is_difference(next, previous, rise) && number::is_product(
                scale,
                rise,
                slope,
            );
        assert(number::is_difference(next, previous, rise));
        algebra::lemma_commutes(value(scale) * value(rise), 2real);
        algebra::lemma_associates(2real, value(scale), value(rise));
        algebra::lemma_commutes(2real, value(scale));
    } else {
        assert(lowpass.len() <= n - 1 && n + 1 < bank.interpolation.len());
        assert(number::is_zero(bank.derivative[n]));
        assert(number::is_zero(bank.interpolation[n - 1]));
        assert(number::is_zero(bank.interpolation[n + 1]));
        algebra::lemma_annihilates(num_phases as real);
    }
}

/// Away from the ends of the branch range, the derivative output is the
/// central difference of the neighbouring branches' interpolation outputs, in
/// units of one input sample: half of `num_phases` times their difference.
pub proof fn derivative_is_the_central_difference<K: Real, S: Sample<K>>(
    value: spec_fn(K) -> real,
    level: spec_fn(S) -> real,
    bank: PfbView<K>,
    num_phases: usize,
    min_len: usize,
    lowpass: Seq<K>,
    phase: int,
    window: Seq<S>,
    slope: S,
    next: S,
    previous: S,
)
    requires
        exact::is_exact(value),
        is_linear(value, level),
        min_len > 1,
        bank.is_made_of(num_phases, min_len, lowpass),
        2 <= phase,
        phase + 2 <= num_phases,
        window.len() == bank.taps_per_phase,
        bank.differentiates(phase, window, slope),
        bank.interpolates(phase + 1, window, next),
        bank.interpolates(phase - 1, window, previous),
    ensures
        level(slope) * 2real == (num_phases as real) * (level(next) - level(previous)),
{
    let (p, taps) = (bank.num_phases, bank.taps_per_phase);
    let slopes = fractional_delay::branch(bank.derivative, p, taps, phase);
    let ahead = fractional_delay::branch(bank.interpolation, p, taps, phase + 1);
    let behind = fractional_delay::branch(bank.interpolation, p, taps, phase - 1);
    lemma_weighted_sum_level(value, level, window, slopes, slope);
    lemma_weighted_sum_level(value, level, window, ahead, next);
    lemma_weighted_sum_level(value, level, window, behind, previous);
    assert forall|k: int| 0 <= k < window.len() implies value(#[trigger] slopes[k]) * 2real == (
    num_phases as real) * (value(ahead[k]) - value(behind[k])) by {
        let tap = taps - 1 - k;
        lemma_slope_coefficient(value, bank, num_phases, min_len, lowpass, tap, phase);
        assert(tap * p + (phase + 1) == tap * p + phase + 1);
        assert(tap * p + (phase - 1) == tap * p + phase - 1);
    }
    lemma_central_difference_of_sums(
        value,
        level,
        window,
        slopes,
        ahead,
        behind,
        num_phases as real,
    );
}

/// The coefficients read the same from both ends.
pub open spec fn is_symmetric<K>(coefficients: Seq<K>) -> bool {
    forall|n: int, m: int|
        #![trigger coefficients[n], coefficients[m]]
        0 <= n < coefficients.len() && m == coefficients.len() - 1 - n ==> coefficients[n]
            == coefficients[m]
}

/// The coefficients of the first branch are those of the low-pass at every
/// `num_phases`-th place, from the last to the first.
proof fn lemma_first_branch_places(num_phases: int, taps: int, k: int)
    requires
        num_phases > 0,
        0 <= k < taps,
    ensures
        0 <= (taps - 1 - k) * num_phases <= num_phases * (taps - 1),
        (taps - 1 - k) * num_phases + k * num_phases == num_phases * (taps - 1),
        num_phases * (taps - 1) < num_phases * taps,
{
    assert((taps - 1 - k) * num_phases + k * num_phases == num_phases * (taps - 1))
        by (nonlinear_arith);
    assert(num_phases * (taps - 1) + num_phases == num_phases * taps) by (nonlinear_arith);
    assert(0 <= k * num_phases && 0 <= (taps - 1 - k) * num_phases) by (nonlinear_arith)
        requires
            0 <= k < taps,
            num_phases > 0,
    ;
}

/// The first branch of a bank that is made of a symmetric low-pass is
/// symmetric: a linear-phase filter, centred on the group delay.
pub proof fn first_branch_is_symmetric<K: Real>(
    bank: PfbView<K>,
    num_phases: usize,
    min_len: usize,
    lowpass: Seq<K>,
)
    requires
        number::is_deterministic::<K>(),
        min_len > 0,
        bank.is_made_of(num_phases, min_len, lowpass),
        is_symmetric(lowpass),
    ensures
        is_symmetric(
            fractional_delay::branch(bank.interpolation, bank.num_phases, bank.taps_per_phase, 0),
        ),
{
    let (p, taps) = (bank.num_phases, bank.taps_per_phase);
    let first = fractional_delay::branch(bank.interpolation, p, taps, 0);
    assert forall|n: int, m: int|
        #![trigger first[n], first[m]]
        0 <= n < first.len() && m == first.len() - 1 - n implies first[n] == first[m] by {
        lemma_first_branch_places(p as int, taps as int, n);
        lemma_first_branch_places(p as int, taps as int, m);
        let (late, early) = ((taps - 1 - n) * p, (taps - 1 - m) * p);
        assert(early == n * p && early == lowpass.len() - 1 - late);
        assert(lowpass[late] == lowpass[early]);
        assert(first[n] == bank.interpolation[late] && first[m] == bank.interpolation[early]);
    }
}

proof fn lemma_weighted_level_from_the_front<K, S>(
    value: spec_fn(K) -> real,
    level: spec_fn(S) -> real,
    samples: Seq<S>,
    coefficients: Seq<K>,
)
    requires
        samples.len() > 0,
        coefficients.len() == samples.len(),
    ensures
        weighted_level(value, level, samples, coefficients) == level(samples[0]) * value(
            coefficients[0],
        ) + weighted_level(value, level, samples.drop_first(), coefficients.drop_first()),
    decreases samples.len(),
{
    let (fewer, less) = (samples.drop_last(), coefficients.drop_last());
    if samples.len() > 1 {
        lemma_weighted_level_from_the_front(value, level, fewer, less);
        assert(samples.drop_first().drop_last() =~= fewer.drop_first());
        assert(coefficients.drop_first().drop_last() =~= less.drop_first());
    } else {
        assert(weighted_level(value, level, fewer, less) == 0real);
    }
}

proof fn lemma_weighted_level_reversed<K, S>(
    value: spec_fn(K) -> real,
    level: spec_fn(S) -> real,
    samples: Seq<S>,
    coefficients: Seq<K>,
)
    requires
        coefficients.len() == samples.len(),
    ensures
        weighted_level(value, level, samples.reverse(), coefficients.reverse()) == weighted_level(
            value,
            level,
            samples,
            coefficients,
        ),
    decreases samples.len(),
{
    if samples.len() > 0 {
        let (fewer, less) = (samples.drop_first(), coefficients.drop_first());
        lemma_weighted_level_from_the_front(value, level, samples, coefficients);
        lemma_weighted_level_reversed(value, level, fewer, less);
        assert(samples.reverse().drop_last() =~= fewer.reverse());
        assert(coefficients.reverse().drop_last() =~= less.reverse());
    }
}

/// A weighted sum depends on the coefficients' values alone.
proof fn lemma_weighted_level_of_values<K, S>(
    value: spec_fn(K) -> real,
    level: spec_fn(S) -> real,
    samples: Seq<S>,
    coefficients: Seq<K>,
    others: Seq<K>,
)
    requires
        coefficients.len() == samples.len(),
        others.len() == samples.len(),
        forall|k: int|
            0 <= k < samples.len() ==> value(#[trigger] others[k]) == value(coefficients[k]),
    ensures
        weighted_level(value, level, samples, others) == weighted_level(
            value,
            level,
            samples,
            coefficients,
        ),
    decreases samples.len(),
{
    if samples.len() > 0 {
        assert forall|k: int| 0 <= k < samples.len() - 1 implies value(
            #[trigger] others.drop_last()[k],
        ) == value(coefficients.drop_last()[k]) by {
            assert(others.drop_last()[k] == others[k]);
        }
        lemma_weighted_level_of_values(
            value,
            level,
            samples.drop_last(),
            coefficients.drop_last(),
            others.drop_last(),
        );
        assert(value(others[samples.len() - 1]) == value(coefficients[samples.len() - 1]));
    }
}

/// Each filled coefficient of the interpolation bank is `num_phases` times that
/// of the low-pass.
proof fn lemma_scaled_coefficient<K: Real>(
    value: spec_fn(K) -> real,
    bank: PfbView<K>,
    num_phases: usize,
    min_len: usize,
    lowpass: Seq<K>,
    n: int,
)
    requires
        exact::is_exact(value),
        bank.is_made_of(num_phases, min_len, lowpass),
        0 <= n < bank.interpolation.len(),
    ensures
        n < lowpass.len() ==> value(bank.interpolation[n]) == value(lowpass[n]) * (
        num_phases as real),
        n >= lowpass.len() ==> value(bank.interpolation[n]) == 0real,
{
    let (phases, two, scale) = choose|phases: K, two: K, scale: K|
        {
            &&& #[trigger] number::is_count(num_phases, phases)
            &&& number::is_count(2, two)
            &&& #[trigger] number::is_quotient(phases, two, scale)
            &&& fractional_delay::is_scaled_lowpass(lowpass, phases, bank.interpolation)
            &&& fractional_delay::is_derivative(
                bank.interpolation,
                lowpass.len() as int,
                scale,
                bank.derivative,
            )
        };
    assert(number::is_count(num_phases, phases));
    if n < lowpass.len() {
        assert(number::is_product(lowpass[n], phases, bank.interpolation[n]));
    } else {
        assert(number::is_zero(bank.interpolation[n]));
    }
}

/// The first branch of a bank that is made of a symmetric low-pass does not
/// tell a window from the same window read backwards.
pub proof fn first_branch_is_linear_phase<K: Real, S: Sample<K>>(
    value: spec_fn(K) -> real,
    level: spec_fn(S) -> real,
    bank: PfbView<K>,
    num_phases: usize,
    min_len: usize,
    lowpass: Seq<K>,
    window: Seq<S>,
    output: S,
    reversed_output: S,
)
    requires
        exact::is_exact(value),
        is_linear(value, level),
        min_len > 0,
        bank.is_made_of(num_phases, min_len, lowpass),
        is_symmetric(lowpass),
        window.len() == bank.taps_per_phase,
        bank.interpolates(0, window, output),
        bank.interpolates(0, window.reverse(), reversed_output),
    ensures
        level(reversed_output) == level(output),
{
    let (p, taps) = (bank.num_phases, bank.taps_per_phase);
    let first = fractional_delay::branch(bank.interpolation, p, taps, 0);
    lemma_weighted_sum_level(value, level, window, first, output);
    lemma_weighted_sum_level(value, level, window.reverse(), first, reversed_output);
    lemma_weighted_level_reversed(value, level, window, first);
    assert forall|k: int| 0 <= k < taps implies value(#[trigger] first.reverse()[k]) == value(
        first[k],
    ) by {
        let m = taps - 1 - k;
        lemma_first_branch_places(p as int, taps as int, k);
        lemma_first_branch_places(p as int, taps as int, m);
        let (late, early) = ((taps - 1 - k) * p, (taps - 1 - m) * p);
        assert(early == k * p && early == lowpass.len() - 1 - late);
        assert(lowpass[late] == lowpass[early]);
        assert(first[k] == bank.interpolation[late] && first[m] == bank.interpolation[early]);
        lemma_scaled_coefficient(value, bank, num_phases, min_len, lowpass, late);
        lemma_scaled_coefficient(value, bank, num_phases, min_len, lowpass, early);
    }
    lemma_weighted_level_of_values(value, level, window.reverse(), first, first.reverse());
}

/// Where one coefficient alone is not zero, the weighted sum is its term.
proof fn lemma_single_weight<K, S>(
    value: spec_fn(K) -> real,
    level: spec_fn(S) -> real,
    samples: Seq<S>,
    coefficients: Seq<K>,
    place: int,
)
    requires
        coefficients.len() == samples.len(),
        forall|k: int|
            0 <= k < samples.len() && k != place ==> value(#[trigger] coefficients[k]) == 0real,
    ensures
        weighted_level(value, level, samples, coefficients) == if 0 <= place < samples.len() {
            level(samples[place]) * value(coefficients[place])
        } else {
            0real
        },
    decreases samples.len(),
{
    if samples.len() > 0 {
        let last = samples.len() - 1;
        assert forall|k: int| 0 <= k < last && k != place implies value(
            #[trigger] coefficients.drop_last()[k],
        ) == 0real by {
            assert(coefficients.drop_last()[k] == coefficients[k]);
        }
        lemma_single_weight(value, level, samples.drop_last(), coefficients.drop_last(), place);
        if place != last {
            assert(value(coefficients[last]) == 0real);
            algebra::lemma_annihilates(level(samples[last]));
        }
    }
}

/// The first branch is a pure integer delay where the low-pass is zero at every
/// `num_phases`-th place from its centre and one over `num_phases` there: its
/// output is the sample at the group delay.
pub proof fn first_branch_is_a_delay<K: Real, S: Sample<K>>(
    value: spec_fn(K) -> real,
    level: spec_fn(S) -> real,
    bank: PfbView<K>,
    num_phases: usize,
    min_len: usize,
    lowpass: Seq<K>,
    window: Seq<S>,
    output: S,
)
    requires
        exact::is_exact(value),
        is_linear(value, level),
        min_len > 0,
        bank.is_made_of(num_phases, min_len, lowpass),
        forall|tap: int|
            0 <= tap < bank.taps_per_phase && tap != bank.group_delay() ==> value(
                #[trigger] lowpass[tap * num_phases],
            ) == 0real,
        value(lowpass[bank.group_delay() * num_phases]) * (num_phases as real) == 1real,
        window.len() == bank.taps_per_phase,
        bank.interpolates(0, window, output),
    ensures
        level(output) == level(window[bank.group_delay() as int]),
{
    let (p, taps) = (bank.num_phases, bank.taps_per_phase);
    let centre = bank.group_delay() as int;
    let first = fractional_delay::branch(bank.interpolation, p, taps, 0);
    lemma_weighted_sum_level(value, level, window, first, output);
    assert forall|k: int| 0 <= k < taps && k != centre implies value(#[trigger] first[k])
        == 0real by {
        let tap = taps - 1 - k;
        lemma_first_branch_places(p as int, taps as int, k);
        let n = tap * num_phases;
        assert(value(lowpass[n]) == 0real);
        lemma_scaled_coefficient(value, bank, num_phases, min_len, lowpass, n);
        assert(first[k] == bank.interpolation[n]);
        algebra::lemma_annihilates(num_phases as real);
    }
    let n = centre * num_phases;
    lemma_first_branch_places(p as int, taps as int, centre);
    assert(taps - 1 - centre == centre);
    assert(first[centre] == bank.interpolation[n]);
    lemma_scaled_coefficient(value, bank, num_phases, min_len, lowpass, n);
    assert(value(first[centre]) == 1real);
    lemma_single_weight(value, level, window, first, centre);
}

/// The sum of the first `n` items, each taken by `of`.
pub open spec fn total<A>(of: spec_fn(A) -> real, items: Seq<A>, n: nat) -> real
    decreases n,
{
    if n == 0 {
        0real
    } else {
        total(of, items, (n - 1) as nat) + of(items[n - 1])
    }
}

/// The sum of the first `count` branches' weighted sums over a window.
spec fn branch_total<K, S>(
    value: spec_fn(K) -> real,
    level: spec_fn(S) -> real,
    window: Seq<S>,
    bank: Seq<K>,
    num_phases: nat,
    count: nat,
) -> real
    decreases count,
{
    if count == 0 {
        0real
    } else {
        let phase = count - 1;
        branch_total(value, level, window, bank, num_phases, phase as nat) + weighted_level(
            value,
            level,
            window,
            fractional_delay::branch(bank, num_phases, window.len(), phase),
        )
    }
}

/// The branches' weighted sums over a constant window are those over a shorter
/// one and the coefficients of the last tap.
proof fn lemma_branch_total_peels<K, S>(
    value: spec_fn(K) -> real,
    level: spec_fn(S) -> real,
    window: Seq<S>,
    bank: Seq<K>,
    num_phases: nat,
    count: nat,
    input: real,
)
    requires
        window.len() > 0,
        level(window[0]) == input,
    ensures
        branch_total(value, level, window, bank, num_phases, count) == branch_total(
            value,
            level,
            window.drop_first(),
            bank,
            num_phases,
            count,
        ) + input * (total(value, bank, ((window.len() - 1) * num_phases + count) as nat) - total(
            value,
            bank,
            ((window.len() - 1) * num_phases) as nat,
        )),
    decreases count,
{
    let taps = window.len();
    let start = (taps - 1) * num_phases;
    assert(start >= 0) by (nonlinear_arith)
        requires
            start == (taps - 1) * num_phases,
            taps > 0,
            num_phases >= 0,
    ;
    let before = total(value, bank, start as nat);
    if count == 0 {
        algebra::lemma_annihilates(input);
    } else {
        let phase = count - 1;
        lemma_branch_total_peels(value, level, window, bank, num_phases, phase as nat, input);
        let coefficients = fractional_delay::branch(bank, num_phases, taps, phase);
        let fewer = fractional_delay::branch(bank, num_phases, (taps - 1) as nat, phase);
        lemma_weighted_level_from_the_front(value, level, window, coefficients);
        assert(coefficients.drop_first() =~= fewer);
        assert(coefficients[0] == bank[start + phase]);
        let partial = total(value, bank, (start + phase) as nat);
        assert(total(value, bank, (start + count) as nat) == partial + value(bank[start + phase]));
        algebra::lemma_distributes(input, partial - before, value(bank[start + phase]));
    }
}

proof fn lemma_branch_total_is_the_bank<K, S>(
    value: spec_fn(K) -> real,
    level: spec_fn(S) -> real,
    window: Seq<S>,
    bank: Seq<K>,
    num_phases: nat,
    input: real,
)
    requires
        forall|k: int| 0 <= k < window.len() ==> level(#[trigger] window[k]) == input,
    ensures
        branch_total(value, level, window, bank, num_phases, num_phases) == input * total(
            value,
            bank,
            window.len() * num_phases,
        ),
    decreases window.len(),
{
    if window.len() == 0 {
        lemma_empty_branch_total(value, level, window, bank, num_phases, num_phases);
        assert(window.len() * num_phases == 0) by (nonlinear_arith)
            requires
                window.len() == 0,
        ;
        algebra::lemma_annihilates(input);
    } else {
        let taps = window.len();
        let rest = window.drop_first();
        assert(level(window[0]) == input);
        assert forall|k: int| 0 <= k < rest.len() implies level(#[trigger] rest[k]) == input by {
            assert(rest[k] == window[k + 1]);
        }
        lemma_branch_total_peels(value, level, window, bank, num_phases, num_phases, input);
        lemma_branch_total_is_the_bank(value, level, rest, bank, num_phases, input);
        assert((taps - 1) * num_phases + num_phases == taps * num_phases) by (nonlinear_arith);
        assert((taps - 1) * num_phases >= 0) by (nonlinear_arith)
            requires
                taps > 0,
                num_phases >= 0,
        ;
        assert(rest.len() * num_phases == (taps - 1) * num_phases);
        let before = total(value, bank, ((taps - 1) * num_phases) as nat);
        let after = total(value, bank, taps * num_phases);
        algebra::lemma_distributes(input, before, after - before);
    }
}

proof fn lemma_empty_branch_total<K, S>(
    value: spec_fn(K) -> real,
    level: spec_fn(S) -> real,
    window: Seq<S>,
    bank: Seq<K>,
    num_phases: nat,
    count: nat,
)
    requires
        window.len() == 0,
    ensures
        branch_total(value, level, window, bank, num_phases, count) == 0real,
    decreases count,
{
    if count > 0 {
        lemma_empty_branch_total(value, level, window, bank, num_phases, (count - 1) as nat);
    }
}

/// The interpolation bank's coefficients add up to `num_phases` times what the
/// low-pass's do.
proof fn lemma_total_of_the_bank<K: Real>(
    value: spec_fn(K) -> real,
    bank: PfbView<K>,
    num_phases: usize,
    min_len: usize,
    lowpass: Seq<K>,
    n: nat,
)
    requires
        exact::is_exact(value),
        bank.is_made_of(num_phases, min_len, lowpass),
        n <= bank.interpolation.len(),
    ensures
        total(value, bank.interpolation, n) == total(
            value,
            lowpass,
            if n < lowpass.len() {
                n
            } else {
                lowpass.len()
            },
        ) * (num_phases as real),
    decreases n,
{
    let phases = num_phases as real;
    if n == 0 {
        algebra::lemma_annihilates(phases);
    } else {
        let last = n - 1;
        lemma_total_of_the_bank(value, bank, num_phases, min_len, lowpass, last as nat);
        lemma_scaled_coefficient(value, bank, num_phases, min_len, lowpass, last);
        if n <= lowpass.len() {
            algebra::lemma_distributes(
                phases,
                total(value, lowpass, last as nat),
                value(lowpass[last]),
            );
        }
    }
}

/// What the branches give for a constant input adds up to the gain of the bank:
/// `num_phases` times what the low-pass's coefficients add up to. So the
/// branches of a low-pass of unit gain give, on average, the constant itself.
pub proof fn branches_average_to_the_lowpass_gain<K: Real, S: Sample<K>>(
    value: spec_fn(K) -> real,
    level: spec_fn(S) -> real,
    bank: PfbView<K>,
    num_phases: usize,
    min_len: usize,
    lowpass: Seq<K>,
    window: Seq<S>,
    input: real,
    outputs: Seq<S>,
)
    requires
        exact::is_exact(value),
        is_linear(value, level),
        min_len > 0,
        bank.is_made_of(num_phases, min_len, lowpass),
        window.len() == bank.taps_per_phase,
        forall|k: int| 0 <= k < window.len() ==> level(#[trigger] window[k]) == input,
        outputs.len() == num_phases,
        forall|phase: int|
            0 <= phase < num_phases ==> bank.interpolates(
                phase,
                window,
                #[trigger] outputs[phase],
            ),
    ensures
        total(level, outputs, num_phases as nat) == input * (total(value, lowpass, lowpass.len())
            * (num_phases as real)),
        total(value, lowpass, lowpass.len()) == 1real ==> total(level, outputs, num_phases as nat)
            == input * (num_phases as real),
{
    let (p, taps) = (bank.num_phases, bank.taps_per_phase);
    lemma_total_of_outputs(value, level, bank, window, outputs, p);
    lemma_branch_total_is_the_bank(value, level, window, bank.interpolation, p, input);
    assert(p * taps == taps * p) by (nonlinear_arith);
    assert(p * (taps - 1) + p == p * taps) by (nonlinear_arith);
    lemma_total_of_the_bank(value, bank, num_phases, min_len, lowpass, p * taps);
}

proof fn lemma_total_of_outputs<K: Real, S: Sample<K>>(
    value: spec_fn(K) -> real,
    level: spec_fn(S) -> real,
    bank: PfbView<K>,
    window: Seq<S>,
    outputs: Seq<S>,
    count: nat,
)
    requires
        is_linear(value, level),
        window.len() == bank.taps_per_phase,
        count <= outputs.len(),
        outputs.len() == bank.num_phases,
        forall|phase: int|
            0 <= phase < outputs.len() ==> bank.interpolates(
                phase,
                window,
                #[trigger] outputs[phase],
            ),
    ensures
        total(level, outputs, count) == branch_total(
            value,
            level,
            window,
            bank.interpolation,
            bank.num_phases,
            count,
        ),
    decreases count,
{
    if count > 0 {
        let phase = count - 1;
        lemma_total_of_outputs(value, level, bank, window, outputs, phase as nat);
        assert(bank.interpolates(phase, window, outputs[phase]));
        let coefficients = fractional_delay::branch(
            bank.interpolation,
            bank.num_phases,
            bank.taps_per_phase,
            phase,
        );
        lemma_weighted_sum_level(value, level, window, coefficients, outputs[phase]);
    }
}

proof fn lemma_constant_weighted_level<K, S>(
    value: spec_fn(K) -> real,
    level: spec_fn(S) -> real,
    samples: Seq<S>,
    coefficients: Seq<K>,
    input: real,
    n: nat,
)
    requires
        coefficients.len() == samples.len(),
        n <= samples.len(),
        forall|k: int| 0 <= k < samples.len() ==> level(#[trigger] samples[k]) == input,
    ensures
        weighted_level(value, level, samples.take(n as int), coefficients.take(n as int)) == input
            * total(value, coefficients, n),
    decreases n,
{
    if n == 0 {
        algebra::lemma_annihilates(input);
    } else {
        let less = (n - 1) as nat;
        lemma_constant_weighted_level(value, level, samples, coefficients, input, less);
        assert(samples.take(n as int).drop_last() =~= samples.take(less as int));
        assert(coefficients.take(n as int).drop_last() =~= coefficients.take(less as int));
        assert(level(samples[less as int]) == input);
        algebra::lemma_distributes(
            input,
            total(value, coefficients, less),
            value(coefficients[less as int]),
        );
    }
}

/// A branch gives for a constant input that constant times its gain, the sum of
/// its coefficients: every branch of unit gain passes a constant.
pub proof fn constant_input_meets_the_branch_gain<K: Real, S: Sample<K>>(
    value: spec_fn(K) -> real,
    level: spec_fn(S) -> real,
    bank: PfbView<K>,
    phase: int,
    window: Seq<S>,
    input: real,
    outputs: (S, S),
)
    requires
        is_linear(value, level),
        window.len() == bank.taps_per_phase,
        forall|k: int| 0 <= k < window.len() ==> level(#[trigger] window[k]) == input,
        bank.interpolates(phase, window, outputs.0),
        bank.differentiates(phase, window, outputs.1),
    ensures
        level(outputs.0) == input * total(
            value,
            fractional_delay::branch(
                bank.interpolation,
                bank.num_phases,
                bank.taps_per_phase,
                phase,
            ),
            bank.taps_per_phase,
        ),
        level(outputs.1) == input * total(
            value,
            fractional_delay::branch(bank.derivative, bank.num_phases, bank.taps_per_phase, phase),
            bank.taps_per_phase,
        ),
{
    let (p, taps) = (bank.num_phases, bank.taps_per_phase);
    let interpolation = fractional_delay::branch(bank.interpolation, p, taps, phase);
    let derivative = fractional_delay::branch(bank.derivative, p, taps, phase);
    lemma_weighted_sum_level(value, level, window, interpolation, outputs.0);
    lemma_weighted_sum_level(value, level, window, derivative, outputs.1);
    lemma_constant_weighted_level(value, level, window, interpolation, input, taps);
    lemma_constant_weighted_level(value, level, window, derivative, input, taps);
    assert(window.take(taps as int) =~= window);
    assert(interpolation.take(taps as int) =~= interpolation);
    assert(derivative.take(taps as int) =~= derivative);
}

/// The derivative of a symmetric low-pass is antisymmetric.
proof fn lemma_derivative_is_antisymmetric<K: Real>(
    value: spec_fn(K) -> real,
    bank: PfbView<K>,
    num_phases: usize,
    min_len: usize,
    lowpass: Seq<K>,
    n: int,
)
    requires
        exact::is_exact(value),
        bank.is_made_of(num_phases, min_len, lowpass),
        is_symmetric(lowpass),
        3 <= lowpass.len() <= bank.interpolation.len(),
        0 <= n < lowpass.len(),
    ensures
        value(bank.derivative[lowpass.len() - 1 - n]) == -value(bank.derivative[n]),
    decreases n,
{
    let filled = lowpass.len() as int;
    let m = filled - 1 - n;
    if n > m {
        lemma_derivative_is_antisymmetric(value, bank, num_phases, min_len, lowpass, m);
    } else {
        let (phases, two, scale) = choose|phases: K, two: K, scale: K|
            {
                &&& #[trigger] number::is_count(num_phases, phases)
                &&& number::is_count(2, two)
                &&& #[trigger] number::is_quotient(phases, two, scale)
                &&& fractional_delay::is_scaled_lowpass(lowpass, phases, bank.interpolation)
                &&& fractional_delay::is_derivative(
                    bank.interpolation,
                    filled,
                    scale,
                    bank.derivative,
                )
            };
        assert(fractional_delay::is_derivative(bank.interpolation, filled, scale, bank.derivative));
        if n == 0 {
            let falling = choose|falling: K|
                #[trigger] number::is_negation(scale, falling) && number::is_product(
                    falling,
                    bank.interpolation[filled - 2],
                    bank.derivative[filled - 1],
                );
            assert(number::is_negation(scale, falling));
            assert(lowpass[1] == lowpass[filled - 2]);
            lemma_scaled_coefficient(value, bank, num_phases, min_len, lowpass, 1);
            lemma_scaled_coefficient(value, bank, num_phases, min_len, lowpass, filled - 2);
            algebra::lemma_negates(value(scale), value(bank.interpolation[1]));
        } else {
            lemma_central_difference_value(value, bank.interpolation, scale, n, bank.derivative);
            lemma_central_difference_value(value, bank.interpolation, scale, m, bank.derivative);
            assert(lowpass[n - 1] == lowpass[m + 1] && lowpass[n + 1] == lowpass[m - 1]);
            lemma_scaled_coefficient(value, bank, num_phases, min_len, lowpass, n - 1);
            lemma_scaled_coefficient(value, bank, num_phases, min_len, lowpass, n + 1);
            lemma_scaled_coefficient(value, bank, num_phases, min_len, lowpass, m - 1);
            lemma_scaled_coefficient(value, bank, num_phases, min_len, lowpass, m + 1);
            let rise = value(bank.interpolation[n + 1]) - value(bank.interpolation[n - 1]);
            algebra::lemma_negates(value(scale), rise);
        }
    }
}

proof fn lemma_central_difference_value<K: Real>(
    value: spec_fn(K) -> real,
    prototype: Seq<K>,
    scale: K,
    n: int,
    bank: Seq<K>,
)
    requires
        exact::is_exact(value),
        fractional_delay::is_central_difference(prototype[n - 1], prototype[n + 1], scale, bank[n]),
    ensures
        value(bank[n]) == value(scale) * (value(prototype[n + 1]) - value(prototype[n - 1])),
{
    let rise = choose|rise: K|
        #[trigger] number::is_difference(prototype[n + 1], prototype[n - 1], rise)
            && number::is_product(scale, rise, bank[n]);
    assert(number::is_difference(prototype[n + 1], prototype[n - 1], rise));
    assert(number::is_product(scale, rise, bank[n]));
}

proof fn lemma_weighted_level_negated<K, S>(
    value: spec_fn(K) -> real,
    level: spec_fn(S) -> real,
    samples: Seq<S>,
    coefficients: Seq<K>,
    others: Seq<K>,
)
    requires
        coefficients.len() == samples.len(),
        others.len() == samples.len(),
        forall|k: int|
            0 <= k < samples.len() ==> value(#[trigger] others[k]) == -value(coefficients[k]),
    ensures
        weighted_level(value, level, samples, others) == -weighted_level(
            value,
            level,
            samples,
            coefficients,
        ),
    decreases samples.len(),
{
    if samples.len() > 0 {
        let last = samples.len() - 1;
        assert forall|k: int| 0 <= k < last implies value(#[trigger] others.drop_last()[k])
            == -value(coefficients.drop_last()[k]) by {
            assert(others.drop_last()[k] == others[k]);
        }
        lemma_weighted_level_negated(
            value,
            level,
            samples.drop_last(),
            coefficients.drop_last(),
            others.drop_last(),
        );
        assert(value(others[last]) == -value(coefficients[last]));
        algebra::lemma_negates(level(samples[last]), value(coefficients[last]));
    }
}

/// A constant has no derivative: the first branch of the derivative bank of a
/// symmetric low-pass gives nothing for a constant input.
pub proof fn constant_input_has_no_derivative<K: Real, S: Sample<K>>(
    value: spec_fn(K) -> real,
    level: spec_fn(S) -> real,
    bank: PfbView<K>,
    num_phases: usize,
    min_len: usize,
    lowpass: Seq<K>,
    window: Seq<S>,
    input: real,
    output: S,
)
    requires
        exact::is_exact(value),
        is_linear(value, level),
        min_len > 1,
        bank.is_made_of(num_phases, min_len, lowpass),
        is_symmetric(lowpass),
        window.len() == bank.taps_per_phase,
        forall|k: int| 0 <= k < window.len() ==> level(#[trigger] window[k]) == input,
        bank.differentiates(0, window, output),
    ensures
        level(output) == 0real,
{
    let (p, taps) = (bank.num_phases, bank.taps_per_phase);
    let first = fractional_delay::branch(bank.derivative, p, taps, 0);
    lemma_weighted_sum_level(value, level, window, first, output);
    lemma_weighted_level_reversed(value, level, window, first);
    assert(taps > 1) by {
        fractional_delay::subfilter_is_odd_and_spans(min_len as nat, num_phases as nat);
        assert(taps == 1 ==> p * (taps - 1) == 0) by (nonlinear_arith);
    }
    assert(3 <= p * (taps - 1) + 1 <= p * taps) by (nonlinear_arith)
        requires
            p > 0,
            taps >= 3,
    ;
    assert forall|k: int| 0 <= k < taps implies value(#[trigger] first.reverse()[k]) == -value(
        first[k],
    ) by {
        let m = taps - 1 - k;
        lemma_first_branch_places(p as int, taps as int, k);
        lemma_first_branch_places(p as int, taps as int, m);
        let (late, early) = ((taps - 1 - k) * p, (taps - 1 - m) * p);
        assert(early == k * p && early == lowpass.len() - 1 - late);
        assert(first[k] == bank.derivative[late] && first[m] == bank.derivative[early]);
        lemma_derivative_is_antisymmetric(value, bank, num_phases, min_len, lowpass, late);
    }
    assert forall|k: int| 0 <= k < window.len() implies value(#[trigger] first.reverse()[k])
        == 0real || level(window.reverse()[k]) == level(window[k]) by {
        assert(level(window[window.len() - 1 - k]) == input && level(window[k]) == input);
    }
    lemma_weightless_sample(value, level, window.reverse(), window, first.reverse());
    lemma_weighted_level_negated(value, level, window, first, first.reverse());
}

/// What coefficient `n` of the interpolation bank weighs: `num_phases` times
/// that of the low-pass, and nothing outside it.
pub open spec fn tap_weight<K>(
    value: spec_fn(K) -> real,
    lowpass: Seq<K>,
    num_phases: usize,
    n: int,
) -> real {
    if 0 <= n < lowpass.len() {
        value(lowpass[n]) * (num_phases as real)
    } else {
        0real
    }
}

/// Twice what coefficient `n` of the derivative bank weighs: `num_phases` times
/// the difference of its neighbours' weights, and nothing past the low-pass.
pub open spec fn doubled_slope<K>(
    value: spec_fn(K) -> real,
    lowpass: Seq<K>,
    num_phases: usize,
    n: int,
) -> real {
    if 0 <= n < lowpass.len() {
        (num_phases as real) * (tap_weight(value, lowpass, num_phases, n + 1) - tap_weight(
            value,
            lowpass,
            num_phases,
            n - 1,
        ))
    } else {
        0real
    }
}

/// The first `n` samples of a window of `taps`, each times the weight of the
/// coefficient that lies `num_phases` times as many places as there are newer
/// samples after coefficient `phase`.
pub open spec fn filtered<K, S>(
    value: spec_fn(K) -> real,
    level: spec_fn(S) -> real,
    lowpass: Seq<K>,
    num_phases: usize,
    phase: int,
    window: Seq<S>,
    n: nat,
) -> real
    decreases n,
{
    if n == 0 {
        0real
    } else {
        filtered(value, level, lowpass, num_phases, phase, window, (n - 1) as nat) + level(
            window[n - 1],
        ) * tap_weight(value, lowpass, num_phases, (window.len() - n) * num_phases + phase)
    }
}

/// As [`filtered`], of twice the derivative's weights.
pub open spec fn doubly_differentiated<K, S>(
    value: spec_fn(K) -> real,
    level: spec_fn(S) -> real,
    lowpass: Seq<K>,
    num_phases: usize,
    phase: int,
    window: Seq<S>,
    n: nat,
) -> real
    decreases n,
{
    if n == 0 {
        0real
    } else {
        doubly_differentiated(
            value,
            level,
            lowpass,
            num_phases,
            phase,
            window,
            (n - 1) as nat,
        ) + level(window[n - 1]) * doubled_slope(
            value,
            lowpass,
            num_phases,
            (window.len() - n) * num_phases + phase,
        )
    }
}

/// Each coefficient of the derivative bank is half of `num_phases` times the
/// difference of its neighbours in the low-pass, which counts as zero outside
/// its ends; past its end there is none.
pub proof fn derivative_coefficient_is_the_central_difference<K: Real>(
    value: spec_fn(K) -> real,
    bank: PfbView<K>,
    num_phases: usize,
    min_len: usize,
    lowpass: Seq<K>,
    n: int,
)
    requires
        exact::is_exact(value),
        min_len > 1,
        bank.is_made_of(num_phases, min_len, lowpass),
        0 <= n < bank.derivative.len(),
    ensures
        value(bank.derivative[n]) * 2real == doubled_slope(value, lowpass, num_phases, n),
{
    let filled = lowpass.len() as int;
    let (p, taps) = (bank.num_phases, bank.taps_per_phase);
    fractional_delay::subfilter_is_odd_and_spans(min_len as nat, num_phases as nat);
    assert(taps == 1 ==> p * (taps - 1) == 0) by (nonlinear_arith);
    assert(3 <= p * (taps - 1) + 1 <= p * taps) by (nonlinear_arith)
        requires
            p > 0,
            taps >= 3,
    ;
    let (phases, two, scale) = choose|phases: K, two: K, scale: K|
        {
            &&& #[trigger] number::is_count(num_phases, phases)
            &&& number::is_count(2, two)
            &&& #[trigger] number::is_quotient(phases, two, scale)
            &&& fractional_delay::is_scaled_lowpass(lowpass, phases, bank.interpolation)
            &&& fractional_delay::is_derivative(
                bank.interpolation,
                filled,
                scale,
                bank.derivative,
            )
        };
    assert(number::is_count(num_phases, phases) && number::is_count(2, two));
    assert(number::is_quotient(phases, two, scale));
    assert(value(scale) * 2real == num_phases as real);
    let slope = value(bank.derivative[n]);
    if n >= filled {
        assert(number::is_zero(bank.derivative[n]));
    } else {
        let rise = tap_weight(value, lowpass, num_phases, n + 1) - tap_weight(
            value,
            lowpass,
            num_phases,
            n - 1,
        );
        assert(slope == value(scale) * rise) by {
            if n == 0 {
                lemma_scaled_coefficient(value, bank, num_phases, min_len, lowpass, 1);
            } else if n < filled - 1 {
                lemma_central_difference_value(
                    value,
                    bank.interpolation,
                    scale,
                    n,
                    bank.derivative,
                );
                lemma_scaled_coefficient(value, bank, num_phases, min_len, lowpass, n - 1);
                lemma_scaled_coefficient(value, bank, num_phases, min_len, lowpass, n + 1);
            } else {
                let falling = choose|falling: K|
                    #[trigger] number::is_negation(scale, falling) && number::is_product(
                        falling,
                        bank.interpolation[filled - 2],
                        bank.derivative[filled - 1],
                    );
                assert(number::is_negation(scale, falling));
                lemma_scaled_coefficient(value, bank, num_phases, min_len, lowpass, filled - 2);
                let last = value(bank.interpolation[filled - 2]);
                algebra::lemma_negates(value(scale), last);
            }
        }
        algebra::lemma_commutes(value(scale) * rise, 2real);
        algebra::lemma_associates(2real, value(scale), rise);
        algebra::lemma_commutes(2real, value(scale));
    }
}

proof fn lemma_filtered<K: Real, S>(
    value: spec_fn(K) -> real,
    level: spec_fn(S) -> real,
    bank: PfbView<K>,
    num_phases: usize,
    min_len: usize,
    lowpass: Seq<K>,
    phase: int,
    window: Seq<S>,
    n: nat,
)
    requires
        exact::is_exact(value),
        min_len > 1,
        bank.is_made_of(num_phases, min_len, lowpass),
        0 <= phase < num_phases,
        window.len() == bank.taps_per_phase,
        n <= window.len(),
    ensures
        ({
            let (p, taps) = (bank.num_phases, bank.taps_per_phase);
            let first = window.take(n as int);
            let interpolation = fractional_delay::branch(bank.interpolation, p, taps, phase);
            let derivative = fractional_delay::branch(bank.derivative, p, taps, phase);
            &&& weighted_level(value, level, first, interpolation.take(n as int)) == filtered(
                value,
                level,
                lowpass,
                num_phases,
                phase,
                window,
                n,
            )
            &&& weighted_level(value, level, first, derivative.take(n as int)) * 2real
                == doubly_differentiated(value, level, lowpass, num_phases, phase, window, n)
        }),
    decreases n,
{
    if n > 0 {
        let (p, taps) = (bank.num_phases, bank.taps_per_phase);
        let less = (n - 1) as nat;
        lemma_filtered(value, level, bank, num_phases, min_len, lowpass, phase, window, less);
        let interpolation = fractional_delay::branch(bank.interpolation, p, taps, phase);
        let derivative = fractional_delay::branch(bank.derivative, p, taps, phase);
        assert(window.take(n as int).drop_last() =~= window.take(less as int));
        assert(interpolation.take(n as int).drop_last() =~= interpolation.take(less as int));
        assert(derivative.take(n as int).drop_last() =~= derivative.take(less as int));
        let tap = taps - 1 - less;
        let place = tap * p + phase;
        algebra::lemma_tap_in_bank(p as int, taps as int, tap, phase);
        assert((window.len() - n) * num_phases + phase == place);
        lemma_scaled_coefficient(value, bank, num_phases, min_len, lowpass, place);
        derivative_coefficient_is_the_central_difference(
            value,
            bank,
            num_phases,
            min_len,
            lowpass,
            place,
        );
        let x = level(window[less as int]);
        let d = value(bank.derivative[place]);
        let before = weighted_level(
            value,
            level,
            window.take(less as int),
            derivative.take(less as int),
        );
        algebra::lemma_distributes(2real, before, x * d);
        algebra::lemma_associates(x, d, 2real);
    }
}

/// The outputs of branch `phase` are the samples of the window, each times the
/// low-pass coefficient that meets it: the newest sample meets coefficient
/// `phase`, and each older one the coefficient `num_phases` places further on.
/// The interpolation has a gain of `num_phases`; the derivative takes central
/// differences, per input sample.
pub proof fn outputs_weigh_the_window_by_the_lowpass<K: Real, S: Sample<K>>(
    value: spec_fn(K) -> real,
    level: spec_fn(S) -> real,
    bank: PfbView<K>,
    num_phases: usize,
    min_len: usize,
    lowpass: Seq<K>,
    phase: int,
    window: Seq<S>,
    outputs: (S, S),
)
    requires
        exact::is_exact(value),
        is_linear(value, level),
        min_len > 1,
        bank.is_made_of(num_phases, min_len, lowpass),
        0 <= phase < num_phases,
        window.len() == bank.taps_per_phase,
        bank.interpolates(phase, window, outputs.0),
        bank.differentiates(phase, window, outputs.1),
    ensures
        level(outputs.0) == filtered(
            value,
            level,
            lowpass,
            num_phases,
            phase,
            window,
            window.len(),
        ),
        level(outputs.1) * 2real == doubly_differentiated(
            value,
            level,
            lowpass,
            num_phases,
            phase,
            window,
            window.len(),
        ),
{
    let (p, taps) = (bank.num_phases, bank.taps_per_phase);
    let interpolation = fractional_delay::branch(bank.interpolation, p, taps, phase);
    let derivative = fractional_delay::branch(bank.derivative, p, taps, phase);
    lemma_weighted_sum_level(value, level, window, interpolation, outputs.0);
    lemma_weighted_sum_level(value, level, window, derivative, outputs.1);
    lemma_filtered(value, level, bank, num_phases, min_len, lowpass, phase, window, taps);
    assert(window.take(taps as int) =~= window);
    assert(interpolation.take(taps as int) =~= interpolation);
    assert(derivative.take(taps as int) =~= derivative);
}

// What holds of rounded arithmetic too.

/// A finite sample times a zero coefficient adds nothing to silence. On
/// floating-point numbers too: zero times a finite number is a zero of either
/// sign, and zero plus either is zero.
pub open spec fn is_muted_by_zero<K: Real, S: Sample<K>>(finite: spec_fn(S) -> bool) -> bool {
    forall|x: S, zero: K, silence: S, term: S, r: S|
        {
            &&& finite(x)
            &&& number::is_zero(zero)
            &&& number::is_silence::<K, S>(silence)
            &&& #[trigger] number::is_scaling(x, zero, term)
            &&& #[trigger] number::is_mix::<K, S>(silence, term, r)
        } ==> r == silence
}

/// Where each operation of the number type has one result, so has each
/// operation on real and on complex samples.
pub proof fn filtering_is_deterministic<T: Real>()
    requires
        number::is_deterministic::<T>(),
    ensures
        number::is_deterministic_on::<T, T>(),
        number::is_deterministic_on::<T, Complex<T>>(),
{
    assert forall|r: T, q: T| #[trigger]
        number::is_silence::<T, T>(r) && #[trigger] number::is_silence::<T, T>(q) implies r
        == q by {
        assert(number::is_zero(r) && number::is_zero(q));
    }
    assert forall|a: T, b: T, r: T, q: T| #[trigger]
        number::is_mix::<T, T>(a, b, r) && #[trigger] number::is_mix::<T, T>(a, b, q) implies r
        == q by {
        assert(number::is_sum(a, b, r) && number::is_sum(a, b, q));
    }
    assert forall|a: T, gain: T, r: T, q: T| #[trigger]
        number::is_scaling::<T, T>(a, gain, r) && #[trigger] number::is_scaling::<T, T>(
        a,
        gain,
        q,
    ) implies r == q by {
        assert(number::is_product(a, gain, r) && number::is_product(a, gain, q));
    }
    assert forall|r: Complex<T>, q: Complex<T>| #[trigger]
        number::is_silence::<T, Complex<T>>(r) && #[trigger] number::is_silence::<T, Complex<T>>(
        q,
    ) implies r == q by {
        assert(number::is_zero(r.re) && number::is_zero(q.re));
        assert(number::is_zero(r.im) && number::is_zero(q.im));
    }
    assert forall|a: Complex<T>, b: Complex<T>, r: Complex<T>, q: Complex<T>| #[trigger]
        number::is_mix::<T, Complex<T>>(a, b, r) && #[trigger] number::is_mix::<T, Complex<T>>(
        a,
        b,
        q,
    ) implies r == q by {
        assert(complex::is_complex_sum(a, b, r) && complex::is_complex_sum(a, b, q));
    }
    assert forall|a: Complex<T>, gain: T, r: Complex<T>, q: Complex<T>| #[trigger]
        number::is_scaling::<T, Complex<T>>(a, gain, r) && #[trigger] number::is_scaling::<
        T,
        Complex<T>,
    >(a, gain, q) implies r == q by {
        assert(complex::is_complex_scaling(a, gain, r) && complex::is_complex_scaling(a, gain, q));
    }
}

/// Where a finite real sample is muted by a zero coefficient, so is a complex
/// one with finite parts.
pub proof fn finite_parts_are_muted_by_zero<T: Real>(finite: spec_fn(T) -> bool)
    requires
        forall|x: T, zero: T, silence: T, term: T, r: T|
            {
                &&& finite(x)
                &&& number::is_zero(zero)
                &&& number::is_zero(silence)
                &&& #[trigger] number::is_product(x, zero, term)
                &&& #[trigger] number::is_sum(silence, term, r)
            } ==> r == silence,
    ensures
        is_muted_by_zero::<T, T>(finite),
        is_muted_by_zero::<T, Complex<T>>(|z: Complex<T>| finite(z.re) && finite(z.im)),
{
    assert forall|x: T, zero: T, silence: T, term: T, r: T|
        {
            &&& finite(x)
            &&& number::is_zero(zero)
            &&& number::is_silence::<T, T>(silence)
            &&& #[trigger] number::is_scaling::<T, T>(x, zero, term)
            &&& #[trigger] number::is_mix::<T, T>(silence, term, r)
        } implies r == silence by {
        assert(number::is_product(x, zero, term) && number::is_sum(silence, term, r));
    }
    let both = |z: Complex<T>| finite(z.re) && finite(z.im);
    assert forall|x: Complex<T>, zero: T, silence: Complex<T>, term: Complex<T>, r: Complex<T>|
        {
            &&& both(x)
            &&& number::is_zero(zero)
            &&& number::is_silence::<T, Complex<T>>(silence)
            &&& #[trigger] number::is_scaling::<T, Complex<T>>(x, zero, term)
            &&& #[trigger] number::is_mix::<T, Complex<T>>(silence, term, r)
        } implies r == silence by {
        assert(complex::is_complex_scaling(x, zero, term));
        assert(complex::is_complex_sum(silence, term, r));
        assert(number::is_product(x.re, zero, term.re) && number::is_product(x.im, zero, term.im));
        assert(number::is_sum(silence.re, term.re, r.re));
        assert(number::is_sum(silence.im, term.im, r.im));
    }
}

/// A first sample that is muted does not show in a weighted sum.
proof fn lemma_muted_sample<K: Real, S: Sample<K>>(
    finite: spec_fn(S) -> bool,
    samples: Seq<S>,
    others: Seq<S>,
    coefficients: Seq<K>,
    r: S,
    q: S,
)
    requires
        number::is_deterministic_on::<K, S>(),
        is_muted_by_zero::<K, S>(finite),
        samples.len() > 0,
        others.len() == samples.len(),
        coefficients.len() == samples.len(),
        number::is_zero(coefficients[0]),
        finite(samples[0]),
        finite(others[0]),
        forall|k: int| 0 < k < samples.len() ==> #[trigger] others[k] == samples[k],
        fractional_delay::is_weighted_sum(samples, coefficients, r),
        fractional_delay::is_weighted_sum(others, coefficients, q),
    ensures
        r == q,
    decreases samples.len(),
{
    let (partial, term) = choose|partial: S, term: S|
        {
            &&& fractional_delay::is_weighted_sum(
                samples.drop_last(),
                coefficients.drop_last(),
                partial,
            )
            &&& number::is_scaling(samples.last(), coefficients.last(), term)
            &&& #[trigger] number::is_mix::<K, S>(partial, term, r)
        };
    let (other_partial, other_term) = choose|partial: S, term: S|
        {
            &&& fractional_delay::is_weighted_sum(
                others.drop_last(),
                coefficients.drop_last(),
                partial,
            )
            &&& number::is_scaling(others.last(), coefficients.last(), term)
            &&& #[trigger] number::is_mix::<K, S>(partial, term, q)
        };
    assert(number::is_mix::<K, S>(partial, term, r));
    assert(number::is_mix::<K, S>(other_partial, other_term, q));
    if samples.len() > 1 {
        lemma_muted_sample(
            finite,
            samples.drop_last(),
            others.drop_last(),
            coefficients.drop_last(),
            partial,
            other_partial,
        );
        assert(others.last() == samples.last());
    }
}

/// On every branch but the first, a finite oldest sample is not heard: two
/// windows that differ in it alone give one and the same output of either
/// bank, rounding and all.
pub proof fn oldest_sample_is_not_heard<K: Real, S: Sample<K>>(
    finite: spec_fn(S) -> bool,
    bank: PfbView<K>,
    num_phases: usize,
    min_len: usize,
    lowpass: Seq<K>,
    phase: int,
    window: Seq<S>,
    other: Seq<S>,
    outputs: (S, S),
    other_outputs: (S, S),
)
    requires
        number::is_deterministic_on::<K, S>(),
        is_muted_by_zero::<K, S>(finite),
        min_len > 1,
        bank.is_made_of(num_phases, min_len, lowpass),
        1 <= phase < num_phases,
        window.len() == bank.taps_per_phase,
        other.len() == window.len(),
        finite(window[0]),
        finite(other[0]),
        forall|k: int| 0 < k < window.len() ==> #[trigger] other[k] == window[k],
        bank.interpolates(phase, window, outputs.0),
        bank.differentiates(phase, window, outputs.1),
        bank.interpolates(phase, other, other_outputs.0),
        bank.differentiates(phase, other, other_outputs.1),
    ensures
        other_outputs == outputs,
{
    oldest_coefficient_is_zero(bank, num_phases, min_len, lowpass, phase);
    let (p, taps) = (bank.num_phases, bank.taps_per_phase);
    let interpolation = fractional_delay::branch(bank.interpolation, p, taps, phase);
    let derivative = fractional_delay::branch(bank.derivative, p, taps, phase);
    lemma_muted_sample(finite, window, other, interpolation, outputs.0, other_outputs.0);
    lemma_muted_sample(finite, window, other, derivative, outputs.1, other_outputs.1);
}

} // verus!
