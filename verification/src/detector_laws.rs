//! What the timing-error detectors' errors say of the timing.

use crate::algebra;
use crate::complex;
use crate::complex::Complex;
use crate::exact;
use crate::number;
use crate::number::{CircleConst, Real};
use crate::ted;
use crate::ted::{Gardner, MaximumLikelihood, MuellerMuller, TimingErrorDetector};
use vstd::prelude::*;

verus! {

// Gardner.

/// The Gardner error is the product of the mid strobe and the swing from one
/// decision to the next, part by part.
pub proof fn gardner_error_is_mid_times_swing<T: Real>(
    value: spec_fn(T) -> real,
    mid: Complex<T>,
    current: Complex<T>,
    previous: Complex<T>,
    error: T,
)
    requires
        exact::is_exact(value),
        ted::is_gardner_error(mid, current, previous, error),
    ensures
        value(error) == value(mid.re) * (value(current.re) - value(previous.re)) + value(mid.im)
            * (value(current.im) - value(previous.im)),
{
    let (swing, conjugate, product) = choose|
        swing: Complex<T>,
        conjugate: Complex<T>,
        product: Complex<T>,
    |
        {
            &&& complex::is_complex_difference(current, previous, swing)
            &&& #[trigger] complex::is_conjugate(swing, conjugate)
            &&& #[trigger] complex::is_complex_product(mid, conjugate, product)
            &&& error == product.re
        };
    exact::lemma_product_value(value, mid, conjugate, product);
    assert(value(swing.re) == value(current.re) - value(previous.re));
    assert(value(conjugate.im) == -value(swing.im));
    algebra::lemma_negates(value(mid.im), value(swing.im));
}

/// A common complex factor `z` on every strobe scales every Gardner error by
/// the squared magnitude of `z`, and leaves the calls at which an error is
/// reported as they are. So a rotation of the carrier, of magnitude one,
/// changes no error.
pub proof fn gardner_tolerates_a_rotation<T: Real>(
    value: spec_fn(T) -> real,
    z: Complex<T>,
    states: Seq<Gardner<T>>,
    strobes: Seq<Complex<T>>,
    derivatives: Seq<Option<Complex<T>>>,
    errors: Seq<Option<T>>,
    turned_states: Seq<Gardner<T>>,
    turned_strobes: Seq<Complex<T>>,
    turned_derivatives: Seq<Option<Complex<T>>>,
    turned_errors: Seq<Option<T>>,
    n: int,
)
    requires
        exact::is_exact(value),
        ted::is_gardner_run(states, strobes, derivatives, errors),
        ted::is_gardner_run(turned_states, turned_strobes, turned_derivatives, turned_errors),
        turned_strobes.len() == strobes.len(),
        forall|k: int|
            #![trigger turned_strobes[k]]
            0 <= k < strobes.len() ==> exact::has_product_value(
                value,
                z,
                strobes[k],
                turned_strobes[k],
            ),
        0 <= n < strobes.len(),
    ensures
        turned_errors[n] is Some <==> errors[n] is Some,
        errors[n] is Some ==> value(turned_errors[n]->0) == exact::squared_magnitude(value, z)
            * value(errors[n]->0),
        errors[n] is Some && exact::squared_magnitude(value, z) == 1real ==> value(
            turned_errors[n]->0,
        ) == value(errors[n]->0),
{
    ted::gardner_reports_on_every_later_decision(states, strobes, derivatives, errors, n);
    ted::gardner_reports_on_every_later_decision(
        turned_states,
        turned_strobes,
        turned_derivatives,
        turned_errors,
        n,
    );
    if n >= 2 && n % 2 == 0 {
        let (mid, current, previous) = (strobes[n - 1], strobes[n], strobes[n - 2]);
        let (turned_mid, turned_current, turned_previous) = (
            turned_strobes[n - 1],
            turned_strobes[n],
            turned_strobes[n - 2],
        );
        gardner_error_is_mid_times_swing(value, mid, current, previous, errors[n]->0);
        gardner_error_is_mid_times_swing(
            value,
            turned_mid,
            turned_current,
            turned_previous,
            turned_errors[n]->0,
        );
        algebra::lemma_rotated_swing(
            value(z.re),
            value(z.im),
            value(mid.re),
            value(mid.im),
            value(current.re),
            value(current.im),
            value(previous.re),
            value(previous.im),
        );
    }
}

/// A positive Gardner error means a late strobe. On a straight transition
/// through zero, with slope `rate` per unit of time, a mid strobe that is
/// `late` by some time takes `late` times the slope; decisions that are `span`
/// apart differ by `span` times the slope. Then the error is `late` times
/// `span` times the squared slope.
pub proof fn gardner_error_is_positive_when_late<T: Real>(
    value: spec_fn(T) -> real,
    mid: Complex<T>,
    current: Complex<T>,
    previous: Complex<T>,
    error: T,
    rate: (real, real),
    late: real,
    span: real,
)
    requires
        exact::is_exact(value),
        ted::is_gardner_error(mid, current, previous, error),
        rate.0 != 0real || rate.1 != 0real,
        span > 0real,
        value(mid.re) == late * rate.0,
        value(mid.im) == late * rate.1,
        value(current.re) - value(previous.re) == span * rate.0,
        value(current.im) - value(previous.im) == span * rate.1,
    ensures
        value(error) == late * (span * (rate.0 * rate.0 + rate.1 * rate.1)),
        value(error) > 0real <==> late > 0real,
        value(error) < 0real <==> late < 0real,
{
    gardner_error_is_mid_times_swing(value, mid, current, previous, error);
    let (x, y) = (rate.0 * rate.0, rate.1 * rate.1);
    algebra::lemma_regroups(late, rate.0, span, rate.0);
    algebra::lemma_regroups(late, rate.1, span, rate.1);
    algebra::lemma_distributes(late * span, x, y);
    algebra::lemma_associates(late, span, x + y);
    algebra::lemma_magnitude(rate.0, rate.1);
    algebra::lemma_keeps_sign(span, x + y);
    algebra::lemma_keeps_sign(late, span * (x + y));
}

// Maximum likelihood.

/// A positive maximum-likelihood error means that the pulse falls at the
/// strobe: that the derivative lies against the reference.
pub proof fn maximum_likelihood_error_opposes_the_derivative<T: Real>(
    value: spec_fn(T) -> real,
    detector: MaximumLikelihood<T>,
    post: MaximumLikelihood<T>,
    derivative: Complex<T>,
    observed: Complex<T>,
    reference: Complex<T>,
    error: Option<T>,
)
    requires
        exact::is_exact(value),
        value(detector.error_gain()) > 0real,
        detector.latest_derivative() == Some(derivative),
        MaximumLikelihood::takes_feedback(detector, observed, reference, post, error),
    ensures
        error is Some,
        value(error->0) * value(detector.error_gain()) == -exact::correlation_value(
            value,
            reference,
            derivative,
        ),
        value(error->0) > 0real <==> exact::correlation_value(value, reference, derivative)
            < 0real,
        value(error->0) < 0real <==> exact::correlation_value(value, reference, derivative)
            > 0real,
{
    let gain = detector.error_gain();
    let e = error->0;
    let (conjugate, product, negated) = choose|
        conjugate: Complex<T>,
        product: Complex<T>,
        negated: T,
    |
        {
            &&& complex::is_conjugate(reference, conjugate)
            &&& #[trigger] complex::is_complex_product(conjugate, derivative, product)
            &&& #[trigger] number::is_negation(product.re, negated)
            &&& number::is_quotient(negated, gain, e)
        };
    assert(ted::is_correlation(reference, derivative, product.re)) by {
        assert(complex::is_complex_product(conjugate, derivative, product));
    }
    lemma_correlation_value(value, reference, derivative, product.re);
    assert(number::is_negation(product.re, negated) && number::is_quotient(negated, gain, e));
    algebra::lemma_keeps_sign(value(e), value(gain));
}

/// A positive maximum-likelihood error means a late strobe. Where the
/// derivative is `slope` times the reference, the pulse rises before its peak,
/// with a positive slope, and falls after it.
pub proof fn maximum_likelihood_error_is_positive_when_late<T: Real>(
    value: spec_fn(T) -> real,
    detector: MaximumLikelihood<T>,
    post: MaximumLikelihood<T>,
    derivative: Complex<T>,
    observed: Complex<T>,
    reference: Complex<T>,
    error: Option<T>,
    slope: real,
)
    requires
        exact::is_exact(value),
        value(detector.error_gain()) > 0real,
        detector.latest_derivative() == Some(derivative),
        MaximumLikelihood::takes_feedback(detector, observed, reference, post, error),
        value(reference.re) != 0real || value(reference.im) != 0real,
        value(derivative.re) == slope * value(reference.re),
        value(derivative.im) == slope * value(reference.im),
    ensures
        error is Some,
        value(error->0) * value(detector.error_gain()) == -(slope * exact::squared_magnitude(
            value,
            reference,
        )),
        value(error->0) > 0real <==> slope < 0real,
        value(error->0) < 0real <==> slope > 0real,
{
    maximum_likelihood_error_opposes_the_derivative(
        value,
        detector,
        post,
        derivative,
        observed,
        reference,
        error,
    );
    let (re, im) = (value(reference.re), value(reference.im));
    algebra::lemma_pulls_out(re, slope, re);
    algebra::lemma_pulls_out(im, slope, im);
    algebra::lemma_distributes(slope, re * re, im * im);
    algebra::lemma_magnitude(re, im);
    algebra::lemma_keeps_sign(slope, re * re + im * im);
}

/// A maximum-likelihood detector reports on its latest strobe alone, and only
/// when it is given feedback: nothing where that strobe had no derivative, and
/// otherwise the same error each time it is asked with the same reference.
pub proof fn maximum_likelihood_reports_on_the_latest_strobe<T: Real>(
    value: spec_fn(T) -> real,
    pre: MaximumLikelihood<T>,
    strobe: Complex<T>,
    derivative: Option<Complex<T>>,
    seen: MaximumLikelihood<T>,
    at_strobe: Option<T>,
    observed: Complex<T>,
    reference: Complex<T>,
    asked: MaximumLikelihood<T>,
    error: Option<T>,
    other: Complex<T>,
    again: MaximumLikelihood<T>,
    same: Option<T>,
)
    requires
        exact::is_exact(value),
        value(pre.error_gain()) > 0real,
        MaximumLikelihood::consumes(pre, strobe, derivative, seen, at_strobe),
        MaximumLikelihood::takes_feedback(seen, observed, reference, asked, error),
        MaximumLikelihood::takes_feedback(asked, other, reference, again, same),
    ensures
        at_strobe is None,
        error is Some <==> derivative is Some,
        same is Some <==> derivative is Some,
        derivative matches Some(slope) ==> {
            &&& value(error->0) * value(pre.error_gain()) == -exact::correlation_value(
                value,
                reference,
                slope,
            )
            &&& value(same->0) * value(pre.error_gain()) == -exact::correlation_value(
                value,
                reference,
                slope,
            )
        },
        again.error_gain() == pre.error_gain(),
{
    if let Some(slope) = derivative {
        maximum_likelihood_error_opposes_the_derivative(
            value,
            seen,
            asked,
            slope,
            observed,
            reference,
            error,
        );
        maximum_likelihood_error_opposes_the_derivative(
            value,
            asked,
            again,
            slope,
            other,
            reference,
            same,
        );
    }
}

/// The detector gain is `pi^2 / 3 + (pi^2 - 8) rolloff^2`, so it is positive,
/// and [`MaximumLikelihood::with_gain`] takes it.
pub proof fn detector_gain_is_positive<T: CircleConst>(
    value: spec_fn(T) -> real,
    circle: real,
    rolloff: T,
    gain: T,
)
    requires
        exact::is_exact(value),
        forall|pi: T| #[trigger] number::is_pi(pi) ==> value(pi) == circle,
        circle * circle > 8real,
        ted::is_detector_gain(rolloff, gain),
    ensures
        value(gain) * 3real == circle * circle + 3real * ((circle * circle - 8real) * (value(
            rolloff,
        ) * value(rolloff))),
        value(gain) > 0real,
        forall|finite: bool, zero: T, above: bool|
            #[trigger] number::answers_finite(gain, finite) && number::is_zero(zero)
                && #[trigger] number::answers_above(gain, zero, above)
                ==> number::is_finite_and_positive(gain),
{
    let (squared, pi, pi_squared, curvature, pulse, total) = choose|
        squared: T,
        pi: T,
        pi_squared: T,
        curvature: T,
        pulse: T,
        total: T,
    |
        {
            &&& number::is_product(rolloff, rolloff, squared)
            &&& number::is_pi(pi)
            &&& #[trigger] number::is_product(pi, pi, pi_squared)
            &&& #[trigger] ted::is_pulse_curvature(pi_squared, squared, curvature)
            &&& #[trigger] ted::is_eightfold(squared, pulse)
            &&& #[trigger] number::is_sum(curvature, pulse, total)
            &&& number::is_magnitude(total, gain)
        };
    assert(number::is_product(rolloff, rolloff, squared) && number::is_pi(pi));
    assert(number::is_product(pi, pi, pi_squared) && number::is_sum(curvature, pulse, total));
    assert(ted::is_pulse_curvature(pi_squared, squared, curvature));
    assert(ted::is_eightfold(squared, pulse) && number::is_magnitude(total, gain));
    let (one, three, triple, widened, negated, product) = choose|
        one: T,
        three: T,
        triple: T,
        widened: T,
        negated: T,
        product: T,
    |
        {
            &&& number::is_one(one)
            &&& number::is_count(3, three)
            &&& #[trigger] number::is_product(three, squared, triple)
            &&& #[trigger] number::is_sum(one, triple, widened)
            &&& number::is_negation(pi_squared, negated)
            &&& #[trigger] number::is_product(negated, widened, product)
            &&& number::is_quotient(product, three, curvature)
        };
    assert(number::is_one(one) && number::is_count(3, three));
    assert(number::is_product(three, squared, triple) && number::is_sum(one, triple, widened));
    assert(number::is_negation(pi_squared, negated));
    assert(number::is_product(negated, widened, product));
    assert(number::is_quotient(product, three, curvature));
    let eight = choose|eight: T|
        #[trigger] number::is_count(8, eight) && number::is_product(eight, squared, pulse);
    assert(number::is_count(8, eight) && number::is_product(eight, squared, pulse));
    let (c, s) = (circle * circle, value(rolloff) * value(rolloff));
    assert(value(pi_squared) == c && value(squared) == s);
    assert(value(negated) == -c);
    assert(value(triple) == 3real * s && value(widened) == 1real + 3real * s);
    assert(value(product) == value(negated) * value(widened));
    assert(value(curvature) * 3real == value(product));
    assert(value(pulse) == 8real * s);
    algebra::lemma_detector_gain(c, s, value(curvature));
    algebra::lemma_square(value(rolloff));
    assert((c - 8real) * s >= 0real) by {
        if s > 0real {
            algebra::lemma_keeps_sign(c - 8real, s);
        } else {
            algebra::lemma_annihilates(c - 8real);
        }
    }
    assert(value(gain) == exact::larger(value(total), -value(total)));
}

// Mueller & Muller.

proof fn lemma_correlation_value<T: Real>(
    value: spec_fn(T) -> real,
    reference: Complex<T>,
    symbol: Complex<T>,
    r: T,
)
    requires
        exact::is_exact(value),
        ted::is_correlation(reference, symbol, r),
    ensures
        value(r) == exact::correlation_value(value, reference, symbol),
{
    let (conjugate, product) = choose|conjugate: Complex<T>, product: Complex<T>|
        {
            &&& complex::is_conjugate(reference, conjugate)
            &&& #[trigger] complex::is_complex_product(conjugate, symbol, product)
            &&& r == product.re
        };
    exact::lemma_product_value(value, conjugate, symbol, product);
    algebra::lemma_negates(value(reference.im), value(symbol.im));
}

/// The Mueller & Muller error is how much of the later reference the earlier
/// symbol holds, less how much of the earlier reference the later symbol holds.
pub proof fn mueller_muller_error_compares_the_pairs<T: Real>(
    value: spec_fn(T) -> real,
    symbol: Complex<T>,
    reference: Complex<T>,
    previous_symbol: Complex<T>,
    previous_reference: Complex<T>,
    error: T,
)
    requires
        exact::is_exact(value),
        ted::is_mueller_muller_error(
            symbol,
            reference,
            previous_symbol,
            previous_reference,
            error,
        ),
    ensures
        value(error) == exact::correlation_value(value, reference, previous_symbol)
            - exact::correlation_value(value, previous_reference, symbol),
{
    let (trailing, leading) = lemma_error_parts(
        symbol,
        reference,
        previous_symbol,
        previous_reference,
        error,
    );
    lemma_correlation_value(value, reference, previous_symbol, trailing);
    lemma_correlation_value(value, previous_reference, symbol, leading);
}

proof fn lemma_correlation_commutes<T>(value: spec_fn(T) -> real, a: Complex<T>, b: Complex<T>)
    ensures
        exact::correlation_value(value, a, b) == exact::correlation_value(value, b, a),
{
    algebra::lemma_commutes(value(a.re), value(b.re));
    algebra::lemma_commutes(value(a.im), value(b.im));
}

/// Taking two pairs in the opposite order negates the Mueller & Muller error.
pub proof fn mueller_muller_is_antisymmetric<T: Real>(
    value: spec_fn(T) -> real,
    fresh: MuellerMuller<T>,
    other_fresh: MuellerMuller<T>,
    seeded: MuellerMuller<T>,
    other_seeded: MuellerMuller<T>,
    last: MuellerMuller<T>,
    other_last: MuellerMuller<T>,
    first: (Complex<T>, Complex<T>),
    second: (Complex<T>, Complex<T>),
    none: Option<T>,
    other_none: Option<T>,
    error: Option<T>,
    swapped: Option<T>,
)
    requires
        exact::is_exact(value),
        fresh.is_fresh(),
        other_fresh.is_fresh(),
        MuellerMuller::takes_feedback(fresh, first.0, first.1, seeded, none),
        MuellerMuller::takes_feedback(seeded, second.0, second.1, last, error),
        MuellerMuller::takes_feedback(other_fresh, second.0, second.1, other_seeded, other_none),
        MuellerMuller::takes_feedback(other_seeded, first.0, first.1, other_last, swapped),
    ensures
        error is Some,
        swapped is Some,
        value(swapped->0) == -value(error->0),
{
    mueller_muller_error_compares_the_pairs(value, second.0, second.1, first.0, first.1, error->0);
    mueller_muller_error_compares_the_pairs(
        value,
        first.0,
        first.1,
        second.0,
        second.1,
        swapped->0,
    );
}

/// Exchanging observed symbols and references negates the Mueller & Muller
/// error.
pub proof fn mueller_muller_exchange_negates<T: Real>(
    value: spec_fn(T) -> real,
    symbol: Complex<T>,
    reference: Complex<T>,
    previous_symbol: Complex<T>,
    previous_reference: Complex<T>,
    error: T,
    exchanged: T,
)
    requires
        exact::is_exact(value),
        ted::is_mueller_muller_error(
            symbol,
            reference,
            previous_symbol,
            previous_reference,
            error,
        ),
        ted::is_mueller_muller_error(
            reference,
            symbol,
            previous_reference,
            previous_symbol,
            exchanged,
        ),
    ensures
        value(exchanged) == -value(error),
{
    mueller_muller_error_compares_the_pairs(
        value,
        symbol,
        reference,
        previous_symbol,
        previous_reference,
        error,
    );
    mueller_muller_error_compares_the_pairs(
        value,
        reference,
        symbol,
        previous_reference,
        previous_symbol,
        exchanged,
    );
    lemma_correlation_commutes(value, symbol, previous_reference);
    lemma_correlation_commutes(value, reference, previous_symbol);
}

/// There is no Mueller & Muller error where both symbols are their references.
pub proof fn mueller_muller_is_zero_on_time<T: Real>(
    value: spec_fn(T) -> real,
    symbol: Complex<T>,
    previous_symbol: Complex<T>,
    error: T,
)
    requires
        exact::is_exact(value),
        ted::is_mueller_muller_error(symbol, symbol, previous_symbol, previous_symbol, error),
    ensures
        value(error) == 0real,
{
    mueller_muller_error_compares_the_pairs(
        value,
        symbol,
        symbol,
        previous_symbol,
        previous_symbol,
        error,
    );
    lemma_correlation_commutes(value, symbol, previous_symbol);
}

/// A positive Mueller & Muller error means a late strobe. Where each symbol is
/// seen as `peak` times its own reference and a share of the other's, `ahead`
/// of the later symbol's in the earlier one and `behind` of the earlier one's
/// in the later, and the references have one magnitude, the error is that
/// squared magnitude times `ahead - behind`. A late strobe sees more of the
/// symbol that follows than of the one before.
pub proof fn mueller_muller_error_is_positive_when_late<T: Real>(
    value: spec_fn(T) -> real,
    symbol: Complex<T>,
    reference: Complex<T>,
    previous_symbol: Complex<T>,
    previous_reference: Complex<T>,
    error: T,
    peak: real,
    ahead: real,
    behind: real,
)
    requires
        exact::is_exact(value),
        ted::is_mueller_muller_error(
            symbol,
            reference,
            previous_symbol,
            previous_reference,
            error,
        ),
        is_blend(value, peak, previous_reference, ahead, reference, previous_symbol),
        is_blend(value, peak, reference, behind, previous_reference, symbol),
        exact::squared_magnitude(value, previous_reference) == exact::squared_magnitude(
            value,
            reference,
        ),
        value(reference.re) != 0real || value(reference.im) != 0real,
    ensures
        value(error) == (ahead - behind) * exact::squared_magnitude(value, reference),
        value(error) > 0real <==> ahead > behind,
        value(error) < 0real <==> ahead < behind,
{
    mueller_muller_error_compares_the_pairs(
        value,
        symbol,
        reference,
        previous_symbol,
        previous_reference,
        error,
    );
    lemma_correlation_of_a_blend(
        value,
        reference,
        peak,
        previous_reference,
        ahead,
        previous_symbol,
    );
    lemma_correlation_of_a_blend(value, previous_reference, peak, reference, behind, symbol);
    lemma_correlation_commutes(value, reference, previous_reference);
    let power = exact::squared_magnitude(value, reference);
    algebra::lemma_distributes(power, ahead, behind);
    algebra::lemma_magnitude(value(reference.re), value(reference.im));
    algebra::lemma_keeps_sign(ahead - behind, power);
}

/// The value of `r` is `own` times that of `a` and `share` times that of `b`.
pub open spec fn is_blend<T>(
    value: spec_fn(T) -> real,
    own: real,
    a: Complex<T>,
    share: real,
    b: Complex<T>,
    r: Complex<T>,
) -> bool {
    &&& value(r.re) == own * value(a.re) + share * value(b.re)
    &&& value(r.im) == own * value(a.im) + share * value(b.im)
}

proof fn lemma_correlation_of_a_blend<T>(
    value: spec_fn(T) -> real,
    b: Complex<T>,
    own: real,
    a: Complex<T>,
    share: real,
    r: Complex<T>,
)
    requires
        is_blend(value, own, a, share, b, r),
    ensures
        exact::correlation_value(value, b, r) == own * exact::correlation_value(value, b, a) + share
            * exact::squared_magnitude(value, b),
{
    let (br, bi, ar, ai) = (value(b.re), value(b.im), value(a.re), value(a.im));
    algebra::lemma_blends(br, own, ar, share, br);
    algebra::lemma_blends(bi, own, ai, share, bi);
    algebra::lemma_distributes(own, br * ar, bi * ai);
    algebra::lemma_distributes(share, br * br, bi * bi);
}

// Mueller & Muller, with rounding.

/// Two differences of the same numbers, taken either way round, are opposite.
/// On floating-point numbers they are, where zeros of either sign count as one
/// and not-a-numbers count as opposite.
pub open spec fn has_opposite_differences<T: Real>(opposite: spec_fn(T, T) -> bool) -> bool {
    forall|a: T, b: T, r: T, q: T|
        #[trigger] number::is_difference(a, b, r) && #[trigger] number::is_difference(b, a, q)
            ==> opposite(r, q)
}

/// A product does not depend on the order of its factors, nor on which of them
/// is negated first. On floating-point numbers neither does.
pub open spec fn has_commuting_products<T: Real>() -> bool {
    &&& forall|a: T, b: T, r: T, q: T|
        #[trigger] number::is_product(a, b, r) && #[trigger] number::is_product(b, a, q) ==> r == q
    &&& forall|a: T, b: T, negated_a: T, negated_b: T, r: T, q: T|
        {
            &&& #[trigger] number::is_negation(a, negated_a)
            &&& #[trigger] number::is_negation(b, negated_b)
            &&& #[trigger] number::is_product(negated_a, b, r)
            &&& #[trigger] number::is_product(negated_b, a, q)
        } ==> r == q
}

/// A finite number less itself is zero.
pub open spec fn has_zero_differences<T: Real>(finite: spec_fn(T) -> bool) -> bool {
    forall|a: T, r: T| finite(a) && #[trigger] number::is_difference(a, a, r) ==> number::is_zero(r)
}

/// Where each operation has one result, so has a correlation.
proof fn lemma_one_correlation<T: Real>(reference: Complex<T>, symbol: Complex<T>, r: T, q: T)
    requires
        number::is_deterministic::<T>(),
        ted::is_correlation(reference, symbol, r),
        ted::is_correlation(reference, symbol, q),
    ensures
        r == q,
{
}

/// Where products commute, a correlation does not depend on which of the two
/// is the reference.
proof fn lemma_one_correlation_either_way<T: Real>(a: Complex<T>, b: Complex<T>, r: T, q: T)
    requires
        number::is_deterministic::<T>(),
        has_commuting_products::<T>(),
        ted::is_correlation(a, b, r),
        ted::is_correlation(b, a, q),
    ensures
        r == q,
{
}

/// Taking two pairs in the opposite order gives the opposite Mueller & Muller
/// error, rounding and all.
pub proof fn rounded_mueller_muller_is_antisymmetric<T: Real>(
    opposite: spec_fn(T, T) -> bool,
    fresh: MuellerMuller<T>,
    other_fresh: MuellerMuller<T>,
    seeded: MuellerMuller<T>,
    other_seeded: MuellerMuller<T>,
    last: MuellerMuller<T>,
    other_last: MuellerMuller<T>,
    first: (Complex<T>, Complex<T>),
    second: (Complex<T>, Complex<T>),
    none: Option<T>,
    other_none: Option<T>,
    error: Option<T>,
    swapped: Option<T>,
)
    requires
        number::is_deterministic::<T>(),
        has_opposite_differences(opposite),
        fresh.is_fresh(),
        other_fresh.is_fresh(),
        MuellerMuller::takes_feedback(fresh, first.0, first.1, seeded, none),
        MuellerMuller::takes_feedback(seeded, second.0, second.1, last, error),
        MuellerMuller::takes_feedback(other_fresh, second.0, second.1, other_seeded, other_none),
        MuellerMuller::takes_feedback(other_seeded, first.0, first.1, other_last, swapped),
    ensures
        error is Some,
        swapped is Some,
        opposite(error->0, swapped->0),
{
    let (e, s) = (error->0, swapped->0);
    let (trailing, leading) = lemma_error_parts(second.0, second.1, first.0, first.1, e);
    let (other_trailing, other_leading) = lemma_error_parts(
        first.0,
        first.1,
        second.0,
        second.1,
        s,
    );
    lemma_one_correlation(second.1, first.0, trailing, other_leading);
    lemma_one_correlation(first.1, second.0, leading, other_trailing);
}

/// Exchanging observed symbols and references gives the opposite Mueller &
/// Muller error, rounding and all.
pub proof fn rounded_mueller_muller_exchange_is_opposite<T: Real>(
    opposite: spec_fn(T, T) -> bool,
    symbol: Complex<T>,
    reference: Complex<T>,
    previous_symbol: Complex<T>,
    previous_reference: Complex<T>,
    error: T,
    exchanged: T,
)
    requires
        number::is_deterministic::<T>(),
        has_commuting_products::<T>(),
        has_opposite_differences(opposite),
        ted::is_mueller_muller_error(
            symbol,
            reference,
            previous_symbol,
            previous_reference,
            error,
        ),
        ted::is_mueller_muller_error(
            reference,
            symbol,
            previous_reference,
            previous_symbol,
            exchanged,
        ),
    ensures
        opposite(error, exchanged),
{
    let (trailing, leading) = lemma_error_parts(
        symbol,
        reference,
        previous_symbol,
        previous_reference,
        error,
    );
    let (other_trailing, other_leading) = lemma_error_parts(
        reference,
        symbol,
        previous_reference,
        previous_symbol,
        exchanged,
    );
    lemma_one_correlation_either_way(reference, previous_symbol, trailing, other_leading);
    lemma_one_correlation_either_way(previous_reference, symbol, leading, other_trailing);
}

/// The Mueller & Muller error is exactly zero, rounding and all, where both
/// symbols are their references and their correlation is finite.
pub proof fn rounded_mueller_muller_is_zero_on_time<T: Real>(
    finite: spec_fn(T) -> bool,
    symbol: Complex<T>,
    previous_symbol: Complex<T>,
    error: T,
)
    requires
        number::is_deterministic::<T>(),
        has_commuting_products::<T>(),
        has_zero_differences(finite),
        forall|r: T| #[trigger] ted::is_correlation(symbol, previous_symbol, r) ==> finite(r),
        ted::is_mueller_muller_error(symbol, symbol, previous_symbol, previous_symbol, error),
    ensures
        number::is_zero(error),
{
    let (trailing, leading) = lemma_error_parts(
        symbol,
        symbol,
        previous_symbol,
        previous_symbol,
        error,
    );
    lemma_one_correlation_either_way(symbol, previous_symbol, trailing, leading);
}

/// The two correlations that a Mueller & Muller error is the difference of.
proof fn lemma_error_parts<T: Real>(
    symbol: Complex<T>,
    reference: Complex<T>,
    previous_symbol: Complex<T>,
    previous_reference: Complex<T>,
    error: T,
) -> (parts: (T, T))
    requires
        ted::is_mueller_muller_error(
            symbol,
            reference,
            previous_symbol,
            previous_reference,
            error,
        ),
    ensures
        ted::is_correlation(reference, previous_symbol, parts.0),
        ted::is_correlation(previous_reference, symbol, parts.1),
        number::is_difference(parts.0, parts.1, error),
{
    choose|trailing: T, leading: T|
        {
            &&& ted::is_correlation(reference, previous_symbol, trailing)
            &&& ted::is_correlation(previous_reference, symbol, leading)
            &&& #[trigger] number::is_difference(trailing, leading, error)
        }
}

} // verus!
