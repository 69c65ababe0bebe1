//! Timing-error detectors for symbol synchronization.
//!
//! Each detector estimates the fractional timing error that a loop filter
//! drives toward zero. They share the [`TimingErrorDetector`] interface:
//! interpolated strobes are fed in with
//! [`consume_strobe`](TimingErrorDetector::consume_strobe), and data-aided or
//! decision-directed detectors take an observed/reference pair through
//! [`apply_feedback`](TimingErrorDetector::apply_feedback).
//!
//! # When to use which detector
//!
//! | Detector              | Feedback        | Strobe rate      |
//! | --------------------- | --------------- | ---------------- |
//! | [`Gardner`]           | none            | twice per symbol |
//! | [`MaximumLikelihood`] | known or sliced | once per symbol  |
//! | [`MuellerMuller`]     | known or sliced | once per symbol  |
//!
//! - **Gardner** is non-data-aided and runs at twice the symbol rate (a mid
//!   strobe between decisions); it needs no feedback and tolerates an
//!   uncorrected carrier rotation.
//! - **`MaximumLikelihood`** runs at the symbol rate from the derivative
//!   matched-filter output and a data-aided (known symbol) or
//!   decision-directed (slicer output) reference.
//! - **`MuellerMuller`** runs at the symbol rate from consecutive
//!   observed/reference pairs and needs no derivative filter.
//!
//! # Error polarity
//!
//! Every detector reports a positive error when the strobe is late, so one
//! loop convention (`position -= filter(error)`) serves them all.

use crate::complex;
use crate::complex::Complex;
use crate::number;
use crate::number::{CircleConst, Real};
use vstd::prelude::*;

verus! {

/// A symbol-timing error detector.
///
/// The three predicates say how a detector behaves: each relates the detector
/// before a call, the arguments, the detector after the call and the result. A
/// detector that leaves one out promises nothing of that call.
pub trait TimingErrorDetector<T>: Sized {
    /// The number of interpolated strobes consumed per symbol interval.
    const STROBE_RATE: usize;

    /// A detector in state `pre` that consumes a strobe can end in state
    /// `post` and report `error`.
    open spec fn consumes(
        pre: Self,
        strobe: Complex<T>,
        derivative: Option<Complex<T>>,
        post: Self,
        error: Option<T>,
    ) -> bool {
        true
    }

    /// A detector in state `pre` that is given feedback can end in state
    /// `post` and report `error`.
    open spec fn takes_feedback(
        pre: Self,
        observed: Complex<T>,
        reference: Complex<T>,
        post: Self,
        error: Option<T>,
    ) -> bool {
        true
    }

    /// A detector in state `pre` that is reset can end in state `post`.
    open spec fn clears(pre: Self, post: Self) -> bool {
        true
    }

    /// Consumes one interpolated `strobe` and its optional matched-filter
    /// `derivative`, returning a non-data-aided timing error when enough
    /// strobe history is available.
    fn consume_strobe(&mut self, strobe: Complex<T>, derivative: Option<Complex<T>>) -> (error:
        Option<T>)
        ensures
            Self::consumes(*old(self), strobe, derivative, *final(self), error),
    ;

    /// Computes a data-aided or decision-directed timing error from the
    /// `observed` symbol and its `reference` (a known or sliced symbol), or
    /// `None` when the detector needs no feedback or has no history yet.
    fn apply_feedback(&mut self, observed: Complex<T>, reference: Complex<T>) -> (error: Option<T>)
        ensures
            Self::takes_feedback(*old(self), observed, reference, *final(self), error),
    ;

    /// Clears the strobe and feedback history for a new burst, keeping the
    /// detector configuration.
    fn reset(&mut self)
        ensures
            Self::clears(*old(self), *final(self)),
    ;
}

/// Non-data-aided Gardner timing-error detector.
///
/// Error: `e = Re{mid * conj(y_cur - y_prev)}`, using the mid strobe between
/// two decision strobes. It runs at twice the symbol rate: strobes alternate
/// decision, mid, decision, mid, and only the decision strobes are visible.
#[derive(Clone, Copy, Debug)]
pub struct Gardner<T> {
    previous: Option<Complex<T>>,
    mid: Option<Complex<T>>,
    expecting_mid: bool,
}

/// `error` is `Re{mid * conj(current - previous)}`.
pub open spec fn is_gardner_error<T: Real>(
    mid: Complex<T>,
    current: Complex<T>,
    previous: Complex<T>,
    error: T,
) -> bool {
    exists|swing: Complex<T>, conjugate: Complex<T>, product: Complex<T>|
        {
            &&& complex::is_complex_difference(current, previous, swing)
            &&& #[trigger] complex::is_conjugate(swing, conjugate)
            &&& #[trigger] complex::is_complex_product(mid, conjugate, product)
            &&& error == product.re
        }
}

impl<T> Gardner<T> {
    /// The latest decision strobe.
    pub closed spec fn previous_decision(self) -> Option<Complex<T>> {
        self.previous
    }

    /// The latest mid strobe.
    pub closed spec fn latest_mid(self) -> Option<Complex<T>> {
        self.mid
    }

    /// Whether the next strobe counts as a mid strobe.
    pub closed spec fn expects_mid(self) -> bool {
        self.expecting_mid
    }

    /// The detector has no history, and expects a decision strobe.
    pub open spec fn is_fresh(self) -> bool {
        &&& self.previous_decision() is None
        &&& self.latest_mid() is None
        &&& !self.expects_mid()
    }
}

impl<T> Default for Gardner<T> {
    fn default() -> (r: Self)
        ensures
            r.is_fresh(),
    {
        Gardner { previous: None, mid: None, expecting_mid: false }
    }
}

impl<T: Real> TimingErrorDetector<T> for Gardner<T> {
    const STROBE_RATE: usize = 2;

    /// A mid strobe is kept and reports nothing. A decision strobe is kept,
    /// and reports the error where both an earlier decision and a mid strobe
    /// are there.
    open spec fn consumes(
        pre: Self,
        strobe: Complex<T>,
        derivative: Option<Complex<T>>,
        post: Self,
        error: Option<T>,
    ) -> bool {
        &&& post.expects_mid() == !pre.expects_mid()
        &&& if pre.expects_mid() {
            &&& post.previous_decision() == pre.previous_decision()
            &&& post.latest_mid() == Some(strobe)
            &&& error is None
        } else {
            &&& post.previous_decision() == Some(strobe)
            &&& post.latest_mid() == pre.latest_mid()
            &&& match (pre.previous_decision(), pre.latest_mid()) {
                (Some(previous), Some(mid)) => error matches Some(e) && is_gardner_error(
                    mid,
                    strobe,
                    previous,
                    e,
                ),
                _ => error is None,
            }
        }
    }

    /// Feedback is ignored.
    open spec fn takes_feedback(
        pre: Self,
        observed: Complex<T>,
        reference: Complex<T>,
        post: Self,
        error: Option<T>,
    ) -> bool {
        post == pre && error is None
    }

    open spec fn clears(pre: Self, post: Self) -> bool {
        post.is_fresh()
    }

    fn consume_strobe(&mut self, strobe: Complex<T>, _derivative: Option<Complex<T>>) -> (error:
        Option<T>) {
        if self.expecting_mid {
            self.mid = Some(strobe);
            self.expecting_mid = false;
            return None;
        }
        let error = match (self.previous, self.mid) {
            (Some(previous), Some(mid)) => {
                let swing = strobe.minus(previous);
                let conjugate = swing.conj();
                let product = mid.times(conjugate);
                assert(complex::is_conjugate(swing, conjugate));
                assert(complex::is_complex_product(mid, conjugate, product));
                Some(product.re)
            },
            _ => None,
        };
        self.previous = Some(strobe);
        self.expecting_mid = true;
        error
    }

    fn apply_feedback(&mut self, _observed: Complex<T>, _reference: Complex<T>) -> (error: Option<
        T,
    >) {
        None
    }

    fn reset(&mut self) {
        *self = Self::default();
    }
}

/// Data-aided or decision-directed maximum-likelihood timing-error detector.
///
/// Error: `e = -Re{conj(reference) * derivative} / gain`, where `derivative`
/// is the derivative matched-filter output captured at the strobe. The
/// negation makes a positive error mean the strobe is late, the polarity
/// [`Gardner`] reports (the derivative itself is positive on the pulse's
/// rising edge, before the peak). Dividing by the detector gain keeps the
/// loop filter's bandwidth independent of the pulse shape. It runs at the
/// symbol rate.
#[derive(Clone, Copy, Debug)]
pub struct MaximumLikelihood<T> {
    derivative: Option<Complex<T>>,
    gain: T,
}

/// `error` is `-Re{conj(reference) * derivative} / gain`.
pub open spec fn is_maximum_likelihood_error<T: Real>(
    derivative: Complex<T>,
    reference: Complex<T>,
    gain: T,
    error: T,
) -> bool {
    exists|conjugate: Complex<T>, product: Complex<T>, negated: T|
        {
            &&& complex::is_conjugate(reference, conjugate)
            &&& #[trigger] complex::is_complex_product(conjugate, derivative, product)
            &&& #[trigger] number::is_negation(product.re, negated)
            &&& number::is_quotient(negated, gain, error)
        }
}

/// The number type finds `rolloff` finite, above zero and at most one.
pub open spec fn is_admissible_rolloff<T: Real>(rolloff: T) -> bool {
    &&& number::is_finite_and_positive(rolloff)
    &&& exists|one: T|
        #[trigger] number::is_one(one) && number::answers_at_most(rolloff, one, true)
}

/// `r` is `|-pi^2 (1 + 3 rolloff^2) / 3 + 8 rolloff^2|`.
pub open spec fn is_detector_gain<T: CircleConst>(rolloff: T, r: T) -> bool {
    exists|squared: T, pi: T, pi_squared: T, curvature: T, pulse: T, total: T|
        {
            &&& number::is_product(rolloff, rolloff, squared)
            &&& number::is_pi(pi)
            &&& #[trigger] number::is_product(pi, pi, pi_squared)
            &&& #[trigger] is_pulse_curvature(pi_squared, squared, curvature)
            &&& #[trigger] is_eightfold(squared, pulse)
            &&& #[trigger] number::is_sum(curvature, pulse, total)
            &&& number::is_magnitude(total, r)
        }
}

/// `r` is `-pi_squared * (1 + 3 squared) / 3`.
pub open spec fn is_pulse_curvature<T: Real>(pi_squared: T, squared: T, r: T) -> bool {
    exists|one: T, three: T, triple: T, widened: T, negated: T, product: T|
        {
            &&& number::is_one(one)
            &&& number::is_count(3, three)
            &&& #[trigger] number::is_product(three, squared, triple)
            &&& #[trigger] number::is_sum(one, triple, widened)
            &&& number::is_negation(pi_squared, negated)
            &&& #[trigger] number::is_product(negated, widened, product)
            &&& number::is_quotient(product, three, r)
        }
}

/// `r` is `8 squared`.
pub open spec fn is_eightfold<T: Real>(squared: T, r: T) -> bool {
    exists|eight: T|
        #[trigger] number::is_count(8, eight) && number::is_product(eight, squared, r)
}

impl<T> MaximumLikelihood<T> {
    /// The derivative output at the latest strobe.
    pub closed spec fn latest_derivative(self) -> Option<Complex<T>> {
        self.derivative
    }

    /// The gain that errors are divided by.
    pub closed spec fn error_gain(self) -> T {
        self.gain
    }
}

impl<T: Real> Default for MaximumLikelihood<T> {
    fn default() -> (r: Self)
        ensures
            r.latest_derivative() is None,
            number::is_one(r.error_gain()),
    {
        MaximumLikelihood { derivative: None, gain: T::one() }
    }
}

impl<T: CircleConst> MaximumLikelihood<T> {
    /// Returns the detector gain `Kp` for a root-raised-cosine
    /// transmit/matched-filter pair with the given `rolloff` in `(0, 1]`, in
    /// per-symbol-period units.
    #[must_use]
    pub fn detector_gain(rolloff: T) -> (r: T)
        requires
            is_admissible_rolloff(rolloff),
        ensures
            is_detector_gain(rolloff, r),
    {
        let one = T::one();
        let three = T::from_index(3);
        let eight = T::from_index(8);
        let squared = rolloff.times(rolloff);
        let pi = T::pi();
        let pi_squared = pi.times(pi);
        let negated = pi_squared.negated();
        let triple = three.times(squared);
        let widened = one.plus(triple);
        let product = negated.times(widened);
        let curvature = product.over(three);
        let pulse = eight.times(squared);
        let total = curvature.plus(pulse);
        assert(is_pulse_curvature(pi_squared, squared, curvature)) by {
            assert(number::is_one(one) && number::is_count(3, three));
            assert(number::is_product(three, squared, triple));
            assert(number::is_sum(one, triple, widened));
            assert(number::is_negation(pi_squared, negated));
            assert(number::is_product(negated, widened, product));
        }
        assert(is_eightfold(squared, pulse)) by {
            assert(number::is_count(8, eight));
        }
        assert(number::is_product(rolloff, rolloff, squared) && number::is_pi(pi));
        assert(number::is_product(pi, pi, pi_squared));
        assert(number::is_sum(curvature, pulse, total));
        total.magnitude()
    }
}

impl<T: Real> MaximumLikelihood<T> {
    /// Creates a detector that normalizes its error by `gain` (typically
    /// [`Self::detector_gain`]), so the timing loop's bandwidth is set by the
    /// loop filter alone.
    #[must_use]
    pub fn with_gain(gain: T) -> (r: Self)
        requires
            number::is_finite_and_positive(gain),
        ensures
            r.latest_derivative() is None,
            r.error_gain() == gain,
    {
        MaximumLikelihood { derivative: None, gain }
    }
}

impl<T: Real> TimingErrorDetector<T> for MaximumLikelihood<T> {
    const STROBE_RATE: usize = 1;

    /// The derivative is kept; nothing is reported.
    open spec fn consumes(
        pre: Self,
        strobe: Complex<T>,
        derivative: Option<Complex<T>>,
        post: Self,
        error: Option<T>,
    ) -> bool {
        &&& post.latest_derivative() == derivative
        &&& post.error_gain() == pre.error_gain()
        &&& error is None
    }

    /// The error is reported where a derivative is there.
    open spec fn takes_feedback(
        pre: Self,
        observed: Complex<T>,
        reference: Complex<T>,
        post: Self,
        error: Option<T>,
    ) -> bool {
        &&& post == pre
        &&& match pre.latest_derivative() {
            Some(derivative) => error matches Some(e) && is_maximum_likelihood_error(
                derivative,
                reference,
                pre.error_gain(),
                e,
            ),
            None => error is None,
        }
    }

    open spec fn clears(pre: Self, post: Self) -> bool {
        &&& post.latest_derivative() is None
        &&& post.error_gain() == pre.error_gain()
    }

    fn consume_strobe(&mut self, _strobe: Complex<T>, derivative: Option<Complex<T>>) -> (error:
        Option<T>) {
        self.derivative = derivative;
        None
    }

    fn apply_feedback(&mut self, _observed: Complex<T>, reference: Complex<T>) -> (error: Option<
        T,
    >) {
        match self.derivative {
            Some(derivative) => {
                let conjugate = reference.conj();
                let product = conjugate.times(derivative);
                let negated = product.re.negated();
                assert(complex::is_complex_product(conjugate, derivative, product));
                assert(number::is_negation(product.re, negated));
                Some(negated.over(self.gain))
            },
            None => None,
        }
    }

    fn reset(&mut self) {
        self.derivative = None;
    }
}

/// Data-aided or decision-directed Mueller & Muller timing-error detector.
///
/// Error: `e = Re{conj(reference_cur) * y_prev} - Re{conj(reference_prev) * y_cur}`,
/// from the current and previous observed symbols and their references. The
/// term order makes a positive error mean the strobe is late, the polarity
/// [`Gardner`] reports. It runs at the symbol rate.
#[derive(Clone, Copy, Debug)]
pub struct MuellerMuller<T> {
    previous_symbol: Option<Complex<T>>,
    previous_reference: Option<Complex<T>>,
}

/// `r` is `Re{conj(reference) * symbol}`.
pub open spec fn is_correlation<T: Real>(reference: Complex<T>, symbol: Complex<T>, r: T) -> bool {
    exists|conjugate: Complex<T>, product: Complex<T>|
        {
            &&& complex::is_conjugate(reference, conjugate)
            &&& #[trigger] complex::is_complex_product(conjugate, symbol, product)
            &&& r == product.re
        }
}

/// `error` is `Re{conj(reference) * previous_symbol} - Re{conj(previous_reference) * symbol}`.
pub open spec fn is_mueller_muller_error<T: Real>(
    symbol: Complex<T>,
    reference: Complex<T>,
    previous_symbol: Complex<T>,
    previous_reference: Complex<T>,
    error: T,
) -> bool {
    exists|trailing: T, leading: T|
        {
            &&& is_correlation(reference, previous_symbol, trailing)
            &&& is_correlation(previous_reference, symbol, leading)
            &&& #[trigger] number::is_difference(trailing, leading, error)
        }
}

impl<T> MuellerMuller<T> {
    /// The latest observed symbol.
    pub closed spec fn previous_observed(self) -> Option<Complex<T>> {
        self.previous_symbol
    }

    /// The reference of the latest observed symbol.
    pub closed spec fn previous_sent(self) -> Option<Complex<T>> {
        self.previous_reference
    }

    /// The detector has no history.
    pub open spec fn is_fresh(self) -> bool {
        &&& self.previous_observed() is None
        &&& self.previous_sent() is None
    }
}

impl<T> Default for MuellerMuller<T> {
    fn default() -> (r: Self)
        ensures
            r.is_fresh(),
    {
        MuellerMuller { previous_symbol: None, previous_reference: None }
    }
}

/// `Re{conj(reference) * symbol}`.
fn correlation<T: Real>(reference: Complex<T>, symbol: Complex<T>) -> (r: T)
    ensures
        is_correlation(reference, symbol, r),
{
    let conjugate = reference.conj();
    let product = conjugate.times(symbol);
    assert(complex::is_complex_product(conjugate, symbol, product));
    product.re
}

impl<T: Real> TimingErrorDetector<T> for MuellerMuller<T> {
    const STROBE_RATE: usize = 1;

    /// Strobes are ignored.
    open spec fn consumes(
        pre: Self,
        strobe: Complex<T>,
        derivative: Option<Complex<T>>,
        post: Self,
        error: Option<T>,
    ) -> bool {
        post == pre && error is None
    }

    /// The pair is kept, and the error is reported where there was one before.
    open spec fn takes_feedback(
        pre: Self,
        observed: Complex<T>,
        reference: Complex<T>,
        post: Self,
        error: Option<T>,
    ) -> bool {
        &&& post.previous_observed() == Some(observed)
        &&& post.previous_sent() == Some(reference)
        &&& match (pre.previous_observed(), pre.previous_sent()) {
            (Some(previous_symbol), Some(previous_reference)) => error matches Some(e)
                && is_mueller_muller_error(
                observed,
                reference,
                previous_symbol,
                previous_reference,
                e,
            ),
            _ => error is None,
        }
    }

    open spec fn clears(pre: Self, post: Self) -> bool {
        post.is_fresh()
    }

    fn consume_strobe(&mut self, _strobe: Complex<T>, _derivative: Option<Complex<T>>) -> (error:
        Option<T>) {
        None
    }

    fn apply_feedback(&mut self, observed: Complex<T>, reference: Complex<T>) -> (error: Option<
        T,
    >) {
        let error = match (self.previous_symbol, self.previous_reference) {
            (Some(previous_symbol), Some(previous_reference)) => {
                let trailing = correlation(reference, previous_symbol);
                let leading = correlation(previous_reference, observed);
                let difference = trailing.minus(leading);
                assert(number::is_difference(trailing, leading, difference));
                Some(difference)
            },
            _ => None,
        };
        self.previous_symbol = Some(observed);
        self.previous_reference = Some(reference);
        error
    }

    fn reset(&mut self) {
        *self = Self::default();
    }
}

/// `states` are the states of a Gardner detector that starts fresh and
/// consumes `strobes`, reporting `errors`.
pub open spec fn is_gardner_run<T: Real>(
    states: Seq<Gardner<T>>,
    strobes: Seq<Complex<T>>,
    derivatives: Seq<Option<Complex<T>>>,
    errors: Seq<Option<T>>,
) -> bool {
    &&& states.len() == strobes.len() + 1
    &&& derivatives.len() == strobes.len()
    &&& errors.len() == strobes.len()
    &&& states[0].is_fresh()
    &&& forall|n: int|
        #![trigger strobes[n]]
        0 <= n < strobes.len() ==> Gardner::consumes(
            states[n],
            strobes[n],
            derivatives[n],
            states[n + 1],
            errors[n],
        )
}

proof fn lemma_gardner_state<T: Real>(
    states: Seq<Gardner<T>>,
    strobes: Seq<Complex<T>>,
    derivatives: Seq<Option<Complex<T>>>,
    errors: Seq<Option<T>>,
    n: nat,
)
    requires
        is_gardner_run(states, strobes, derivatives, errors),
        n <= strobes.len(),
    ensures
        states[n as int].expects_mid() == (n % 2 == 1),
        n == 0 ==> states[n as int].previous_decision() is None,
        n <= 1 ==> states[n as int].latest_mid() is None,
        n % 2 == 1 ==> states[n as int].previous_decision() == Some(strobes[n - 1]),
        n > 1 && n % 2 == 0 ==> states[n as int].previous_decision() == Some(strobes[n - 2]),
        n > 1 && n % 2 == 0 ==> states[n as int].latest_mid() == Some(strobes[n - 1]),
    decreases n,
{
    if n > 0 {
        lemma_gardner_state(states, strobes, derivatives, errors, (n - 1) as nat);
        let last = strobes[n - 1];
        assert(Gardner::consumes(
            states[n - 1],
            last,
            derivatives[n - 1],
            states[n as int],
            errors[n - 1],
        ));
    }
}

/// Strobes alternate decision, mid, decision, mid. A fresh Gardner detector
/// reports an error on every decision strobe but the first, from that strobe,
/// the mid strobe before it and the decision strobe before that; on no other
/// strobe does it report anything.
pub proof fn gardner_reports_on_every_later_decision<T: Real>(
    states: Seq<Gardner<T>>,
    strobes: Seq<Complex<T>>,
    derivatives: Seq<Option<Complex<T>>>,
    errors: Seq<Option<T>>,
    n: int,
)
    requires
        is_gardner_run(states, strobes, derivatives, errors),
        0 <= n < strobes.len(),
    ensures
        n >= 2 && n % 2 == 0 ==> errors[n] is Some && is_gardner_error(
            strobes[n - 1],
            strobes[n],
            strobes[n - 2],
            errors[n]->0,
        ),
        n < 2 || n % 2 == 1 ==> errors[n] is None,
{
    lemma_gardner_state(states, strobes, derivatives, errors, n as nat);
    let strobe = strobes[n];
    assert(Gardner::consumes(states[n], strobe, derivatives[n], states[n + 1], errors[n]));
}

/// A Gardner detector that is reset is the detector it was made as.
pub proof fn gardner_reset_restores_the_default<T: Real>(
    made: Gardner<T>,
    used: Gardner<T>,
    cleared: Gardner<T>,
)
    requires
        made.is_fresh(),
        Gardner::clears(used, cleared),
    ensures
        cleared == made,
{
}

/// `states` are the states of a Mueller & Muller detector that starts fresh
/// and takes the pairs of `symbols` and `references`, reporting `errors`.
pub open spec fn is_mueller_muller_run<T: Real>(
    states: Seq<MuellerMuller<T>>,
    symbols: Seq<Complex<T>>,
    references: Seq<Complex<T>>,
    errors: Seq<Option<T>>,
) -> bool {
    &&& states.len() == symbols.len() + 1
    &&& references.len() == symbols.len()
    &&& errors.len() == symbols.len()
    &&& states[0].is_fresh()
    &&& forall|n: int|
        #![trigger symbols[n]]
        0 <= n < symbols.len() ==> MuellerMuller::takes_feedback(
            states[n],
            symbols[n],
            references[n],
            states[n + 1],
            errors[n],
        )
}

/// A fresh Mueller & Muller detector needs two symbols: it reports an error on
/// every pair but the first, from that pair and the one before it.
pub proof fn mueller_muller_reports_from_the_second_pair<T: Real>(
    states: Seq<MuellerMuller<T>>,
    symbols: Seq<Complex<T>>,
    references: Seq<Complex<T>>,
    errors: Seq<Option<T>>,
    n: int,
)
    requires
        is_mueller_muller_run(states, symbols, references, errors),
        0 <= n < symbols.len(),
    ensures
        n == 0 ==> errors[n] is None,
        n > 0 ==> errors[n] is Some && is_mueller_muller_error(
            symbols[n],
            references[n],
            symbols[n - 1],
            references[n - 1],
            errors[n]->0,
        ),
{
    let symbol = symbols[n];
    if n > 0 {
        let earlier = symbols[n - 1];
        assert(MuellerMuller::takes_feedback(
            states[n - 1],
            earlier,
            references[n - 1],
            states[n],
            errors[n - 1],
        ));
    }
    assert(MuellerMuller::takes_feedback(states[n], symbol, references[n], states[n + 1], errors[n]));
}

/// A Mueller & Muller detector that is reset is the detector it was made as.
pub proof fn mueller_muller_reset_restores_the_default<T: Real>(
    made: MuellerMuller<T>,
    used: MuellerMuller<T>,
    cleared: MuellerMuller<T>,
)
    requires
        made.is_fresh(),
        MuellerMuller::clears(used, cleared),
    ensures
        cleared == made,
{
}

/// A maximum-likelihood detector that is reset has nothing to report until its
/// next strobe, and still divides by the gain it had.
pub proof fn maximum_likelihood_reset_keeps_the_gain<T: Real>(
    used: MaximumLikelihood<T>,
    cleared: MaximumLikelihood<T>,
    unfed: MaximumLikelihood<T>,
    fed: MaximumLikelihood<T>,
    last: MaximumLikelihood<T>,
    strobe: Complex<T>,
    derivative: Complex<T>,
    observed: Complex<T>,
    reference: Complex<T>,
    early: Option<T>,
    at_strobe: Option<T>,
    late: Option<T>,
)
    requires
        MaximumLikelihood::clears(used, cleared),
        MaximumLikelihood::takes_feedback(cleared, observed, reference, unfed, early),
        MaximumLikelihood::consumes(unfed, strobe, Some(derivative), fed, at_strobe),
        MaximumLikelihood::takes_feedback(fed, observed, reference, last, late),
    ensures
        early is None,
        at_strobe is None,
        late is Some,
        is_maximum_likelihood_error(derivative, reference, used.error_gain(), late->0),
{
}

/// Gardner detectors take two strobes per symbol, maximum-likelihood and
/// Mueller & Muller detectors one.
pub proof fn strobe_rates<T: Real>()
    ensures
        <Gardner<T> as TimingErrorDetector<T>>::STROBE_RATE == 2,
        <MaximumLikelihood<T> as TimingErrorDetector<T>>::STROBE_RATE == 1,
        <MuellerMuller<T> as TimingErrorDetector<T>>::STROBE_RATE == 1,
{
}

} // verus!
