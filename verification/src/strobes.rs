//! Where the strobes of a symbol synchronizer lie, what they read of the pushed
//! samples, and how they steer the loop.

use crate::complex::Complex;
use crate::detector_laws;
use crate::exact;
use crate::filtering;
use crate::fractional_delay::PfbView;
use crate::laws;
use crate::loop_filter;
use crate::loop_filter::LoopFilter;
use crate::number;
use crate::number::Real;
use crate::runs;
use crate::runs::Event;
use crate::symbol_sync;
use crate::symbol_sync::{Stage, Strobe, StrobeError, SyncState};
use crate::ted;
use crate::ted::{Gardner, MaximumLikelihood, MuellerMuller, TimingErrorDetector};
use vstd::prelude::*;

verus! {

/// The state in which a request takes its strobe number `n`, and the detector
/// after it.
proof fn lemma_nth_strobe<D: TimingErrorDetector<T>, F: LoopFilter<T>, T: Real>(
    s: SyncState<D, F, T>,
    strobes: Seq<Strobe<T>>,
    post: SyncState<D, F, T>,
    answer: Result<Option<Complex<T>>, StrobeError>,
    n: int,
) -> (taken: (SyncState<D, F, T>, D))
    requires
        s.recovers_by(strobes, post, answer),
        0 <= n < strobes.len(),
    ensures
        taken.0.interpolates(strobes[n], taken.1),
        taken.0 == (SyncState { detector: taken.0.detector, stage: taken.0.stage, ..s }),
        n == 0 ==> taken.0 == s,
        n == 1 && s.stage is PrimeDecision ==> taken.0.stage is PrimeMid,
        n == 1 && !(s.stage is PrimeDecision) ==> taken.0.stage is Decision,
        n == 2 ==> taken.0.stage is Decision && s.stage is PrimeDecision,
        n <= 2,
    decreases n,
{
    let next = choose|next: SyncState<D, F, T>|
        {
            &&& #[trigger] s.is_after_strobe(strobes.first(), next)
            &&& if s.stage is Decision {
                &&& strobes.len() == 1
                &&& post == next
                &&& answer == Ok::<_, StrobeError>(Some(strobes.first().value))
            } else {
                next.recovers_by(strobes.drop_first(), post, answer)
            }
        };
    assert(s.is_after_strobe(strobes.first(), next));
    if n == 0 {
        (s, next.detector)
    } else {
        let rest = strobes.drop_first();
        assert(rest[n - 1] == strobes[n]);
        lemma_nth_strobe(next, rest, post, answer, n - 1)
    }
}

/// The strobes of a request lie half a symbol apart and end on the decision:
/// the priming ones one symbol and half a symbol before the start, a mid strobe
/// half a symbol before the next decision. Each is the number type's own
/// difference; where arithmetic is exact, twice the half is the whole.
pub proof fn strobes_lie_half_a_symbol_apart<
    D: TimingErrorDetector<T>,
    F: LoopFilter<T>,
    T: Real,
>(
    value: spec_fn(T) -> real,
    s: SyncState<D, F, T>,
    strobes: Seq<Strobe<T>>,
    post: SyncState<D, F, T>,
    answer: Result<Option<Complex<T>>, StrobeError>,
    n: int,
)
    requires
        exact::is_exact(value),
        2real * value(s.half_symbol) == value(s.sps),
        s.recovers_by(strobes, post, answer),
        0 <= n < strobes.len(),
    ensures
        s.stage is PrimeDecision && n == 0 ==> {
            &&& call_ensures(T::minus, (s.start, s.sps), strobes[n].position)
            &&& value(strobes[n].position) == value(s.start) - value(s.sps)
        },
        s.stage is PrimeDecision && n == 1 || s.stage is PrimeMid && n == 0 ==> {
            &&& call_ensures(T::minus, (s.start, s.half_symbol), strobes[n].position)
            &&& 2real * value(strobes[n].position) == 2real * value(s.start) - value(s.sps)
        },
        s.stage is Mid && n == 0 ==> {
            &&& call_ensures(T::minus, (s.position, s.half_symbol), strobes[n].position)
            &&& 2real * value(strobes[n].position) == 2real * value(s.position) - value(s.sps)
        },
        s.stage is PrimeDecision && n == 2 || s.stage is PrimeMid && n == 1 || s.stage is Mid && n
            == 1 || s.stage is Decision && n == 0 ==> strobes[n].position == s.position,
        s.stage is PrimeDecision ==> n <= 2,
        s.stage is PrimeMid || s.stage is Mid ==> n <= 1,
        s.stage is Decision ==> n == 0,
{
    let (taken, _) = lemma_nth_strobe(s, strobes, post, answer, n);
    let position = strobes[n].position;
    assert(taken.strobe_at(position));
    runs::detector_consumes_the_strobes(s, strobes, post, answer);
    if taken.stage is PrimeDecision {
        assert(number::is_difference(s.start, s.sps, position));
    } else if taken.stage is PrimeMid {
        assert(number::is_difference(s.start, s.half_symbol, position));
    } else if taken.stage is Mid {
        assert(number::is_difference(s.position, s.half_symbol, position));
    }
}

/// A mid strobe lies midway between the decision before it and the one after
/// it where nothing steers the loop between them; a correction shifts it with
/// the decision that follows.
pub proof fn mid_strobe_lies_midway<D: TimingErrorDetector<T>, F: LoopFilter<T>, T: Real>(
    value: spec_fn(T) -> real,
    s: SyncState<D, F, T>,
    decision: Strobe<T>,
    moved: SyncState<D, F, T>,
    later: SyncState<D, F, T>,
    strobes: Seq<Strobe<T>>,
    post: SyncState<D, F, T>,
    answer: Result<Option<Complex<T>>, StrobeError>,
)
    requires
        exact::is_exact(value),
        2real * value(s.half_symbol) == value(s.sps),
        D::STROBE_RATE == 2,
        s.stage is Decision,
        s.is_after_strobe(decision, moved),
        later == (SyncState { history: later.history, pushed: later.pushed, ..moved }),
        later.recovers_by(strobes, post, answer),
        strobes.len() > 0,
    ensures
        decision.position == s.position,
        2real * value(strobes[0].position) == 2real * value(moved.position) - value(s.sps),
        decision.error is None ==> {
            &&& value(moved.position) == value(decision.position) + value(s.sps)
            &&& 2real * value(strobes[0].position) == value(decision.position) + value(
                moved.position,
            )
        },
        decision.error matches Some(error) ==> exists|correction: T|
            {
                &&& #[trigger] call_ensures(
                    <F as LoopFilter<T>>::update,
                    (&s.filter, error),
                    (moved.filter, correction),
                )
                &&& value(moved.position) == value(decision.position) + value(s.sps) - value(
                    correction,
                )
                &&& 2real * value(strobes[0].position) == value(decision.position) + value(
                    moved.position,
                ) - value(correction)
            },
        strobes.len() > 1 ==> strobes[1].position == moved.position,
{
    let (taken, _) = lemma_nth_strobe(later, strobes, post, answer, 0);
    let mid = strobes[0].position;
    assert(taken.strobe_at(mid));
    laws::decision_moves_on_by_one_symbol(s, decision, moved, mid);
    strobes_lie_half_a_symbol_apart(value, later, strobes, post, answer, 0);
    if strobes.len() > 1 {
        strobes_lie_half_a_symbol_apart(value, later, strobes, post, answer, 1);
    }
    if let Some(error) = decision.error {
        let (whole, correction) = choose|whole: T, correction: T|
            {
                &&& number::is_sum(s.position, s.sps, whole)
                &&& loop_filter::is_update(s.filter, error, moved.filter, correction)
                &&& #[trigger] number::is_difference(whole, correction, moved.position)
            };
        assert(number::is_sum(s.position, s.sps, whole));
        assert(number::is_difference(whole, correction, moved.position));
        assert(call_ensures(
            <F as LoopFilter<T>>::update,
            (&s.filter, error),
            (moved.filter, correction),
        ));
    }
}

/// Every strobe of a request, and the derivative that goes with it, is read off
/// the pushed samples around the strobe's own position: from the same window
/// and the same branch, the nearest one. Both are sums of those samples times
/// the coefficients of the low-pass.
pub proof fn strobes_read_the_pushed_samples<
    D: TimingErrorDetector<T>,
    F: LoopFilter<T>,
    T: Real,
>(
    value: spec_fn(T) -> real,
    level: spec_fn(Complex<T>) -> real,
    s: SyncState<D, F, T>,
    num_phases: usize,
    min_len: usize,
    lowpass: Seq<T>,
    samples: Seq<Complex<T>>,
    strobes: Seq<Strobe<T>>,
    post: SyncState<D, F, T>,
    answer: Result<Option<Complex<T>>, StrobeError>,
    n: int,
)
    requires
        exact::is_exact(value),
        filtering::is_linear(value, level),
        s.wf(),
        min_len > 1,
        s.pfb.is_made_of(num_phases, min_len, lowpass),
        laws::has_received(s, samples),
        samples.len() <= usize::MAX,
        s.recovers_by(strobes, post, answer),
        0 <= n < strobes.len(),
    ensures
        reads_around(value, level, s.pfb, num_phases, lowpass, samples, strobes[n]),
{
    let (taken, detector) = lemma_nth_strobe(s, strobes, post, answer, n);
    lemma_strobe_reads_around(
        value,
        level,
        taken,
        num_phases,
        min_len,
        lowpass,
        samples,
        strobes[n],
        detector,
    );
}

/// The latest of `len` samples that lies a multiple of `capacity` after sample
/// `i`.
pub open spec fn latest_in_slot(i: int, len: int, capacity: int) -> int {
    i + capacity * ((len - 1 - i) / capacity)
}

/// The latest samples in the slots of the window centred on `index`, in a ring
/// that holds a window and two samples more.
pub open spec fn latest_window<T>(samples: Seq<Complex<T>>, delay: nat, index: nat) -> Seq<
    Complex<T>,
> {
    Seq::new(
        2 * delay + 1,
        |k: int|
            samples[latest_in_slot(
                index - delay + k,
                samples.len() as int,
                (2 * delay + 3) as int,
            )],
    )
}

/// Each slot of the ring holds the latest sample that was pushed into it.
pub proof fn ring_holds_the_latest_samples<D, F, T>(
    s: SyncState<D, F, T>,
    samples: Seq<Complex<T>>,
    i: int,
)
    requires
        s.pushed == 0,
        s.history.len() > 0,
        0 <= i < samples.len(),
    ensures
        ({
            let capacity = s.history.len() as int;
            let latest = latest_in_slot(i, samples.len() as int, capacity);
            &&& i <= latest < samples.len() <= latest + capacity
            &&& samples.len() <= i + capacity ==> latest == i
            &&& s.push_all(samples).history[i % capacity] == samples[latest]
        }),
{
    let capacity = s.history.len() as int;
    let rest = samples.len() - 1 - i;
    let turns = rest / capacity;
    let latest = latest_in_slot(i, samples.len() as int, capacity);
    vstd::arithmetic::div_mod::lemma_fundamental_div_mod(rest, capacity);
    vstd::arithmetic::div_mod::lemma_mod_bound(rest, capacity);
    vstd::arithmetic::div_mod::lemma_div_pos_is_pos(rest, capacity);
    assert(0 <= capacity * turns) by (nonlinear_arith)
        requires
            0 < capacity,
            0 <= turns,
    ;
    if samples.len() <= i + capacity {
        vstd::arithmetic::div_mod::lemma_basic_div(rest, capacity);
        assert(capacity * turns == 0) by (nonlinear_arith)
            requires
                turns == 0,
        ;
    }
    vstd::arithmetic::div_mod::lemma_mod_multiples_vanish(turns, i, capacity);
    assert(latest == capacity * turns + i);
    laws::ring_gives_back_recent_samples(s, samples, latest);
}

/// The strobe is centred on the whole part of its position, and on the branch
/// nearest to the rest, within the pushed `samples`; and its value and its
/// derivative are what the low-pass makes of that one window on that one
/// branch. As long as no more than two samples have followed the window, it is
/// the pushed samples around the centre; later ones take the place of earlier
/// ones.
pub open spec fn reads_around<T>(
    value: spec_fn(T) -> real,
    level: spec_fn(Complex<T>) -> real,
    pfb: PfbView<T>,
    num_phases: usize,
    lowpass: Seq<T>,
    samples: Seq<Complex<T>>,
    strobe: Strobe<T>,
) -> bool {
    let delay = pfb.group_delay();
    let (index, phase) = (strobe.index, strobe.phase);
    let place = (value(strobe.position) - (index as real)) * (num_phases as real);
    let window = latest_window(samples, delay, index);
    &&& exact::is_centred(value(strobe.position), delay, index)
    &&& index + delay < samples.len()
    &&& phase < num_phases
    &&& place <= 0real ==> phase == 0
    &&& place >= 0real ==> -1real <= 2real * (place - (phase as real))
    &&& place >= 0real && phase + 1 < num_phases ==> 2real * (place - (phase as real)) <= 1real
    &&& samples.len() <= index + delay + 3 ==> window == samples.subrange(
        index - delay,
        (index + delay + 1) as int,
    )
    &&& level(strobe.value) == filtering::filtered(
        value,
        level,
        lowpass,
        num_phases,
        phase as int,
        window,
        window.len(),
    )
    &&& level(strobe.derivative) * 2real == filtering::doubly_differentiated(
        value,
        level,
        lowpass,
        num_phases,
        phase as int,
        window,
        window.len(),
    )
}

proof fn lemma_strobe_reads_around<D: TimingErrorDetector<T>, F: LoopFilter<T>, T: Real>(
    value: spec_fn(T) -> real,
    level: spec_fn(Complex<T>) -> real,
    s: SyncState<D, F, T>,
    num_phases: usize,
    min_len: usize,
    lowpass: Seq<T>,
    samples: Seq<Complex<T>>,
    strobe: Strobe<T>,
    detector: D,
)
    requires
        exact::is_exact(value),
        filtering::is_linear(value, level),
        s.wf(),
        min_len > 1,
        s.pfb.is_made_of(num_phases, min_len, lowpass),
        laws::has_received(s, samples),
        samples.len() <= usize::MAX,
        s.interpolates(strobe, detector),
    ensures
        reads_around(value, level, s.pfb, num_phases, lowpass, samples, strobe),
{
    let delay = s.pfb.group_delay();
    let (index, phase) = (strobe.index, strobe.phase);
    let begun = choose|begun: SyncState<D, F, T>|
        {
            &&& begun.wf()
            &&& begun.pushed == 0
            &&& begun.pfb == s.pfb
            &&& s.history == (#[trigger] begun.push_all(samples)).history
            &&& s.pushed == samples.len()
        };
    laws::strobe_window_has_been_pushed(s, strobe, detector);
    exact::centre_is_the_whole_part(value, s, strobe.position, index);
    exact::phase_is_the_nearest(value, s, strobe.position, index, phase);
    laws::push_all_counts(begun, samples);
    let window = latest_window(samples, delay, index);
    let capacity = s.history.len() as int;
    assert forall|k: int| 0 <= k < window.len() implies #[trigger] s.window(index)[k]
        == window[k] by {
        ring_holds_the_latest_samples(begun, samples, index - delay + k);
    }
    assert(s.window(index) =~= window);
    if samples.len() <= index + delay + 3 {
        let around = samples.subrange(index - delay, (index + delay + 1) as int);
        assert forall|k: int| 0 <= k < window.len() implies window[k] == around[k] by {
            ring_holds_the_latest_samples(begun, samples, index - delay + k);
        }
        assert(window =~= around);
    }
    filtering::outputs_weigh_the_window_by_the_lowpass(
        value,
        level,
        s.pfb,
        num_phases,
        min_len,
        lowpass,
        phase as int,
        window,
        (strobe.value, strobe.derivative),
    );
}

/// What a correction does: the position moves back by what the loop filter's
/// own update gives for the error, and nothing else changes but the filter.
pub proof fn correction_moves_back_by_the_filtered_error<D, F: LoopFilter<T>, T: Real>(
    value: spec_fn(T) -> real,
    s: SyncState<D, F, T>,
    error: T,
    post: SyncState<D, F, T>,
) -> (correction: T)
    requires
        exact::is_exact(value),
        s.is_corrected(error, post),
    ensures
        call_ensures(
            <F as LoopFilter<T>>::update,
            (&s.filter, error),
            (post.filter, correction),
        ),
        call_ensures(T::minus, (s.position, correction), post.position),
        value(post.position) == value(s.position) - value(correction),
        post == (SyncState { filter: post.filter, position: post.position, ..s }),
{
    let correction = choose|correction: T|
        {
            &&& #[trigger] loop_filter::is_update(s.filter, error, post.filter, correction)
            &&& number::is_difference(s.position, correction, post.position)
        };
    assert(loop_filter::is_update(s.filter, error, post.filter, correction));
    assert(number::is_difference(s.position, correction, post.position));
    correction
}

/// With a Gardner detector, each strobe has its part: a decision that primes
/// the loop, and a mid strobe, are remembered and move nothing. A later
/// decision gives an error, the product of the mid strobe before it and the
/// swing from the decision before that; the position moves on by a symbol, less
/// what the loop filter makes of the error.
pub proof fn gardner_strobes_steer<F: LoopFilter<T>, T: Real>(
    value: spec_fn(T) -> real,
    s: SyncState<Gardner<T>, F, T>,
    strobe: Strobe<T>,
    post: SyncState<Gardner<T>, F, T>,
)
    requires
        exact::is_exact(value),
        laws::is_gardner_in_step(s),
        s.is_after_strobe(strobe, post),
    ensures
        s.stage is PrimeDecision ==> {
            &&& post.stage is PrimeMid
            &&& post.detector.previous_decision() == Some(strobe.value)
        },
        s.stage is PrimeMid || s.stage is Mid ==> {
            &&& post.stage is Decision
            &&& post.detector.previous_decision() == s.detector.previous_decision()
            &&& post.detector.latest_mid() == Some(strobe.value)
        },
        !(s.stage is Decision) ==> post.position == s.position && post.filter == s.filter,
        s.stage is Decision ==> {
            &&& post.stage is Mid
            &&& post.detector.previous_decision() == Some(strobe.value)
            &&& s.detector.previous_decision() is Some
            &&& s.detector.latest_mid() is Some
            &&& exists|error: T, correction: T|
                {
                    let mid = s.detector.latest_mid()->0;
                    let previous = s.detector.previous_decision()->0;
                    &&& value(error) == value(mid.re) * (value(strobe.value.re) - value(
                        previous.re,
                    )) + value(mid.im) * (value(strobe.value.im) - value(previous.im))
                    &&& #[trigger] call_ensures(
                        <F as LoopFilter<T>>::update,
                        (&s.filter, error),
                        (post.filter, correction),
                    )
                    &&& value(post.position) == value(s.position) + value(s.sps) - value(correction)
                }
        },
{
    ted::strobe_rates::<T>();
    assert(s.interpolates(strobe, post.detector));
    if s.stage is Decision {
        let (mid, previous) = (s.detector.latest_mid()->0, s.detector.previous_decision()->0);
        let error = strobe.error->0;
        detector_laws::gardner_error_is_mid_times_swing(
            value,
            mid,
            strobe.value,
            previous,
            error,
        );
        let seeded = SyncState {
            detector: post.detector,
            stage: s.stage.successor(<Gardner<T> as TimingErrorDetector<T>>::STROBE_RATE),
            ..s
        };
        let moved = choose|moved: T|
            {
                &&& #[trigger] number::is_sum(s.position, s.sps, moved)
                &&& SyncState { position: moved, ..seeded }.is_corrected(error, post)
            };
        assert(number::is_sum(s.position, s.sps, moved));
        let from = SyncState { position: moved, ..seeded };
        let correction = correction_moves_back_by_the_filtered_error(value, from, error, post);
        assert(call_ensures(
            <F as LoopFilter<T>>::update,
            (&s.filter, error),
            (post.filter, correction),
        ));
    }
}

/// With a Gardner detector the first symbol of a burst already steers the loop,
/// by the three strobes that its request takes: one symbol before the start,
/// half a symbol before it, and at it.
pub proof fn first_gardner_symbol_steers<F: LoopFilter<T>, T: Real>(
    value: spec_fn(T) -> real,
    s: SyncState<Gardner<T>, F, T>,
    strobes: Seq<Strobe<T>>,
    post: SyncState<Gardner<T>, F, T>,
    symbol: Complex<T>,
)
    requires
        exact::is_exact(value),
        2real * value(s.half_symbol) == value(s.sps),
        s.stage is PrimeDecision,
        s.position == s.start,
        s.detector.is_fresh(),
        s.recovers_by(strobes, post, Ok(Some(symbol))),
    ensures
        strobes.len() == 3,
        strobes[2].value == symbol,
        value(strobes[0].position) == value(s.start) - value(s.sps),
        2real * value(strobes[1].position) == 2real * value(s.start) - value(s.sps),
        strobes[2].position == s.start,
        exists|error: T, correction: T|
            {
                let (previous, mid) = (strobes[0].value, strobes[1].value);
                &&& value(error) == value(mid.re) * (value(symbol.re) - value(previous.re)) + value(
                    mid.im,
                ) * (value(symbol.im) - value(previous.im))
                &&& #[trigger] call_ensures(
                    <F as LoopFilter<T>>::update,
                    (&s.filter, error),
                    (post.filter, correction),
                )
                &&& value(post.position) == value(s.start) + value(s.sps) - value(correction)
            },
{
    let answer: Result<Option<Complex<T>>, StrobeError> = Ok(Some(symbol));
    runs::detector_consumes_the_strobes(s, strobes, post, answer);
    strobes_lie_half_a_symbol_apart(value, s, strobes, post, answer, 0);
    strobes_lie_half_a_symbol_apart(value, s, strobes, post, answer, 1);
    strobes_lie_half_a_symbol_apart(value, s, strobes, post, answer, 2);
    let primed = lemma_after_first(s, strobes, post, answer);
    gardner_strobes_steer(value, s, strobes[0], primed);
    let rest = strobes.drop_first();
    let seeded = lemma_after_first(primed, rest, post, answer);
    assert(rest.first() == strobes[1]);
    assert(laws::is_gardner_in_step(primed)) by {
        assert(s.interpolates(strobes[0], primed.detector));
    }
    gardner_strobes_steer(value, primed, strobes[1], seeded);
    assert(laws::is_gardner_in_step(seeded)) by {
        assert(primed.interpolates(strobes[1], seeded.detector));
    }
    let last = rest.drop_first();
    assert(last.first() == strobes[2]);
    let end = choose|next: SyncState<Gardner<T>, F, T>|
        {
            &&& #[trigger] seeded.is_after_strobe(last.first(), next)
            &&& last.len() == 1
            &&& post == next
            &&& answer == Ok::<_, StrobeError>(Some(last.first().value))
        };
    assert(seeded.is_after_strobe(strobes[2], post));
    gardner_strobes_steer(value, seeded, strobes[2], post);
}

/// The state after the first strobe of a request that goes on.
proof fn lemma_after_first<D: TimingErrorDetector<T>, F: LoopFilter<T>, T: Real>(
    s: SyncState<D, F, T>,
    strobes: Seq<Strobe<T>>,
    post: SyncState<D, F, T>,
    answer: Result<Option<Complex<T>>, StrobeError>,
) -> (next: SyncState<D, F, T>)
    requires
        s.recovers_by(strobes, post, answer),
        strobes.len() > 0,
        !(s.stage is Decision),
    ensures
        s.is_after_strobe(strobes.first(), next),
        next.recovers_by(strobes.drop_first(), post, answer),
{
    choose|next: SyncState<D, F, T>|
        {
            &&& #[trigger] s.is_after_strobe(strobes.first(), next)
            &&& next.recovers_by(strobes.drop_first(), post, answer)
        }
}

/// With a maximum-likelihood detector, the feedback for a recovered symbol
/// steers the loop by the derivative at the strobe that gave the symbol: read
/// off the same pushed samples, on the same branch. The position moves back by
/// what the loop filter makes of the error.
pub proof fn maximum_likelihood_steers_by_the_derivative_at_the_strobe<F: LoopFilter<T>, T: Real>(
    value: spec_fn(T) -> real,
    level: spec_fn(Complex<T>) -> real,
    s: SyncState<MaximumLikelihood<T>, F, T>,
    num_phases: usize,
    min_len: usize,
    lowpass: Seq<T>,
    samples: Seq<Complex<T>>,
    pulled: SyncState<MaximumLikelihood<T>, F, T>,
    symbol: Complex<T>,
    observed: Complex<T>,
    reference: Complex<T>,
    post: SyncState<MaximumLikelihood<T>, F, T>,
)
    requires
        exact::is_exact(value),
        filtering::is_linear(value, level),
        s.wf(),
        min_len > 1,
        s.pfb.is_made_of(num_phases, min_len, lowpass),
        laws::has_received(s, samples),
        samples.len() <= usize::MAX,
        value(s.detector.error_gain()) > 0real,
        s.recovers(pulled, Ok(Some(symbol))),
        pulled.is_after_feedback(observed, reference, post),
    ensures
        exists|strobe: Strobe<T>, error: T, correction: T|
            {
                &&& strobe.position == s.position
                &&& strobe.value == symbol
                &&& #[trigger] reads_around(
                    value,
                    level,
                    s.pfb,
                    num_phases,
                    lowpass,
                    samples,
                    strobe,
                )
                &&& value(error) * value(s.detector.error_gain()) == -exact::correlation_value(
                    value,
                    reference,
                    strobe.derivative,
                )
                &&& #[trigger] call_ensures(
                    <F as LoopFilter<T>>::update,
                    (&s.filter, error),
                    (post.filter, correction),
                )
                &&& value(post.position) == value(s.position) + value(s.sps) - value(correction)
            },
{
    laws::symbol_is_interpolated_at_the_position(s, pulled, symbol);
    laws::requests_keep_the_maximum_likelihood_gain(s, pulled, Ok(Some(symbol)));
    laws::maximum_likelihood_defers_to_feedback(s, pulled, symbol);
    let (seeded, strobe) = choose|
        seeded: SyncState<MaximumLikelihood<T>, F, T>,
        strobe: Strobe<T>,
    |
        {
            &&& #[trigger] seeded.is_after_strobe(strobe, pulled)
            &&& seeded == (SyncState { detector: seeded.detector, stage: Stage::Decision, ..s })
            &&& strobe.position == s.position
            &&& strobe.value == symbol
        };
    assert(seeded.interpolates(strobe, pulled.detector));
    lemma_received_without_detector(s, seeded, samples);
    lemma_strobe_reads_around(
        value,
        level,
        seeded,
        num_phases,
        min_len,
        lowpass,
        samples,
        strobe,
        pulled.detector,
    );
    let reported = choose|reported: Option<T>|
        {
            &&& #[trigger] MaximumLikelihood::takes_feedback(
                pulled.detector,
                observed,
                reference,
                post.detector,
                reported,
            )
            &&& match reported {
                Some(error) => SyncState { detector: post.detector, ..pulled }.is_corrected(
                    error,
                    post,
                ),
                None => post == SyncState { detector: post.detector, ..pulled },
            }
        };
    detector_laws::maximum_likelihood_error_opposes_the_derivative(
        value,
        pulled.detector,
        post.detector,
        strobe.derivative,
        observed,
        reference,
        reported,
    );
    let error = reported->0;
    let from = SyncState { detector: post.detector, ..pulled };
    let correction = correction_moves_back_by_the_filtered_error(value, from, error, post);
    assert(call_ensures(
        <F as LoopFilter<T>>::update,
        (&s.filter, error),
        (post.filter, correction),
    ));
}

proof fn lemma_received_without_detector<D, F, T>(
    s: SyncState<D, F, T>,
    other: SyncState<D, F, T>,
    samples: Seq<Complex<T>>,
)
    requires
        laws::has_received(s, samples),
        other.pfb == s.pfb,
        other.history == s.history,
        other.pushed == s.pushed,
    ensures
        laws::has_received(other, samples),
{
    let begun = choose|begun: SyncState<D, F, T>|
        {
            &&& begun.wf()
            &&& begun.pushed == 0
            &&& begun.pfb == s.pfb
            &&& s.history == (#[trigger] begun.push_all(samples)).history
            &&& s.pushed == samples.len()
        };
    assert(other.history == begun.push_all(samples).history);
}

/// With a Mueller & Muller detector, the feedback for every symbol but the
/// first steers the loop by how the two latest pairs compare.
pub proof fn mueller_muller_steers_by_consecutive_pairs<F: LoopFilter<T>, T: Real>(
    value: spec_fn(T) -> real,
    s: SyncState<MuellerMuller<T>, F, T>,
    previous: (Complex<T>, Complex<T>),
    observed: Complex<T>,
    reference: Complex<T>,
    post: SyncState<MuellerMuller<T>, F, T>,
)
    requires
        exact::is_exact(value),
        s.detector.previous_observed() == Some(previous.0),
        s.detector.previous_sent() == Some(previous.1),
        s.is_after_feedback(observed, reference, post),
    ensures
        post.detector.previous_observed() == Some(observed),
        post.detector.previous_sent() == Some(reference),
        exists|error: T, correction: T|
            {
                &&& value(error) == exact::correlation_value(value, reference, previous.0)
                    - exact::correlation_value(value, previous.1, observed)
                &&& #[trigger] call_ensures(
                    <F as LoopFilter<T>>::update,
                    (&s.filter, error),
                    (post.filter, correction),
                )
                &&& value(post.position) == value(s.position) - value(correction)
            },
{
    let reported = choose|reported: Option<T>|
        {
            &&& #[trigger] MuellerMuller::takes_feedback(
                s.detector,
                observed,
                reference,
                post.detector,
                reported,
            )
            &&& match reported {
                Some(error) => SyncState { detector: post.detector, ..s }.is_corrected(error, post),
                None => post == SyncState { detector: post.detector, ..s },
            }
        };
    let error = reported->0;
    detector_laws::mueller_muller_error_compares_the_pairs(
        value,
        observed,
        reference,
        previous.0,
        previous.1,
        error,
    );
    let from = SyncState { detector: post.detector, ..s };
    let correction = correction_moves_back_by_the_filtered_error(value, from, error, post);
    assert(call_ensures(
        <F as LoopFilter<T>>::update,
        (&s.filter, error),
        (post.filter, correction),
    ));
}

/// Where a strobe of a stage lies: see [`strobes_lie_half_a_symbol_apart`].
pub open spec fn doubled_place<D, F, T>(value: spec_fn(T) -> real, s: SyncState<D, F, T>) -> real {
    match s.stage {
        Stage::PrimeDecision => 2real * value(s.start) - 2real * value(s.sps),
        Stage::PrimeMid => 2real * value(s.start) - value(s.sps),
        Stage::Mid => 2real * value(s.position) - value(s.sps),
        Stage::Decision => 2real * value(s.position),
    }
}

/// A request is left unanswered only where the newest sample of the window of
/// a strobe is still to come, and refused only where the strobe, or its branch,
/// lies beyond every index. In all other cases it gives a symbol.
pub proof fn request_waits_only_for_its_window<
    D: TimingErrorDetector<T>,
    F: LoopFilter<T>,
    T: Real,
>(
    value: spec_fn(T) -> real,
    s: SyncState<D, F, T>,
    post: SyncState<D, F, T>,
    answer: Result<Option<Complex<T>>, StrobeError>,
)
    requires
        exact::is_exact(value),
        2real * value(s.half_symbol) == value(s.sps),
        0 < s.pfb.num_phases <= usize::MAX,
        s.pushed <= usize::MAX,
        s.recovers(post, answer),
    ensures
        answer matches Ok(None) ==> exists|x: real, index: nat|
            {
                &&& 2real * x == doubled_place(value, post)
                &&& #[trigger] exact::is_centred(x, s.pfb.group_delay(), index)
                &&& s.pushed <= index + s.pfb.group_delay()
            },
        answer matches Err(StrobeError::PositionOutOfRange) ==> doubled_place(value, post) >= 2real
            * ((usize::MAX as real) + 1real),
        answer matches Err(StrobeError::PhaseOutOfRange) ==> exists|x: real, index: nat|
            {
                &&& 2real * x == doubled_place(value, post)
                &&& #[trigger] exact::is_centred(x, s.pfb.group_delay(), index)
                &&& (x - (index as real)) * (s.pfb.num_phases as real) >= usize::MAX as real
            },
{
    laws::recovering_keeps_the_samples(s, post, answer);
    laws::request_ends_at_the_strobe_that_stopped_it(s, post, answer);
    match answer {
        Ok(None) => {
            let (position, index) = choose|position: T, index: nat|
                post.strobe_at(position) && #[trigger] post.is_centre(position, index)
                    && !post.has_window(index);
            assert(post.strobe_at(position) && post.is_centre(position, index));
            lemma_doubled_place(value, post, position);
            exact::centre_is_the_whole_part(value, post, position, index);
            assert(exact::is_centred(value(position), s.pfb.group_delay(), index));
        },
        Ok(Some(_)) => {},
        Err(StrobeError::PositionOutOfRange) => {
            let position = choose|position: T|
                post.strobe_at(position) && #[trigger] symbol_sync::is_floor_index(
                    position,
                    None::<usize>,
                );
            assert(post.strobe_at(position));
            lemma_doubled_place(value, post, position);
            exact::only_late_positions_lack_an_index(value, position);
        },
        Err(StrobeError::PhaseOutOfRange) => {
            let (position, index) = choose|position: T, index: nat|
                {
                    &&& post.strobe_at(position)
                    &&& #[trigger] post.is_centre(position, index)
                    &&& post.has_window(index)
                    &&& symbol_sync::is_nearest_branch(
                        position,
                        index,
                        post.pfb.num_phases,
                        None,
                    )
                };
            assert(post.strobe_at(position) && post.is_centre(position, index));
            lemma_doubled_place(value, post, position);
            exact::centre_is_the_whole_part(value, post, position, index);
            exact::only_far_places_lack_a_branch(value, position, index, s.pfb.num_phases);
            assert(exact::is_centred(value(position), s.pfb.group_delay(), index));
        },
    }
}

proof fn lemma_doubled_place<D, F, T: Real>(
    value: spec_fn(T) -> real,
    s: SyncState<D, F, T>,
    position: T,
)
    requires
        exact::is_exact(value),
        2real * value(s.half_symbol) == value(s.sps),
        s.strobe_at(position),
    ensures
        2real * value(position) == doubled_place(value, s),
{
    if s.stage is PrimeDecision {
        assert(number::is_difference(s.start, s.sps, position));
    } else if s.stage is PrimeMid {
        assert(number::is_difference(s.start, s.half_symbol, position));
    } else if s.stage is Mid {
        assert(number::is_difference(s.position, s.half_symbol, position));
    }
}

/// Nothing that happens within a burst changes the symbol period, the start or
/// the interpolator.
pub proof fn burst_keeps_the_configuration<
    D: TimingErrorDetector<T>,
    F: LoopFilter<T>,
    T: Real,
>(states: Seq<SyncState<D, F, T>>, events: Seq<Event<T>>)
    requires
        runs::is_run(states, events),
    ensures
        states.last().sps == states[0].sps,
        states.last().half_symbol == states[0].half_symbol,
        states.last().start == states[0].start,
        states.last().pfb == states[0].pfb,
    decreases events.len(),
{
    if events.len() > 0 {
        let earlier = events.drop_last();
        let before = states.drop_last();
        assert forall|n: int|
            #![trigger earlier[n]]
            0 <= n < earlier.len() implies runs::is_step(
            before[n],
            earlier[n],
            before[n + 1],
        ) by {
            assert(events[n] == earlier[n]);
        }
        burst_keeps_the_configuration(before, earlier);
        let (s, post) = (before.last(), states.last());
        let last = events[events.len() - 1];
        assert(runs::is_step(s, last, post));
        match last {
            Event::Push(_) => {},
            Event::Request(strobes, answer) => {
                runs::strobes_are_a_request(s, strobes, post, answer);
                laws::recovering_keeps_the_samples(s, post, answer);
            },
            Event::Feedback(observed, reference) => {
                laws::feedback_moves_only_the_position(s, observed, reference, post);
            },
        }
    }
}

} // verus!
