//! What the library's calls do, each in terms of its arguments and its result:
//! how a loop is configured, what a bank is made of, what an oscillator does.

use crate::carrier::CarrierSynchronizer;
use crate::complex::Complex;
use crate::exact;
use crate::filtering;
use crate::fractional_delay;
use crate::fractional_delay::{DesignError, FractionalDelayPfb};
use crate::laws;
use crate::loop_filter;
use crate::loop_filter::LoopFilter;
use crate::lowpass;
use crate::lowpass::LowpassDesign;
use crate::number;
use crate::number::{CircleConst, Real, Sample};
use crate::runs;
use crate::symbol_sync;
use crate::symbol_sync::{Strobe, StrobeError, SymbolSynchronizer, SyncState};
use crate::ted::{Gardner, MaximumLikelihood, MuellerMuller, TimingErrorDetector};
use vstd::prelude::*;

verus! {

// Symbol timing.

/// A timing loop is set up as it was asked for: its loop filter is what the
/// filter type makes of the loop bandwidth and the damping, in that order; the
/// first symbol is due at `start`; no sample is there yet; and a detector that
/// takes two strobes per symbol is primed first.
pub open spec fn is_set_up<D: TimingErrorDetector<T>, F: LoopFilter<T>, T: Real>(
    s: SyncState<D, F, T>,
    start: T,
    loop_bandwidth: T,
    damping: T,
) -> bool {
    &&& call_ensures(<F as LoopFilter<T>>::new, (loop_bandwidth, damping), s.filter)
    &&& s.position == start
    &&& s.start == start
    &&& s.pushed == 0
    &&& D::STROBE_RATE == 2 ==> s.stage is PrimeDecision
    &&& D::STROBE_RATE != 2 ==> s.stage is Decision
}

/// The symbol period is `sps` samples, and its half is half of that; the ring
/// holds a window and two samples more, all of them zero.
pub open spec fn has_period<D, F, T: Real>(
    value: spec_fn(T) -> real,
    s: SyncState<D, F, T>,
    sps: usize,
) -> bool {
    &&& call_ensures(T::from_index, (sps,), s.sps)
    &&& value(s.sps) == sps as real
    &&& 2real * value(s.half_symbol) == value(s.sps)
    &&& s.history.len() == 2 * s.pfb.group_delay() + 3
    &&& forall|slot: int|
        0 <= slot < s.history.len() ==> value((#[trigger] s.history[slot]).re) == 0real && value(
            s.history[slot].im,
        ) == 0real
}

proof fn lemma_set_up<D: TimingErrorDetector<T>, F: LoopFilter<T>, T: Real>(
    s: SyncState<D, F, T>,
    start: T,
    loop_bandwidth: T,
    damping: T,
)
    requires
        s.starts_at(start, loop_bandwidth, damping),
    ensures
        is_set_up(s, start, loop_bandwidth, damping),
{
    assert(loop_filter::is_new(loop_bandwidth, damping, s.filter));
}

proof fn lemma_has_period<D, F, T: Real>(
    value: spec_fn(T) -> real,
    s: SyncState<D, F, T>,
    sps: usize,
)
    requires
        exact::is_exact(value),
        s.wf(),
        symbol_sync::is_symbol_period(sps, s.sps, s.half_symbol),
        s.is_silent(),
    ensures
        has_period(value, s, sps),
{
    let two = choose|two: T|
        {
            &&& number::is_count(sps, s.sps)
            &&& #[trigger] number::is_count(2, two)
            &&& number::is_quotient(s.sps, two, s.half_symbol)
        };
    assert(number::is_count(sps, s.sps) && number::is_count(2, two));
    assert(number::is_quotient(s.sps, two, s.half_symbol));
    assert forall|slot: int| 0 <= slot < s.history.len() implies value(
        (#[trigger] s.history[slot]).re,
    ) == 0real && value(s.history[slot].im) == 0real by {
        assert(number::is_zero(s.history[slot].re) && number::is_zero(s.history[slot].im));
    }
}

/// A synchronizer that is made around an interpolator is set up as it was asked
/// for, with that interpolator and that detector.
pub proof fn synchronizer_around_an_interpolator_is_as_asked<
    D: TimingErrorDetector<T>,
    F: LoopFilter<T>,
    T: Real,
>(
    value: spec_fn(T) -> real,
    sps: usize,
    start: T,
    loop_bandwidth: T,
    damping: T,
    pfb: FractionalDelayPfb<T>,
    detector: D,
    made: SymbolSynchronizer<D, F, T>,
)
    requires
        exact::is_exact(value),
        call_ensures(
            SymbolSynchronizer::<D, F, T>::with_interpolator,
            (sps, start, loop_bandwidth, damping, pfb, detector),
            made,
        ),
    ensures
        is_set_up(made@, start, loop_bandwidth, damping),
        has_period(value, made@, sps),
        made@.pfb == pfb@,
        made@.detector == detector,
{
    lemma_set_up(made@, start, loop_bandwidth, damping);
    lemma_has_period(value, made@, sps);
}

/// A synchronizer with a given detector is set up as it was asked for, around
/// an interpolator of 32 branches that was designed for 60 dB.
pub proof fn synchronizer_with_a_detector_is_as_asked<
    D: TimingErrorDetector<T>,
    F: LoopFilter<T>,
    T: Real,
    G: LowpassDesign<T>,
>(
    value: spec_fn(T) -> real,
    sps: usize,
    start: T,
    loop_bandwidth: T,
    damping: T,
    detector: D,
    made: SymbolSynchronizer<D, F, T>,
)
    requires
        exact::is_exact(value),
        call_ensures(
            SymbolSynchronizer::<D, F, T>::with_detector::<G>,
            (sps, start, loop_bandwidth, damping, detector),
            Ok(made),
        ),
    ensures
        is_set_up(made@, start, loop_bandwidth, damping),
        has_period(value, made@, sps),
        made@.detector == detector,
        exists|atten: T|
            value(atten) == 60real && #[trigger] is_kaiser_bank::<G, T>(
                value,
                32,
                atten,
                made@.pfb,
            ),
{
    lemma_set_up(made@, start, loop_bandwidth, damping);
    lemma_has_period(value, made@, sps);
    lemma_timing_interpolator::<G, T>(value, made@.pfb);
}

/// A synchronizer with a default detector is set up as it was asked for, around
/// an interpolator of 32 branches that was designed for 60 dB.
pub proof fn new_synchronizer_is_as_asked<
    D: TimingErrorDetector<T> + Default,
    F: LoopFilter<T>,
    T: Real,
    G: LowpassDesign<T>,
>(
    value: spec_fn(T) -> real,
    sps: usize,
    start: T,
    loop_bandwidth: T,
    damping: T,
    made: SymbolSynchronizer<D, F, T>,
)
    requires
        exact::is_exact(value),
        call_ensures(
            SymbolSynchronizer::<D, F, T>::new::<G>,
            (sps, start, loop_bandwidth, damping),
            Ok(made),
        ),
    ensures
        is_set_up(made@, start, loop_bandwidth, damping),
        has_period(value, made@, sps),
        call_ensures(<D as Default>::default, (), made@.detector),
        exists|atten: T|
            value(atten) == 60real && #[trigger] is_kaiser_bank::<G, T>(
                value,
                32,
                atten,
                made@.pfb,
            ),
{
    lemma_set_up(made@, start, loop_bandwidth, damping);
    lemma_has_period(value, made@, sps);
    lemma_timing_interpolator::<G, T>(value, made@.pfb);
}

proof fn lemma_timing_interpolator<G: LowpassDesign<T>, T: Real>(
    value: spec_fn(T) -> real,
    bank: fractional_delay::PfbView<T>,
)
    requires
        exact::is_exact(value),
        symbol_sync::is_timing_interpolator::<G, T>(bank),
    ensures
        exists|atten: T|
            value(atten) == 60real && #[trigger] is_kaiser_bank::<G, T>(value, 32, atten, bank),
{
    let atten = choose|atten: T|
        {
            &&& #[trigger] number::is_count(symbol_sync::TIMING_STOPBAND_ATTEN, atten)
            &&& fractional_delay::is_designed::<G, T>(symbol_sync::TIMING_PHASES, atten, bank)
        };
    assert(number::is_count(60, atten));
    lemma_kaiser_bank::<G, T>(value, 32, atten, bank);
}

/// No synchronizer is made where the design for 32 branches and 60 dB makes no
/// bank.
pub proof fn synchronizer_is_refused_for_its_design<
    D: TimingErrorDetector<T> + Default,
    F: LoopFilter<T>,
    T: Real,
    G: LowpassDesign<T>,
>(
    value: spec_fn(T) -> real,
    sps: usize,
    start: T,
    loop_bandwidth: T,
    damping: T,
    detector: D,
    error: DesignError,
)
    requires
        exact::is_exact(value),
        call_ensures(
            SymbolSynchronizer::<D, F, T>::new::<G>,
            (sps, start, loop_bandwidth, damping),
            Err(error),
        ) || call_ensures(
            SymbolSynchronizer::<D, F, T>::with_detector::<G>,
            (sps, start, loop_bandwidth, damping, detector),
            Err(error),
        ),
    ensures
        exists|atten: T|
            value(atten) == 60real && #[trigger] is_unfit::<G, T>(value, 32, atten, error),
{
    assert(symbol_sync::lacks_timing_interpolator::<G, T>(error));
    let atten = choose|atten: T|
        {
            &&& #[trigger] number::is_count(symbol_sync::TIMING_STOPBAND_ATTEN, atten)
            &&& fractional_delay::is_refused::<G, T>(symbol_sync::TIMING_PHASES, atten, error)
        };
    assert(number::is_count(60, atten));
    lemma_unfit::<G, T>(value, 32, atten, error);
}

/// A reset sets the loop up for a new burst: with a fresh loop filter of the
/// given bandwidth and damping, from the given start, with a cleared detector.
/// The symbol period and the interpolator stay.
pub proof fn reset_sets_the_loop_up<D: TimingErrorDetector<T>, F: LoopFilter<T>, T: Real>(
    s: &mut SymbolSynchronizer<D, F, T>,
    start: T,
    loop_bandwidth: T,
    damping: T,
)
    requires
        call_ensures(
            SymbolSynchronizer::<D, F, T>::reset,
            (s, start, loop_bandwidth, damping),
            (),
        ),
    ensures
        is_set_up(final(s)@, start, loop_bandwidth, damping),
        D::clears(old(s)@.detector, final(s)@.detector),
        final(s)@.sps == old(s)@.sps,
        final(s)@.half_symbol == old(s)@.half_symbol,
        final(s)@.pfb == old(s)@.pfb,
        final(s)@.history.len() == final(s)@.pfb.taps_per_phase + 2,
        laws::has_received(final(s)@, Seq::empty()),
{
    let post = final(s)@;
    lemma_set_up(post, start, loop_bandwidth, damping);
    assert(post.push_all(Seq::empty()).history == post.history);
}

/// A push adds its sample to the burst and changes nothing else.
pub proof fn push_adds_its_sample<D: TimingErrorDetector<T>, F: LoopFilter<T>, T: Real>(
    s: &mut SymbolSynchronizer<D, F, T>,
    sample: Complex<T>,
    samples: Seq<Complex<T>>,
)
    requires
        old(s)@.wf(),
        laws::has_received(old(s)@, samples),
        call_ensures(SymbolSynchronizer::<D, F, T>::push, (s, sample), ()),
    ensures
        laws::has_received(final(s)@, samples.push(sample)),
        final(s)@.pushed == samples.len() + 1,
        final(s)@ == (SyncState {
            history: final(s)@.history,
            pushed: final(s)@.pushed,
            ..old(s)@
        }),
        final(s)@.history.len() == old(s)@.history.len(),
        final(s)@.history[(samples.len() % old(s)@.history.len()) as int] == sample,
        forall|slot: int|
            0 <= slot < old(s)@.history.len() && slot != samples.len() % old(s)@.history.len()
                ==> #[trigger] final(s)@.history[slot] == old(s)@.history[slot],
{
    let pre = old(s)@;
    let begun = choose|begun: SyncState<D, F, T>|
        {
            &&& begun.wf()
            &&& begun.pushed == 0
            &&& begun.pfb == pre.pfb
            &&& pre.history == (#[trigger] begun.push_all(samples)).history
            &&& pre.pushed == samples.len()
        };
    let all = samples.push(sample);
    laws::push_all_counts(begun, samples);
    assert(all.drop_last() =~= samples);
    assert(begun.push_all(all).history == final(s)@.history);
}

/// A request takes strobes in order. What it answers is the value of the last
/// one, a decision at the synchronizer's position; without an answer only the
/// detector and the stage have changed.
pub proof fn request_answers_with_its_last_strobe<
    D: TimingErrorDetector<T>,
    F: LoopFilter<T>,
    T: Real,
>(
    s: &mut SymbolSynchronizer<D, F, T>,
    answer: Result<Option<Complex<T>>, StrobeError>,
)
    requires
        call_ensures(SymbolSynchronizer::<D, F, T>::try_next_symbol, (s,), answer),
    ensures
        exists|strobes: Seq<Strobe<T>>|
            {
                &&& #[trigger] old(s)@.recovers_by(strobes, final(s)@, answer)
                &&& runs::consumes_all(old(s)@.detector, strobes, final(s)@.detector)
                &&& answer matches Ok(Some(symbol)) ==> {
                    &&& strobes.len() > 0
                    &&& strobes.last().value == symbol
                    &&& strobes.last().position == old(s)@.position
                }
            },
        answer matches Ok(Some(_)) && D::STROBE_RATE == 2 ==> final(s)@.stage is Mid,
        answer matches Ok(Some(_)) && D::STROBE_RATE != 2 ==> final(s)@.stage is Decision,
        !(answer matches Ok(Some(_))) ==> final(s)@ == (SyncState {
            detector: final(s)@.detector,
            stage: final(s)@.stage,
            ..old(s)@
        }),
        final(s)@ == (SyncState {
            detector: final(s)@.detector,
            stage: final(s)@.stage,
            position: final(s)@.position,
            filter: final(s)@.filter,
            ..old(s)@
        }),
{
    let (pre, post) = (old(s)@, final(s)@);
    runs::request_takes_strobes(pre, post, answer);
    let strobes = choose|strobes: Seq<Strobe<T>>| pre.recovers_by(strobes, post, answer);
    runs::detector_consumes_the_strobes(pre, strobes, post, answer);
    laws::recovering_keeps_the_samples(pre, post, answer);
    if let Ok(Some(symbol)) = answer {
        laws::symbol_is_interpolated_at_the_position(pre, post, symbol);
    }
}

/// A request for a symbol that can be placed is such a request, and is never
/// refused.
pub proof fn next_symbol_is_such_a_request<
    D: TimingErrorDetector<T>,
    F: LoopFilter<T>,
    T: Real,
>(s: &mut SymbolSynchronizer<D, F, T>, symbol: Option<Complex<T>>)
    requires
        call_ensures(SymbolSynchronizer::<D, F, T>::next_symbol, (s,), symbol),
    ensures
        exists|strobes: Seq<Strobe<T>>|
            {
                &&& #[trigger] old(s)@.recovers_by(strobes, final(s)@, Ok(symbol))
                &&& symbol matches Some(z) ==> {
                    &&& strobes.len() > 0
                    &&& strobes.last().value == z
                    &&& strobes.last().position == old(s)@.position
                }
            },
{
    let (pre, post) = (old(s)@, final(s)@);
    let answer: Result<Option<Complex<T>>, StrobeError> = Ok(symbol);
    runs::request_takes_strobes(pre, post, answer);
    let strobes = choose|strobes: Seq<Strobe<T>>| pre.recovers_by(strobes, post, answer);
    runs::detector_consumes_the_strobes(pre, strobes, post, answer);
}

/// Feedback goes to the detector. Where that reports an error, the position
/// moves back by what the loop filter makes of it; where it reports none,
/// position and loop filter stay. Nothing else changes.
pub proof fn feedback_moves_back_by_the_filtered_error<
    D: TimingErrorDetector<T>,
    F: LoopFilter<T>,
    T: Real,
>(
    value: spec_fn(T) -> real,
    s: &mut SymbolSynchronizer<D, F, T>,
    observed: Complex<T>,
    reference: Complex<T>,
)
    requires
        exact::is_exact(value),
        call_ensures(
            SymbolSynchronizer::<D, F, T>::apply_feedback,
            (s, observed, reference),
            (),
        ),
    ensures
        final(s)@ == (SyncState {
            detector: final(s)@.detector,
            position: final(s)@.position,
            filter: final(s)@.filter,
            ..old(s)@
        }),
        exists|reported: Option<T>|
            {
                &&& #[trigger] D::takes_feedback(
                    old(s)@.detector,
                    observed,
                    reference,
                    final(s)@.detector,
                    reported,
                )
                &&& match reported {
                    None => {
                        &&& final(s)@.position == old(s)@.position
                        &&& final(s)@.filter == old(s)@.filter
                    },
                    Some(error) => exists|correction: T|
                        {
                            &&& #[trigger] call_ensures(
                                <F as LoopFilter<T>>::update,
                                (&old(s)@.filter, error),
                                (final(s)@.filter, correction),
                            )
                            &&& call_ensures(
                                T::minus,
                                (old(s)@.position, correction),
                                final(s)@.position,
                            )
                            &&& value(final(s)@.position) == value(old(s)@.position) - value(
                                correction,
                            )
                        },
                }
            },
{
    let (pre, post) = (old(s)@, final(s)@);
    let reported = choose|reported: Option<T>|
        {
            &&& #[trigger] D::takes_feedback(
                pre.detector,
                observed,
                reference,
                post.detector,
                reported,
            )
            &&& match reported {
                Some(error) => SyncState { detector: post.detector, ..pre }.is_corrected(
                    error,
                    post,
                ),
                None => post == SyncState { detector: post.detector, ..pre },
            }
        };
    if let Some(error) = reported {
        let from = SyncState { detector: post.detector, ..pre };
        assert(from.is_corrected(error, post));
        let correction = choose|correction: T|
            {
                &&& #[trigger] loop_filter::is_update(from.filter, error, post.filter, correction)
                &&& number::is_difference(from.position, correction, post.position)
            };
        assert(loop_filter::is_update(from.filter, error, post.filter, correction));
        assert(number::is_difference(from.position, correction, post.position));
        assert(call_ensures(
            <F as LoopFilter<T>>::update,
            (&pre.filter, error),
            (post.filter, correction),
        ));
    }
}

/// The fractional offset is what the position lies past a whole sample.
pub proof fn fractional_offset_is_past_a_whole_sample<
    D: TimingErrorDetector<T>,
    F: LoopFilter<T>,
    T: Real,
>(value: spec_fn(T) -> real, s: SymbolSynchronizer<D, F, T>, r: T)
    requires
        exact::is_exact(value),
        call_ensures(SymbolSynchronizer::<D, F, T>::fractional_offset, (&s,), r),
    ensures
        exact::is_whole_part(value(s@.position), value(s@.position) - value(r)),
        0real <= value(r) < 1real,
{
    exact::fractional_offset_is_the_fraction(value, s@.position, r);
}

/// A strobe's window spans the group delay on either side.
pub proof fn group_delay_is_half_a_window<
    D: TimingErrorDetector<T>,
    F: LoopFilter<T>,
    T: Real,
>(
    s: SymbolSynchronizer<D, F, T>,
    pfb: FractionalDelayPfb<T>,
    taps: usize,
    of_bank: usize,
    of_loop: usize,
)
    requires
        s@.pfb == pfb@,
        call_ensures(FractionalDelayPfb::<T>::taps_per_phase, (&pfb,), taps),
        call_ensures(FractionalDelayPfb::<T>::group_delay, (&pfb,), of_bank),
        call_ensures(SymbolSynchronizer::<D, F, T>::group_delay, (&s,), of_loop),
    ensures
        2 * of_bank + 1 == taps,
        of_loop == of_bank,
{
}

// Filter bank.

/// An odd number stays, an even one grows by one.
pub proof fn make_odd_gives_the_next_odd_number(n: usize, r: usize)
    requires
        call_ensures(fractional_delay::make_odd, (n,), r),
    ensures
        r % 2 == 1,
        n <= r <= n + 1,
{
}

/// A subfilter has an odd number of taps. With one tap for each interval and
/// one more, the branches span the prototype; two taps fewer would not.
pub proof fn subfilter_length_is_the_least(
    min_len: usize,
    num_phases: usize,
    taps: usize,
    length: usize,
)
    requires
        min_len > 0,
        num_phases > 0,
        call_ensures(fractional_delay::taps_per_phase, (min_len, num_phases), taps),
        call_ensures(fractional_delay::lowpass_len, (min_len, num_phases), length),
    ensures
        taps % 2 == 1,
        length == num_phases * (taps - 1) + 1,
        length >= min_len,
        num_phases * (taps - 3) + 1 < min_len,
{
    lemma_least_subfilter(min_len as nat, num_phases as nat);
}

proof fn lemma_least_subfilter(min_len: nat, num_phases: nat)
    requires
        min_len > 0,
        num_phases > 0,
    ensures
        ({
            let taps = fractional_delay::subfilter_len(min_len, num_phases);
            &&& taps % 2 == 1
            &&& num_phases * (taps - 1) + 1 >= min_len
            &&& num_phases * (taps - 3) + 1 < min_len
        }),
{
    let taps = fractional_delay::subfilter_len(min_len, num_phases);
    fractional_delay::subfilter_is_odd_and_spans(min_len, num_phases);
    if taps > 1 {
        if num_phases * (taps - 3) + 1 >= min_len {
            fractional_delay::subfilter_is_shortest(min_len, num_phases, (taps - 2) as nat);
        }
    } else {
        assert(num_phases * (taps - 3) < 0) by (nonlinear_arith)
            requires
                num_phases > 0,
                taps < 3,
        ;
    }
}

/// The cutoff is half a cycle over all branches.
pub proof fn cutoff_is_half_a_cycle_over_all_branches<K: Real>(
    value: spec_fn(K) -> real,
    num_phases: usize,
    r: K,
)
    requires
        exact::is_exact(value),
        num_phases > 0,
        call_ensures(FractionalDelayPfb::<K>::cutoff, (num_phases,), r),
    ensures
        2real * (value(r) * (num_phases as real)) == 1real,
{
    lemma_cutoff(value, num_phases, r);
}

proof fn lemma_cutoff<K: Real>(value: spec_fn(K) -> real, num_phases: usize, r: K)
    requires
        exact::is_exact(value),
        num_phases > 0,
        fractional_delay::is_cutoff(num_phases, r),
    ensures
        2real * (value(r) * (num_phases as real)) == 1real,
{
    let (one, two, half, phases) = choose|one: K, two: K, half: K, phases: K|
        {
            &&& number::is_one(one)
            &&& number::is_count(2, two)
            &&& #[trigger] number::is_quotient(one, two, half)
            &&& #[trigger] number::is_count(num_phases, phases)
            &&& number::is_quotient(half, phases, r)
        };
    assert(number::is_one(one) && number::is_count(2, two));
    assert(number::is_quotient(one, two, half) && number::is_count(num_phases, phases));
    assert(number::is_quotient(half, phases, r));
    assert(value(half) * 2real == 1real);
}

/// `bank` has `num_phases` branches of a low-pass that the design `G` gives:
/// of as many coefficients as it asks for at the attenuation and at a
/// transition as wide as the cutoff, with the window shape that it asks for,
/// and with the cutoff at half a cycle over all branches.
pub open spec fn is_kaiser_bank<G: LowpassDesign<K>, K: Real>(
    value: spec_fn(K) -> real,
    num_phases: usize,
    atten: K,
    bank: fractional_delay::PfbView<K>,
) -> bool {
    exists|cutoff: K, num_taps: usize, beta: K, taps: Vec<K>|
        {
            &&& 2real * (value(cutoff) * (num_phases as real)) == 1real
            &&& #[trigger] call_ensures(
                <G as LowpassDesign<K>>::kaiser_order,
                (atten, cutoff),
                (num_taps, beta),
            )
            &&& num_taps >= 2
            &&& #[trigger] call_ensures(
                <G as LowpassDesign<K>>::lowpass_with_beta,
                (taps.len(), beta, cutoff),
                taps,
            )
            &&& bank.num_phases == num_phases
            &&& bank.taps_per_phase % 2 == 1
            &&& taps.len() == num_phases * (bank.taps_per_phase - 1) + 1
            &&& num_phases * (bank.taps_per_phase - 3) + 1 < num_taps <= taps.len()
            &&& bank.is_made_of(num_phases, num_taps, taps@)
        }
}

/// The design `G` gives no bank of `num_phases` branches: it asks for fewer
/// than two coefficients, or for more than can be indexed, or its low-pass is
/// not as long as was asked for.
pub open spec fn is_unfit<G: LowpassDesign<K>, K: Real>(
    value: spec_fn(K) -> real,
    num_phases: usize,
    atten: K,
    error: DesignError,
) -> bool {
    exists|cutoff: K, num_taps: usize, beta: K|
        {
            let taps = fractional_delay::subfilter_len(num_taps as nat, num_phases as nat);
            &&& 2real * (value(cutoff) * (num_phases as real)) == 1real
            &&& #[trigger] call_ensures(
                <G as LowpassDesign<K>>::kaiser_order,
                (atten, cutoff),
                (num_taps, beta),
            )
            &&& error is TooFewTaps <==> num_taps < 2
            &&& error is TooManyTaps <==> num_taps >= 2 && num_phases * taps > usize::MAX
            &&& error is WrongLength ==> exists|length: usize, given: Vec<K>|
                {
                    &&& length == num_phases * (taps - 1) + 1
                    &&& #[trigger] call_ensures(
                        <G as LowpassDesign<K>>::lowpass_with_beta,
                        (length, beta, cutoff),
                        given,
                    )
                    &&& given.len() != length
                }
        }
}

proof fn lemma_kaiser_bank<G: LowpassDesign<K>, K: Real>(
    value: spec_fn(K) -> real,
    num_phases: usize,
    atten: K,
    bank: fractional_delay::PfbView<K>,
)
    requires
        exact::is_exact(value),
        num_phases > 0,
        fractional_delay::is_designed::<G, K>(num_phases, atten, bank),
    ensures
        is_kaiser_bank::<G, K>(value, num_phases, atten, bank),
{
    let (cutoff, num_taps, beta, taps) = choose|
        cutoff: K,
        num_taps: usize,
        beta: K,
        taps: Vec<K>,
    |
        {
            &&& fractional_delay::is_cutoff(num_phases, cutoff)
            &&& #[trigger] lowpass::is_order::<G, K>(atten, cutoff, num_taps, beta)
            &&& num_taps >= 2
            &&& taps.len() == fractional_delay::filled_len(num_taps as nat, num_phases as nat)
            &&& #[trigger] lowpass::is_lowpass::<G, K>(taps.len(), beta, cutoff, taps)
            &&& bank.is_made_of(num_phases, num_taps, taps@)
        };
    assert(lowpass::is_order::<G, K>(atten, cutoff, num_taps, beta));
    assert(lowpass::is_lowpass::<G, K>(taps.len(), beta, cutoff, taps));
    lemma_cutoff(value, num_phases, cutoff);
    lemma_least_subfilter(num_taps as nat, num_phases as nat);
    assert(call_ensures(
        <G as LowpassDesign<K>>::kaiser_order,
        (atten, cutoff),
        (num_taps, beta),
    ));
    assert(call_ensures(
        <G as LowpassDesign<K>>::lowpass_with_beta,
        (taps.len(), beta, cutoff),
        taps,
    ));
}

proof fn lemma_unfit<G: LowpassDesign<K>, K: Real>(
    value: spec_fn(K) -> real,
    num_phases: usize,
    atten: K,
    error: DesignError,
)
    requires
        exact::is_exact(value),
        num_phases > 0,
        fractional_delay::is_refused::<G, K>(num_phases, atten, error),
    ensures
        is_unfit::<G, K>(value, num_phases, atten, error),
{
    let (cutoff, num_taps, beta) = choose|cutoff: K, num_taps: usize, beta: K|
        {
            &&& fractional_delay::is_cutoff(num_phases, cutoff)
            &&& #[trigger] lowpass::is_order::<G, K>(atten, cutoff, num_taps, beta)
            &&& fractional_delay::is_unusable::<G, K>(num_phases, cutoff, num_taps, beta, error)
        };
    assert(lowpass::is_order::<G, K>(atten, cutoff, num_taps, beta));
    assert(fractional_delay::is_unusable::<G, K>(num_phases, cutoff, num_taps, beta, error));
    lemma_cutoff(value, num_phases, cutoff);
    assert(call_ensures(
        <G as LowpassDesign<K>>::kaiser_order,
        (atten, cutoff),
        (num_taps, beta),
    ));
    if error is WrongLength {
        let (length, given) = choose|length: usize, given: Vec<K>|
            {
                &&& length == fractional_delay::filled_len(num_taps as nat, num_phases as nat)
                &&& #[trigger] lowpass::is_lowpass::<G, K>(length, beta, cutoff, given)
                &&& given.len() != length
            };
        assert(lowpass::is_lowpass::<G, K>(length, beta, cutoff, given));
        assert(call_ensures(
            <G as LowpassDesign<K>>::lowpass_with_beta,
            (length, beta, cutoff),
            given,
        ));
    }
}

/// A designed bank is made of what the design gives; where none is made, the
/// design gives nothing that makes one.
pub proof fn designed_bank_is_as_designed<G: LowpassDesign<K>, K: Real>(
    value: spec_fn(K) -> real,
    num_phases: usize,
    atten: K,
    r: Result<FractionalDelayPfb<K>, DesignError>,
)
    requires
        exact::is_exact(value),
        num_phases > 0,
        call_ensures(FractionalDelayPfb::<K>::new::<G>, (num_phases, atten), r),
    ensures
        r matches Ok(pfb) ==> is_kaiser_bank::<G, K>(value, num_phases, atten, pfb@),
        r matches Err(error) ==> is_unfit::<G, K>(value, num_phases, atten, error),
{
    match r {
        Ok(pfb) => {
            lemma_kaiser_bank::<G, K>(value, num_phases, atten, pfb@);
        },
        Err(error) => {
            lemma_unfit::<G, K>(value, num_phases, atten, error);
        },
    }
}

/// A bank that is made of a low-pass weighs every window by it: what branch
/// `phase` interpolates is the sum of the samples, each times the coefficient
/// that meets it and times `num_phases`; its derivative is that of the central
/// differences of the coefficients.
pub proof fn bank_weighs_windows_by_its_lowpass<K: Real, S: Sample<K>>(
    value: spec_fn(K) -> real,
    level: spec_fn(S) -> real,
    num_phases: usize,
    min_len: usize,
    lowpass: &[K],
    pfb: FractionalDelayPfb<K>,
    phases: usize,
    taps: usize,
    phase: usize,
    window: &[S],
    interpolated: S,
    derivative: S,
)
    requires
        exact::is_exact(value),
        filtering::is_linear(value, level),
        min_len > 1,
        call_ensures(
            FractionalDelayPfb::<K>::from_lowpass,
            (num_phases, min_len, lowpass),
            pfb,
        ),
        call_ensures(FractionalDelayPfb::<K>::num_phases, (&pfb,), phases),
        call_ensures(FractionalDelayPfb::<K>::taps_per_phase, (&pfb,), taps),
        phase < phases,
        window@.len() == taps,
        call_ensures(
            FractionalDelayPfb::<K>::interpolate::<S>,
            (&pfb, phase, window),
            interpolated,
        ),
        call_ensures(
            FractionalDelayPfb::<K>::derivative::<S>,
            (&pfb, phase, window),
            derivative,
        ),
    ensures
        phases == num_phases,
        taps % 2 == 1,
        lowpass@.len() == num_phases * (taps - 1) + 1,
        num_phases * (taps - 3) + 1 < min_len <= lowpass@.len(),
        level(interpolated) == filtering::filtered(
            value,
            level,
            lowpass@,
            num_phases,
            phase as int,
            window@,
            taps as nat,
        ),
        level(derivative) * 2real == filtering::doubly_differentiated(
            value,
            level,
            lowpass@,
            num_phases,
            phase as int,
            window@,
            taps as nat,
        ),
{
    lemma_least_subfilter(min_len as nat, num_phases as nat);
    filtering::outputs_weigh_the_window_by_the_lowpass(
        value,
        level,
        pfb@,
        num_phases,
        min_len,
        lowpass@,
        phase as int,
        window@,
        (interpolated, derivative),
    );
}

/// Reading a window in place of a ring is reading the window: sample `i` of the
/// stream lies in slot `i` modulo the length of the ring.
pub proof fn ring_is_read_as_a_window<K: Real, S: Sample<K>>(
    value: spec_fn(K) -> real,
    level: spec_fn(S) -> real,
    pfb: FractionalDelayPfb<K>,
    num_phases: usize,
    min_len: usize,
    lowpass: Seq<K>,
    phase: usize,
    ring: &[S],
    base: usize,
    stream: Seq<S>,
    interpolated: S,
    derivative: S,
)
    requires
        exact::is_exact(value),
        filtering::is_linear(value, level),
        min_len > 1,
        pfb@.is_made_of(num_phases, min_len, lowpass),
        phase < num_phases,
        ring@.len() > 0,
        base + pfb@.taps_per_phase <= stream.len(),
        forall|i: int|
            base <= i < base + pfb@.taps_per_phase ==> #[trigger] stream[i] == ring@[i % (
            ring@.len() as int)],
        call_ensures(
            FractionalDelayPfb::<K>::interpolate_ring::<S>,
            (&pfb, phase, ring, base),
            interpolated,
        ),
        call_ensures(
            FractionalDelayPfb::<K>::derivative_ring::<S>,
            (&pfb, phase, ring, base),
            derivative,
        ),
    ensures
        level(interpolated) == filtering::filtered(
            value,
            level,
            lowpass,
            num_phases,
            phase as int,
            stream.subrange(base as int, base + pfb@.taps_per_phase),
            pfb@.taps_per_phase,
        ),
        level(derivative) * 2real == filtering::doubly_differentiated(
            value,
            level,
            lowpass,
            num_phases,
            phase as int,
            stream.subrange(base as int, base + pfb@.taps_per_phase),
            pfb@.taps_per_phase,
        ),
{
    let taps = pfb@.taps_per_phase;
    let window = stream.subrange(base as int, base + taps);
    assert forall|k: int| 0 <= k < taps implies window[k] == ring@[(base + k) % (
    ring@.len() as int)] by {
        assert(stream[base + k] == ring@[(base + k) % (ring@.len() as int)]);
    }
    assert(fractional_delay::ring_window(ring@, base as int, taps) =~= window);
    filtering::outputs_weigh_the_window_by_the_lowpass(
        value,
        level,
        pfb@,
        num_phases,
        min_len,
        lowpass,
        phase as int,
        window,
        (interpolated, derivative),
    );
}

// Detectors.

/// A detector starts without history; a maximum-likelihood detector divides by
/// one, or by the gain it is given.
pub proof fn detectors_start_without_history<T: Real>(
    value: spec_fn(T) -> real,
    gardner: Gardner<T>,
    mueller_muller: MuellerMuller<T>,
    plain: MaximumLikelihood<T>,
    gain: T,
    scaled: MaximumLikelihood<T>,
)
    requires
        exact::is_exact(value),
        call_ensures(<Gardner<T> as Default>::default, (), gardner),
        call_ensures(<MuellerMuller<T> as Default>::default, (), mueller_muller),
        call_ensures(<MaximumLikelihood<T> as Default>::default, (), plain),
        call_ensures(MaximumLikelihood::<T>::with_gain, (gain,), scaled),
    ensures
        gardner.previous_decision() is None,
        gardner.latest_mid() is None,
        !gardner.expects_mid(),
        mueller_muller.previous_observed() is None,
        mueller_muller.previous_sent() is None,
        plain.latest_derivative() is None,
        value(plain.error_gain()) == 1real,
        scaled.latest_derivative() is None,
        scaled.error_gain() == gain,
{
    assert(number::is_one(plain.error_gain()));
}

/// The gain that a detector is given for a rolloff.
pub proof fn detector_gain_of_a_rolloff<T: CircleConst>(
    value: spec_fn(T) -> real,
    circle: real,
    rolloff: T,
    gain: T,
)
    requires
        exact::is_exact(value),
        forall|pi: T| #[trigger] number::is_pi(pi) ==> value(pi) == circle,
        circle * circle > 8real,
        call_ensures(MaximumLikelihood::<T>::detector_gain, (rolloff,), gain),
    ensures
        value(gain) * 3real == circle * circle + 3real * ((circle * circle - 8real) * (value(
            rolloff,
        ) * value(rolloff))),
        value(gain) > 0real,
{
    crate::detector_laws::detector_gain_is_positive(value, circle, rolloff, gain);
}

// Complex numbers.

/// Complex numbers are subtracted and multiplied as complex numbers are; the
/// conjugate mirrors them, and the phasor of an angle lies on the unit circle
/// at that angle.
pub proof fn complex_arithmetic<T: Real>(
    value: spec_fn(T) -> real,
    cosine: spec_fn(real) -> real,
    sine: spec_fn(real) -> real,
    a: Complex<T>,
    b: Complex<T>,
    difference: Complex<T>,
    product: Complex<T>,
    mirrored: Complex<T>,
    angle: T,
    phasor: Complex<T>,
)
    requires
        exact::is_exact(value),
        exact::is_circular(value, cosine, sine),
        call_ensures(Complex::<T>::minus, (a, b), difference),
        call_ensures(Complex::<T>::times, (a, b), product),
        call_ensures(Complex::<T>::conj, (a,), mirrored),
        call_ensures(Complex::<T>::cis, (angle,), phasor),
    ensures
        value(difference.re) == value(a.re) - value(b.re),
        value(difference.im) == value(a.im) - value(b.im),
        value(product.re) == value(a.re) * value(b.re) - value(a.im) * value(b.im),
        value(product.im) == value(a.re) * value(b.im) + value(a.im) * value(b.re),
        mirrored.re == a.re,
        value(mirrored.im) == -value(a.im),
        value(phasor.re) == cosine(value(angle)),
        value(phasor.im) == sine(value(angle)),
{
    exact::lemma_product_value(value, a, b, product);
}

// Carrier.

/// A carrier loop that is made has the loop filter that the filter type makes
/// of the loop bandwidth and the damping, in that order, and no phase.
pub proof fn new_carrier_loop_is_as_asked<F: LoopFilter<T>, T: Real>(
    value: spec_fn(T) -> real,
    loop_bandwidth: T,
    damping: T,
    made: CarrierSynchronizer<F, T>,
)
    requires
        exact::is_exact(value),
        call_ensures(CarrierSynchronizer::<F, T>::new, (loop_bandwidth, damping), made),
    ensures
        call_ensures(<F as LoopFilter<T>>::new, (loop_bandwidth, damping), made.loop_filter()),
        value(made.phase_estimate()) == 0real,
{
    assert(number::is_zero(made.phase_estimate()));
    assert(loop_filter::is_new(loop_bandwidth, damping, made.loop_filter()));
}

/// So has one that is reset.
pub proof fn reset_carrier_loop_is_as_asked<F: LoopFilter<T>, T: Real>(
    value: spec_fn(T) -> real,
    s: &mut CarrierSynchronizer<F, T>,
    loop_bandwidth: T,
    damping: T,
)
    requires
        exact::is_exact(value),
        call_ensures(CarrierSynchronizer::<F, T>::reset, (s, loop_bandwidth, damping), ()),
    ensures
        call_ensures(
            <F as LoopFilter<T>>::new,
            (loop_bandwidth, damping),
            final(s).loop_filter(),
        ),
        value(final(s).phase_estimate()) == 0real,
{
    assert(number::is_zero(final(s).phase_estimate()));
    assert(loop_filter::is_new(loop_bandwidth, damping, final(s).loop_filter()));
}

/// A measured residual adds to the phase what the loop filter's own update
/// gives for it; and the next sample is turned back by that much more.
pub proof fn residual_turns_the_next_sample_back<F: LoopFilter<T>, T: Real>(
    value: spec_fn(T) -> real,
    cosine: spec_fn(real) -> real,
    sine: spec_fn(real) -> real,
    s: &mut CarrierSynchronizer<F, T>,
    phase_error: T,
    sample: Complex<T>,
    before: Complex<T>,
    after: Complex<T>,
)
    requires
        exact::is_exact(value),
        exact::is_circular(value, cosine, sine),
        call_ensures(CarrierSynchronizer::<F, T>::derotate, (&*old(s), sample), before),
        call_ensures(CarrierSynchronizer::<F, T>::advance, (s, phase_error), ()),
        call_ensures(CarrierSynchronizer::<F, T>::derotate, (&*final(s), sample), after),
    ensures
        exact::is_turned(
            value,
            cosine,
            sine,
            sample,
            -value(old(s).phase_estimate()),
            before,
        ),
        exact::is_turned(
            value,
            cosine,
            sine,
            sample,
            -value(final(s).phase_estimate()),
            after,
        ),
        exists|correction: T|
            {
                &&& #[trigger] call_ensures(
                    <F as LoopFilter<T>>::update,
                    (&old(s).loop_filter(), phase_error),
                    (final(s).loop_filter(), correction),
                )
                &&& call_ensures(
                    T::plus,
                    (old(s).phase_estimate(), correction),
                    final(s).phase_estimate(),
                )
                &&& value(final(s).phase_estimate()) == value(old(s).phase_estimate()) + value(
                    correction,
                )
                &&& exact::is_turned(value, cosine, sine, before, -value(correction), after)
            },
{
    let (pre, post) = (*old(s), *final(s));
    let correction = choose|correction: T|
        {
            &&& #[trigger] loop_filter::is_update(
                pre.loop_filter(),
                phase_error,
                post.loop_filter(),
                correction,
            )
            &&& number::is_sum(pre.phase_estimate(), correction, post.phase_estimate())
        };
    assert(loop_filter::is_update(
        pre.loop_filter(),
        phase_error,
        post.loop_filter(),
        correction,
    ));
    let (phase, advanced) = (pre.phase_estimate(), post.phase_estimate());
    assert(number::is_sum(phase, correction, advanced));
    exact::derotation_turns_back(value, cosine, sine, sample, phase, before);
    exact::derotation_turns_back(value, cosine, sine, sample, advanced, after);
    exact::advance_turns_the_derotated_sample(
        value,
        cosine,
        sine,
        sample,
        phase,
        correction,
        advanced,
        before,
        after,
    );
    assert(call_ensures(
        <F as LoopFilter<T>>::update,
        (&pre.loop_filter(), phase_error),
        (post.loop_filter(), correction),
    ));
}

} // verus!
