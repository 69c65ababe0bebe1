//! What holds of a symbol synchronizer as a whole: of its sample ring, of the
//! order of its strobes, of each detector in its loop, and of a burst after a
//! reset.

use crate::complex::Complex;
use crate::loop_filter;
use crate::loop_filter::LoopFilter;
use crate::number;
use crate::number::Real;
use crate::symbol_sync;
use crate::symbol_sync::{Stage, Strobe, StrobeError, SyncState};
use crate::ted;
use crate::ted::{Gardner, MaximumLikelihood, MuellerMuller, TimingErrorDetector};
use vstd::prelude::*;

verus! {

impl<D, F, T> SyncState<D, F, T> {
    /// The state after `samples`, pushed in order.
    pub open spec fn push_all(self, samples: Seq<Complex<T>>) -> Self
        decreases samples.len(),
    {
        if samples.len() == 0 {
            self
        } else {
            self.push_all(samples.drop_last()).push(samples.last())
        }
    }
}

/// A burst changes only the ring and the count of pushed samples.
pub proof fn push_all_counts<D, F, T>(s: SyncState<D, F, T>, samples: Seq<Complex<T>>)
    requires
        s.history.len() > 0,
    ensures
        s.push_all(samples).pushed == s.pushed + samples.len(),
        s.push_all(samples).history.len() == s.history.len(),
        s.push_all(samples) == (SyncState {
            history: s.push_all(samples).history,
            pushed: s.push_all(samples).pushed,
            ..s
        }),
    decreases samples.len(),
{
    if samples.len() > 0 {
        push_all_counts(s, samples.drop_last());
    }
}

/// Two indices less than `modulus` apart have different slots.
proof fn lemma_close_slots_differ(i: int, j: int, modulus: int)
    requires
        0 <= i < j < i + modulus,
    ensures
        i % modulus != j % modulus,
{
    vstd::arithmetic::div_mod::lemma_fundamental_div_mod(i, modulus);
    vstd::arithmetic::div_mod::lemma_fundamental_div_mod(j, modulus);
    if i % modulus == j % modulus {
        assert(j - i == modulus * (j / modulus - i / modulus)) by (nonlinear_arith)
            requires
                i == modulus * (i / modulus) + i % modulus,
                j == modulus * (j / modulus) + j % modulus,
                i % modulus == j % modulus,
        ;
        let turns = j / modulus - i / modulus;
        assert(!(0 < modulus * turns < modulus)) by (nonlinear_arith)
            requires
                modulus > 0,
        ;
    }
}

/// The ring gives back what was pushed: sample `i` of a burst is in its slot
/// until as many samples as the ring has slots have followed it.
pub proof fn ring_gives_back_recent_samples<D, F, T>(
    s: SyncState<D, F, T>,
    samples: Seq<Complex<T>>,
    i: int,
)
    requires
        s.pushed == 0,
        s.history.len() > 0,
        0 <= i < samples.len(),
        samples.len() <= i + s.history.len(),
    ensures
        s.push_all(samples).history[i % (s.history.len() as int)] == samples[i],
    decreases samples.len(),
{
    let capacity = s.history.len() as int;
    let earlier = samples.drop_last();
    push_all_counts(s, earlier);
    vstd::arithmetic::div_mod::lemma_mod_bound(i, capacity);
    if i < samples.len() - 1 {
        ring_gives_back_recent_samples(s, earlier, i);
        lemma_close_slots_differ(i, samples.len() - 1, capacity);
    }
}

/// The window of a strobe holds the pushed samples from `index - delay` to
/// `index + delay`, as long as no more than two samples have followed its
/// newest one.
pub proof fn window_holds_the_samples_around_its_centre<D, F, T>(
    s: SyncState<D, F, T>,
    samples: Seq<Complex<T>>,
    index: nat,
)
    requires
        s.wf(),
        s.pushed == 0,
        index >= s.pfb.group_delay(),
        s.push_all(samples).has_window(index),
        samples.len() <= index + s.pfb.group_delay() + 3,
    ensures
        s.push_all(samples).window(index) == samples.subrange(
            index - s.pfb.group_delay(),
            (index + s.pfb.group_delay() + 1) as int,
        ),
{
    let delay = s.pfb.group_delay();
    let filled = s.push_all(samples);
    push_all_counts(s, samples);
    assert forall|k: int| 0 <= k < s.pfb.taps_per_phase implies #[trigger] filled.window(index)[k]
        == samples[index - delay + k] by {
        ring_gives_back_recent_samples(s, samples, index - delay + k);
    }
    assert(filled.window(index) =~= samples.subrange(index - delay, (index + delay + 1) as int));
}

/// A synchronizer that is polled after every push loses nothing: the sample
/// that completes a window finds the rest of it still in the ring.
pub proof fn completing_push_finds_the_window_intact<D, F, T>(
    s: SyncState<D, F, T>,
    samples: Seq<Complex<T>>,
    sample: Complex<T>,
    index: nat,
)
    requires
        s.wf(),
        s.pushed == 0,
        index >= s.pfb.group_delay(),
        !s.push_all(samples).has_window(index),
        s.push_all(samples).push(sample).has_window(index),
    ensures
        s.push_all(samples).push(sample).window(index) == samples.push(sample).subrange(
            index - s.pfb.group_delay(),
            (index + s.pfb.group_delay() + 1) as int,
        ),
{
    let all = samples.push(sample);
    assert(all.drop_last() =~= samples);
    push_all_counts(s, samples);
    window_holds_the_samples_around_its_centre(s, all, index);
}

/// A strobe is taken only once every sample of its window has been pushed,
/// and its window never runs before sample zero.
pub proof fn strobe_window_has_been_pushed<
    D: TimingErrorDetector<T>,
    F: LoopFilter<T>,
    T: Real,
>(s: SyncState<D, F, T>, strobe: Strobe<T>, detector: D)
    requires
        s.wf(),
        s.interpolates(strobe, detector),
    ensures
        strobe.index >= s.pfb.group_delay(),
        strobe.index + s.pfb.group_delay() < s.pushed,
        strobe.phase < s.pfb.num_phases,
        s.window(strobe.index).len() == 2 * s.pfb.group_delay() + 1,
{
}

/// Taking strobes changes neither the samples nor the configuration, whatever
/// comes of it; and while no symbol is recovered, neither the position nor the
/// loop filter.
pub proof fn recovering_keeps_the_samples<D: TimingErrorDetector<T>, F: LoopFilter<T>, T: Real>(
    s: SyncState<D, F, T>,
    post: SyncState<D, F, T>,
    answer: Result<Option<Complex<T>>, StrobeError>,
)
    requires
        s.recovers(post, answer),
    ensures
        post == (SyncState {
            detector: post.detector,
            stage: post.stage,
            position: post.position,
            filter: post.filter,
            ..s
        }),
        !(answer matches Ok(Some(_))) ==> post.position == s.position && post.filter == s.filter,
    decreases s.stage.strobes_to_decision(),
{
    if let Some((_, next)) = symbol_sync::lemma_first_strobe(s, post, answer) {
        if !(s.stage is Decision) {
            recovering_keeps_the_samples(next, post, answer);
        }
    }
}

/// A recovered symbol is what a decision strobe at the synchronizer's position
/// interpolates, whatever strobes came first; the stage that follows is the one
/// after a decision.
pub proof fn symbol_is_interpolated_at_the_position<
    D: TimingErrorDetector<T>,
    F: LoopFilter<T>,
    T: Real,
>(s: SyncState<D, F, T>, post: SyncState<D, F, T>, symbol: Complex<T>)
    requires
        s.recovers(post, Ok(Some(symbol))),
    ensures
        post.stage == Stage::Decision.successor(D::STROBE_RATE),
        exists|seeded: SyncState<D, F, T>, strobe: Strobe<T>|
            {
                &&& #[trigger] seeded.is_after_strobe(strobe, post)
                &&& seeded == (SyncState {
                    detector: seeded.detector,
                    stage: Stage::Decision,
                    ..s
                })
                &&& strobe.position == s.position
                &&& strobe.value == symbol
            },
    decreases s.stage.strobes_to_decision(),
{
    let answer: Result<Option<Complex<T>>, StrobeError> = Ok(Some(symbol));
    let first = symbol_sync::lemma_first_strobe(s, post, answer);
    let (strobe, next) = first->0;
    if s.stage is Decision {
        assert(s == (SyncState { detector: s.detector, stage: Stage::Decision, ..s }));
    } else {
        symbol_is_interpolated_at_the_position(next, post, symbol);
    }
}

/// The ring of `s` is that of a burst of `samples`, whatever strobes were taken
/// between them.
pub open spec fn has_received<D, F, T>(s: SyncState<D, F, T>, samples: Seq<Complex<T>>) -> bool {
    exists|begun: SyncState<D, F, T>|
        {
            &&& begun.wf()
            &&& begun.pushed == 0
            &&& begun.pfb == s.pfb
            &&& s.history == (#[trigger] begun.push_all(samples)).history
            &&& s.pushed == samples.len()
        }
}

/// A burst starts without samples; a push adds its sample; a request and
/// feedback leave them as they are.
pub proof fn burst_is_what_was_pushed<D: TimingErrorDetector<T>, F: LoopFilter<T>, T: Real>(
    s: SyncState<D, F, T>,
    samples: Seq<Complex<T>>,
    sample: Complex<T>,
    post: SyncState<D, F, T>,
    answer: Result<Option<Complex<T>>, StrobeError>,
    fed: SyncState<D, F, T>,
    observed: Complex<T>,
    reference: Complex<T>,
)
    requires
        s.wf(),
    ensures
        s.pushed == 0 ==> has_received(s, Seq::empty()),
        has_received(s, samples) ==> has_received(s.push(sample), samples.push(sample)),
        has_received(s, samples) && s.recovers(post, answer) ==> has_received(post, samples),
        has_received(s, samples) && s.is_after_feedback(observed, reference, fed)
            ==> has_received(fed, samples),
{
    if s.pushed == 0 {
        assert(s.push_all(Seq::empty()).history == s.history);
    }
    if has_received(s, samples) {
        let begun = choose|begun: SyncState<D, F, T>|
            {
                &&& begun.wf()
                &&& begun.pushed == 0
                &&& begun.pfb == s.pfb
                &&& s.history == (#[trigger] begun.push_all(samples)).history
                &&& s.pushed == samples.len()
            };
        let all = samples.push(sample);
        push_all_counts(begun, samples);
        assert(all.drop_last() =~= samples);
        assert(begun.push_all(all).history == s.push(sample).history);
        if s.recovers(post, answer) {
            recovering_keeps_the_samples(s, post, answer);
            assert(post.history == begun.push_all(samples).history);
        }
        if s.is_after_feedback(observed, reference, fed) {
            feedback_moves_only_the_position(s, observed, reference, fed);
            assert(fed.history == begun.push_all(samples).history);
        }
    }
}

/// A recovered symbol is interpolated from the pushed samples around the
/// synchronizer's position, as long as no more than two samples have followed
/// the newest of them.
pub proof fn symbol_interpolates_the_pushed_samples<
    D: TimingErrorDetector<T>,
    F: LoopFilter<T>,
    T: Real,
>(
    s: SyncState<D, F, T>,
    samples: Seq<Complex<T>>,
    post: SyncState<D, F, T>,
    symbol: Complex<T>,
)
    requires
        s.wf(),
        has_received(s, samples),
        s.recovers(post, Ok(Some(symbol))),
    ensures
        exists|index: nat, phase: nat|
            {
                &&& #[trigger] s.is_centre(s.position, index)
                &&& #[trigger] s.is_phase(s.position, index, phase)
                &&& s.pfb.group_delay() <= index
                &&& index + s.pfb.group_delay() < samples.len()
                &&& samples.len() <= index + s.pfb.group_delay() + 3 ==> s.pfb.interpolates(
                    phase as int,
                    samples.subrange(
                        index - s.pfb.group_delay(),
                        (index + s.pfb.group_delay() + 1) as int,
                    ),
                    symbol,
                )
            },
{
    symbol_is_interpolated_at_the_position(s, post, symbol);
    let (seeded, strobe) = choose|seeded: SyncState<D, F, T>, strobe: Strobe<T>|
        {
            &&& #[trigger] seeded.is_after_strobe(strobe, post)
            &&& seeded == (SyncState { detector: seeded.detector, stage: Stage::Decision, ..s })
            &&& strobe.position == s.position
            &&& strobe.value == symbol
        };
    assert(seeded.interpolates(strobe, post.detector));
    let index = strobe.index;
    let begun = choose|begun: SyncState<D, F, T>|
        {
            &&& begun.wf()
            &&& begun.pushed == 0
            &&& begun.pfb == s.pfb
            &&& s.history == (#[trigger] begun.push_all(samples)).history
            &&& s.pushed == samples.len()
        };
    push_all_counts(begun, samples);
    assert(s.is_centre(s.position, index)) by {
        assert(seeded.is_centre(s.position, index));
    }
    assert(s.is_phase(s.position, index, strobe.phase)) by {
        assert(seeded.is_phase(s.position, index, strobe.phase));
    }
    if samples.len() <= index + s.pfb.group_delay() + 3 {
        window_holds_the_samples_around_its_centre(begun, samples, index);
        assert(begun.push_all(samples).window(index) == seeded.window(index));
    }
}

/// An unanswered request leaves the synchronizer at a strobe that waits for a
/// sample; a refused one, at a strobe that cannot be placed.
pub proof fn request_ends_at_the_strobe_that_stopped_it<
    D: TimingErrorDetector<T>,
    F: LoopFilter<T>,
    T: Real,
>(
    s: SyncState<D, F, T>,
    post: SyncState<D, F, T>,
    answer: Result<Option<Complex<T>>, StrobeError>,
)
    requires
        s.recovers(post, answer),
    ensures
        answer == Ok::<_, StrobeError>(None::<Complex<T>>) ==> post.is_waiting(),
        answer == Err::<Option<Complex<T>>, _>(StrobeError::PositionOutOfRange)
            ==> post.lacks_index(),
        answer == Err::<Option<Complex<T>>, _>(StrobeError::PhaseOutOfRange)
            ==> post.lacks_branch(),
    decreases s.stage.strobes_to_decision(),
{
    if let Some((_, next)) = symbol_sync::lemma_first_strobe(s, post, answer) {
        if !(s.stage is Decision) {
            request_ends_at_the_strobe_that_stopped_it(next, post, answer);
        }
    }
}

/// Where each operation of the number type has one result, the strobe of a
/// stage has one position and one window.
proof fn lemma_one_centre<D, F, T: Real>(
    s: SyncState<D, F, T>,
    position: T,
    index: nat,
    other_position: T,
)
    requires
        number::is_deterministic::<T>(),
        s.strobe_at(position),
        s.is_centre(position, index),
        s.strobe_at(other_position),
    ensures
        other_position == position,
        !symbol_sync::is_floor_index(position, None::<usize>),
        forall|other: nat| #[trigger] s.is_centre(position, other) ==> other == index,
{
    let whole = choose|whole: usize|
        {
            &&& #[trigger] symbol_sync::is_floor_index(position, Some(whole))
            &&& index == if whole >= s.pfb.group_delay() {
                whole as nat
            } else {
                s.pfb.group_delay()
            }
        };
    assert(symbol_sync::is_floor_index(position, Some(whole)));
    assert forall|found: Option<usize>| #[trigger] symbol_sync::is_floor_index(
        position,
        found,
    ) implies found == Some(whole) by {}
}

/// Polling again has no effect: where each operation of the number type has
/// one result, a request that follows an unanswered one, with no sample pushed
/// and no feedback given between them, takes no strobe, is unanswered too and
/// changes nothing.
pub proof fn polling_again_changes_nothing<D: TimingErrorDetector<T>, F: LoopFilter<T>, T: Real>(
    s: SyncState<D, F, T>,
    waiting: SyncState<D, F, T>,
    again: SyncState<D, F, T>,
    answer: Result<Option<Complex<T>>, StrobeError>,
)
    requires
        number::is_deterministic::<T>(),
        s.recovers(waiting, Ok(None)),
        waiting.recovers(again, answer),
    ensures
        answer == Ok::<_, StrobeError>(None::<Complex<T>>),
        again == waiting,
        forall|strobe: Strobe<T>, next: SyncState<D, F, T>|
            !#[trigger] waiting.is_after_strobe(strobe, next),
{
    request_ends_at_the_strobe_that_stopped_it(s, waiting, Ok(None));
    let (position, index) = choose|position: T, index: nat|
        waiting.strobe_at(position) && #[trigger] waiting.is_centre(position, index)
            && !waiting.has_window(index);
    assert(waiting.is_centre(position, index));
    assert forall|strobe: Strobe<T>, next: SyncState<D, F, T>|
        !#[trigger] waiting.is_after_strobe(strobe, next) by {
        if waiting.is_after_strobe(strobe, next) {
            lemma_one_centre(waiting, position, index, strobe.position);
            assert(waiting.is_centre(strobe.position, strobe.index));
        }
    }
    if waiting.lacks_index() {
        let other = choose|other: T|
            waiting.strobe_at(other) && #[trigger] symbol_sync::is_floor_index(
                other,
                None::<usize>,
            );
        lemma_one_centre(waiting, position, index, other);
    }
    if waiting.lacks_branch() {
        let (other, centre) = choose|other: T, centre: nat|
            {
                &&& waiting.strobe_at(other)
                &&& #[trigger] waiting.is_centre(other, centre)
                &&& waiting.has_window(centre)
                &&& symbol_sync::is_nearest_branch(other, centre, waiting.pfb.num_phases, None)
            };
        lemma_one_centre(waiting, position, index, other);
    }
}

impl<D, F, T: Real> SyncState<D, F, T> {
    /// No strobe up to and including the next decision waits for a sample.
    pub open spec fn is_ready(self) -> bool
        decreases self.stage.strobes_to_decision(),
    {
        &&& !self.is_waiting()
        &&& match self.stage {
            Stage::Decision => true,
            Stage::PrimeDecision => SyncState { stage: Stage::PrimeMid, ..self }.is_ready(),
            _ => SyncState { stage: Stage::Decision, ..self }.is_ready(),
        }
    }
}

/// Whether the samples are there does not depend on the detector.
proof fn lemma_ready_without_detector<D, F, T: Real>(s: SyncState<D, F, T>, detector: D)
    requires
        s.is_ready(),
    ensures
        (SyncState { detector, ..s }).is_ready(),
    decreases s.stage.strobes_to_decision(),
{
    let other = SyncState { detector, ..s };
    if other.is_waiting() {
        let (position, index) = choose|position: T, index: nat|
            other.strobe_at(position) && #[trigger] other.is_centre(position, index)
                && !other.has_window(index);
        assert(s.strobe_at(position) && s.is_centre(position, index) && !s.has_window(index));
    }
    match s.stage {
        Stage::Decision => {},
        Stage::PrimeDecision => {
            lemma_ready_without_detector(SyncState { stage: Stage::PrimeMid, ..s }, detector);
        },
        _ => {
            lemma_ready_without_detector(SyncState { stage: Stage::Decision, ..s }, detector);
        },
    }
}

/// A symbol is owed as soon as enough samples have been pushed to complete its
/// strobes.
pub proof fn ready_synchronizer_recovers_a_symbol<
    D: TimingErrorDetector<T>,
    F: LoopFilter<T>,
    T: Real,
>(
    s: SyncState<D, F, T>,
    post: SyncState<D, F, T>,
    answer: Result<Option<Complex<T>>, StrobeError>,
)
    requires
        s.is_placeable(),
        s.is_ready(),
        s.recovers(post, answer),
    ensures
        answer matches Ok(Some(_)),
    decreases s.stage.strobes_to_decision(),
{
    let first = symbol_sync::lemma_first_strobe(s, post, answer);
    let (strobe, next) = first->0;
    if !(s.stage is Decision) {
        let ahead = SyncState { stage: s.stage.successor(D::STROBE_RATE), ..s };
        assert(s.is_centre(strobe.position, strobe.index) && s.is_served());
        assert(ahead.is_placeable() && ahead.is_ready());
        symbol_sync::lemma_placeable_without_detector(ahead, next.detector);
        lemma_ready_without_detector(ahead, next.detector);
        assert(next == (SyncState { detector: next.detector, ..ahead }));
        ready_synchronizer_recovers_a_symbol(next, post, answer);
    }
}

/// A decision strobe moves the position on by one symbol, less what the loop
/// filter makes of the detector's error. The mid strobe that follows it lies
/// half a symbol before the next decision.
pub proof fn decision_moves_on_by_one_symbol<
    D: TimingErrorDetector<T>,
    F: LoopFilter<T>,
    T: Real,
>(
    s: SyncState<D, F, T>,
    strobe: Strobe<T>,
    post: SyncState<D, F, T>,
    after: T,
)
    requires
        s.stage is Decision,
        s.is_after_strobe(strobe, post),
        post.strobe_at(after),
    ensures
        strobe.error is None ==> number::is_sum(s.position, s.sps, post.position) && post.filter
            == s.filter,
        strobe.error is Some ==> exists|moved: T, correction: T|
            {
                &&& number::is_sum(s.position, s.sps, moved)
                &&& loop_filter::is_update(
                    s.filter,
                    strobe.error->0,
                    post.filter,
                    correction,
                )
                &&& #[trigger] number::is_difference(moved, correction, post.position)
            },
        D::STROBE_RATE == 2 ==> number::is_difference(post.position, s.half_symbol, after),
        D::STROBE_RATE != 2 ==> after == post.position,
{
    let seeded = SyncState {
        detector: post.detector,
        stage: s.stage.successor(D::STROBE_RATE),
        ..s
    };
    let moved = choose|moved: T|
        {
            &&& #[trigger] number::is_sum(s.position, s.sps, moved)
            &&& match strobe.error {
                Some(error) => SyncState { position: moved, ..seeded }.is_corrected(error, post),
                None => post == SyncState { position: moved, ..seeded },
            }
        };
    if let Some(error) = strobe.error {
        let from = SyncState { position: moved, ..seeded };
        assert(from.is_corrected(error, post));
        let correction = choose|correction: T|
            {
                &&& #[trigger] loop_filter::is_update(
                    from.filter,
                    error,
                    post.filter,
                    correction,
                )
                &&& number::is_difference(from.position, correction, post.position)
            };
        assert(number::is_difference(moved, correction, post.position));
    }
}

/// A Gardner detector in step with the synchronizer: it takes the next strobe
/// for a mid strobe exactly where the synchronizer does, and it has the
/// history that the strobes before left it.
pub open spec fn is_gardner_in_step<F, T: Real>(s: SyncState<Gardner<T>, F, T>) -> bool {
    &&& s.detector.expects_mid() == (s.stage is PrimeMid || s.stage is Mid)
    &&& !(s.stage is PrimeDecision) ==> s.detector.previous_decision() is Some
    &&& s.stage is Decision ==> s.detector.latest_mid() is Some
}

/// A synchronizer that starts with a fresh Gardner detector is in step.
pub proof fn gardner_starts_in_step<F: LoopFilter<T>, T: Real>(
    s: SyncState<Gardner<T>, F, T>,
    start: T,
    loop_bandwidth: T,
    damping: T,
)
    requires
        s.starts_at(start, loop_bandwidth, damping),
        s.detector.is_fresh(),
    ensures
        is_gardner_in_step(s),
{
    ted::strobe_rates::<T>();
}

/// Pushes keep a Gardner detector in step.
pub proof fn pushes_keep_gardner_in_step<F: LoopFilter<T>, T: Real>(
    s: SyncState<Gardner<T>, F, T>,
    sample: Complex<T>,
)
    requires
        is_gardner_in_step(s),
    ensures
        is_gardner_in_step(s.push(sample)),
{
}

/// Requests keep a Gardner detector in step; and every recovered symbol, the
/// first included, steers the loop.
pub proof fn gardner_stays_in_step_and_steers<F: LoopFilter<T>, T: Real>(
    s: SyncState<Gardner<T>, F, T>,
    post: SyncState<Gardner<T>, F, T>,
    answer: Result<Option<Complex<T>>, StrobeError>,
)
    requires
        is_gardner_in_step(s),
        s.recovers(post, answer),
    ensures
        is_gardner_in_step(post),
        answer matches Ok(Some(_)) ==> exists|moved: T, error: T|
            {
                &&& #[trigger] number::is_sum(s.position, s.sps, moved)
                &&& #[trigger] (SyncState {
                    position: moved,
                    detector: post.detector,
                    stage: Stage::Mid,
                    ..s
                }).is_corrected(error, post)
            },
    decreases s.stage.strobes_to_decision(),
{
    if let Some((strobe, next)) = symbol_sync::lemma_first_strobe(s, post, answer) {
        assert(s.is_after_strobe(strobe, next));
        ted::strobe_rates::<T>();
        if s.stage is Decision {
            let error = strobe.error->0;
            let moved = choose|moved: T|
                {
                    &&& #[trigger] number::is_sum(s.position, s.sps, moved)
                    &&& (SyncState {
                        position: moved,
                        detector: post.detector,
                        stage: Stage::Mid,
                        ..s
                    }).is_corrected(error, post)
                };
            assert(number::is_sum(s.position, s.sps, moved));
        } else {
            gardner_stays_in_step_and_steers(next, post, answer);
            assert forall|moved: T, error: T|
                #![trigger (SyncState {
                    position: moved,
                    detector: post.detector,
                    stage: Stage::Mid,
                    ..next
                }).is_corrected(error, post)]
                (SyncState {
                    position: moved,
                    detector: post.detector,
                    stage: Stage::Mid,
                    ..next
                }) == (SyncState {
                    position: moved,
                    detector: post.detector,
                    stage: Stage::Mid,
                    ..s
                }) by {}
        }
    }
}

/// A non-data-aided detector ignores feedback: with a Gardner detector it
/// changes nothing.
pub proof fn gardner_ignores_feedback<F: LoopFilter<T>, T: Real>(
    s: SyncState<Gardner<T>, F, T>,
    observed: Complex<T>,
    reference: Complex<T>,
    post: SyncState<Gardner<T>, F, T>,
)
    requires
        s.is_after_feedback(observed, reference, post),
    ensures
        post == s,
{
    assert(post.detector == s.detector);
}

/// With a maximum-likelihood detector, strobes alone do not steer the loop: a
/// recovered symbol moves the position on by exactly one symbol.
pub proof fn maximum_likelihood_defers_to_feedback<F: LoopFilter<T>, T: Real>(
    s: SyncState<MaximumLikelihood<T>, F, T>,
    post: SyncState<MaximumLikelihood<T>, F, T>,
    symbol: Complex<T>,
)
    requires
        s.recovers(post, Ok(Some(symbol))),
    ensures
        number::is_sum(s.position, s.sps, post.position),
        post.filter == s.filter,
        post.detector.latest_derivative() is Some,
{
    symbol_is_interpolated_at_the_position(s, post, symbol);
}

/// Requests keep the gain of a maximum-likelihood detector.
pub proof fn requests_keep_the_maximum_likelihood_gain<F: LoopFilter<T>, T: Real>(
    s: SyncState<MaximumLikelihood<T>, F, T>,
    post: SyncState<MaximumLikelihood<T>, F, T>,
    answer: Result<Option<Complex<T>>, StrobeError>,
)
    requires
        s.recovers(post, answer),
    ensures
        post.detector.error_gain() == s.detector.error_gain(),
    decreases s.stage.strobes_to_decision(),
{
    if let Some((_, next)) = symbol_sync::lemma_first_strobe(s, post, answer) {
        if !(s.stage is Decision) {
            requests_keep_the_maximum_likelihood_gain(next, post, answer);
        }
    }
}

/// With a Mueller & Muller detector, strobes alone do not steer the loop: a
/// recovered symbol moves the position on by exactly one symbol.
pub proof fn mueller_muller_defers_to_feedback<F: LoopFilter<T>, T: Real>(
    s: SyncState<MuellerMuller<T>, F, T>,
    post: SyncState<MuellerMuller<T>, F, T>,
    symbol: Complex<T>,
)
    requires
        s.recovers(post, Ok(Some(symbol))),
    ensures
        number::is_sum(s.position, s.sps, post.position),
        post.filter == s.filter,
{
    symbol_is_interpolated_at_the_position(s, post, symbol);
}

/// Feedback changes neither the samples nor the order of the strobes; where
/// the detector has nothing to report, not the position either.
pub proof fn feedback_moves_only_the_position<
    D: TimingErrorDetector<T>,
    F: LoopFilter<T>,
    T: Real,
>(
    s: SyncState<D, F, T>,
    observed: Complex<T>,
    reference: Complex<T>,
    post: SyncState<D, F, T>,
)
    requires
        s.is_after_feedback(observed, reference, post),
    ensures
        post == (SyncState {
            detector: post.detector,
            position: post.position,
            filter: post.filter,
            ..s
        }),
        (forall|error: T|
            !#[trigger] D::takes_feedback(
                s.detector,
                observed,
                reference,
                post.detector,
                Some(error),
            )) ==> post.position == s.position && post.filter == s.filter,
{
}

/// With a maximum-likelihood detector, the feedback for a recovered symbol
/// always steers the loop, by the derivative at that symbol's own strobe.
pub proof fn maximum_likelihood_feedback_steers<F: LoopFilter<T>, T: Real>(
    s: SyncState<MaximumLikelihood<T>, F, T>,
    pulled: SyncState<MaximumLikelihood<T>, F, T>,
    symbol: Complex<T>,
    observed: Complex<T>,
    reference: Complex<T>,
    post: SyncState<MaximumLikelihood<T>, F, T>,
)
    requires
        s.recovers(pulled, Ok(Some(symbol))),
        pulled.is_after_feedback(observed, reference, post),
    ensures
        exists|seeded: SyncState<MaximumLikelihood<T>, F, T>, strobe: Strobe<T>, error: T|
            {
                &&& #[trigger] seeded.is_after_strobe(strobe, pulled)
                &&& strobe.position == s.position
                &&& strobe.value == symbol
                &&& ted::is_maximum_likelihood_error(
                    strobe.derivative,
                    reference,
                    s.detector.error_gain(),
                    error,
                )
                &&& #[trigger] pulled.is_corrected(error, post)
            },
{
    symbol_is_interpolated_at_the_position(s, pulled, symbol);
    requests_keep_the_maximum_likelihood_gain(s, pulled, Ok(Some(symbol)));
    let (seeded, strobe) = choose|
        seeded: SyncState<MaximumLikelihood<T>, F, T>,
        strobe: Strobe<T>,
    |
        {
            &&& #[trigger] seeded.is_after_strobe(strobe, pulled)
            &&& seeded == (SyncState { detector: seeded.detector, stage: Stage::Decision, ..s })
            &&& strobe.position == s.position
            &&& strobe.value == symbol
        };
    assert(seeded.interpolates(strobe, pulled.detector));
    let reported = choose|reported: Option<T>|
        {
            &&& #[trigger] MaximumLikelihood::takes_feedback(
                pulled.detector,
                observed,
                reference,
                post.detector,
                reported,
            )
            &&& match reported {
                Some(error) => SyncState { detector: post.detector, ..pulled }.is_corrected(
                    error,
                    post,
                ),
                None => post == SyncState { detector: post.detector, ..pulled },
            }
        };
    assert((SyncState { detector: post.detector, ..pulled }) == pulled);
    assert(pulled.is_corrected(reported->0, post));
}

/// Requests do not touch a Mueller & Muller detector.
pub proof fn requests_keep_the_mueller_muller_history<F: LoopFilter<T>, T: Real>(
    s: SyncState<MuellerMuller<T>, F, T>,
    post: SyncState<MuellerMuller<T>, F, T>,
    answer: Result<Option<Complex<T>>, StrobeError>,
)
    requires
        s.recovers(post, answer),
    ensures
        post.detector == s.detector,
    decreases s.stage.strobes_to_decision(),
{
    if let Some((_, next)) = symbol_sync::lemma_first_strobe(s, post, answer) {
        if !(s.stage is Decision) {
            requests_keep_the_mueller_muller_history(next, post, answer);
        }
    }
}

/// With a Mueller & Muller detector, the feedback for the first symbol only
/// seeds the loop; that for the second steers it, by both pairs.
pub proof fn mueller_muller_steers_from_the_second_symbol<F: LoopFilter<T>, T: Real>(
    seeded: SyncState<MuellerMuller<T>, F, T>,
    fed: SyncState<MuellerMuller<T>, F, T>,
    pulled: SyncState<MuellerMuller<T>, F, T>,
    post: SyncState<MuellerMuller<T>, F, T>,
    first: (Complex<T>, Complex<T>),
    second: (Complex<T>, Complex<T>),
    answer: Result<Option<Complex<T>>, StrobeError>,
)
    requires
        seeded.detector.is_fresh(),
        seeded.is_after_feedback(first.0, first.1, fed),
        fed.recovers(pulled, answer),
        pulled.is_after_feedback(second.0, second.1, post),
    ensures
        fed.position == seeded.position,
        fed.filter == seeded.filter,
        exists|error: T|
            {
                &&& ted::is_mueller_muller_error(second.0, second.1, first.0, first.1, error)
                &&& #[trigger] (SyncState { detector: post.detector, ..pulled }).is_corrected(
                    error,
                    post,
                )
            },
{
    requests_keep_the_mueller_muller_history(fed, pulled, answer);
    let reported = choose|reported: Option<T>|
        {
            &&& #[trigger] MuellerMuller::takes_feedback(
                pulled.detector,
                second.0,
                second.1,
                post.detector,
                reported,
            )
            &&& match reported {
                Some(error) => SyncState { detector: post.detector, ..pulled }.is_corrected(
                    error,
                    post,
                ),
                None => post == SyncState { detector: post.detector, ..pulled },
            }
        };
    assert((SyncState { detector: post.detector, ..pulled }).is_corrected(reported->0, post));
}

/// A detector that takes one strobe per symbol never sees a strobe that is not
/// a decision.
pub proof fn symbol_rate_detectors_take_only_decisions<
    D: TimingErrorDetector<T>,
    F: LoopFilter<T>,
    T: Real,
>(
    s: SyncState<D, F, T>,
    post: SyncState<D, F, T>,
    answer: Result<Option<Complex<T>>, StrobeError>,
)
    requires
        D::STROBE_RATE != 2,
        s.stage is Decision,
        s.recovers(post, answer),
    ensures
        post.stage is Decision,
        answer matches Ok(Some(symbol)) ==> exists|strobe: Strobe<T>|
            #[trigger] s.is_after_strobe(strobe, post) && strobe.value == symbol,
        !(answer matches Ok(Some(_))) ==> post == s,
{
}

/// Two synchronizers that agree on everything but samples from before the
/// burst: every slot that has been written in the burst is the same.
pub open spec fn agree_on_the_burst<D, F, T>(
    a: SyncState<D, F, T>,
    b: SyncState<D, F, T>,
) -> bool {
    &&& b == (SyncState { history: b.history, ..a })
    &&& b.history.len() == a.history.len()
    &&& forall|i: int|
        0 <= i < a.pushed ==> #[trigger] a.history[i % (a.history.len() as int)] == b.history[i % (
        a.history.len() as int)]
}

/// A synchronizer that is reset starts like one that is made anew with the
/// same configuration, detector state and loop filter, whatever its ring still
/// holds.
pub proof fn reset_starts_like_new<D: TimingErrorDetector<T>, F: LoopFilter<T>, T: Real>(
    made: SyncState<D, F, T>,
    reset: SyncState<D, F, T>,
    start: T,
    loop_bandwidth: T,
    damping: T,
)
    requires
        made.starts_at(start, loop_bandwidth, damping),
        reset.starts_at(start, loop_bandwidth, damping),
        made.wf(),
        reset.wf(),
        made.detector == reset.detector,
        made.filter == reset.filter,
        made.sps == reset.sps,
        made.half_symbol == reset.half_symbol,
        made.pfb == reset.pfb,
    ensures
        agree_on_the_burst(made, reset),
{
}

/// Synchronizers that agree on the burst still do after the same sample.
pub proof fn pushes_keep_the_agreement<D, F, T>(
    a: SyncState<D, F, T>,
    b: SyncState<D, F, T>,
    sample: Complex<T>,
)
    requires
        a.history.len() > 0,
        agree_on_the_burst(a, b),
    ensures
        agree_on_the_burst(a.push(sample), b.push(sample)),
{
    let capacity = a.history.len() as int;
    let (after_a, after_b) = (a.push(sample), b.push(sample));
    assert forall|i: int| 0 <= i < after_a.pushed implies #[trigger] after_a.history[i % capacity]
        == after_b.history[i % capacity] by {
        if i < a.pushed {
            assert(a.history[i % capacity] == b.history[i % capacity]);
        }
    }
}

/// Synchronizers that agree on the burst have the same windows.
proof fn lemma_agreement_on_windows<D, F, T>(
    a: SyncState<D, F, T>,
    b: SyncState<D, F, T>,
    index: nat,
)
    requires
        a.wf(),
        agree_on_the_burst(a, b),
        index >= a.pfb.group_delay(),
        a.has_window(index),
    ensures
        a.window(index) == b.window(index),
{
    let capacity = a.history.len() as int;
    let base = index - a.pfb.group_delay();
    assert forall|k: int| 0 <= k < a.pfb.taps_per_phase implies #[trigger] a.window(index)[k]
        == b.window(index)[k] by {
        assert(a.history[(base + k) % capacity] == b.history[(base + k) % capacity]);
    }
    assert(a.window(index) =~= b.window(index));
}

/// A correction does not depend on the ring.
proof fn lemma_correction_without_ring<D, F: LoopFilter<T>, T: Real>(
    s: SyncState<D, F, T>,
    error: T,
    post: SyncState<D, F, T>,
    history: Seq<Complex<T>>,
)
    requires
        s.is_corrected(error, post),
    ensures
        (SyncState { history, ..s }).is_corrected(error, SyncState { history, ..post }),
{
    let from = SyncState { history, ..s };
    let other = SyncState { history, ..post };
    let correction = choose|correction: T|
        {
            &&& #[trigger] loop_filter::is_update(s.filter, error, post.filter, correction)
            &&& number::is_difference(s.position, correction, post.position)
        };
    assert(loop_filter::is_update(from.filter, error, other.filter, correction));
    assert(other == (SyncState { filter: other.filter, position: other.position, ..from }));
}

/// Synchronizers that agree on the burst take the same strobes.
proof fn lemma_agreement_on_strobes<D: TimingErrorDetector<T>, F: LoopFilter<T>, T: Real>(
    a: SyncState<D, F, T>,
    b: SyncState<D, F, T>,
    strobe: Strobe<T>,
    next: SyncState<D, F, T>,
)
    requires
        a.wf(),
        agree_on_the_burst(a, b),
        a.is_after_strobe(strobe, next),
    ensures
        b.is_after_strobe(strobe, SyncState { history: b.history, ..next }),
        agree_on_the_burst(next, SyncState { history: b.history, ..next }),
        next.wf(),
{
    let other = SyncState { history: b.history, ..next };
    lemma_agreement_on_windows(a, b, strobe.index);
    assert(a.is_centre(strobe.position, strobe.index));
    assert(b.is_centre(strobe.position, strobe.index));
    assert(a.is_phase(strobe.position, strobe.index, strobe.phase));
    assert(b.is_phase(strobe.position, strobe.index, strobe.phase));
    assert(b.interpolates(strobe, other.detector));
    if a.stage is Decision {
        let seeded = SyncState {
            detector: next.detector,
            stage: a.stage.successor(D::STROBE_RATE),
            ..a
        };
        let moved = choose|moved: T|
            {
                &&& #[trigger] number::is_sum(a.position, a.sps, moved)
                &&& match strobe.error {
                    Some(error) => SyncState { position: moved, ..seeded }.is_corrected(
                        error,
                        next,
                    ),
                    None => next == SyncState { position: moved, ..seeded },
                }
            };
        assert(number::is_sum(b.position, b.sps, moved));
        if let Some(error) = strobe.error {
            let from = SyncState { position: moved, ..seeded };
            lemma_correction_without_ring(from, error, next, b.history);
        }
    }
}

/// No sample from before a reset is ever read: of two synchronizers that agree
/// on the burst, what one can answer the other can, and they still agree.
pub proof fn requests_read_only_the_burst<D: TimingErrorDetector<T>, F: LoopFilter<T>, T: Real>(
    a: SyncState<D, F, T>,
    b: SyncState<D, F, T>,
    post: SyncState<D, F, T>,
    answer: Result<Option<Complex<T>>, StrobeError>,
)
    requires
        a.wf(),
        agree_on_the_burst(a, b),
        a.recovers(post, answer),
    ensures
        b.recovers(SyncState { history: b.history, ..post }, answer),
        agree_on_the_burst(post, SyncState { history: b.history, ..post }),
    decreases a.stage.strobes_to_decision(),
{
    let other = SyncState { history: b.history, ..post };
    if let Some((strobe, next)) = symbol_sync::lemma_first_strobe(a, post, answer) {
        lemma_agreement_on_strobes(a, b, strobe, next);
        let mirrored = SyncState { history: b.history, ..next };
        assert(b.is_after_strobe(strobe, mirrored));
        if !(a.stage is Decision) {
            requests_read_only_the_burst(next, mirrored, post, answer);
        }
    } else {
        assert(post == a);
        assert(other == b);
        assert(a.is_waiting() ==> b.is_waiting()) by {
            if a.is_waiting() {
                let (position, index) = choose|position: T, index: nat|
                    a.strobe_at(position) && #[trigger] a.is_centre(position, index)
                        && !a.has_window(index);
                assert(b.strobe_at(position) && b.is_centre(position, index) && !b.has_window(
                    index,
                ));
            }
        }
        assert(a.lacks_index() ==> b.lacks_index()) by {
            if a.lacks_index() {
                let position = choose|position: T|
                    a.strobe_at(position) && #[trigger] symbol_sync::is_floor_index(
                        position,
                        None::<usize>,
                    );
                assert(b.strobe_at(position) && symbol_sync::is_floor_index(
                    position,
                    None::<usize>,
                ));
            }
        }
        assert(a.lacks_branch() ==> b.lacks_branch()) by {
            if a.lacks_branch() {
                let (position, index) = choose|position: T, index: nat|
                    {
                        &&& a.strobe_at(position)
                        &&& #[trigger] a.is_centre(position, index)
                        &&& a.has_window(index)
                        &&& symbol_sync::is_nearest_branch(
                            position,
                            index,
                            a.pfb.num_phases,
                            None,
                        )
                    };
                assert(b.strobe_at(position) && b.is_centre(position, index) && b.has_window(
                    index,
                ));
            }
        }
    }
}

/// Synchronizers that agree on the burst still do after the same feedback.
pub proof fn feedback_keeps_the_agreement<D: TimingErrorDetector<T>, F: LoopFilter<T>, T: Real>(
    a: SyncState<D, F, T>,
    b: SyncState<D, F, T>,
    observed: Complex<T>,
    reference: Complex<T>,
    post: SyncState<D, F, T>,
)
    requires
        agree_on_the_burst(a, b),
        a.is_after_feedback(observed, reference, post),
    ensures
        b.is_after_feedback(observed, reference, SyncState { history: b.history, ..post }),
        agree_on_the_burst(post, SyncState { history: b.history, ..post }),
{
    let other = SyncState { history: b.history, ..post };
    let reported = choose|reported: Option<T>|
        {
            &&& #[trigger] D::takes_feedback(
                a.detector,
                observed,
                reference,
                post.detector,
                reported,
            )
            &&& match reported {
                Some(error) => SyncState { detector: post.detector, ..a }.is_corrected(
                    error,
                    post,
                ),
                None => post == SyncState { detector: post.detector, ..a },
            }
        };
    if let Some(error) = reported {
        let from = SyncState { detector: post.detector, ..a };
        lemma_correction_without_ring(from, error, post, b.history);
        assert((SyncState { history: b.history, ..from }) == (SyncState {
            detector: other.detector,
            ..b
        }));
    }
    assert(D::takes_feedback(b.detector, observed, reference, other.detector, reported));
}

} // verus!
