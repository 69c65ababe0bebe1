//! What holds over a whole run of a symbol synchronizer: how many strobes its
//! detector consumes, and where its symbols lie while nothing steers it.

use crate::complex::Complex;
use crate::laws;
use crate::loop_filter::LoopFilter;
use crate::number;
use crate::number::Real;
use crate::symbol_sync;
use crate::symbol_sync::{Stage, Strobe, StrobeError, SyncState};
use crate::ted::{MaximumLikelihood, MuellerMuller, TimingErrorDetector};
use vstd::prelude::*;

verus! {

impl<D: TimingErrorDetector<T>, F: LoopFilter<T>, T: Real> SyncState<D, F, T> {
    /// A request in this state can take `strobes`, in order, end in state
    /// `post` and give `answer`.
    pub open spec fn recovers_by(
        self,
        strobes: Seq<Strobe<T>>,
        post: Self,
        answer: Result<Option<Complex<T>>, StrobeError>,
    ) -> bool
        decreases strobes.len(),
    {
        if strobes.len() == 0 {
            post == self && self.stops(answer)
        } else {
            exists|next: Self|
                {
                    &&& #[trigger] self.is_after_strobe(strobes.first(), next)
                    &&& if self.stage is Decision {
                        &&& strobes.len() == 1
                        &&& post == next
                        &&& answer == Ok::<_, StrobeError>(Some(strobes.first().value))
                    } else {
                        next.recovers_by(strobes.drop_first(), post, answer)
                    }
                }
        }
    }
}

/// A request takes a sequence of strobes.
pub proof fn request_takes_strobes<D: TimingErrorDetector<T>, F: LoopFilter<T>, T: Real>(
    s: SyncState<D, F, T>,
    post: SyncState<D, F, T>,
    answer: Result<Option<Complex<T>>, StrobeError>,
)
    requires
        s.recovers(post, answer),
    ensures
        exists|strobes: Seq<Strobe<T>>| s.recovers_by(strobes, post, answer),
    decreases s.stage.strobes_to_decision(),
{
    if let Some((strobe, next)) = symbol_sync::lemma_first_strobe(s, post, answer) {
        if s.stage is Decision {
            let strobes = seq![strobe];
            assert(s.is_after_strobe(strobes.first(), next));
            assert(s.recovers_by(strobes, post, answer));
        } else {
            request_takes_strobes(next, post, answer);
            let rest = choose|rest: Seq<Strobe<T>>| next.recovers_by(rest, post, answer);
            let strobes = seq![strobe] + rest;
            assert(strobes.drop_first() =~= rest);
            assert(s.is_after_strobe(strobes.first(), next));
            assert(s.recovers_by(strobes, post, answer));
        }
    } else {
        assert(s.recovers_by(Seq::empty(), post, answer));
    }
}

/// Taking a sequence of strobes is what a request does.
pub proof fn strobes_are_a_request<D: TimingErrorDetector<T>, F: LoopFilter<T>, T: Real>(
    s: SyncState<D, F, T>,
    strobes: Seq<Strobe<T>>,
    post: SyncState<D, F, T>,
    answer: Result<Option<Complex<T>>, StrobeError>,
)
    requires
        s.recovers_by(strobes, post, answer),
    ensures
        s.recovers(post, answer),
    decreases strobes.len(),
{
    if strobes.len() > 0 {
        let next = choose|next: SyncState<D, F, T>|
            {
                &&& #[trigger] s.is_after_strobe(strobes.first(), next)
                &&& if s.stage is Decision {
                    &&& strobes.len() == 1
                    &&& post == next
                    &&& answer == Ok::<_, StrobeError>(Some(strobes.first().value))
                } else {
                    next.recovers_by(strobes.drop_first(), post, answer)
                }
            };
        assert(s.is_after_strobe(strobes.first(), next));
        if !(s.stage is Decision) {
            strobes_are_a_request(next, strobes.drop_first(), post, answer);
        }
    }
}

/// A detector in state `pre` that consumes `strobes` in order, each with its
/// derivative, can end in state `post`.
pub open spec fn consumes_all<D: TimingErrorDetector<T>, T: Real>(
    pre: D,
    strobes: Seq<Strobe<T>>,
    post: D,
) -> bool
    decreases strobes.len(),
{
    if strobes.len() == 0 {
        post == pre
    } else {
        exists|next: D|
            {
                &&& #[trigger] D::consumes(
                    pre,
                    strobes.first().value,
                    Some(strobes.first().derivative),
                    next,
                    strobes.first().error,
                )
                &&& consumes_all(next, strobes.drop_first(), post)
            }
    }
}

/// The detector consumes the strobes of a request and nothing else; only the
/// last strobe, and only a decision, is returned.
pub proof fn detector_consumes_the_strobes<D: TimingErrorDetector<T>, F: LoopFilter<T>, T: Real>(
    s: SyncState<D, F, T>,
    strobes: Seq<Strobe<T>>,
    post: SyncState<D, F, T>,
    answer: Result<Option<Complex<T>>, StrobeError>,
)
    requires
        s.recovers_by(strobes, post, answer),
    ensures
        consumes_all(s.detector, strobes, post.detector),
        answer matches Ok(Some(symbol)) ==> strobes.len() == s.stage.strobes_to_decision() + 1
            && strobes.last().value == symbol && strobes.last().position == s.position,
        !(answer matches Ok(Some(_))) ==> strobes.len() <= s.stage.strobes_to_decision(),
    decreases strobes.len(),
{
    if strobes.len() > 0 {
        let next = choose|next: SyncState<D, F, T>|
            {
                &&& #[trigger] s.is_after_strobe(strobes.first(), next)
                &&& if s.stage is Decision {
                    &&& strobes.len() == 1
                    &&& post == next
                    &&& answer == Ok::<_, StrobeError>(Some(strobes.first().value))
                } else {
                    next.recovers_by(strobes.drop_first(), post, answer)
                }
            };
        assert(s.interpolates(strobes.first(), next.detector));
        assert(D::consumes(
            s.detector,
            strobes.first().value,
            Some(strobes.first().derivative),
            next.detector,
            strobes.first().error,
        ));
        if s.stage is Decision {
            assert(consumes_all(next.detector, strobes.drop_first(), post.detector));
        } else {
            detector_consumes_the_strobes(next, strobes.drop_first(), post, answer);
        }
    }
}

/// What can happen to a synchronizer within a burst.
pub enum Event<T> {
    /// A sample is pushed.
    Push(Complex<T>),
    /// A symbol is asked for: the strobes that are taken, and the answer.
    Request(Seq<Strobe<T>>, Result<Option<Complex<T>>, StrobeError>),
    /// Feedback is given: the observed symbol and its reference.
    Feedback(Complex<T>, Complex<T>),
}

impl<T> Event<T> {
    /// A symbol is recovered.
    pub open spec fn gives_symbol(self) -> bool {
        self matches Event::Request(_, Ok(Some(_)))
    }

    /// The strobes that are taken.
    pub open spec fn strobes(self) -> Seq<Strobe<T>> {
        match self {
            Event::Request(strobes, _) => strobes,
            _ => Seq::empty(),
        }
    }
}

/// `event` can take a synchronizer from state `s` to state `post`.
pub open spec fn is_step<D: TimingErrorDetector<T>, F: LoopFilter<T>, T: Real>(
    s: SyncState<D, F, T>,
    event: Event<T>,
    post: SyncState<D, F, T>,
) -> bool {
    match event {
        Event::Push(sample) => post == s.push(sample),
        Event::Request(strobes, answer) => s.recovers_by(strobes, post, answer),
        Event::Feedback(observed, reference) => s.is_after_feedback(observed, reference, post),
    }
}

/// `states` are the states of a synchronizer through `events`.
pub open spec fn is_run<D: TimingErrorDetector<T>, F: LoopFilter<T>, T: Real>(
    states: Seq<SyncState<D, F, T>>,
    events: Seq<Event<T>>,
) -> bool {
    &&& states.len() == events.len() + 1
    &&& forall|n: int|
        #![trigger events[n]]
        0 <= n < events.len() ==> is_step(states[n], events[n], states[n + 1])
}

/// The number of symbols recovered in `events`.
pub open spec fn symbol_count<T>(events: Seq<Event<T>>) -> nat
    decreases events.len(),
{
    if events.len() == 0 {
        0
    } else if events.last().gives_symbol() {
        symbol_count(events.drop_last()) + 1
    } else {
        symbol_count(events.drop_last())
    }
}

/// The strobes taken in `events`, in order.
pub open spec fn strobes_taken<T>(events: Seq<Event<T>>) -> Seq<Strobe<T>>
    decreases events.len(),
{
    if events.len() == 0 {
        Seq::empty()
    } else {
        strobes_taken(events.drop_last()) + events.last().strobes()
    }
}

/// The number of strobes that a detector of the given rate has consumed when
/// the synchronizer is at `stage` after `symbols` symbols.
pub open spec fn strobes_due(rate: usize, stage: Stage, symbols: nat) -> nat {
    if rate == 2 {
        match stage {
            Stage::PrimeDecision => 0,
            Stage::PrimeMid => 1,
            Stage::Mid => 2 * symbols + 1,
            Stage::Decision => 2 * symbols + 2,
        }
    } else {
        symbols
    }
}

/// The stage fits the number of symbols: priming comes before the first.
pub open spec fn is_stage_after(rate: usize, stage: Stage, symbols: nat) -> bool {
    if rate == 2 {
        stage is PrimeDecision || stage is PrimeMid ==> symbols == 0
    } else {
        stage is Decision
    }
}

proof fn lemma_request_takes_what_is_due<
    D: TimingErrorDetector<T>,
    F: LoopFilter<T>,
    T: Real,
>(
    s: SyncState<D, F, T>,
    strobes: Seq<Strobe<T>>,
    post: SyncState<D, F, T>,
    answer: Result<Option<Complex<T>>, StrobeError>,
    before: nat,
    after: nat,
)
    requires
        s.recovers_by(strobes, post, answer),
        is_stage_after(D::STROBE_RATE, s.stage, before),
        after == if answer matches Ok(Some(_)) {
            before + 1
        } else {
            before
        },
    ensures
        is_stage_after(D::STROBE_RATE, post.stage, after),
        strobes_due(D::STROBE_RATE, post.stage, after) == strobes_due(
            D::STROBE_RATE,
            s.stage,
            before,
        ) + strobes.len(),
    decreases strobes.len(),
{
    if strobes.len() > 0 {
        let next = choose|next: SyncState<D, F, T>|
            {
                &&& #[trigger] s.is_after_strobe(strobes.first(), next)
                &&& if s.stage is Decision {
                    &&& strobes.len() == 1
                    &&& post == next
                    &&& answer == Ok::<_, StrobeError>(Some(strobes.first().value))
                } else {
                    next.recovers_by(strobes.drop_first(), post, answer)
                }
            };
        assert(s.is_after_strobe(strobes.first(), next));
        if !(s.stage is Decision) {
            lemma_request_takes_what_is_due(
                next,
                strobes.drop_first(),
                post,
                answer,
                before,
                after,
            );
        }
    }
}

/// After any number of events of a burst, the detector has consumed as many
/// strobes as the stage and the number of recovered symbols say.
pub proof fn strobes_keep_pace_with_symbols<
    D: TimingErrorDetector<T>,
    F: LoopFilter<T>,
    T: Real,
>(states: Seq<SyncState<D, F, T>>, events: Seq<Event<T>>)
    requires
        is_run(states, events),
        states[0].stage == symbol_sync::first_stage(D::STROBE_RATE),
    ensures
        is_stage_after(D::STROBE_RATE, states.last().stage, symbol_count(events)),
        strobes_taken(events).len() == strobes_due(
            D::STROBE_RATE,
            states.last().stage,
            symbol_count(events),
        ),
    decreases events.len(),
{
    if events.len() > 0 {
        let earlier = events.drop_last();
        let before = states.drop_last();
        assert forall|n: int|
            #![trigger earlier[n]]
            0 <= n < earlier.len() implies is_step(before[n], earlier[n], before[n + 1]) by {
            assert(events[n] == earlier[n]);
        }
        strobes_keep_pace_with_symbols(before, earlier);
        let last = events[events.len() - 1];
        assert(is_step(before.last(), last, states.last()));
        match last {
            Event::Push(_) => {},
            Event::Request(strobes, answer) => {
                lemma_request_takes_what_is_due(
                    before.last(),
                    strobes,
                    states.last(),
                    answer,
                    symbol_count(earlier),
                    symbol_count(events),
                );
            },
            Event::Feedback(observed, reference) => {
                laws::feedback_moves_only_the_position(
                    before.last(),
                    observed,
                    reference,
                    states.last(),
                );
            },
        }
    }
}

/// When the `k`-th symbol of a burst has been recovered, a detector that takes
/// two strobes per symbol has consumed `2 k + 1` of them: two to prime it, and
/// then decision, mid, decision. One that takes one strobe per symbol has
/// consumed `k`. The symbol is the latest strobe.
pub proof fn kth_symbol_is_the_latest_strobe<
    D: TimingErrorDetector<T>,
    F: LoopFilter<T>,
    T: Real,
>(states: Seq<SyncState<D, F, T>>, events: Seq<Event<T>>, symbol: Complex<T>)
    requires
        is_run(states, events),
        states[0].stage == symbol_sync::first_stage(D::STROBE_RATE),
        events.len() > 0,
        events.last() matches Event::Request(_, Ok(Some(given))) && given == symbol,
    ensures
        D::STROBE_RATE == 2 ==> strobes_taken(events).len() == 2 * symbol_count(events) + 1,
        D::STROBE_RATE != 2 ==> strobes_taken(events).len() == symbol_count(events),
        strobes_taken(events).len() > 0,
        strobes_taken(events).last().value == symbol,
{
    strobes_keep_pace_with_symbols(states, events);
    let s = states[events.len() - 1];
    let last = events[events.len() - 1];
    assert(is_step(s, last, states.last()));
    let strobes = last.strobes();
    let answer: Result<Option<Complex<T>>, StrobeError> = Ok(Some(symbol));
    assert(s.recovers_by(strobes, states.last(), answer));
    detector_consumes_the_strobes(s, strobes, states.last(), answer);
    strobes_are_a_request(s, strobes, states.last(), answer);
    laws::symbol_is_interpolated_at_the_position(s, states.last(), symbol);
    assert(strobes_taken(events).last() == strobes.last());
}

/// The detector reports nothing when it consumes a strobe.
pub open spec fn is_data_aided<D: TimingErrorDetector<T>, T: Real>() -> bool {
    forall|pre: D, strobe: Complex<T>, derivative: Option<Complex<T>>, post: D, error: Option<T>|
        #[trigger] D::consumes(pre, strobe, derivative, post, error) ==> error is None
}

/// Maximum-likelihood and Mueller & Muller detectors are data-aided.
pub proof fn symbol_rate_detectors_are_data_aided<T: Real>()
    ensures
        is_data_aided::<MaximumLikelihood<T>, T>(),
        is_data_aided::<MuellerMuller<T>, T>(),
{
}

/// `r` is `start` plus `count` times `step`, one addition at a time.
pub open spec fn is_advanced<T: Real>(start: T, step: T, count: nat, r: T) -> bool
    decreases count,
{
    if count == 0 {
        r == start
    } else {
        exists|earlier: T|
            is_advanced(start, step, (count - 1) as nat, earlier) && #[trigger] number::is_sum(
                earlier,
                step,
                r,
            )
    }
}

/// A burst in which no feedback is given.
pub open spec fn is_without_feedback<T>(events: Seq<Event<T>>) -> bool {
    forall|n: int| 0 <= n < events.len() ==> !(#[trigger] events[n] is Feedback)
}

/// Without feedback a data-aided loop stays open, whatever the samples are:
/// `m` symbols move the position on by `m` times the symbol period and leave
/// the loop filter alone.
pub proof fn open_loop_moves_by_whole_symbols<
    D: TimingErrorDetector<T>,
    F: LoopFilter<T>,
    T: Real,
>(states: Seq<SyncState<D, F, T>>, events: Seq<Event<T>>)
    requires
        is_data_aided::<D, T>(),
        is_run(states, events),
        is_without_feedback(events),
    ensures
        is_advanced(
            states[0].position,
            states[0].sps,
            symbol_count(events),
            states.last().position,
        ),
        states.last().filter == states[0].filter,
        states.last().sps == states[0].sps,
    decreases events.len(),
{
    if events.len() > 0 {
        let earlier = events.drop_last();
        let before = states.drop_last();
        assert forall|n: int|
            #![trigger earlier[n]]
            0 <= n < earlier.len() implies is_step(before[n], earlier[n], before[n + 1])
            && !(earlier[n] is Feedback) by {
            assert(events[n] == earlier[n]);
        }
        open_loop_moves_by_whole_symbols(before, earlier);
        let s = before.last();
        let post = states.last();
        let last = events[events.len() - 1];
        assert(is_step(s, last, post));
        if let Event::Request(strobes, answer) = last {
            strobes_are_a_request(s, strobes, post, answer);
            laws::recovering_keeps_the_samples(s, post, answer);
            if let Ok(Some(symbol)) = answer {
                laws::symbol_is_interpolated_at_the_position(s, post, symbol);
                let (seeded, strobe) = choose|seeded: SyncState<D, F, T>, strobe: Strobe<T>|
                    {
                        &&& #[trigger] seeded.is_after_strobe(strobe, post)
                        &&& seeded == (SyncState {
                            detector: seeded.detector,
                            stage: Stage::Decision,
                            ..s
                        })
                        &&& strobe.position == s.position
                        &&& strobe.value == symbol
                    };
                assert(seeded.interpolates(strobe, post.detector));
                assert(strobe.error is None);
                assert(number::is_sum(s.position, s.sps, post.position));
            }
        }
    }
}

/// Without feedback, symbol number `m` of a data-aided loop, counted from
/// zero, is interpolated `m` symbol periods after the first.
pub proof fn open_loop_symbol_lies_on_the_grid<
    D: TimingErrorDetector<T>,
    F: LoopFilter<T>,
    T: Real,
>(states: Seq<SyncState<D, F, T>>, events: Seq<Event<T>>, symbol: Complex<T>)
    requires
        is_data_aided::<D, T>(),
        is_run(states, events),
        is_without_feedback(events),
        events.len() > 0,
        events.last() matches Event::Request(_, Ok(Some(given))) && given == symbol,
    ensures
        events.last().strobes().len() > 0,
        events.last().strobes().last().value == symbol,
        is_advanced(
            states[0].position,
            states[0].sps,
            (symbol_count(events) - 1) as nat,
            events.last().strobes().last().position,
        ),
{
    let earlier = events.drop_last();
    let before = states.drop_last();
    assert forall|n: int|
        #![trigger earlier[n]]
        0 <= n < earlier.len() implies is_step(before[n], earlier[n], before[n + 1]) && !(
    earlier[n] is Feedback) by {
        assert(events[n] == earlier[n]);
    }
    open_loop_moves_by_whole_symbols(before, earlier);
    let s = before.last();
    let last = events[events.len() - 1];
    assert(is_step(s, last, states.last()));
    detector_consumes_the_strobes(s, last.strobes(), states.last(), Ok(Some(symbol)));
}

} // verus!
