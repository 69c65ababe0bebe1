//! Symbol-timing recovery for oversampled linear-modulation streams.
//!
//! A timing-error detector drives a second-order loop filter that steers a
//! fractional-delay polyphase interpolator, recovering one sample per symbol
//! at the optimal instant. This resolves the sub-sample timing that an
//! integer-sample burst detector leaves.
//!
//! [`SymbolSynchronizer`] is generic over the [`TimingErrorDetector`] and
//! streaming:
//! full-rate matched-filter samples are fed one at a time with
//! [`push`](SymbolSynchronizer::push), and recovered symbols are pulled with
//! [`next_symbol`](SymbolSynchronizer::next_symbol). A non-data-aided
//! detector (Gardner) produces its error from the strobes alone. A data-aided
//! or decision-directed detector (maximum likelihood, Mueller & Muller)
//! instead takes a reference symbol through
//! [`apply_feedback`](SymbolSynchronizer::apply_feedback) after each pulled
//! symbol. It owns the loop filter, detector, interpolator, and timing
//! position, and keeps only the samples the interpolator needs in a fixed
//! ring sized at construction, so it neither holds the whole stream nor
//! allocates while running.

use crate::complex::Complex;
use crate::fractional_delay;
use crate::fractional_delay::{DesignError, FractionalDelayPfb, PfbView};
use crate::loop_filter;
use crate::loop_filter::LoopFilter;
use crate::lowpass::LowpassDesign;
use crate::number;
use crate::number::Real;
use crate::ted::TimingErrorDetector;
use vstd::prelude::*;

verus! {

/// Phase branches in the timing interpolator, setting the sub-sample timing
/// resolution.
pub const TIMING_PHASES: usize = 32;

/// Stopband attenuation (dB) of the timing interpolator's Kaiser prototype.
pub const TIMING_STOPBAND_ATTEN: usize = 60;

/// The strobe the synchronizer will interpolate next.
#[derive(Clone, Copy, Debug)]
pub enum Stage {
    /// Priming decision strobe one symbol before the first output (twice-rate
    /// detectors only).
    PrimeDecision,
    /// Priming mid strobe half a symbol before the first output (twice-rate
    /// detectors only).
    PrimeMid,
    /// Decision strobe: the recovered, visible symbol.
    Decision,
    /// Mid strobe between two decisions, consumed internally (twice-rate
    /// detectors only).
    Mid,
}

impl Stage {
    /// The strobes that come before the next decision strobe.
    pub open spec fn strobes_to_decision(self) -> nat {
        match self {
            Stage::PrimeDecision => 2,
            Stage::PrimeMid => 1,
            Stage::Mid => 1,
            Stage::Decision => 0,
        }
    }

    /// The stage after a strobe, for a detector that consumes `rate` strobes
    /// per symbol.
    pub open spec fn successor(self, rate: usize) -> Stage {
        match self {
            Stage::PrimeDecision => Stage::PrimeMid,
            Stage::PrimeMid => Stage::Decision,
            Stage::Mid => Stage::Decision,
            Stage::Decision => if rate == 2 {
                Stage::Mid
            } else {
                Stage::Decision
            },
        }
    }
}

/// The stage in which a stream starts, for a detector that consumes `rate`
/// strobes per symbol.
pub open spec fn first_stage(rate: usize) -> Stage {
    if rate == 2 {
        Stage::PrimeDecision
    } else {
        Stage::Decision
    }
}

/// Why a strobe could not be placed.
#[derive(Clone, Copy, Debug)]
pub enum StrobeError {
    /// No sample index represents the whole part of the strobe position.
    PositionOutOfRange,
    /// No index represents the phase branch nearest to the strobe position.
    PhaseOutOfRange,
}

/// What a strobe of the synchronizer consists of.
pub struct Strobe<T> {
    /// Absolute fractional sample index.
    pub position: T,
    /// Absolute sample index of the centre of the interpolation window.
    pub index: nat,
    /// Phase branch.
    pub phase: nat,
    /// Interpolated sample.
    pub value: Complex<T>,
    /// Interpolated derivative.
    pub derivative: Complex<T>,
    /// What the detector reported.
    pub error: Option<T>,
}

/// `index` is what the whole part of `position`, at least one, is as an index.
pub open spec fn is_floor_index<T: Real>(position: T, index: Option<usize>) -> bool {
    exists|one: T, clamped: T, whole: T|
        {
            &&& number::is_one(one)
            &&& #[trigger] number::is_larger(position, one, clamped)
            &&& #[trigger] number::is_floor(clamped, whole)
            &&& number::is_index(whole, index)
        }
}

/// `branch` is what `max(round((position - index) * num_phases), 0)` is as an
/// index.
pub open spec fn is_nearest_branch<T: Real>(
    position: T,
    index: nat,
    num_phases: nat,
    branch: Option<usize>,
) -> bool {
    exists|centre: T, offset: T, phases: T, scaled: T, rounded: T, zero: T, clamped: T|
        {
            &&& number::is_count(index as usize, centre)
            &&& #[trigger] number::is_difference(position, centre, offset)
            &&& number::is_count(num_phases as usize, phases)
            &&& #[trigger] number::is_product(offset, phases, scaled)
            &&& #[trigger] number::is_rounding(scaled, rounded)
            &&& number::is_zero(zero)
            &&& #[trigger] number::is_larger(rounded, zero, clamped)
            &&& number::is_index(clamped, branch)
        }
}

/// What a symbol synchronizer holds.
pub struct SyncState<D, F, T> {
    /// Samples per symbol.
    pub sps: T,
    /// Half of the samples per symbol.
    pub half_symbol: T,
    /// Loop filter.
    pub filter: F,
    /// Timing-error detector.
    pub detector: D,
    /// Fractional-delay interpolation bank.
    pub pfb: PfbView<T>,
    /// Recent pushed samples, indexed by absolute sample index modulo the
    /// buffer capacity.
    pub history: Seq<Complex<T>>,
    /// Number of samples pushed so far.
    pub pushed: nat,
    /// Absolute index of the next decision strobe.
    pub position: T,
    /// Absolute index of the first decision strobe.
    pub start: T,
    /// The strobe that comes next.
    pub stage: Stage,
}

impl<D, F, T> SyncState<D, F, T> {
    /// The bank is well formed, and the ring holds a window and two samples
    /// more.
    pub open spec fn wf(self) -> bool {
        &&& self.pfb.wf()
        &&& self.history.len() == self.pfb.taps_per_phase + 2
    }

    /// The state after one more sample.
    pub open spec fn push(self, sample: Complex<T>) -> Self {
        SyncState {
            history: self.history.update(
                (self.pushed % self.history.len()) as int,
                sample,
            ),
            pushed: self.pushed + 1,
            ..self
        }
    }

    /// Every sample of the window centred on `index` has been pushed.
    pub open spec fn has_window(self, index: nat) -> bool {
        index + self.pfb.group_delay() + 1 <= self.pushed
    }

    /// The window centred on `index`, oldest sample first.
    pub open spec fn window(self, index: nat) -> Seq<Complex<T>> {
        fractional_delay::ring_window(
            self.history,
            index - self.pfb.group_delay(),
            self.pfb.taps_per_phase,
        )
    }
}

impl<D, F, T: Real> SyncState<D, F, T> {
    /// `position` is the absolute fractional index of the strobe the current
    /// stage interpolates.
    pub open spec fn strobe_at(self, position: T) -> bool {
        match self.stage {
            Stage::PrimeDecision => number::is_difference(self.start, self.sps, position),
            Stage::PrimeMid => number::is_difference(self.start, self.half_symbol, position),
            Stage::Decision => position == self.position,
            Stage::Mid => number::is_difference(self.position, self.half_symbol, position),
        }
    }

    /// The window of a strobe at `position` is centred on `index`: the whole
    /// part of the position, but no earlier than the group delay.
    pub open spec fn is_centre(self, position: T, index: nat) -> bool {
        exists|whole: usize|
            {
                &&& #[trigger] is_floor_index(position, Some(whole))
                &&& index == if whole >= self.pfb.group_delay() {
                    whole as nat
                } else {
                    self.pfb.group_delay()
                }
            }
    }

    /// A strobe at `position` with its window centred on `index` uses branch
    /// `phase`: the nearest one, but at most the last.
    pub open spec fn is_phase(self, position: T, index: nat, phase: nat) -> bool {
        exists|branch: usize|
            {
                &&& #[trigger] is_nearest_branch(
                    position,
                    index,
                    self.pfb.num_phases,
                    Some(branch),
                )
                &&& phase == if branch < self.pfb.num_phases {
                    branch as nat
                } else {
                    (self.pfb.num_phases - 1) as nat
                }
            }
    }

    /// A sample of the window of the current stage's strobe is still to come.
    pub open spec fn is_waiting(self) -> bool {
        exists|position: T, index: nat|
            self.strobe_at(position) && #[trigger] self.is_centre(position, index)
                && !self.has_window(index)
    }

    /// No index represents the whole part of the strobe position.
    pub open spec fn lacks_index(self) -> bool {
        exists|position: T|
            self.strobe_at(position) && #[trigger] is_floor_index(position, None::<usize>)
    }

    /// The window is there, but no index represents the nearest branch.
    pub open spec fn lacks_branch(self) -> bool {
        exists|position: T, index: nat|
            {
                &&& self.strobe_at(position)
                &&& #[trigger] self.is_centre(position, index)
                &&& self.has_window(index)
                &&& is_nearest_branch(position, index, self.pfb.num_phases, None)
            }
    }

    /// Every sample of the window of the current stage's strobe is there.
    pub open spec fn is_served(self) -> bool {
        exists|position: T, index: nat|
            self.strobe_at(position) && #[trigger] self.is_centre(position, index)
                && self.has_window(index)
    }

    /// The current stage's strobe can be placed; and where its window is
    /// there, so that a later stage is reached, so can that stage's, up to and
    /// including the next decision.
    pub open spec fn is_placeable(self) -> bool
        decreases self.stage.strobes_to_decision(),
    {
        &&& !self.lacks_index()
        &&& !self.lacks_branch()
        &&& self.is_served() ==> match self.stage {
            Stage::Decision => true,
            Stage::PrimeDecision => SyncState { stage: Stage::PrimeMid, ..self }.is_placeable(),
            _ => SyncState { stage: Stage::Decision, ..self }.is_placeable(),
        }
    }
}

impl<D, F: LoopFilter<T>, T: Real> SyncState<D, F, T> {
    /// `post` is this state with the next strobe position nudged by the
    /// loop-filtered `error`, and nothing else changed but the filter.
    pub open spec fn is_corrected(self, error: T, post: Self) -> bool {
        &&& exists|correction: T|
            {
                &&& #[trigger] loop_filter::is_update(self.filter, error, post.filter, correction)
                &&& number::is_difference(self.position, correction, post.position)
            }
        &&& post == SyncState { filter: post.filter, position: post.position, ..self }
    }
}

impl<D: TimingErrorDetector<T>, F: LoopFilter<T>, T: Real> SyncState<D, F, T> {
    /// The current stage's strobe is `strobe`, and the detector that has
    /// consumed it is `detector`.
    pub open spec fn interpolates(self, strobe: Strobe<T>, detector: D) -> bool {
        &&& self.strobe_at(strobe.position)
        &&& self.is_centre(strobe.position, strobe.index)
        &&& self.has_window(strobe.index)
        &&& self.is_phase(strobe.position, strobe.index, strobe.phase)
        &&& self.pfb.interpolates(strobe.phase as int, self.window(strobe.index), strobe.value)
        &&& self.pfb.differentiates(
            strobe.phase as int,
            self.window(strobe.index),
            strobe.derivative,
        )
        &&& D::consumes(
            self.detector,
            strobe.value,
            Some(strobe.derivative),
            detector,
            strobe.error,
        )
    }

    /// `post` is the state after `strobe`. The detector has consumed it; a
    /// decision strobe has also moved the position on by a symbol, and then
    /// by what the loop filter made of the detector's error, if any.
    pub open spec fn is_after_strobe(self, strobe: Strobe<T>, post: Self) -> bool {
        let seeded = SyncState {
            detector: post.detector,
            stage: self.stage.successor(D::STROBE_RATE),
            ..self
        };
        &&& self.interpolates(strobe, post.detector)
        &&& match self.stage {
            Stage::Decision => exists|moved: T|
                {
                    &&& #[trigger] number::is_sum(self.position, self.sps, moved)
                    &&& match strobe.error {
                        Some(error) => SyncState { position: moved, ..seeded }.is_corrected(
                            error,
                            post,
                        ),
                        None => post == SyncState { position: moved, ..seeded },
                    }
                },
            _ => post == seeded,
        }
    }

    /// `post` is the state after feedback: the detector has taken it, and the
    /// position is corrected by the error it reported, if any.
    pub open spec fn is_after_feedback(
        self,
        observed: Complex<T>,
        reference: Complex<T>,
        post: Self,
    ) -> bool {
        exists|reported: Option<T>|
            {
                &&& #[trigger] D::takes_feedback(
                    self.detector,
                    observed,
                    reference,
                    post.detector,
                    reported,
                )
                &&& match reported {
                    Some(error) => SyncState { detector: post.detector, ..self }.is_corrected(
                        error,
                        post,
                    ),
                    None => post == SyncState { detector: post.detector, ..self },
                }
            }
    }

    /// A request in this state stops before its first strobe, with `answer`.
    pub open spec fn stops(self, answer: Result<Option<Complex<T>>, StrobeError>) -> bool {
        match answer {
            Ok(None) => self.is_waiting(),
            Ok(Some(_)) => false,
            Err(StrobeError::PositionOutOfRange) => self.lacks_index(),
            Err(StrobeError::PhaseOutOfRange) => self.lacks_branch(),
        }
    }

    /// A synchronizer in this state that is asked for a symbol can end in
    /// state `post` and answer `answer`: it takes strobes until a decision
    /// strobe gives the symbol, or until a strobe cannot be taken.
    pub open spec fn recovers(
        self,
        post: Self,
        answer: Result<Option<Complex<T>>, StrobeError>,
    ) -> bool
        decreases self.stage.strobes_to_decision(),
    {
        ||| (post == self && self.stops(answer))
        ||| exists|strobe: Strobe<T>, next: Self|
            {
                &&& #[trigger] self.is_after_strobe(strobe, next)
                &&& if self.stage is Decision {
                    post == next && answer == Ok::<_, StrobeError>(Some(strobe.value))
                } else {
                    next.recovers(post, answer)
                }
            }
    }
}

/// `r` is `position - floor(position)`, or zero where the number type finds one
/// at most that difference.
pub open spec fn is_fractional_offset<T: Real>(position: T, r: T) -> bool {
    exists|whole: T, offset: T, one: T|
        {
            &&& #[trigger] number::is_floor(position, whole)
            &&& #[trigger] number::is_difference(position, whole, offset)
            &&& #[trigger] number::is_one(one)
            &&& {
                ||| number::answers_at_most(one, offset, false) && r == offset
                ||| number::answers_at_most(one, offset, true) && number::is_zero(r)
            }
        }
}

/// `half` is half of `sps`, the number of samples per symbol.
pub open spec fn is_symbol_period<T: Real>(samples: usize, sps: T, half: T) -> bool {
    exists|two: T|
        {
            &&& number::is_count(samples, sps)
            &&& #[trigger] number::is_count(2, two)
            &&& number::is_quotient(sps, two, half)
        }
}

impl<D: TimingErrorDetector<T>, F: LoopFilter<T>, T: Real> SyncState<D, F, T> {
    /// No sample has been pushed and no strobe taken of a stream whose first
    /// symbol lands at `start`, and the loop filter is new.
    pub open spec fn starts_at(self, start: T, loop_bandwidth: T, damping: T) -> bool {
        &&& loop_filter::is_new(loop_bandwidth, damping, self.filter)
        &&& self.pushed == 0
        &&& self.position == start
        &&& self.start == start
        &&& self.stage == first_stage(D::STROBE_RATE)
    }
}

impl<D, F, T: Real> SyncState<D, F, T> {
    /// Every slot of the ring is zero.
    pub open spec fn is_silent(self) -> bool {
        forall|slot: int|
            0 <= slot < self.history.len() ==> {
                &&& number::is_zero((#[trigger] self.history[slot]).re)
                &&& number::is_zero(self.history[slot].im)
            }
    }
}

/// The timing interpolator `bank` is one that the design `G` gives.
pub open spec fn is_timing_interpolator<G: LowpassDesign<T>, T: Real>(bank: PfbView<T>) -> bool {
    exists|atten: T|
        {
            &&& #[trigger] number::is_count(TIMING_STOPBAND_ATTEN, atten)
            &&& fractional_delay::is_designed::<G, T>(TIMING_PHASES, atten, bank)
        }
}

/// The design `G` gives no timing interpolator, for the reason `error`.
pub open spec fn lacks_timing_interpolator<G: LowpassDesign<T>, T: Real>(
    error: DesignError,
) -> bool {
    exists|atten: T|
        {
            &&& #[trigger] number::is_count(TIMING_STOPBAND_ATTEN, atten)
            &&& fractional_delay::is_refused::<G, T>(TIMING_PHASES, atten, error)
        }
}

/// Whether the strobes can be placed does not depend on the detector.
pub(crate) proof fn lemma_placeable_without_detector<D, F, T: Real>(
    s: SyncState<D, F, T>,
    detector: D,
)
    requires
        s.is_placeable(),
    ensures
        (SyncState { detector, ..s }).is_placeable(),
    decreases s.stage.strobes_to_decision(),
{
    let other = SyncState { detector, ..s };
    if other.lacks_index() {
        let position = choose|position: T|
            other.strobe_at(position) && #[trigger] is_floor_index(position, None::<usize>);
        assert(s.strobe_at(position) && is_floor_index(position, None::<usize>));
    }
    if other.lacks_branch() {
        let (position, index) = choose|position: T, index: nat|
            {
                &&& other.strobe_at(position)
                &&& #[trigger] other.is_centre(position, index)
                &&& other.has_window(index)
                &&& is_nearest_branch(position, index, other.pfb.num_phases, None)
            };
        assert(s.strobe_at(position) && s.is_centre(position, index));
    }
    if other.is_served() {
        let (position, index) = choose|position: T, index: nat|
            other.strobe_at(position) && #[trigger] other.is_centre(position, index)
                && other.has_window(index);
        assert(s.strobe_at(position) && s.is_centre(position, index) && s.has_window(index));
        match s.stage {
            Stage::Decision => {},
            Stage::PrimeDecision => {
                lemma_placeable_without_detector(
                    SyncState { stage: Stage::PrimeMid, ..s },
                    detector,
                );
            },
            _ => {
                lemma_placeable_without_detector(
                    SyncState { stage: Stage::Decision, ..s },
                    detector,
                );
            },
        }
    }
}

/// The first strobe that a request takes and the state it leaves, or `None`
/// where the request stops before it.
pub(crate) proof fn lemma_first_strobe<D: TimingErrorDetector<T>, F: LoopFilter<T>, T: Real>(
    s: SyncState<D, F, T>,
    post: SyncState<D, F, T>,
    answer: Result<Option<Complex<T>>, StrobeError>,
) -> (first: Option<(Strobe<T>, SyncState<D, F, T>)>)
    requires
        s.recovers(post, answer),
    ensures
        match first {
            None => post == s && s.stops(answer),
            Some((strobe, next)) => {
                &&& s.is_after_strobe(strobe, next)
                &&& if s.stage is Decision {
                    post == next && answer == Ok::<_, StrobeError>(Some(strobe.value))
                } else {
                    next.recovers(post, answer)
                }
            },
        },
{
    if post == s && s.stops(answer) {
        None
    } else {
        Some(
            choose|strobe: Strobe<T>, next: SyncState<D, F, T>|
                {
                    &&& #[trigger] s.is_after_strobe(strobe, next)
                    &&& if s.stage is Decision {
                        post == next && answer == Ok::<_, StrobeError>(Some(strobe.value))
                    } else {
                        next.recovers(post, answer)
                    }
                },
        )
    }
}

/// Where every strobe can be placed, asking for a symbol is no error.
proof fn lemma_placeable_recovers<D: TimingErrorDetector<T>, F: LoopFilter<T>, T: Real>(
    s: SyncState<D, F, T>,
    post: SyncState<D, F, T>,
    answer: Result<Option<Complex<T>>, StrobeError>,
)
    requires
        s.is_placeable(),
        s.recovers(post, answer),
    ensures
        answer is Ok,
    decreases s.stage.strobes_to_decision(),
{
    if answer is Err && !s.stops(answer) {
        let first = lemma_first_strobe(s, post, answer);
        let (strobe, next) = first->0;
        assert(s.is_centre(strobe.position, strobe.index) && s.is_served());
        let ahead = SyncState { stage: s.stage.successor(D::STROBE_RATE), ..s };
        assert(ahead.is_placeable());
        lemma_placeable_without_detector(ahead, next.detector);
        assert(next == (SyncState { detector: next.detector, ..ahead }));
        lemma_placeable_recovers(next, post, answer);
    }
}

/// Generic symbol-timing synchronizer, parameterized by its timing-error
/// detector and its loop filter.
#[derive(Clone, Debug)]
pub struct SymbolSynchronizer<D, F, T> {
    sps: T,
    half_symbol: T,
    filter: F,
    detector: D,
    /// Fractional-delay interpolation bank.
    pfb: FractionalDelayPfb<T>,
    /// Recent pushed samples, indexed by absolute sample index modulo the
    /// buffer capacity.
    history: Vec<Complex<T>>,
    /// Number of samples pushed so far (the absolute index of the next one).
    pushed: usize,
    /// Absolute index of the next decision strobe.
    position: T,
    /// Absolute index of the first decision strobe.
    start: T,
    stage: Stage,
}

impl<D, F, T> View for SymbolSynchronizer<D, F, T> {
    type V = SyncState<D, F, T>;

    closed spec fn view(&self) -> SyncState<D, F, T> {
        SyncState {
            sps: self.sps,
            half_symbol: self.half_symbol,
            filter: self.filter,
            detector: self.detector,
            pfb: self.pfb@,
            history: self.history@,
            pushed: self.pushed as nat,
            position: self.position,
            start: self.start,
            stage: self.stage,
        }
    }
}

impl<D, F, T> SymbolSynchronizer<D, F, T> where
    D: TimingErrorDetector<T> + Default,
    F: LoopFilter<T>,
    T: Real,
{
    /// Creates a synchronizer for `sps` samples per symbol whose first
    /// recovered symbol lands near the fractional sample `start`, with the
    /// given normalized loop bandwidth (`Bn * T`) and damping factor.
    ///
    /// The timing interpolator comes from the low-pass design `G`.
    pub fn new<G: LowpassDesign<T>>(
        sps: usize,
        start: T,
        loop_bandwidth: T,
        damping: T,
    ) -> (r: Result<Self, DesignError>)
        requires
            sps > 0,
            number::is_finite_and_positive(loop_bandwidth),
            number::is_finite_and_positive(damping),
        ensures
            match r {
                Ok(synchronizer) => {
                    &&& synchronizer@.wf()
                    &&& is_timing_interpolator::<G, T>(synchronizer@.pfb)
                    &&& is_symbol_period(sps, synchronizer@.sps, synchronizer@.half_symbol)
                    &&& synchronizer@.is_silent()
                    &&& synchronizer@.starts_at(start, loop_bandwidth, damping)
                    &&& call_ensures(D::default, (), synchronizer@.detector)
                },
                Err(error) => lacks_timing_interpolator::<G, T>(error),
            },
    {
        Self::with_detector::<G>(sps, start, loop_bandwidth, damping, D::default())
    }
}

impl<D, F, T> SymbolSynchronizer<D, F, T> where
    D: TimingErrorDetector<T>,
    F: LoopFilter<T>,
    T: Real,
{
    /// Creates a synchronizer using an explicitly-configured detector,
    /// otherwise as [`Self::new`].
    pub fn with_detector<G: LowpassDesign<T>>(
        sps: usize,
        start: T,
        loop_bandwidth: T,
        damping: T,
        detector: D,
    ) -> (r: Result<Self, DesignError>)
        requires
            sps > 0,
            number::is_finite_and_positive(loop_bandwidth),
            number::is_finite_and_positive(damping),
        ensures
            match r {
                Ok(synchronizer) => {
                    &&& synchronizer@.wf()
                    &&& is_timing_interpolator::<G, T>(synchronizer@.pfb)
                    &&& is_symbol_period(sps, synchronizer@.sps, synchronizer@.half_symbol)
                    &&& synchronizer@.is_silent()
                    &&& synchronizer@.starts_at(start, loop_bandwidth, damping)
                    &&& synchronizer@.detector == detector
                },
                Err(error) => lacks_timing_interpolator::<G, T>(error),
            },
    {
        let atten = T::from_index(TIMING_STOPBAND_ATTEN);
        assert(number::is_count(TIMING_STOPBAND_ATTEN, atten));
        match FractionalDelayPfb::new::<G>(TIMING_PHASES, atten) {
            Ok(pfb) => Ok(
                Self::with_interpolator(sps, start, loop_bandwidth, damping, pfb, detector),
            ),
            Err(error) => Err(error),
        }
    }

    /// Creates a synchronizer around a timing interpolator and a detector,
    /// otherwise as [`Self::new`].
    #[must_use]
    pub fn with_interpolator(
        sps: usize,
        start: T,
        loop_bandwidth: T,
        damping: T,
        pfb: FractionalDelayPfb<T>,
        detector: D,
    ) -> (r: Self)
        requires
            sps > 0,
            number::is_finite_and_positive(loop_bandwidth),
            number::is_finite_and_positive(damping),
            pfb@.wf(),
            pfb@.taps_per_phase + 2 <= usize::MAX,
        ensures
            r@.wf(),
            r@.pfb == pfb@,
            is_symbol_period(sps, r@.sps, r@.half_symbol),
            r@.is_silent(),
            r@.starts_at(start, loop_bandwidth, damping),
            r@.detector == detector,
    {
        let capacity: usize = pfb.taps_per_phase() + 2;
        let silence = Complex { re: T::zero(), im: T::zero() };
        let mut history: Vec<Complex<T>> = Vec::new();
        while history.len() < capacity
            invariant
                number::is_zero(silence.re),
                number::is_zero(silence.im),
                history@.len() <= capacity,
                forall|slot: int|
                    0 <= slot < history@.len() ==> #[trigger] history@[slot] == silence,
            decreases capacity - history@.len(),
        {
            history.push(silence);
        }
        let samples = T::from_index(sps);
        let two = T::from_index(2);
        let half_symbol = samples.over(two);
        assert(is_symbol_period(sps, samples, half_symbol)) by {
            assert(number::is_count(sps, samples) && number::is_count(2, two));
        }
        SymbolSynchronizer {
            sps: samples,
            half_symbol,
            filter: F::new(loop_bandwidth, damping),
            detector,
            pfb,
            history,
            pushed: 0,
            position: start,
            start,
            stage: Self::first_stage(),
        }
    }

    /// The stage in which a stream starts.
    fn first_stage() -> (r: Stage)
        ensures
            r == first_stage(D::STROBE_RATE),
    {
        if D::STROBE_RATE == 2 {
            Stage::PrimeDecision
        } else {
            Stage::Decision
        }
    }

    /// Resets the synchronizer to re-run from a new `start` with fresh loop
    /// parameters, reusing the already-allocated buffers (so it is
    /// allocation-free: a streaming demodulator calls this once per burst,
    /// and picks up any runtime change to the loop bandwidth or damping).
    pub fn reset(&mut self, start: T, loop_bandwidth: T, damping: T)
        requires
            old(self)@.wf(),
            number::is_finite_and_positive(loop_bandwidth),
            number::is_finite_and_positive(damping),
        ensures
            final(self)@.wf(),
            final(self)@.starts_at(start, loop_bandwidth, damping),
            D::clears(old(self)@.detector, final(self)@.detector),
            final(self)@.sps == old(self)@.sps,
            final(self)@.half_symbol == old(self)@.half_symbol,
            final(self)@.pfb == old(self)@.pfb,
            final(self)@.history == old(self)@.history,
    {
        self.filter = F::new(loop_bandwidth, damping);
        self.detector.reset();
        self.pushed = 0;
        self.position = start;
        self.start = start;
        self.stage = Self::first_stage();
    }

    /// The fractional (sub-sample) timing offset the loop has settled on, in
    /// samples (`[0, 1)`).
    #[must_use]
    pub fn fractional_offset(&self) -> (r: T)
        ensures
            is_fractional_offset(self@.position, r),
    {
        let whole = self.position.floor();
        let offset = self.position.minus(whole);
        let one = T::one();
        assert(number::is_floor(self@.position, whole));
        assert(number::is_difference(self@.position, whole, offset));
        assert(number::is_one(one));
        // A position just below a whole number can round to a whole sample.
        if one.at_most(offset) {
            T::zero()
        } else {
            offset
        }
    }

    /// The timing interpolator's group delay in samples: a strobe at position
    /// `p` interpolates the window `p - group_delay ..= p + group_delay`, so
    /// the first strobe needs this much lead-in.
    #[must_use]
    pub fn group_delay(&self) -> (r: usize)
        requires
            self@.wf(),
        ensures
            r == self@.pfb.group_delay(),
            2 * r + 1 == self@.pfb.taps_per_phase,
    {
        self.pfb.group_delay()
    }

    /// Feeds one full-rate matched-filter sample. Pull completed symbols with
    /// [`Self::next_symbol`].
    pub fn push(&mut self, sample: Complex<T>)
        requires
            old(self)@.wf(),
            old(self)@.pushed < usize::MAX,
        ensures
            final(self)@.wf(),
            final(self)@ == old(self)@.push(sample),
    {
        let capacity: usize = self.history.len();
        let slot: usize = self.pushed % capacity;
        self.history.set(slot, sample);
        self.pushed = self.pushed + 1;
    }

    /// [`Self::next_symbol`] for streams that may run out of the range of
    /// sample indices: a strobe that cannot be placed is an error, and stays
    /// the next strobe.
    pub fn try_next_symbol(&mut self) -> (answer: Result<Option<Complex<T>>, StrobeError>)
        requires
            old(self)@.wf(),
        ensures
            final(self)@.wf(),
            old(self)@.recovers(final(self)@, answer),
    {
        let phases = self.pfb.num_phases();
        let delay = self.pfb.group_delay();
        loop
            invariant
                self@.wf(),
                phases == self@.pfb.num_phases,
                delay == self@.pfb.group_delay(),
                forall|post: SyncState<D, F, T>, answer: Result<Option<Complex<T>>, StrobeError>|
                    self@.recovers(post, answer) ==> old(self)@.recovers(post, answer),
            decreases self@.stage.strobes_to_decision(),
        {
            let ghost before = self@;
            let position = self.strobe_position();
            // The interpolation window is centred on `index`, spanning
            // `index - delay ..= index + delay`; clamp so it never runs before
            // sample zero.
            let whole = match Self::floor_index(position) {
                Some(whole) => whole,
                None => {
                    return Err(StrobeError::PositionOutOfRange);
                },
            };
            let index: usize = if whole >= delay {
                whole
            } else {
                delay
            };
            assert(before.is_centre(position, index as nat));
            // Wait until the newest window sample, `index + delay`, has been
            // pushed.
            if index >= self.pushed || self.pushed - index <= delay {
                return Ok(None);
            }
            // Branch `q` interpolates at window-coord `delay + q/P`; with the
            // window based at `index - delay` that lands at `index + q/P`, so
            // `q = round(frac * P)`.
            let nearest = match Self::nearest_branch(position, index, phases) {
                Some(nearest) => nearest,
                None => {
                    return Err(StrobeError::PhaseOutOfRange);
                },
            };
            let phase: usize = if nearest < phases {
                nearest
            } else {
                phases - 1
            };
            let base: usize = index - delay;
            let strobe = self.pfb.interpolate_ring(phase, &self.history, base);
            let derivative = self.pfb.derivative_ring(phase, &self.history, base);
            let timing_error = self.detector.consume_strobe(strobe, Some(derivative));
            let ghost taken = Strobe {
                position,
                index: index as nat,
                phase: phase as nat,
                value: strobe,
                derivative,
                error: timing_error,
            };
            assert(before.interpolates(taken, self@.detector));

            match self.stage {
                // Priming and mid strobes seed the detector; only decision
                // strobes are emitted.
                Stage::PrimeDecision => {
                    self.stage = Stage::PrimeMid;
                    assert(before.is_after_strobe(taken, self@));
                },
                Stage::PrimeMid | Stage::Mid => {
                    self.stage = Stage::Decision;
                    assert(before.is_after_strobe(taken, self@));
                },
                Stage::Decision => {
                    self.position = self.position.plus(self.sps);
                    let ghost moved = self.position;
                    assert(number::is_sum(before.position, before.sps, moved));
                    self.stage = if D::STROBE_RATE == 2 {
                        Stage::Mid
                    } else {
                        Stage::Decision
                    };
                    // A non-data-aided detector reports its error here;
                    // data-aided ones defer to `apply_feedback` and report
                    // `None`.
                    if let Some(error) = timing_error {
                        self.apply_timing_correction(error);
                    }
                    assert(before.is_after_strobe(taken, self@));
                    return Ok(Some(strobe));
                },
            }
        }
    }

    /// Advances the interpolator and returns the next recovered symbol, or
    /// `None` until enough samples have been pushed to complete its strobe. A
    /// data-aided or decision-directed detector needs
    /// [`Self::apply_feedback`] called with the symbol's reference before the
    /// next call.
    pub fn next_symbol(&mut self) -> (symbol: Option<Complex<T>>)
        requires
            old(self)@.wf(),
            old(self)@.is_placeable(),
        ensures
            final(self)@.wf(),
            old(self)@.recovers(final(self)@, Ok(symbol)),
    {
        let answer = self.try_next_symbol();
        proof {
            lemma_placeable_recovers(old(self)@, self@, answer);
        }
        match answer {
            Ok(symbol) => symbol,
            Err(_) => None,
        }
    }

    /// Supplies the `reference` (a known or sliced symbol) for the last
    /// symbol from [`Self::next_symbol`], letting a data-aided or
    /// decision-directed detector steer the loop. A non-data-aided detector
    /// ignores it.
    pub fn apply_feedback(&mut self, observed: Complex<T>, reference: Complex<T>)
        requires
            old(self)@.wf(),
        ensures
            final(self)@.wf(),
            old(self)@.is_after_feedback(observed, reference, final(self)@),
    {
        let reported = self.detector.apply_feedback(observed, reference);
        if let Some(error) = reported {
            self.apply_timing_correction(error);
        }
        assert(D::takes_feedback(
            old(self)@.detector,
            observed,
            reference,
            self@.detector,
            reported,
        ));
    }

    /// `max(position, 1)`, rounded down, as an index.
    fn floor_index(position: T) -> (index: Option<usize>)
        ensures
            is_floor_index(position, index),
    {
        let one = T::one();
        let clamped = position.larger(one);
        let whole = clamped.floor();
        assert(number::is_one(one));
        assert(number::is_larger(position, one, clamped));
        assert(number::is_floor(clamped, whole));
        whole.to_index()
    }

    /// The branch nearest to `position`, seen from sample `index`.
    fn nearest_branch(position: T, index: usize, num_phases: usize) -> (branch: Option<usize>)
        ensures
            is_nearest_branch(position, index as nat, num_phases as nat, branch),
    {
        let centre = T::from_index(index);
        let offset = position.minus(centre);
        let phases = T::from_index(num_phases);
        let scaled = offset.times(phases);
        let rounded = scaled.round();
        let zero = T::zero();
        let clamped = rounded.larger(zero);
        assert(number::is_count(index, centre) && number::is_count(num_phases, phases));
        assert(number::is_difference(position, centre, offset));
        assert(number::is_product(offset, phases, scaled));
        assert(number::is_rounding(scaled, rounded));
        assert(number::is_zero(zero));
        assert(number::is_larger(rounded, zero, clamped));
        clamped.to_index()
    }

    /// Absolute fractional index of the strobe the current stage interpolates.
    fn strobe_position(&self) -> (r: T)
        ensures
            self@.strobe_at(r),
    {
        match self.stage {
            Stage::PrimeDecision => self.start.minus(self.sps),
            Stage::PrimeMid => self.start.minus(self.half_symbol),
            Stage::Decision => self.position,
            Stage::Mid => self.position.minus(self.half_symbol),
        }
    }

    /// Nudges the next strobe position by the loop-filtered timing error.
    fn apply_timing_correction(&mut self, error: T)
        ensures
            old(self)@.is_corrected(error, final(self)@),
    {
        let (filter, correction) = self.filter.update(error);
        self.filter = filter;
        self.position = self.position.minus(correction);
        assert(loop_filter::is_update(old(self)@.filter, error, self@.filter, correction));
    }
}

} // verus!
