//! The loops on whole numbers, where every result is exact.

use std::cell::RefCell;
use std::rc::Rc;

use tracking_loops::carrier::CarrierSynchronizer;
use tracking_loops::complex::Complex;
use tracking_loops::fractional_delay::{
    lowpass_len, make_odd, taps_per_phase, DesignError, FractionalDelayPfb,
};
use tracking_loops::loop_filter::LoopFilter;
use tracking_loops::lowpass::LowpassDesign;
use tracking_loops::number::{CircleConst, Real};
use tracking_loops::symbol_sync::{StrobeError, SymbolSynchronizer};
use tracking_loops::ted::{Gardner, MaximumLikelihood, MuellerMuller, TimingErrorDetector};

/// Whole sixteenths: enough to place a strobe between two samples.
#[derive(Clone, Copy, Debug, PartialEq)]
struct Sixteenth(i64);

/// The sixteenths of a whole number.
fn s(whole: i64) -> Sixteenth {
    Sixteenth(16 * whole)
}

fn c(re: i64, im: i64) -> Complex<Sixteenth> {
    Complex { re: s(re), im: s(im) }
}

impl Real for Sixteenth {
    fn zero() -> Self {
        s(0)
    }
    fn one() -> Self {
        s(1)
    }
    fn from_index(index: usize) -> Self {
        s(index as i64)
    }
    fn plus(self, rhs: Self) -> Self {
        Sixteenth(self.0 + rhs.0)
    }
    fn minus(self, rhs: Self) -> Self {
        Sixteenth(self.0 - rhs.0)
    }
    fn times(self, rhs: Self) -> Self {
        Sixteenth(self.0 * rhs.0 / 16)
    }
    fn over(self, rhs: Self) -> Self {
        Sixteenth(self.0 * 16 / rhs.0)
    }
    fn negated(self) -> Self {
        Sixteenth(-self.0)
    }
    fn magnitude(self) -> Self {
        Sixteenth(self.0.abs())
    }
    fn larger(self, other: Self) -> Self {
        Sixteenth(self.0.max(other.0))
    }
    fn floor(self) -> Self {
        s(self.0.div_euclid(16))
    }
    fn round(self) -> Self {
        s((self.0 + 8).div_euclid(16))
    }
    /// A thousand is the last index.
    fn to_index(self) -> Option<usize> {
        if self.0 <= 16_000 {
            usize::try_from(self.0 / 16).ok()
        } else {
            None
        }
    }
    fn is_finite(self) -> bool {
        true
    }
    fn above(self, other: Self) -> bool {
        self.0 > other.0
    }
    fn at_most(self, other: Self) -> bool {
        self.0 <= other.0
    }
    /// Right angles only: the angle counts quarter turns.
    fn cos(self) -> Self {
        s([1, 0, -1, 0][(self.0 / 16).rem_euclid(4) as usize])
    }
    fn sin(self) -> Self {
        s([0, 1, 0, -1][(self.0 / 16).rem_euclid(4) as usize])
    }
}

impl CircleConst for Sixteenth {
    fn pi() -> Self {
        s(3)
    }
}

/// A filter that adds up the errors.
#[derive(Clone, Copy, Debug)]
struct Running {
    sum: i64,
}

impl LoopFilter<Sixteenth> for Running {
    fn new(_loop_bandwidth: Sixteenth, _damping: Sixteenth) -> Self {
        Running { sum: 0 }
    }
    fn update(&self, error: Sixteenth) -> (Self, Sixteenth) {
        let sum = self.sum + error.0;
        (Running { sum }, Sixteenth(sum))
    }
}

/// A filter that hands a sixteenth of every error on.
#[derive(Clone, Copy, Debug)]
struct Gentle;

impl LoopFilter<Sixteenth> for Gentle {
    fn new(_loop_bandwidth: Sixteenth, _damping: Sixteenth) -> Self {
        Gentle
    }
    fn update(&self, error: Sixteenth) -> (Self, Sixteenth) {
        (Gentle, Sixteenth(error.0 / 16))
    }
}

#[test]
fn odd_numbers_stay_and_even_ones_grow() {
    assert_eq!(make_odd(0), 1);
    assert_eq!(make_odd(1), 1);
    assert_eq!(make_odd(8), 9);
    assert_eq!(make_odd(9), 9);
    assert_eq!(make_odd(usize::MAX), usize::MAX);
    assert_eq!(make_odd(usize::MAX - 1), usize::MAX);
}

#[test]
fn subfilter_is_the_shortest_odd_one_that_spans_the_prototype() {
    assert_eq!(taps_per_phase(1, 32), 1);
    assert_eq!(taps_per_phase(2, 32), 3);
    assert_eq!(taps_per_phase(65, 32), 3);
    assert_eq!(taps_per_phase(66, 32), 5);
    assert_eq!(taps_per_phase(233, 32), 9);
    assert_eq!(taps_per_phase(usize::MAX, 1), usize::MAX);
    for min_len in 1..200 {
        for num_phases in 1..20 {
            let taps = taps_per_phase(min_len, num_phases);
            assert!(taps % 2 == 1);
            assert!(num_phases * (taps - 1) + 1 >= min_len);
            assert_eq!(lowpass_len(min_len, num_phases), num_phases * (taps - 1) + 1);
            if taps > 2 {
                assert!(num_phases * (taps - 3) + 1 < min_len);
            }
        }
    }
}

/// A bank of two branches, made of the low-pass 1, 2, 3, 4, 5. The
/// interpolation bank is 2, 4, 6, 8, 10, 0; the derivative bank is
/// 4, 4, 4, 4, -8, 0.
fn small_bank() -> FractionalDelayPfb<Sixteenth> {
    let lowpass = [s(1), s(2), s(3), s(4), s(5)];
    FractionalDelayPfb::from_lowpass(2, 3, &lowpass)
}

#[test]
fn bank_reports_its_shape() {
    let pfb = small_bank();
    assert_eq!(pfb.num_phases(), 2);
    assert_eq!(pfb.taps_per_phase(), 3);
    assert_eq!(pfb.group_delay(), 1);
}

#[test]
fn branches_weigh_the_newest_sample_first() {
    let pfb = small_bank();
    let window = [s(1), s(10), s(100)];
    assert_eq!(pfb.interpolate(0, &window), s(10 + 60 + 200));
    assert_eq!(pfb.interpolate(1, &window), s(80 + 400));
    assert_eq!(pfb.derivative(0, &window), s(-8 + 40 + 400));
    assert_eq!(pfb.derivative(1, &window), s(40 + 400));
}

#[test]
fn complex_windows_are_filtered_part_by_part() {
    let pfb = small_bank();
    let window = [c(1, 0), c(0, 10), c(100, -1)];
    let out = pfb.interpolate(0, &window);
    assert_eq!((out.re, out.im), (s(10 + 200), s(60 - 2)));
}

/// Every coefficient reaches the output through exactly one branch and tap.
#[test]
fn branches_split_every_coefficient() {
    let pfb = small_bank();
    let mut seen = Vec::new();
    for tap in (0..3).rev() {
        for phase in 0..2 {
            let mut window = [s(0); 3];
            window[tap] = s(1);
            seen.push(pfb.interpolate(phase, &window));
        }
    }
    assert_eq!(seen, [s(2), s(4), s(6), s(8), s(10), s(0)]);
}

#[test]
fn ring_is_read_in_place() {
    let pfb = small_bank();
    let ring = [s(100), s(7), s(7), s(1), s(10)];
    assert_eq!(pfb.interpolate_ring(0, &ring, 8), pfb.interpolate(0, &[s(1), s(10), s(100)]));
    assert_eq!(pfb.derivative_ring(1, &ring, 3), pfb.derivative(1, &[s(1), s(10), s(100)]));
}

#[test]
fn cutoff_is_half_a_cycle_over_all_branches() {
    assert_eq!(FractionalDelayPfb::<Sixteenth>::cutoff(4), Sixteenth(2));
}

/// A design that asks for as many coefficients as the attenuation says, all
/// of them the shape parameter.
struct Flat;

impl LowpassDesign<Sixteenth> for Flat {
    fn kaiser_order(stopband_atten: Sixteenth, transition_width: Sixteenth) -> (usize, Sixteenth) {
        ((stopband_atten.0 / 16) as usize, transition_width)
    }
    fn lowpass_with_beta(length: usize, beta: Sixteenth, cutoff: Sixteenth) -> Vec<Sixteenth> {
        assert_eq!(beta, cutoff);
        vec![beta; length]
    }
}

/// A design whose low-pass is one coefficient short.
struct Short;

impl LowpassDesign<Sixteenth> for Short {
    fn kaiser_order(_stopband_atten: Sixteenth, _width: Sixteenth) -> (usize, Sixteenth) {
        (10, s(1))
    }
    fn lowpass_with_beta(length: usize, beta: Sixteenth, _cutoff: Sixteenth) -> Vec<Sixteenth> {
        vec![beta; length - 1]
    }
}

/// A design that asks for more than can be indexed.
struct Endless;

impl LowpassDesign<Sixteenth> for Endless {
    fn kaiser_order(_stopband_atten: Sixteenth, _width: Sixteenth) -> (usize, Sixteenth) {
        (usize::MAX, s(1))
    }
    fn lowpass_with_beta(_length: usize, _beta: Sixteenth, _cutoff: Sixteenth) -> Vec<Sixteenth> {
        Vec::new()
    }
}

/// Two branches have a cutoff of a quarter, so every coefficient is a quarter,
/// and a half after the gain of two.
#[test]
fn designed_bank_is_made_of_the_design() {
    let pfb = FractionalDelayPfb::new::<Flat>(2, s(3)).unwrap();
    assert_eq!(pfb.taps_per_phase(), 3);
    assert_eq!(pfb.interpolate(0, &[s(2), s(4), s(8)]), s(1 + 2 + 4));
    assert_eq!(pfb.interpolate(1, &[s(2), s(4), s(8)]), s(2 + 4));
}

#[test]
fn design_of_fewer_than_two_taps_is_refused() {
    let bank = FractionalDelayPfb::new::<Flat>(2, s(1));
    assert!(matches!(bank, Err(DesignError::TooFewTaps)));
}

#[test]
fn design_of_the_wrong_length_is_refused() {
    let bank = FractionalDelayPfb::new::<Short>(2, s(3));
    assert!(matches!(bank, Err(DesignError::WrongLength)));
}

#[test]
fn design_beyond_every_index_is_refused() {
    let bank = FractionalDelayPfb::new::<Endless>(2, s(3));
    assert!(matches!(bank, Err(DesignError::TooManyTaps)));
}

#[test]
fn synchronizer_without_an_interpolator_is_refused() {
    let made = SymbolSynchronizer::<Gardner<Sixteenth>, Gentle, Sixteenth>::new::<Short>(
        4,
        s(10),
        s(1),
        s(1),
    );
    assert!(matches!(made, Err(DesignError::WrongLength)));
}

/// The timing interpolator is designed with 32 branches for 60 dB: a flat
/// design of 60 coefficients has three taps per branch.
#[test]
fn timing_interpolator_has_the_designed_window() {
    let made = SymbolSynchronizer::<Gardner<Sixteenth>, Gentle, Sixteenth>::new::<Flat>(
        4,
        s(10),
        s(1),
        s(1),
    )
    .unwrap();
    assert_eq!(made.group_delay(), 1);
}

#[test]
fn gardner_reports_on_every_decision_after_the_first() {
    let mut ted: Gardner<Sixteenth> = Gardner::default();
    let strobes = [c(1, 2), c(3, -1), c(4, 0), c(-2, 5), c(0, 1), c(1, 1), c(2, 2)];
    let mut errors = Vec::new();
    for strobe in strobes {
        errors.push(ted.consume_strobe(strobe, None));
    }
    assert_eq!(
        errors,
        [
            None,
            None,
            Some(s(3 * 3 + 2)),
            None,
            Some(s(8 + 5)),
            None,
            Some(s(2 + 1)),
        ]
    );
    ted.reset();
    assert_eq!(ted.consume_strobe(c(1, 0), None), None);
    assert_eq!(ted.consume_strobe(c(1, 0), None), None);
    assert_eq!(ted.apply_feedback(c(1, 0), c(1, 0)), None);
    assert_eq!(ted.consume_strobe(c(5, 0), None), Some(s(4)));
}

#[test]
fn maximum_likelihood_divides_by_its_gain() {
    let mut ted = MaximumLikelihood::with_gain(s(2));
    assert_eq!(ted.apply_feedback(c(9, 9), c(1, 3)), None);
    assert_eq!(ted.consume_strobe(c(9, 9), Some(c(4, 2))), None);
    assert_eq!(ted.apply_feedback(c(9, 9), c(1, 3)), Some(s(-5)));
    assert_eq!(ted.apply_feedback(c(9, 9), c(1, 3)), Some(s(-5)));
    assert_eq!(ted.consume_strobe(c(9, 9), None), None);
    assert_eq!(ted.apply_feedback(c(9, 9), c(1, 3)), None);
}

/// With three for pi: `|-9 (1 + 3) / 3 + 8|`.
#[test]
fn detector_gain_of_full_rolloff_in_whole_numbers() {
    assert_eq!(MaximumLikelihood::detector_gain(s(1)), s(4));
}

#[test]
fn mueller_muller_compares_consecutive_pairs() {
    let mut ted: MuellerMuller<Sixteenth> = MuellerMuller::default();
    assert_eq!(ted.consume_strobe(c(5, 5), Some(c(5, 5))), None);
    assert_eq!(ted.apply_feedback(c(1, 2), c(3, 4)), None);
    // Re{conj(7 + 8i)(1 + 2i)} - Re{conj(3 + 4i)(5 + 6i)} = 23 - 39.
    assert_eq!(ted.apply_feedback(c(5, 6), c(7, 8)), Some(s(-16)));
    ted.reset();
    assert_eq!(ted.apply_feedback(c(5, 6), c(7, 8)), None);
}

#[test]
fn carrier_adds_up_the_corrections() {
    let mut carrier = CarrierSynchronizer::<Running, _>::new(s(1), s(1));
    let fresh = carrier.derotate(c(3, 4));
    assert_eq!((fresh.re, fresh.im), (s(3), s(4)));
    // Corrections of one and two quarter turns.
    carrier.advance(s(1));
    let once = carrier.derotate(c(3, 4));
    assert_eq!((once.re, once.im), (s(4), s(-3)));
    carrier.advance(s(1));
    let twice = carrier.derotate(c(3, 4));
    assert_eq!((twice.re, twice.im), (s(-4), s(3)));
    carrier.reset(s(1), s(1));
    let reset = carrier.derotate(c(3, 4));
    assert_eq!((reset.re, reset.im), (s(3), s(4)));
}

/// An interpolator of four branches and three taps, whose prototype is a
/// triangle: it interpolates linearly between two samples.
fn linear_bank() -> FractionalDelayPfb<Sixteenth> {
    let lowpass: Vec<Sixteenth> =
        [0, 1, 2, 3, 4, 3, 2, 1, 0].iter().map(|&n| Sixteenth(n)).collect();
    FractionalDelayPfb::from_lowpass(4, 9, &lowpass)
}

fn linear<D: TimingErrorDetector<Sixteenth>>(
    sps: usize,
    start: Sixteenth,
    detector: D,
) -> SymbolSynchronizer<D, Gentle, Sixteenth> {
    SymbolSynchronizer::with_interpolator(sps, start, s(1), s(1), linear_bank(), detector)
}

/// Every fourth sample from 5.25 on, read off a ramp of 16 per sample.
#[test]
fn symbols_are_interpolated_a_period_apart() {
    let mut sync = linear(4, Sixteenth(84), MuellerMuller::default());
    assert_eq!(sync.group_delay(), 1);
    let mut symbols = Vec::new();
    for n in 0..20 {
        sync.push(c(16 * n, 0));
        while let Some(symbol) = sync.next_symbol() {
            symbols.push((n, symbol.re));
        }
    }
    let expected: Vec<(i64, Sixteenth)> = (0..4).map(|k| (6 + 4 * k, s(84 + 64 * k))).collect();
    assert_eq!(symbols, expected);
    assert_eq!(sync.fractional_offset(), Sixteenth(4));
}

/// The nearest branch is at most the last one: 5.9375 rounds to branch four.
#[test]
fn nearest_branch_is_at_most_the_last() {
    let mut sync = linear(4, Sixteenth(95), MuellerMuller::default());
    for n in 0..8 {
        sync.push(c(16 * n, 0));
    }
    assert_eq!(sync.next_symbol().unwrap().re, s(80 + 12));
}

/// The Gardner strobes at 4.25 and 6.25 prime the first symbol at 8.25, which
/// is corrected by a sixteenth of `mid * (current - previous)`.
#[test]
fn gardner_steers_from_the_first_symbol_on() {
    let mut sync = linear(4, Sixteenth(132), Gardner::default());
    let mut offsets = Vec::new();
    for n in 0..16 {
        sync.push(c([0, 0, 0, 0, 0, 0, 1, 1, 2, 2, 2, 2, 2, 2, 2, 2][n], 0));
        while let Some(symbol) = sync.next_symbol() {
            offsets.push((n, symbol.re, sync.fractional_offset()));
        }
    }
    // Previous 0, mid 1, current 2: the error is 2, the correction an eighth.
    assert_eq!(offsets[0], (9, s(2), Sixteenth(2)));
    // Previous, mid and current all 2: no error.
    assert_eq!(offsets[1], (13, s(2), Sixteenth(2)));
}

/// The first pair seeds, the second steers: the error of -1 moves the next
/// strobe a sixteenth of a sample on.
#[test]
fn feedback_steers_from_the_second_pair_on() {
    let mut sync = linear(4, Sixteenth(84), MuellerMuller::default());
    sync.apply_feedback(c(1, 0), c(1, 0));
    assert_eq!(sync.fractional_offset(), Sixteenth(4));
    sync.apply_feedback(c(2, 0), c(1, 0));
    assert_eq!(sync.fractional_offset(), Sixteenth(5));
}

/// The feedback for a symbol uses the derivative at that symbol's strobe: a
/// ramp that rises by 2 per sample and a reference of 1 give an error of -2.
#[test]
fn maximum_likelihood_feedback_uses_the_strobe_derivative() {
    let mut sync = linear(4, Sixteenth(84), MaximumLikelihood::default());
    for n in 0..8 {
        sync.push(c(2 * n, 0));
    }
    let symbol = sync.next_symbol().unwrap();
    assert_eq!(sync.fractional_offset(), Sixteenth(4));
    sync.apply_feedback(symbol, c(1, 0));
    assert_eq!(sync.fractional_offset(), Sixteenth(6));
}

/// Two samples may follow a window before the ring, five slots here, overtakes
/// it: then sample 9 stands in the slot of sample 4.
#[test]
fn window_survives_two_more_samples() {
    for (extra, expected) in [(0, 40 + 30 + 12), (1, 82), (2, 82), (3, 90 + 30 + 12)] {
        let detector: MuellerMuller<Sixteenth> = MuellerMuller::default();
        let mut sync: SymbolSynchronizer<_, Gentle, _> =
            SymbolSynchronizer::with_interpolator(4, s(5), s(1), s(1), small_bank(), detector);
        for n in 0..7 + extra {
            sync.push(c(n, 0));
        }
        assert_eq!(sync.next_symbol().unwrap().re, s(expected));
    }
}

#[test]
fn strobe_without_an_index_is_refused_and_stays() {
    let mut sync = linear(4, s(1001), Gardner::default());
    assert!(matches!(sync.try_next_symbol(), Ok(None)));
    let mut beyond = linear(4, s(2000), Gardner::default());
    assert!(matches!(beyond.try_next_symbol(), Err(StrobeError::PositionOutOfRange)));
    assert!(matches!(beyond.try_next_symbol(), Err(StrobeError::PositionOutOfRange)));
    beyond.reset(s(1), s(1), s(1));
    assert!(matches!(beyond.try_next_symbol(), Ok(None)));
}

/// A number type that cannot tell a fraction: everything below a thousand
/// rounds down to one, so the branch of a late strobe has no index.
#[derive(Clone, Copy, Debug)]
struct Coarse(i64);

impl Real for Coarse {
    fn zero() -> Self {
        Coarse(0)
    }
    fn one() -> Self {
        Coarse(1)
    }
    fn from_index(index: usize) -> Self {
        Coarse(index as i64)
    }
    fn plus(self, rhs: Self) -> Self {
        Coarse(self.0 + rhs.0)
    }
    fn minus(self, rhs: Self) -> Self {
        Coarse(self.0 - rhs.0)
    }
    fn times(self, rhs: Self) -> Self {
        Coarse(self.0 * rhs.0)
    }
    fn over(self, rhs: Self) -> Self {
        Coarse(self.0 / rhs.0)
    }
    fn negated(self) -> Self {
        Coarse(-self.0)
    }
    fn magnitude(self) -> Self {
        Coarse(self.0.abs())
    }
    fn larger(self, other: Self) -> Self {
        Coarse(self.0.max(other.0))
    }
    fn floor(self) -> Self {
        Coarse(1)
    }
    fn round(self) -> Self {
        self
    }
    fn to_index(self) -> Option<usize> {
        if self.0 < 1000 {
            usize::try_from(self.0).ok()
        } else {
            None
        }
    }
    fn is_finite(self) -> bool {
        true
    }
    fn above(self, other: Self) -> bool {
        self.0 > other.0
    }
    fn at_most(self, other: Self) -> bool {
        self.0 <= other.0
    }
    fn cos(self) -> Self {
        Coarse(1)
    }
    fn sin(self) -> Self {
        Coarse(0)
    }
}

impl LoopFilter<Coarse> for Gentle {
    fn new(_loop_bandwidth: Coarse, _damping: Coarse) -> Self {
        Gentle
    }
    fn update(&self, error: Coarse) -> (Self, Coarse) {
        (Gentle, error)
    }
}

#[test]
fn strobe_without_a_branch_is_refused() {
    let lowpass = vec![Coarse(1); 9];
    let pfb = FractionalDelayPfb::from_lowpass(4, 9, &lowpass);
    let detector: MuellerMuller<Coarse> = MuellerMuller::default();
    let mut sync: SymbolSynchronizer<_, Gentle, Coarse> = SymbolSynchronizer::with_interpolator(
        4,
        Coarse(900),
        Coarse(1),
        Coarse(1),
        pfb,
        detector,
    );
    assert!(matches!(sync.try_next_symbol(), Ok(None)));
    for n in 0..3 {
        sync.push(Complex { re: Coarse(n), im: Coarse(0) });
    }
    assert!(matches!(sync.try_next_symbol(), Err(StrobeError::PhaseOutOfRange)));
}

/// Polling again without a sample between changes nothing.
#[test]
fn polling_again_has_no_effect() {
    let mut polled = linear(4, Sixteenth(84), Gardner::default());
    let mut plain = linear(4, Sixteenth(84), Gardner::default());
    for n in 0..30 {
        polled.push(c(n % 7, n % 3));
        plain.push(c(n % 7, n % 3));
        let mut symbols = Vec::new();
        while let Some(symbol) = polled.next_symbol() {
            symbols.push((symbol.re, symbol.im));
        }
        for _ in 0..5 {
            assert!(polled.next_symbol().is_none());
        }
        let mut others = Vec::new();
        while let Some(symbol) = plain.next_symbol() {
            others.push((symbol.re, symbol.im));
        }
        assert_eq!(symbols, others);
        assert_eq!(polled.fractional_offset(), plain.fractional_offset());
    }
}

/// The real parts of the strobes that a detector was given, and whether each
/// came with a derivative.
type Log = Rc<RefCell<Vec<(Sixteenth, bool)>>>;

/// A detector that takes `RATE` strobes per symbol and writes them down.
struct Recorder<const RATE: usize>(Log);

impl<const RATE: usize> TimingErrorDetector<Sixteenth> for Recorder<RATE> {
    const STROBE_RATE: usize = RATE;

    fn consume_strobe(
        &mut self,
        strobe: Complex<Sixteenth>,
        derivative: Option<Complex<Sixteenth>>,
    ) -> Option<Sixteenth> {
        self.0.borrow_mut().push((strobe.re, derivative.is_some()));
        None
    }

    fn apply_feedback(
        &mut self,
        _observed: Complex<Sixteenth>,
        _reference: Complex<Sixteenth>,
    ) -> Option<Sixteenth> {
        None
    }

    fn reset(&mut self) {
        self.0.borrow_mut().clear();
    }
}

/// Counts the strobes of a burst at each of its symbols, on a ramp.
fn strobes_at_symbols<const RATE: usize>() -> Vec<usize> {
    let log = Log::default();
    let mut sync = linear(4, s(9), Recorder::<RATE>(log.clone()));
    let mut counts = Vec::new();
    for n in 0..40 {
        sync.push(c(n, 0));
        while let Some(symbol) = sync.next_symbol() {
            let strobes = log.borrow();
            assert!(strobes.iter().all(|strobe| strobe.1));
            assert_eq!(strobes.last().unwrap().0, symbol.re);
            counts.push(strobes.len());
        }
    }
    counts
}

#[test]
fn strobes_keep_pace_with_the_symbols() {
    assert_eq!(strobes_at_symbols::<2>(), [3, 5, 7, 9, 11, 13, 15, 17]);
    assert_eq!(strobes_at_symbols::<1>(), [1, 2, 3, 4, 5, 6, 7, 8]);
}

/// Without feedback a data-aided loop stays open, whatever the samples are.
#[test]
fn open_loop_keeps_its_grid() {
    let mut sync = linear(3, Sixteenth(84), MaximumLikelihood::default());
    let mut times = Vec::new();
    for n in 0..20 {
        sync.push(c((n * n) % 11 - 5, n % 4));
        while sync.next_symbol().is_some() {
            times.push(n);
            assert_eq!(sync.fractional_offset(), Sixteenth(4));
        }
    }
    assert_eq!(times, [6, 9, 12, 15, 18]);
}

/// The order of two pairs, and which of a pair is the reference, each decide
/// the sign of the Mueller & Muller error.
#[test]
fn mueller_muller_error_is_antisymmetric() {
    let error = |first: (Complex<Sixteenth>, Complex<Sixteenth>),
                 second: (Complex<Sixteenth>, Complex<Sixteenth>)| {
        let mut ted: MuellerMuller<Sixteenth> = MuellerMuller::default();
        assert_eq!(ted.apply_feedback(first.0, first.1), None);
        ted.apply_feedback(second.0, second.1).unwrap()
    };
    let (a, b) = ((c(1, 2), c(3, 4)), (c(5, 6), c(7, 8)));
    assert_eq!(error(a, b), s(-16));
    assert_eq!(error(b, a), s(16));
    assert_eq!(error((a.1, a.0), (b.1, b.0)), s(16));
    assert_eq!(error((a.0, a.0), (b.0, b.0)), s(0));
}

/// A strobe that waits keeps a request from a later one that cannot be placed.
#[test]
fn waiting_strobe_comes_before_one_out_of_range() {
    let mut sync = linear(4, s(1001), Gardner::default());
    assert!(sync.next_symbol().is_none());
}

/// A strobe is read off the ramp to half a branch, an eighth of a sample; the
/// last branch serves up to the next sample.
#[test]
fn strobe_is_placed_to_half_a_branch() {
    for fraction in 0..16 {
        let mut sync = linear(4, Sixteenth(80 + fraction), MuellerMuller::default());
        for n in 0..8 {
            sync.push(c(16 * n, 0));
        }
        let read = sync.next_symbol().unwrap().re.0 / 16 - 80;
        let late = fraction - read;
        assert!(-2 <= late && late < 4, "fraction {fraction} read {read}");
        if read < 12 {
            assert!(late <= 2, "fraction {fraction} read {read}");
        }
    }
}

/// A bank of two branches, made of the symmetric low-pass 1, 2, 3, 2, 1.
fn symmetric_bank() -> FractionalDelayPfb<Sixteenth> {
    let lowpass = [s(1), s(2), s(3), s(2), s(1)];
    FractionalDelayPfb::from_lowpass(2, 3, &lowpass)
}

#[test]
fn first_branch_of_a_symmetric_lowpass_is_symmetric() {
    let pfb = symmetric_bank();
    let unit = |tap: usize| {
        let mut window = [s(0); 3];
        window[tap] = s(1);
        window
    };
    assert_eq!(pfb.interpolate(0, &unit(0)), pfb.interpolate(0, &unit(2)));
    assert_eq!(pfb.interpolate(0, &[s(1), s(10), s(100)]), s(262));
    assert_eq!(pfb.interpolate(0, &[s(100), s(10), s(1)]), s(262));
    // The other branch is not.
    assert_eq!(pfb.interpolate(1, &unit(0)), s(0));
    assert_eq!(pfb.interpolate(1, &unit(2)), s(4));
}

/// The triangle is a quarter at its centre, and zero four places from it.
#[test]
fn first_branch_of_a_triangle_is_a_delay() {
    let pfb = linear_bank();
    let window = [s(7), s(-5), s(30)];
    assert_eq!(pfb.interpolate(0, &window), window[pfb.group_delay()]);
}

/// The low-pass adds up to nine: two branches give eighteen times a constant
/// between them.
#[test]
fn branches_add_up_to_the_lowpass_gain() {
    let pfb = symmetric_bank();
    let flat = [s(3); 3];
    assert_eq!(pfb.interpolate(0, &flat), s(3 * (2 + 6 + 2)));
    assert_eq!(pfb.interpolate(1, &flat), s(3 * (4 + 4)));
    let sum = pfb.interpolate(0, &flat).plus(pfb.interpolate(1, &flat));
    assert_eq!(sum, s(3 * 2 * 9));
    // Of unit gain: the branches give the constant on average.
    let lowpass = [2, 4, 4, 4, 2].map(Sixteenth);
    let unit = FractionalDelayPfb::from_lowpass(2, 3, &lowpass);
    let sum = unit.interpolate(0, &flat).plus(unit.interpolate(1, &flat));
    assert_eq!(sum, s(2 * 3));
}

#[test]
fn constant_has_no_derivative() {
    let pfb = symmetric_bank();
    assert_eq!(pfb.derivative(0, &[s(3); 3]), s(0));
    assert_eq!(pfb.derivative(0, &[s(0), s(1), s(2)]), s(8));
}

/// A straight transition of slope `1 - 2i`, with decisions four apart.
#[test]
fn gardner_error_is_positive_when_late() {
    let at = |t: i64| c(t, -2 * t);
    for late in -2..=2 {
        let mut ted: Gardner<Sixteenth> = Gardner::default();
        assert_eq!(ted.consume_strobe(at(late - 2), None), None);
        assert_eq!(ted.consume_strobe(at(late), None), None);
        assert_eq!(ted.consume_strobe(at(late + 2), None), Some(s(late * 4 * 5)));
    }
}

/// After the peak the pulse falls: the derivative lies against the reference.
#[test]
fn maximum_likelihood_error_is_positive_after_the_peak() {
    for slope in [-3, 0, 3] {
        let mut ted = MaximumLikelihood::with_gain(s(5));
        assert_eq!(ted.consume_strobe(c(9, 9), Some(c(slope, 2 * slope))), None);
        assert_eq!(ted.apply_feedback(c(9, 9), c(1, 2)), Some(s(-slope)));
    }
}

/// A late strobe sees more of the next symbol than of the one before.
#[test]
fn mueller_muller_error_is_positive_when_late() {
    let (a, b) = ((1, 2), (-2, 1));
    let seen = |own: (i64, i64), share: i64, other: (i64, i64)| {
        c(5 * own.0 + share * other.0, 5 * own.1 + share * other.1)
    };
    for (ahead, behind) in [(2, 1), (1, 1), (0, 3)] {
        let mut ted: MuellerMuller<Sixteenth> = MuellerMuller::default();
        assert_eq!(ted.apply_feedback(seen(a, ahead, b), c(a.0, a.1)), None);
        let error = ted.apply_feedback(seen(b, behind, a), c(b.0, b.1));
        assert_eq!(error, Some(s(5 * (ahead - behind))));
    }
}

/// A sample that a carrier turned by a quarter comes back when the phase is a
/// quarter.
#[test]
fn derotation_undoes_the_carrier() {
    let mut carrier = CarrierSynchronizer::<Running, _>::new(s(1), s(1));
    let received = c(-4, 3);
    carrier.advance(s(1));
    let back = carrier.derotate(received);
    assert_eq!((back.re, back.im), (s(3), s(4)));
}
