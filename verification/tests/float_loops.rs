//! The loops on single-precision samples.

use num_complex::Complex32;
use tracking_loops::carrier::CarrierSynchronizer;
use tracking_loops::complex::Complex;
use tracking_loops::fractional_delay::FractionalDelayPfb;
use tracking_loops::loop_filter::LoopFilter;
use tracking_loops::lowpass::LowpassDesign;
use tracking_loops::number::{CircleConst, Real};
use tracking_loops::symbol_sync::{StrobeError, SymbolSynchronizer};
use tracking_loops::ted::{Gardner, MaximumLikelihood, MuellerMuller, TimingErrorDetector};

/// A single-precision number.
#[derive(Clone, Copy, Debug)]
struct Single(f32);

impl Real for Single {
    fn zero() -> Self {
        Single(0.0)
    }
    fn one() -> Self {
        Single(1.0)
    }
    fn from_index(index: usize) -> Self {
        Single(index as f32)
    }
    fn plus(self, rhs: Self) -> Self {
        Single(self.0 + rhs.0)
    }
    fn minus(self, rhs: Self) -> Self {
        Single(self.0 - rhs.0)
    }
    fn times(self, rhs: Self) -> Self {
        Single(self.0 * rhs.0)
    }
    fn over(self, rhs: Self) -> Self {
        Single(self.0 / rhs.0)
    }
    fn negated(self) -> Self {
        Single(-self.0)
    }
    fn magnitude(self) -> Self {
        Single(self.0.abs())
    }
    fn larger(self, other: Self) -> Self {
        Single(self.0.max(other.0))
    }
    fn floor(self) -> Self {
        Single(self.0.floor())
    }
    fn round(self) -> Self {
        Single(self.0.round())
    }
    fn to_index(self) -> Option<usize> {
        num_traits::ToPrimitive::to_usize(&self.0)
    }
    fn is_finite(self) -> bool {
        self.0.is_finite()
    }
    fn above(self, other: Self) -> bool {
        self.0 > other.0
    }
    fn at_most(self, other: Self) -> bool {
        self.0 <= other.0
    }
    fn cos(self) -> Self {
        Single(self.0.cos())
    }
    fn sin(self) -> Self {
        Single(self.0.sin())
    }
}

impl CircleConst for Single {
    fn pi() -> Self {
        Single(core::f32::consts::PI)
    }
}

/// A proportional-plus-integral loop filter.
#[derive(Clone, Copy, Debug)]
struct SecondOrder {
    proportional: f32,
    integral: f32,
    integrator: f32,
}

impl LoopFilter<Single> for SecondOrder {
    fn new(loop_bandwidth: Single, damping: Single) -> Self {
        let theta = loop_bandwidth.0 / (damping.0 + 0.25 / damping.0);
        let scale = 1.0 + 2.0 * damping.0 * theta + theta * theta;
        SecondOrder {
            proportional: 4.0 * damping.0 * theta / scale,
            integral: 4.0 * theta * theta / scale,
            integrator: 0.0,
        }
    }

    fn update(&self, error: Single) -> (Self, Single) {
        let integrator = self.integrator + self.integral * error.0;
        let correction = self.proportional * error.0 + integrator;
        (SecondOrder { integrator, ..*self }, Single(correction))
    }
}

/// A filter that hands every error on as the correction.
#[derive(Clone, Copy, Debug)]
struct Direct;

impl LoopFilter<Single> for Direct {
    fn new(_loop_bandwidth: Single, _damping: Single) -> Self {
        Direct
    }

    fn update(&self, error: Single) -> (Self, Single) {
        (Direct, error)
    }
}

fn c(re: f32, im: f32) -> Complex<Single> {
    Complex { re: Single(re), im: Single(im) }
}

fn to_library(z: Complex32) -> Complex<Single> {
    c(z.re, z.im)
}

fn from_library(z: Complex<Single>) -> Complex32 {
    Complex32::new(z.re.0, z.im.0)
}

fn error_of(error: Option<Single>) -> f32 {
    error.map_or(f32::NAN, |e| e.0)
}

/// Modified Bessel function of the first kind, order zero.
fn bessel_i0(x: f64) -> f64 {
    let mut term = 1.0;
    let mut sum = 1.0;
    for k in 1..60 {
        let ratio = x / (2.0 * f64::from(k));
        term *= ratio * ratio;
        sum += term;
    }
    sum
}

/// The Kaiser-window design.
struct Kaiser;

impl LowpassDesign<Single> for Kaiser {
    fn kaiser_order(stopband_atten: Single, transition_width: Single) -> (usize, Single) {
        let attenuation = f64::from(stopband_atten.0);
        let width = f64::from(transition_width.0);
        let num_taps = ((attenuation - 7.95) / (14.36 * width)).ceil() as usize + 1;
        (num_taps, Single((0.1102 * (attenuation - 8.7)) as f32))
    }

    fn lowpass_with_beta(length: usize, beta: Single, cutoff: Single) -> Vec<Single> {
        let beta = f64::from(beta.0);
        let centre = (length - 1) as f64 / 2.0;
        let raw: Vec<f64> = (0..length)
            .map(|n| {
                let t = n as f64 - centre;
                let x = core::f64::consts::PI * 2.0 * f64::from(cutoff.0) * t;
                let sinc = if t == 0.0 { 1.0 } else { x.sin() / x };
                let r = t / centre;
                sinc * bessel_i0(beta * (1.0 - r * r).max(0.0).sqrt())
            })
            .collect();
        let sum: f64 = raw.iter().sum();
        raw.iter().map(|h| Single((h / sum) as f32)).collect()
    }
}

fn bank(num_phases: usize, attenuation: f32) -> FractionalDelayPfb<Single> {
    FractionalDelayPfb::new::<Kaiser>(num_phases, Single(attenuation)).unwrap()
}

fn constant(value: f32, count: usize) -> Vec<Single> {
    vec![Single(value); count]
}

/// Phase 0 is an integer delay, so a constant window returns that constant
/// (unit passband gain).
#[test]
fn phase_zero_passes_a_constant() {
    let pfb = bank(32, 60.0);
    let window = constant(2.5, pfb.taps_per_phase());
    let out = pfb.interpolate(0, &window).0;
    assert!((out - 2.5).abs() < 1e-3, "got {out}");
}

/// Every phase has unit DC gain, so a constant window is preserved at any
/// fractional offset.
#[test]
fn all_phases_preserve_dc() {
    let pfb = bank(32, 60.0);
    let window = constant(1.0, pfb.taps_per_phase());
    for phase in 0..pfb.num_phases() {
        let out = pfb.interpolate(phase, &window).0;
        assert!((out - 1.0).abs() < 1e-2, "phase {phase} got {out}");
    }
}

/// On a linear ramp the derivative bank reports the slope per input sample
/// (within the truncated-window bias), and DC has zero derivative.
#[test]
fn derivative_reports_the_ramp_slope() {
    let pfb = bank(32, 60.0);
    let ramp: Vec<Single> = (0..pfb.taps_per_phase()).map(|k| Single(k as f32)).collect();
    let slope = pfb.derivative(0, &ramp).0;
    assert!((slope - 1.0).abs() < 0.05, "got {slope}");
    let flat = constant(3.0, pfb.taps_per_phase());
    let zero = pfb.derivative(0, &flat).0;
    assert!(zero.abs() < 1e-2, "got {zero}");
}

/// Branch `q` reads a ramp `q / num_phases` of a sample past the centre of the
/// window.
#[test]
fn branches_are_sub_sample_delays() {
    let pfb = bank(32, 60.0);
    let ramp: Vec<Single> = (0..pfb.taps_per_phase()).map(|k| Single(k as f32)).collect();
    for phase in 0..pfb.num_phases() {
        let out = pfb.interpolate(phase, &ramp).0;
        let expected = pfb.group_delay() as f32 + phase as f32 / 32.0;
        assert!((out - expected).abs() < 0.1, "phase {phase} got {out}");
    }
}

#[test]
fn derotation_tracks_a_constant_phase_offset() {
    let offset = 0.5_f32;
    let mut synchronizer = CarrierSynchronizer::<SecondOrder, _>::new(Single(0.05), Single(0.707));
    let reference = Complex32::new(1.0_f32, 0.0);
    let mut residual = f32::NAN;
    for _ in 0..200 {
        let received = reference * Complex32::cis(offset);
        let derotated = from_library(synchronizer.derotate(to_library(received)));
        residual = (derotated * reference.conj()).arg();
        synchronizer.advance(Single(residual));
    }
    assert!(residual.abs() <= 1e-3, "got {residual}");
}

#[test]
fn reset_restores_the_zero_phase() {
    let mut synchronizer = CarrierSynchronizer::<SecondOrder, _>::new(Single(0.05), Single(0.707));
    synchronizer.advance(Single(1.0));
    synchronizer.advance(Single(1.0));
    synchronizer.reset(Single(0.05), Single(0.707));
    let sample = Complex32::new(0.0_f32, 1.0);
    let derotated = from_library(synchronizer.derotate(to_library(sample)));
    assert!((derotated.re - sample.re).abs() <= 1e-6);
    assert!((derotated.im - sample.im).abs() <= 1e-6);
}

/// The sample is turned back by the phase estimate.
#[test]
fn derotation_turns_back_by_the_phase_estimate() {
    let mut synchronizer = CarrierSynchronizer::<Direct, _>::new(Single(0.05), Single(0.707));
    synchronizer.advance(Single(core::f32::consts::FRAC_PI_2));
    let derotated = from_library(synchronizer.derotate(c(0.0, 1.0)));
    assert!((derotated.re - 1.0).abs() < 1e-6, "got {derotated}");
    assert!(derotated.im.abs() < 1e-6, "got {derotated}");
}

#[test]
fn gardner_computes_error_from_mid_and_decision_strobes() {
    let mut ted: Gardner<Single> = Gardner::default();
    assert!(ted.consume_strobe(c(1.0, 0.0), None).is_none());
    assert!(ted.consume_strobe(c(0.5, 0.0), None).is_none());
    let error = error_of(ted.consume_strobe(c(3.0, 0.0), None));
    assert!((error - 1.0).abs() <= 1e-6, "got {error}");
}

#[test]
fn maximum_likelihood_reports_positive_when_late() {
    let mut ted: MaximumLikelihood<Single> = MaximumLikelihood::default();
    assert!(ted.consume_strobe(c(1.0, 0.0), Some(c(2.0, 1.0))).is_none());
    // A positive derivative (rising pulse, early strobe) yields a negative error.
    let error = error_of(ted.apply_feedback(c(2.0, 0.0), c(1.0, 0.0)));
    assert!((error - -2.0).abs() <= 1e-6, "got {error}");
}

#[test]
fn maximum_likelihood_detector_gain_is_positive() {
    assert!(MaximumLikelihood::detector_gain(Single(0.35_f32)).0 > 0.0);
}

/// `|-pi^2 (1 + 3 r^2) / 3 + 8 r^2|` at `r = 1` is `4 pi^2 / 3 - 8`.
#[test]
fn maximum_likelihood_detector_gain_at_full_rolloff() {
    let pi = core::f32::consts::PI;
    let gain = MaximumLikelihood::detector_gain(Single(1.0)).0;
    assert!((gain - (4.0 * pi * pi / 3.0 - 8.0)).abs() < 1e-5, "got {gain}");
}

#[test]
fn mueller_muller_needs_two_symbols() {
    let mut ted: MuellerMuller<Single> = MuellerMuller::default();
    assert!(ted.apply_feedback(c(1.0, 0.0), c(1.0, 0.0)).is_none());
    let error = error_of(ted.apply_feedback(c(2.0, 0.0), c(1.0, 0.0)));
    assert!((error - -1.0).abs() <= 1e-6, "got {error}");
}

#[test]
fn reset_clears_history_and_keeps_configuration() {
    let mut ted = MaximumLikelihood::with_gain(Single(2.0_f32));
    assert!(ted.consume_strobe(c(1.0, 0.0), Some(c(2.0, 0.0))).is_none());
    ted.reset();
    // No derivative after reset, and the gain still divides the next error.
    assert!(ted.apply_feedback(c(1.0, 0.0), c(1.0, 0.0)).is_none());
    assert!(ted.consume_strobe(c(1.0, 0.0), Some(c(2.0, 0.0))).is_none());
    let error = error_of(ted.apply_feedback(c(1.0, 0.0), c(1.0, 0.0)));
    assert!((error - -1.0).abs() <= 1e-6, "got {error}");
}

/// A known unit-magnitude QPSK symbol stream of `count` symbols.
fn qpsk_symbols(count: usize) -> Vec<Complex32> {
    (0..count)
        .map(|k| match k % 4 {
            0 => Complex32::new(1.0, 0.0),
            1 => Complex32::new(0.0, 1.0),
            2 => Complex32::new(-1.0, 0.0),
            _ => Complex32::new(0.0, -1.0),
        })
        .collect()
}

/// Unit-energy root-raised-cosine coefficients over `span` symbols.
fn root_raised_cosine(span: usize, sps: usize, rolloff: f32) -> Vec<f32> {
    let pi = core::f64::consts::PI;
    let beta = f64::from(rolloff);
    let length = span * sps + 1;
    let raw: Vec<f64> = (0..length)
        .map(|n| {
            let t = (n as f64 - (length - 1) as f64 / 2.0) / sps as f64;
            let edge = 1.0 - (4.0 * beta * t).powi(2);
            if t == 0.0 {
                1.0 - beta + 4.0 * beta / pi
            } else if edge.abs() < 1e-9 {
                let angle = pi / (4.0 * beta);
                beta / core::f64::consts::SQRT_2
                    * ((1.0 + 2.0 / pi) * angle.sin() + (1.0 - 2.0 / pi) * angle.cos())
            } else {
                ((pi * t * (1.0 - beta)).sin()
                    + 4.0 * beta * t * (pi * t * (1.0 + beta)).cos())
                    / (pi * t * edge)
            }
        })
        .collect();
    let energy: f64 = raw.iter().map(|h| h * h).sum();
    raw.iter().map(|h| (h / energy.sqrt()) as f32).collect()
}

/// Shapes a QPSK stream with a root-raised-cosine pulse and matched-filters
/// it so symbol `k` lands at matched index `k * sps`.
fn matched_qpsk(symbols: &[Complex32], span: usize, sps: usize, rolloff: f32) -> Vec<Complex32> {
    let taps = root_raised_cosine(span, sps, rolloff);
    let upsampled_len = symbols.len() * sps + taps.len() - 1;
    let mut shaped = vec![Complex32::new(0.0, 0.0); upsampled_len];
    for (index, &symbol) in symbols.iter().enumerate() {
        for (offset, &tap) in taps.iter().enumerate() {
            shaped[index * sps + offset] += symbol * tap;
        }
    }
    let mut matched = vec![Complex32::new(0.0, 0.0); shaped.len() - taps.len() + 1];
    for (index, out) in matched.iter_mut().enumerate() {
        *out = shaped[index..index + taps.len()]
            .iter()
            .zip(taps.iter().rev())
            .map(|(&sample, &tap)| sample * tap)
            .sum();
    }
    // Drop the lead-in of the cascade: a whole number of periods of the symbol
    // pattern, so that symbol `k` sits at index `k * sps`.
    matched.drain(..taps.len() - 1);
    matched
}

/// Runs a synchronizer over the stream, feeding data-aided references when
/// `data_aided` is set, and asserts the recovered symbols converge.
fn assert_pulls_in<D>(data_aided: bool)
where
    D: TimingErrorDetector<Single> + Default,
{
    let sps = 8;
    let symbols = qpsk_symbols(40);
    let matched = matched_qpsk(&symbols, 8, sps, 0.35);

    // Start several symbols in, deliberately off by 0.35 samples.
    let first = 6;
    let start = (first * sps) as f32 + 0.35;
    let mut synchronizer = SymbolSynchronizer::<D, SecondOrder, _>::new::<Kaiser>(
        sps,
        Single(start),
        Single(0.05),
        Single(core::f32::consts::FRAC_1_SQRT_2),
    )
    .unwrap();
    let mut recovered = Vec::with_capacity(24);
    for &sample in &matched {
        synchronizer.push(to_library(sample));
        while let Some(symbol) = synchronizer.next_symbol() {
            if recovered.len() < 24 {
                if data_aided {
                    let reference = symbols[first + recovered.len()];
                    synchronizer.apply_feedback(symbol, to_library(reference));
                }
                recovered.push(from_library(symbol));
            }
        }
    }
    assert_eq!(recovered.len(), 24, "expected 24 recovered symbols");

    // After the loop locks (skip the first few symbols), each strobe must
    // match its symbol within the truncated-RRC inter-symbol residual.
    for (index, strobe) in recovered.iter().enumerate().skip(6) {
        let expected = symbols[first + index];
        assert!(
            (strobe - expected).norm() < 0.15,
            "symbol {index} = {strobe} differs from {expected}"
        );
    }
}

#[test]
fn gardner_loop_pulls_in_a_fractional_timing_offset() {
    assert_pulls_in::<Gardner<Single>>(false);
}

#[test]
fn maximum_likelihood_loop_pulls_in_a_fractional_timing_offset() {
    assert_pulls_in::<MaximumLikelihood<Single>>(true);
}

#[test]
fn mueller_muller_loop_pulls_in_a_fractional_timing_offset() {
    assert_pulls_in::<MuellerMuller<Single>>(true);
}

fn synchronizer<D>(sps: usize, start: f32) -> SymbolSynchronizer<D, SecondOrder, Single>
where
    D: TimingErrorDetector<Single> + Default,
{
    SymbolSynchronizer::new::<Kaiser>(sps, Single(start), Single(0.05), Single(0.707)).unwrap()
}

#[test]
fn fractional_offset_is_the_sub_sample_part_of_the_position() {
    let fresh = synchronizer::<Gardner<Single>>(8, 48.25);
    assert_eq!(fresh.fractional_offset().0, 0.25);
}

/// Just below a whole number the distance from the floor rounds to one, which
/// is no offset.
#[test]
fn fractional_offset_is_below_one() {
    for start in [-1e-9_f32, -1e-30, 7.999_999_5, 0.0, -0.25] {
        let offset = synchronizer::<Gardner<Single>>(8, start).fractional_offset().0;
        assert!((0.0..1.0).contains(&offset), "{start} gives {offset}");
    }
    assert_eq!(synchronizer::<Gardner<Single>>(8, -1e-9).fractional_offset().0, 0.0);
    assert_eq!(synchronizer::<Gardner<Single>>(8, -0.25).fractional_offset().0, 0.75);
    assert!(synchronizer::<Gardner<Single>>(8, f32::NAN).fractional_offset().0.is_nan());
}

#[test]
fn group_delay_is_half_a_window() {
    let pfb = bank(32, 60.0);
    let fresh = synchronizer::<Gardner<Single>>(8, 48.25);
    assert_eq!(fresh.group_delay(), pfb.group_delay());
    assert_eq!(2 * fresh.group_delay() + 1, pfb.taps_per_phase());
}

/// The first symbol comes with the sample that completes its window.
#[test]
fn first_symbol_comes_with_its_last_window_sample() {
    let mut sync = synchronizer::<MuellerMuller<Single>>(8, 20.0);
    let last = 20 + sync.group_delay();
    for index in 0..=last {
        assert!(sync.next_symbol().is_none(), "symbol before sample {index}");
        sync.push(c(index as f32, -(index as f32)));
    }
    let symbol = from_library(sync.next_symbol().unwrap());
    assert!((symbol.re - 20.0).abs() < 0.1, "got {symbol}");
    assert!((symbol.im + 20.0).abs() < 0.1, "got {symbol}");
    assert!(sync.next_symbol().is_none());
}

/// A start before sample zero reads the window of the first samples.
#[test]
fn early_strobe_is_clamped_to_the_first_window() {
    let mut sync = synchronizer::<MuellerMuller<Single>>(8, -3.0);
    let delay = sync.group_delay();
    for index in 0..=2 * delay {
        assert!(sync.next_symbol().is_none());
        sync.push(c(index as f32, 0.0));
    }
    let symbol = from_library(sync.next_symbol().unwrap());
    assert!((symbol.re - delay as f32).abs() < 0.1, "got {symbol}");
}

#[test]
fn position_beyond_every_index_is_an_error() {
    let mut sync = synchronizer::<MuellerMuller<Single>>(8, 1e30);
    sync.push(c(1.0, 0.0));
    let answer = sync.try_next_symbol();
    assert!(matches!(answer, Err(StrobeError::PositionOutOfRange)));
    let again = sync.try_next_symbol();
    assert!(matches!(again, Err(StrobeError::PositionOutOfRange)));
}

/// A burst after a reset is recovered as by a new synchronizer.
#[test]
fn reset_synchronizer_recovers_like_a_new_one() {
    let matched = matched_qpsk(&qpsk_symbols(28), 8, 8, 0.35);
    let mut used = synchronizer::<Gardner<Single>>(8, 33.0);
    for &sample in &matched {
        used.push(to_library(sample * 3.0));
        while used.next_symbol().is_some() {}
    }
    used.reset(Single(24.4), Single(0.05), Single(0.707));
    let mut fresh = synchronizer::<Gardner<Single>>(8, 24.4);
    let mut count = 0;
    for &sample in &matched {
        used.push(to_library(sample));
        fresh.push(to_library(sample));
        loop {
            match (used.next_symbol(), fresh.next_symbol()) {
                (Some(a), Some(b)) => {
                    assert_eq!(from_library(a), from_library(b));
                    count += 1;
                }
                (None, None) => break,
                _ => panic!("one of the synchronizers is ahead"),
            }
        }
    }
    assert!(count > 10, "only {count} symbols");
}

/// Feedback changes nothing with a Gardner detector.
#[test]
fn gardner_loop_ignores_feedback() {
    let matched = matched_qpsk(&qpsk_symbols(28), 8, 8, 0.35);
    let mut plain = synchronizer::<Gardner<Single>>(8, 24.4);
    let mut fed = synchronizer::<Gardner<Single>>(8, 24.4);
    for &sample in &matched {
        plain.push(to_library(sample));
        fed.push(to_library(sample));
        loop {
            match (plain.next_symbol(), fed.next_symbol()) {
                (Some(a), Some(b)) => {
                    assert_eq!(from_library(a), from_library(b));
                    fed.apply_feedback(b, c(7.0, 7.0));
                    assert_eq!(plain.fractional_offset().0, fed.fractional_offset().0);
                }
                (None, None) => break,
                _ => panic!("one of the synchronizers is ahead"),
            }
        }
    }
}

/// Strobes alone steer a Gardner loop from the first symbol on, and do not
/// steer a data-aided one.
#[test]
fn only_non_data_aided_loops_steer_without_feedback() {
    let matched = matched_qpsk(&qpsk_symbols(28), 8, 8, 0.35);
    let mut gardner = synchronizer::<Gardner<Single>>(8, 24.5);
    let mut likelihood = synchronizer::<MaximumLikelihood<Single>>(8, 24.5);
    let mut mueller = synchronizer::<MuellerMuller<Single>>(8, 24.5);
    let mut symbols = 0;
    for &sample in &matched {
        gardner.push(to_library(sample));
        likelihood.push(to_library(sample));
        mueller.push(to_library(sample));
        while gardner.next_symbol().is_some() {
            symbols += 1;
            if symbols == 1 {
                assert!(gardner.fractional_offset().0 != 0.5);
            }
        }
        while likelihood.next_symbol().is_some() {
            assert_eq!(likelihood.fractional_offset().0, 0.5);
        }
        while mueller.next_symbol().is_some() {
            assert_eq!(mueller.fractional_offset().0, 0.5);
        }
    }
    assert!(symbols > 10, "only {symbols} symbols");
}

/// Turning every strobe by one phasor leaves the Gardner errors as they are;
/// a gain scales them by its square.
#[test]
fn gardner_tolerates_a_carrier_rotation() {
    let strobes = [c(1.0, 0.2), c(0.3, -0.1), c(-1.0, 0.1), c(0.1, 0.4), c(0.9, -0.7)];
    for (factor, gain) in [(Complex32::cis(0.7), 1.0), (Complex32::cis(-2.0) * 3.0, 9.0)] {
        let mut plain: Gardner<Single> = Gardner::default();
        let mut turned: Gardner<Single> = Gardner::default();
        for strobe in strobes {
            let error = plain.consume_strobe(strobe, None);
            let other = turned.consume_strobe(to_library(factor * from_library(strobe)), None);
            assert_eq!(error.is_some(), other.is_some());
            if error.is_some() {
                assert!((error_of(other) - gain * error_of(error)).abs() < 1e-5);
            }
        }
    }
}

/// Derotation keeps magnitudes and relative phases.
#[test]
fn derotation_keeps_magnitude_and_relative_phase() {
    let mut carrier = CarrierSynchronizer::<Direct, _>::new(Single(0.05), Single(0.707));
    carrier.advance(Single(1.3));
    let (x, y) = (Complex32::new(0.6, -0.8), Complex32::new(2.0, 1.0));
    let turned_x = from_library(carrier.derotate(to_library(x)));
    let turned_y = from_library(carrier.derotate(to_library(y)));
    assert!((turned_x.norm() - 1.0).abs() < 1e-6);
    assert!((turned_x * turned_y.conj() - x * y.conj()).norm() < 1e-5);
    assert_eq!(turned_x, from_library(carrier.derotate(to_library(x))));
}

/// Advancing by `u` turns the derotated sample by `-u`.
#[test]
fn advance_turns_the_derotated_sample() {
    let mut carrier = CarrierSynchronizer::<Direct, _>::new(Single(0.05), Single(0.707));
    carrier.advance(Single(0.4));
    let before = from_library(carrier.derotate(c(0.6, -0.8)));
    carrier.advance(Single(0.9));
    let after = from_library(carrier.derotate(c(0.6, -0.8)));
    assert!((after - before * Complex32::cis(-0.9)).norm() < 1e-6);
}

/// The derivative output is the scaled difference of the neighbouring
/// branches' outputs.
#[test]
fn derivative_is_the_central_difference_of_the_branches() {
    let pfb = bank(32, 60.0);
    let window: Vec<Single> =
        (0..pfb.taps_per_phase()).map(|k| Single((k as f32 * 0.8).sin())).collect();
    for phase in 2..=30 {
        let ahead = pfb.interpolate(phase + 1, &window).0;
        let behind = pfb.interpolate(phase - 1, &window).0;
        let slope = pfb.derivative(phase, &window).0;
        assert!((slope - 16.0 * (ahead - behind)).abs() < 1e-4, "phase {phase}");
    }
}

/// On every branch but the first, the oldest sample has no weight.
#[test]
fn oldest_sample_has_no_weight() {
    let pfb = bank(32, 60.0);
    let window: Vec<Single> = (0..pfb.taps_per_phase()).map(|k| Single(k as f32 - 2.5)).collect();
    let mut other = window.clone();
    other[0] = Single(1e6);
    for phase in 1..32 {
        assert_eq!(pfb.interpolate(phase, &window).0, pfb.interpolate(phase, &other).0);
        assert_eq!(pfb.derivative(phase, &window).0, pfb.derivative(phase, &other).0);
    }
}

/// The Mueller & Muller error of two pairs.
fn mueller_muller_error(
    first: (Complex<Single>, Complex<Single>),
    second: (Complex<Single>, Complex<Single>),
) -> f32 {
    let mut ted = MuellerMuller::default();
    assert!(ted.apply_feedback(first.0, first.1).is_none());
    error_of(ted.apply_feedback(second.0, second.1))
}

/// Rounding does not touch the signs of the Mueller & Muller error.
#[test]
fn rounded_mueller_muller_error_is_antisymmetric() {
    for k in 1..50 {
        let x = k as f32;
        let z = |n: f32| c((x * n).sin() / 3.0, (x * n).cos() / 7.0);
        let (a, b) = ((z(0.7), z(1.1)), (z(1.9), z(2.3)));
        let error = mueller_muller_error(a, b);
        assert_ne!(error, 0.0);
        assert_eq!(mueller_muller_error(b, a), -error);
        assert_eq!(mueller_muller_error((a.1, a.0), (b.1, b.0)), -error);
        assert_eq!(mueller_muller_error((a.0, a.0), (b.0, b.0)), 0.0);
    }
}

/// The gain is `pi^2 / 3 + (pi^2 - 8) rolloff^2`, and a detector takes it.
#[test]
fn detector_gain_is_positive_at_every_rolloff() {
    for k in 1..=100 {
        let rolloff = k as f32 / 100.0;
        let gain = MaximumLikelihood::detector_gain(Single(rolloff));
        let squared = core::f32::consts::PI * core::f32::consts::PI;
        let expected = squared / 3.0 + (squared - 8.0) * rolloff * rolloff;
        assert!((gain.0 - expected).abs() < 1e-5, "rolloff {rolloff} got {}", gain.0);
        let mut ted = MaximumLikelihood::with_gain(gain);
        assert!(ted.consume_strobe(c(1.0, 0.0), Some(c(-1.0, 0.0))).is_none());
        assert!(error_of(ted.apply_feedback(c(1.0, 0.0), c(1.0, 0.0))) > 0.0);
    }
}

/// The first branch of the designed bank reads the same from both ends, and
/// the branches give a constant on average.
#[test]
fn designed_bank_is_symmetric_and_of_unit_gain() {
    let pfb = bank(32, 60.0);
    let taps = pfb.taps_per_phase();
    let unit = |tap: usize| {
        let mut window = constant(0.0, taps);
        window[tap] = Single(1.0);
        pfb.interpolate(0, &window).0
    };
    for tap in 0..taps {
        assert_eq!(unit(tap), unit(taps - 1 - tap));
    }
    let flat = constant(2.0, taps);
    let sum: f32 = (0..32).map(|phase| pfb.interpolate(phase, &flat).0).sum();
    assert!((sum - 64.0).abs() < 1e-3, "got {sum}");
}

/// A finite oldest sample is not heard at all; one that is not finite is.
#[test]
fn oldest_sample_is_heard_only_where_it_is_not_finite() {
    let pfb = bank(32, 60.0);
    let mut window: Vec<Single> =
        (0..pfb.taps_per_phase()).map(|k| Single(0.1 * k as f32 - 0.3)).collect();
    let out = pfb.interpolate(5, &window).0;
    for oldest in [0.0, -7.25, f32::MAX, f32::MIN_POSITIVE] {
        window[0] = Single(oldest);
        assert_eq!(pfb.interpolate(5, &window).0.to_bits(), out.to_bits());
    }
    window[0] = Single(f32::INFINITY);
    assert!(pfb.interpolate(5, &window).0.is_nan());
}
