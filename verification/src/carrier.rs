//! Carrier phase and frequency recovery.

use crate::complex;
use crate::complex::Complex;
use crate::loop_filter;
use crate::loop_filter::LoopFilter;
use crate::number;
use crate::number::Real;
use vstd::prelude::*;

verus! {

/// A carrier-recovery phase-locked loop.
///
/// The loop keeps a numerically-controlled-oscillator phase estimate. A caller
/// derotates each sample with [`derotate`](Self::derotate), measures the
/// residual phase error against a reference (a known symbol for data-aided
/// operation, or the sample's hard decision for decision-directed operation),
/// and feeds it to [`advance`](Self::advance). A second-order [`LoopFilter`]
/// tracks both a constant phase and a constant frequency offset.
#[derive(Clone, Debug)]
pub struct CarrierSynchronizer<F, T> {
    filter: F,
    phase: T,
}

impl<F, T> CarrierSynchronizer<F, T> {
    /// The state of the loop filter.
    pub closed spec fn loop_filter(self) -> F {
        self.filter
    }

    /// The phase estimate, in radians.
    pub closed spec fn phase_estimate(self) -> T {
        self.phase
    }
}

impl<F: LoopFilter<T>, T: Real> CarrierSynchronizer<F, T> {
    /// The phase estimate is zero, and the loop filter is new.
    pub open spec fn starts_with(self, loop_bandwidth: T, damping: T) -> bool {
        &&& loop_filter::is_new(loop_bandwidth, damping, self.loop_filter())
        &&& number::is_zero(self.phase_estimate())
    }
}

/// `r` is `sample * cis(-phase)`.
pub open spec fn is_derotation<T: Real>(sample: Complex<T>, phase: T, r: Complex<T>) -> bool {
    exists|angle: T, phasor: Complex<T>|
        {
            &&& number::is_negation(phase, angle)
            &&& #[trigger] complex::is_phasor(angle, phasor)
            &&& complex::is_complex_product(sample, phasor, r)
        }
}

impl<F, T> CarrierSynchronizer<F, T> where F: LoopFilter<T>, T: Real {
    /// Creates a carrier synchronizer with the given normalized loop
    /// bandwidth (`Bn * T`) and damping factor.
    #[must_use]
    pub fn new(loop_bandwidth: T, damping: T) -> (r: Self)
        requires
            number::is_finite_and_positive(loop_bandwidth),
            number::is_finite_and_positive(damping),
        ensures
            r.starts_with(loop_bandwidth, damping),
    {
        CarrierSynchronizer { filter: F::new(loop_bandwidth, damping), phase: T::zero() }
    }

    /// Resets the oscillator phase and loop gains for an independent burst.
    pub fn reset(&mut self, loop_bandwidth: T, damping: T)
        requires
            number::is_finite_and_positive(loop_bandwidth),
            number::is_finite_and_positive(damping),
        ensures
            final(self).starts_with(loop_bandwidth, damping),
    {
        self.filter = F::new(loop_bandwidth, damping);
        self.phase = T::zero();
    }

    /// Derotates `sample` by the current phase estimate.
    #[must_use]
    pub fn derotate(&self, sample: Complex<T>) -> (r: Complex<T>)
        ensures
            is_derotation(sample, self.phase_estimate(), r),
    {
        let angle = self.phase.negated();
        let phasor = Complex::cis(angle);
        assert(number::is_negation(self.phase, angle));
        assert(complex::is_phasor(angle, phasor));
        sample.times(phasor)
    }

    /// Advances the oscillator phase from a residual `phase_error` (radians).
    pub fn advance(&mut self, phase_error: T)
        ensures
            exists|correction: T|
                {
                    &&& #[trigger] loop_filter::is_update(
                        old(self).loop_filter(),
                        phase_error,
                        final(self).loop_filter(),
                        correction,
                    )
                    &&& number::is_sum(
                        old(self).phase_estimate(),
                        correction,
                        final(self).phase_estimate(),
                    )
                },
    {
        let (filter, correction) = self.filter.update(phase_error);
        self.phase = self.phase.plus(correction);
        self.filter = filter;
        assert(loop_filter::is_update(
            old(self).loop_filter(),
            phase_error,
            self.loop_filter(),
            correction,
        ));
    }
}

/// Where each operation of the number type has one result, derotating a sample
/// again by the same phase gives the same result.
pub proof fn derotation_is_repeatable<T: Real>(
    sample: Complex<T>,
    phase: T,
    r: Complex<T>,
    again: Complex<T>,
)
    requires
        number::is_deterministic::<T>(),
        is_derotation(sample, phase, r),
        is_derotation(sample, phase, again),
    ensures
        again == r,
{
}

} // verus!
