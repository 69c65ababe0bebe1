//! Synchronization loops for oversampled linear-modulation streams:
//! timing-error detectors, symbol-timing recovery with a fractional-delay
//! interpolator, and carrier recovery.
//!
//! Everything is generic over the number type through [`number::Real`], a trait
//! whose operations carry no contract. A contract therefore never says what a
//! sum *is*; it says that a value is one that the number type's own addition
//! returned for the stated operands. That is exact for integers, fixed-point
//! numbers and floating point alike.

mod algebra;
pub mod calls;
pub mod carrier;
pub mod complex;
pub mod detector_laws;
pub mod exact;
pub mod filtering;
pub mod fractional_delay;
pub mod laws;
pub mod loop_filter;
pub mod lowpass;
pub mod number;
pub mod runs;
pub mod strobes;
pub mod symbol_sync;
pub mod ted;
