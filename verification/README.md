# tracking_loops

Synchronization loops for oversampled linear-modulation streams, verified with
Verus: timing-error detectors (Gardner, maximum likelihood, Mueller & Muller),
symbol-timing recovery with a fractional-delay polyphase interpolator, and
carrier recovery.

- `src/number.rs`, `src/complex.rs`: the number type the loops run on, and
  complex numbers over it. The number type's operations have no contract; the
  predicates beside them name what an operation returned, and every contract of
  the library is stated over those predicates.
- `src/loop_filter.rs`, `src/lowpass.rs`: what a loop needs of its loop filter,
  and a filter bank of its low-pass design. They have no contract either.
- `src/fractional_delay.rs`: the interpolator.
- `src/ted.rs`: the timing-error detectors.
- `src/symbol_sync.rs`: symbol-timing recovery, as a state machine over
  strobes.
- `src/carrier.rs`: carrier recovery.
- `src/laws.rs`, `src/runs.rs`: what holds of a symbol synchronizer as a whole,
  and over a run of it.
- `src/exact.rs`: exact arithmetic, stated over an abstract value of the number
  type, and what the carrier loop and the placing of strobes do with it;
  `src/algebra.rs` has the identities of real numbers that this needs.
- `src/filtering.rs`: the filter bank's symmetry, gain and derivative.
- `src/detector_laws.rs`: what the detectors' errors say of the timing.
- `app/`: the loops on floating-point samples, with `num_traits` and
  `num_complex`.
- `tests/`: the loops on single-precision numbers and on exact ones.

The library trusts no declaration without proof.
