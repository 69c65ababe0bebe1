//! What a synchronization loop needs of its loop filter.

use vstd::prelude::*;

verus! {

/// A loop filter: turns a stream of measured errors into a stream of
/// corrections. A second-order filter tracks a constant offset and a constant
/// drift.
///
/// As with [`Real`](crate::number::Real), the operations have no contract, so
/// nothing is believed of an implementation.
pub trait LoopFilter<T>: Sized {
    /// A filter without history, with the given normalized loop bandwidth
    /// (`Bn * T`) and damping factor. Both are finite and positive.
    fn new(loop_bandwidth: T, damping: T) -> Self;

    /// The filter after one more `error`, and the correction it gives.
    fn update(&self, error: T) -> (Self, T);
}

/// `r` is what [`LoopFilter::new`] returns.
pub open spec fn is_new<F: LoopFilter<T>, T>(loop_bandwidth: T, damping: T, r: F) -> bool {
    call_ensures(<F as LoopFilter<T>>::new, (loop_bandwidth, damping), r)
}

/// `(post, correction)` is what `pre.update(error)` returns.
pub open spec fn is_update<F: LoopFilter<T>, T>(pre: F, error: T, post: F, correction: T) -> bool {
    call_ensures(<F as LoopFilter<T>>::update, (&pre, error), (post, correction))
}

} // verus!
