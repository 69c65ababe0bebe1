//! What a filter bank needs of a low-pass design.

use vstd::prelude::*;

verus! {

/// A Kaiser-window low-pass design. Frequencies are in cycles per coefficient.
///
/// As with [`Real`](crate::number::Real), the operations have no contract, so
/// nothing is believed of an implementation.
pub trait LowpassDesign<K> {
    /// The least number of coefficients that reach a stopband attenuation (dB)
    /// over a transition band of the given width, and the window's shape
    /// parameter.
    fn kaiser_order(stopband_atten: K, transition_width: K) -> (usize, K);

    /// The `length` coefficients, which sum to one, of a low-pass with the
    /// given window shape parameter and cutoff.
    fn lowpass_with_beta(length: usize, beta: K, cutoff: K) -> Vec<K>;
}

/// `(num_taps, beta)` is what [`LowpassDesign::kaiser_order`] returns.
pub open spec fn is_order<G: LowpassDesign<K>, K>(
    stopband_atten: K,
    transition_width: K,
    num_taps: usize,
    beta: K,
) -> bool {
    call_ensures(
        <G as LowpassDesign<K>>::kaiser_order,
        (stopband_atten, transition_width),
        (num_taps, beta),
    )
}

/// `taps` is what [`LowpassDesign::lowpass_with_beta`] returns.
pub open spec fn is_lowpass<G: LowpassDesign<K>, K>(
    length: usize,
    beta: K,
    cutoff: K,
    taps: Vec<K>,
) -> bool {
    call_ensures(<G as LowpassDesign<K>>::lowpass_with_beta, (length, beta, cutoff), taps)
}

} // verus!
