//! Fractional-delay polyphase filter bank for sub-sample interpolation.
//!
//! One low-pass prototype, designed at the upsampled rate `num_phases`, is
//! split into `num_phases` phase branches: branch `q` takes every
//! `num_phases`-th coefficient, starting at coefficient `q`. It implements a
//! fractional delay of `q / num_phases` of a sample, so evaluating the branch
//! nearest a fractional timing instant reconstructs the signal there. A second
//! bank holds the prototype's derivative, giving `dy` at the strobe for a
//! maximum-likelihood timing detector.

use crate::lowpass;
use crate::lowpass::LowpassDesign;
use crate::number;
use crate::number::{Real, Sample};
use vstd::prelude::*;

verus! {

/// The least odd number that is not below `value`.
pub open spec fn odd_ceiling(value: nat) -> nat {
    if value % 2 == 0 {
        value + 1
    } else {
        value
    }
}

/// The quotient `a / b`, rounded up.
pub open spec fn ceiling_quotient(a: nat, b: nat) -> nat
    recommends
        b > 0,
{
    if a % b == 0 {
        a / b
    } else {
        a / b + 1
    }
}

/// The subfilter length of a bank with `num_phases` branches whose prototype
/// spans at least `min_len` coefficients.
pub open spec fn subfilter_len(min_len: nat, num_phases: nat) -> nat
    recommends
        min_len > 0,
        num_phases > 0,
{
    odd_ceiling(ceiling_quotient((min_len - 1) as nat, num_phases) + 1)
}

/// The number of coefficients that the low-pass fills: the span from the first
/// coefficient of the first branch's oldest tap to that of its newest.
pub open spec fn filled_len(min_len: nat, num_phases: nat) -> nat
    recommends
        min_len > 0,
        num_phases > 0,
{
    (num_phases * (subfilter_len(min_len, num_phases) - 1) + 1) as nat
}

/// Rounds `value` up to the next odd number, leaving odd values unchanged.
pub fn make_odd(value: usize) -> (r: usize)
    ensures
        r == odd_ceiling(value as nat),
{
    if value % 2 == 0 {
        value + 1
    } else {
        value
    }
}

proof fn lemma_ceiling_quotient_bound(a: nat, b: nat)
    requires
        b > 0,
    ensures
        ceiling_quotient(a, b) <= a,
{
    assert(a / b <= a && (a % b != 0 ==> a / b + 1 <= a)) by (nonlinear_arith)
        requires
            b > 0,
            a >= 0,
    {
        assert(a == b * (a / b) + a % b);
        assert(a % b < b);
    }
}

/// Per-phase subfilter length for a fractional-delay bank whose prototype
/// must span at least `min_len` taps across `num_phases` branches. Forced odd
/// so the centre phase is a pure integer delay (a linear-phase, symmetric
/// subfilter).
pub fn taps_per_phase(min_len: usize, num_phases: usize) -> (r: usize)
    requires
        min_len > 0,
        num_phases > 0,
    ensures
        r == subfilter_len(min_len as nat, num_phases as nat),
{
    proof {
        lemma_ceiling_quotient_bound((min_len - 1) as nat, num_phases as nat);
    }
    let span: usize = min_len - 1;
    let whole: usize = span / num_phases;
    let intervals: usize = if span % num_phases == 0 {
        whole
    } else {
        whole + 1
    };
    make_odd(intervals + 1)
}

/// The number of low-pass coefficients that
/// [`FractionalDelayPfb::from_lowpass`] takes for a prototype of at least
/// `min_len` coefficients.
pub fn lowpass_len(min_len: usize, num_phases: usize) -> (r: usize)
    requires
        min_len > 0,
        num_phases > 0,
        num_phases * subfilter_len(min_len as nat, num_phases as nat) <= usize::MAX,
    ensures
        r == filled_len(min_len as nat, num_phases as nat),
{
    let taps = taps_per_phase(min_len, num_phases);
    proof {
        lemma_filled_within_bank(taps as nat, num_phases as nat);
    }
    num_phases * (taps - 1) + 1
}

/// The filled coefficients leave room for the zero tail of the last tap.
proof fn lemma_filled_within_bank(taps: nat, num_phases: nat)
    requires
        taps > 0,
        num_phases > 0,
    ensures
        num_phases * (taps - 1) + num_phases == num_phases * taps,
        num_phases * (taps - 1) >= 0,
{
    assert(num_phases * (taps - 1) + num_phases == num_phases * taps) by (nonlinear_arith);
    assert(num_phases * (taps - 1) >= 0) by (nonlinear_arith)
        requires
            taps > 0,
            num_phases > 0,
    ;
}

/// What a filter bank holds: the two coefficient banks, both in prototype
/// order.
pub struct PfbView<K> {
    pub num_phases: nat,
    pub taps_per_phase: nat,
    pub interpolation: Seq<K>,
    pub derivative: Seq<K>,
}

impl<K> PfbView<K> {
    /// There is a branch, every branch has an odd number of taps, and each
    /// bank has one coefficient for each tap of each branch.
    pub open spec fn wf(self) -> bool {
        &&& self.num_phases > 0
        &&& self.taps_per_phase % 2 == 1
        &&& self.interpolation.len() == self.num_phases * self.taps_per_phase
        &&& self.derivative.len() == self.num_phases * self.taps_per_phase
    }

    /// The samples on either side of the centre of a window.
    pub open spec fn group_delay(self) -> nat {
        ((self.taps_per_phase - 1) / 2) as nat
    }
}

/// The coefficients of branch `phase`, in the order of the window they are
/// applied to: the oldest sample meets the branch's last coefficient.
pub open spec fn branch<K>(bank: Seq<K>, num_phases: nat, taps: nat, phase: int) -> Seq<K> {
    Seq::new(taps, |k: int| bank[(taps - 1 - k) * num_phases + phase])
}

/// `r` is the sum, from the first sample on, of each sample times its
/// coefficient.
pub open spec fn is_weighted_sum<K, S: Sample<K>>(
    samples: Seq<S>,
    coefficients: Seq<K>,
    r: S,
) -> bool
    decreases samples.len(),
{
    if samples.len() == 0 {
        number::is_silence::<K, S>(r)
    } else {
        exists|partial: S, term: S|
            {
                &&& is_weighted_sum(samples.drop_last(), coefficients.drop_last(), partial)
                &&& number::is_scaling(samples.last(), coefficients.last(), term)
                &&& #[trigger] number::is_mix::<K, S>(partial, term, r)
            }
    }
}

/// The `taps` samples from absolute index `base` on, of a ring that holds
/// sample `i` in slot `i % ring.len()`.
pub open spec fn ring_window<S>(ring: Seq<S>, base: int, taps: nat) -> Seq<S> {
    Seq::new(taps, |k: int| ring[(base + k) % (ring.len() as int)])
}

/// `bank` is the low-pass with every coefficient times `gain`, then zeros.
pub open spec fn is_scaled_lowpass<K: Real>(lowpass: Seq<K>, gain: K, bank: Seq<K>) -> bool {
    &&& forall|n: int|
        0 <= n < lowpass.len() ==> number::is_product(lowpass[n], gain, #[trigger] bank[n])
    &&& forall|n: int| lowpass.len() <= n < bank.len() ==> number::is_zero(#[trigger] bank[n])
}

/// `r` is `scale * (next - previous)`.
pub open spec fn is_central_difference<K: Real>(previous: K, next: K, scale: K, r: K) -> bool {
    exists|rise: K|
        #[trigger] number::is_difference(next, previous, rise) && number::is_product(scale, rise, r)
}

/// `bank` is the central difference of the first `filled` coefficients of
/// `prototype`, which count as zero outside that range, times `scale`; then
/// zeros.
pub open spec fn is_derivative<K: Real>(
    prototype: Seq<K>,
    filled: int,
    scale: K,
    bank: Seq<K>,
) -> bool {
    &&& number::is_product(scale, prototype[1], bank[0])
    &&& forall|n: int|
        0 < n < filled - 1 ==> is_central_difference(
            prototype[n - 1],
            prototype[n + 1],
            scale,
            #[trigger] bank[n],
        )
    &&& exists|falling: K|
        #[trigger] number::is_negation(scale, falling) && number::is_product(
            falling,
            prototype[filled - 2],
            bank[filled - 1],
        )
    &&& forall|n: int| filled <= n < bank.len() ==> number::is_zero(#[trigger] bank[n])
}

/// The two banks of a `num_phases`-branch interpolator are made from
/// `lowpass`: the interpolation bank by a gain of `num_phases`, the derivative
/// bank by central differences in units of one input sample.
pub open spec fn are_banks_of<K: Real>(
    num_phases: usize,
    lowpass: Seq<K>,
    interpolation: Seq<K>,
    derivative: Seq<K>,
) -> bool {
    exists|phases: K, two: K, scale: K|
        {
            &&& #[trigger] number::is_count(num_phases, phases)
            &&& number::is_count(2, two)
            &&& #[trigger] number::is_quotient(phases, two, scale)
            &&& is_scaled_lowpass(lowpass, phases, interpolation)
            &&& is_derivative(interpolation, lowpass.len() as int, scale, derivative)
        }
}

impl<K: Real> PfbView<K> {
    /// The bank has `num_phases` branches, each of the length that a prototype
    /// of at least `min_len` coefficients needs, and is made from `lowpass`.
    pub open spec fn is_made_of(self, num_phases: usize, min_len: usize, lowpass: Seq<K>) -> bool {
        &&& self.wf()
        &&& self.num_phases == num_phases
        &&& self.taps_per_phase == subfilter_len(min_len as nat, num_phases as nat)
        &&& lowpass.len() == filled_len(min_len as nat, num_phases as nat)
        &&& are_banks_of(num_phases, lowpass, self.interpolation, self.derivative)
    }
}

/// Why a low-pass design makes no filter bank.
#[derive(Clone, Copy, Debug)]
pub enum DesignError {
    /// A prototype of fewer than two coefficients has no derivative.
    TooFewTaps,
    /// The branches together have more coefficients than can be indexed.
    TooManyTaps,
    /// The low-pass is not as long as was asked for.
    WrongLength,
}

/// `r` is `(1 / 2) / num_phases`.
pub open spec fn is_cutoff<K: Real>(num_phases: usize, r: K) -> bool {
    exists|one: K, two: K, half: K, phases: K|
        {
            &&& number::is_one(one)
            &&& number::is_count(2, two)
            &&& #[trigger] number::is_quotient(one, two, half)
            &&& #[trigger] number::is_count(num_phases, phases)
            &&& number::is_quotient(half, phases, r)
        }
}

/// `bank` is made of the low-pass that the design `G` gives for `num_phases`
/// branches and a stopband attenuation.
pub open spec fn is_designed<G: LowpassDesign<K>, K: Real>(
    num_phases: usize,
    stopband_atten: K,
    bank: PfbView<K>,
) -> bool {
    exists|cutoff: K, num_taps: usize, beta: K, taps: Vec<K>|
        {
            &&& is_cutoff(num_phases, cutoff)
            &&& #[trigger] lowpass::is_order::<G, K>(stopband_atten, cutoff, num_taps, beta)
            &&& num_taps >= 2
            &&& taps.len() == filled_len(num_taps as nat, num_phases as nat)
            &&& #[trigger] lowpass::is_lowpass::<G, K>(taps.len(), beta, cutoff, taps)
            &&& bank.is_made_of(num_phases, num_taps, taps@)
        }
}

/// The design `G` gives for `num_phases` branches and a stopband attenuation
/// what makes no bank, for the reason `error`.
pub open spec fn is_refused<G: LowpassDesign<K>, K: Real>(
    num_phases: usize,
    stopband_atten: K,
    error: DesignError,
) -> bool {
    exists|cutoff: K, num_taps: usize, beta: K|
        {
            &&& is_cutoff(num_phases, cutoff)
            &&& #[trigger] lowpass::is_order::<G, K>(stopband_atten, cutoff, num_taps, beta)
            &&& is_unusable::<G, K>(num_phases, cutoff, num_taps, beta, error)
        }
}

/// An order of `num_taps` coefficients and shape `beta`, or the low-pass that
/// the design `G` gives for it, makes no bank, for the reason `error`.
pub open spec fn is_unusable<G: LowpassDesign<K>, K: Real>(
    num_phases: usize,
    cutoff: K,
    num_taps: usize,
    beta: K,
    error: DesignError,
) -> bool {
    let total = num_phases * subfilter_len(num_taps as nat, num_phases as nat);
    match error {
        DesignError::TooFewTaps => num_taps < 2,
        DesignError::TooManyTaps => num_taps >= 2 && total > usize::MAX,
        DesignError::WrongLength => {
            &&& num_taps >= 2
            &&& total <= usize::MAX
            &&& exists|length: usize, taps: Vec<K>|
                {
                    &&& length == filled_len(num_taps as nat, num_phases as nat)
                    &&& #[trigger] lowpass::is_lowpass::<G, K>(length, beta, cutoff, taps)
                    &&& taps.len() != length
                }
        },
    }
}

/// `taps` is at most `limit / num_phases` exactly if the product is within the
/// limit.
proof fn lemma_quotient_bounds_product(num_phases: nat, taps: nat, limit: nat)
    requires
        num_phases > 0,
    ensures
        taps <= limit / num_phases <==> num_phases * taps <= limit,
{
    vstd::arithmetic::div_mod::lemma_fundamental_div_mod(limit as int, num_phases as int);
    let quotient = limit / num_phases;
    assert(taps <= quotient <==> num_phases * taps <= limit) by (nonlinear_arith)
        requires
            num_phases > 0,
            limit == num_phases * quotient + limit % num_phases,
            0 <= limit % num_phases < num_phases,
    ;
}

/// A fractional-delay polyphase interpolator and its matched derivative bank.
#[derive(Clone, Debug)]
pub struct FractionalDelayPfb<K> {
    num_phases: usize,
    taps_per_phase: usize,
    /// Interpolation bank, in prototype order.
    interpolation: Vec<K>,
    /// Derivative bank, matching layout.
    derivative: Vec<K>,
}

impl<K> View for FractionalDelayPfb<K> {
    type V = PfbView<K>;

    closed spec fn view(&self) -> PfbView<K> {
        PfbView {
            num_phases: self.num_phases as nat,
            taps_per_phase: self.taps_per_phase as nat,
            interpolation: self.interpolation@,
            derivative: self.derivative@,
        }
    }
}

impl<K: Real> FractionalDelayPfb<K> {
    /// The cutoff, in cycles per coefficient, of the low-pass for a bank of
    /// `num_phases` branches: the input Nyquist rate, expressed at the
    /// upsampled (`num_phases`) rate.
    #[must_use]
    pub fn cutoff(num_phases: usize) -> (r: K)
        requires
            num_phases > 0,
        ensures
            is_cutoff(num_phases, r),
    {
        let one = K::one();
        let two = K::from_index(2);
        let half = one.over(two);
        let phases = K::from_index(num_phases);
        assert(number::is_one(one) && number::is_count(2, two));
        assert(number::is_quotient(one, two, half));
        assert(number::is_count(num_phases, phases));
        half.over(phases)
    }

    /// Designs a `num_phases`-branch bank with a Kaiser prototype at the given
    /// stopband attenuation (dB). The prototype is a unit-gain interpolation
    /// low-pass at the input Nyquist, so the branch for phase 0 is (near) an
    /// identity and higher phases are sub-sample delays.
    ///
    /// The low-pass comes from the design `G`; one that makes no bank is
    /// refused.
    pub fn new<G: LowpassDesign<K>>(num_phases: usize, stopband_atten: K) -> (r: Result<
        Self,
        DesignError,
    >)
        requires
            num_phases > 0,
        ensures
            match r {
                Ok(pfb) => is_designed::<G, K>(num_phases, stopband_atten, pfb@),
                Err(error) => is_refused::<G, K>(num_phases, stopband_atten, error),
            },
    {
        // The transition band is as wide as the cutoff, which sets a modest
        // per-phase tap count.
        let cutoff = Self::cutoff(num_phases);
        let (num_taps, beta) = G::kaiser_order(stopband_atten, cutoff);
        assert(lowpass::is_order::<G, K>(stopband_atten, cutoff, num_taps, beta));
        if num_taps < 2 {
            return Err(DesignError::TooFewTaps);
        }
        let taps = taps_per_phase(num_taps, num_phases);
        proof {
            lemma_quotient_bounds_product(num_phases as nat, taps as nat, usize::MAX as nat);
        }
        if taps > usize::MAX / num_phases {
            return Err(DesignError::TooManyTaps);
        }
        let length = lowpass_len(num_taps, num_phases);
        let coefficients = G::lowpass_with_beta(length, beta, cutoff);
        assert(lowpass::is_lowpass::<G, K>(length, beta, cutoff, coefficients));
        if coefficients.len() != length {
            return Err(DesignError::WrongLength);
        }
        Ok(Self::from_lowpass(num_phases, num_taps, &coefficients))
    }

    /// Makes a `num_phases`-branch bank of a `lowpass` of [`lowpass_len`]
    /// coefficients that sum to one, so that the branch for phase 0 is (near)
    /// an identity and higher phases are sub-sample delays.
    ///
    /// The prototype is as long as the branches together; only its leading
    /// fractional-delay span is filled, the tail stays zero.
    #[must_use]
    pub fn from_lowpass(num_phases: usize, min_len: usize, lowpass: &[K]) -> (r: Self)
        requires
            num_phases > 0,
            min_len > 1,
            num_phases * subfilter_len(min_len as nat, num_phases as nat) <= usize::MAX,
            lowpass@.len() == filled_len(min_len as nat, num_phases as nat),
        ensures
            r@.is_made_of(num_phases, min_len, lowpass@),
    {
        let taps = taps_per_phase(min_len, num_phases);
        proof {
            lemma_filled_within_bank(taps as nat, num_phases as nat);
            lemma_subfilter_has_three_taps(min_len as nat, num_phases as nat);
            assert(num_phases * (taps - 1) >= 2) by (nonlinear_arith)
                requires
                    num_phases >= 1,
                    taps >= 3,
            ;
        }
        let length: usize = lowpass.len();
        let total: usize = num_phases * taps;
        let zero = K::zero();

        // Unit passband gain per phase: the low-pass sums to one, so scale to
        // `num_phases`.
        let phases = K::from_index(num_phases);
        let mut prototype: Vec<K> = Vec::new();
        while prototype.len() < total
            invariant
                length == lowpass@.len(),
                number::is_zero(zero),
                prototype@.len() <= total,
                forall|n: int|
                    0 <= n < length && n < prototype@.len() ==> number::is_product(
                        lowpass@[n],
                        phases,
                        #[trigger] prototype@[n],
                    ),
                forall|n: int|
                    length <= n < prototype@.len() ==> number::is_zero(#[trigger] prototype@[n]),
            decreases total - prototype@.len(),
        {
            let n: usize = prototype.len();
            if n < length {
                prototype.push(lowpass[n].times(phases));
            } else {
                prototype.push(zero);
            }
        }

        // Central-difference derivative of the prototype, scaled to
        // per-input-sample units.
        let two = K::from_index(2);
        let scale = phases.over(two);
        let falling = scale.negated();
        let mut derivative: Vec<K> = Vec::new();
        while derivative.len() < total
            invariant
                3 <= length <= total,
                prototype@.len() == total,
                number::is_zero(zero),
                number::is_negation(scale, falling),
                derivative@.len() <= total,
                derivative@.len() > 0 ==> number::is_product(scale, prototype@[1], derivative@[0]),
                forall|n: int|
                    0 < n < length - 1 && n < derivative@.len() ==> is_central_difference(
                        prototype@[n - 1],
                        prototype@[n + 1],
                        scale,
                        #[trigger] derivative@[n],
                    ),
                derivative@.len() >= length ==> number::is_product(
                    falling,
                    prototype@[length - 2],
                    derivative@[length - 1],
                ),
                forall|n: int|
                    length <= n < derivative@.len() ==> number::is_zero(#[trigger] derivative@[n]),
            decreases total - derivative@.len(),
        {
            let n: usize = derivative.len();
            if n == 0 {
                derivative.push(scale.times(prototype[1]));
            } else if n < length - 1 {
                let rise = prototype[n + 1].minus(prototype[n - 1]);
                let slope = scale.times(rise);
                assert(number::is_difference(prototype@[n + 1], prototype@[n - 1], rise));
                derivative.push(slope);
            } else if n == length - 1 {
                derivative.push(falling.times(prototype[length - 2]));
            } else {
                derivative.push(zero);
            }
        }
        assert(number::is_count(num_phases, phases) && number::is_count(2, two));
        assert(number::is_quotient(phases, two, scale));
        FractionalDelayPfb {
            num_phases,
            taps_per_phase: taps,
            interpolation: prototype,
            derivative,
        }
    }
}

proof fn lemma_subfilter_has_three_taps(min_len: nat, num_phases: nat)
    requires
        min_len > 1,
        num_phases > 0,
    ensures
        subfilter_len(min_len, num_phases) >= 3,
{
    let span = (min_len - 1) as nat;
    if span % num_phases == 0 {
        assert(span / num_phases > 0) by (nonlinear_arith)
            requires
                span > 0,
                num_phases > 0,
                span % num_phases == 0,
        ;
    }
}

impl<K> FractionalDelayPfb<K> {
    /// Number of phase branches (timing resolution).
    #[must_use]
    pub fn num_phases(&self) -> (r: usize)
        ensures
            r == self@.num_phases,
    {
        self.num_phases
    }

    /// Per-phase subfilter length; also the number of window samples each
    /// evaluation reads.
    #[must_use]
    pub fn taps_per_phase(&self) -> (r: usize)
        ensures
            r == self@.taps_per_phase,
    {
        self.taps_per_phase
    }

    /// Integer group delay in input samples: the window is centred this many
    /// samples back.
    #[must_use]
    pub fn group_delay(&self) -> (r: usize)
        requires
            self@.wf(),
        ensures
            r == self@.group_delay(),
            2 * r + 1 == self@.taps_per_phase,
    {
        (self.taps_per_phase - 1) / 2
    }
}

/// The coefficient of tap `tap` of branch `phase` lies within the bank.
proof fn lemma_branch_in_bank(num_phases: nat, taps: nat, tap: nat, phase: nat)
    requires
        tap < taps,
        phase < num_phases,
    ensures
        0 <= tap * num_phases,
        tap * num_phases + phase < num_phases * taps,
{
    assert(0 <= tap * num_phases && tap * num_phases + phase < num_phases * taps) by (nonlinear_arith)
        requires
            tap < taps,
            phase < num_phases,
    ;
}

/// Applies branch `phase` of `bank` to the `taps` samples of `ring` from
/// absolute index `base` on (oldest first).
fn evaluate_branch<K: Copy, S: Sample<K>>(
    bank: &Vec<K>,
    num_phases: usize,
    taps: usize,
    phase: usize,
    ring: &[S],
    base: usize,
) -> (r: S)
    requires
        bank.len() == num_phases * taps,
        phase < num_phases,
        ring@.len() > 0,
        base + taps <= usize::MAX,
    ensures
        is_weighted_sum(
            ring_window(ring@, base as int, taps as nat),
            branch(bank@, num_phases as nat, taps as nat, phase as int),
            r,
        ),
{
    let ghost window = ring_window(ring@, base as int, taps as nat);
    let ghost coefficients = branch(bank@, num_phases as nat, taps as nat, phase as int);
    let mut sum = <S as Sample<K>>::silence();
    let mut k: usize = 0;
    while k < taps
        invariant
            k <= taps,
            bank.len() == num_phases * taps,
            phase < num_phases,
            ring@.len() > 0,
            base + taps <= usize::MAX,
            window == ring_window(ring@, base as int, taps as nat),
            coefficients == branch(bank@, num_phases as nat, taps as nat, phase as int),
            is_weighted_sum(window.take(k as int), coefficients.take(k as int), sum),
        decreases taps - k,
    {
        proof {
            lemma_branch_in_bank(
                num_phases as nat,
                taps as nat,
                (taps - 1 - k) as nat,
                phase as nat,
            );
            assert(window.take(k + 1).drop_last() =~= window.take(k as int));
            assert(coefficients.take(k + 1).drop_last() =~= coefficients.take(k as int));
        }
        let sample = ring[(base + k) % ring.len()];
        let coefficient = bank[(taps - 1 - k) * num_phases + phase];
        let term = sample.scaled(coefficient);
        let total = sum.mixed(term);
        assert(number::is_scaling(sample, coefficient, term));
        assert(number::is_mix::<K, S>(sum, term, total));
        sum = total;
        k = k + 1;
    }
    assert(window.take(taps as int) =~= window);
    assert(coefficients.take(taps as int) =~= coefficients);
    sum
}

impl<K> PfbView<K> {
    /// `r` is what branch `phase` of the interpolation bank makes of `window`.
    pub open spec fn interpolates<S: Sample<K>>(self, phase: int, window: Seq<S>, r: S) -> bool {
        is_weighted_sum(
            window,
            branch(self.interpolation, self.num_phases, self.taps_per_phase, phase),
            r,
        )
    }

    /// `r` is what branch `phase` of the derivative bank makes of `window`.
    pub open spec fn differentiates<S: Sample<K>>(self, phase: int, window: Seq<S>, r: S) -> bool {
        is_weighted_sum(
            window,
            branch(self.derivative, self.num_phases, self.taps_per_phase, phase),
            r,
        )
    }
}

/// A window is the ring of its own samples, read from the start.
proof fn lemma_window_is_ring<S>(window: Seq<S>)
    ensures
        ring_window(window, 0, window.len()) == window,
{
    assert forall|k: int| 0 <= k < window.len() implies #[trigger] (k % (window.len() as int))
        == k by {
        vstd::arithmetic::div_mod::lemma_small_mod(k as nat, window.len());
    }
    assert(ring_window(window, 0, window.len()) =~= window);
}

impl<K: Copy> FractionalDelayPfb<K> {
    /// Interpolates at branch `phase` over the `taps_per_phase`-sample
    /// `window` (oldest first).
    pub fn interpolate<S: Sample<K>>(&self, phase: usize, window: &[S]) -> (r: S)
        requires
            self@.wf(),
            phase < self@.num_phases,
            window@.len() == self@.taps_per_phase,
        ensures
            self@.interpolates(phase as int, window@, r),
    {
        proof {
            lemma_window_is_ring(window@);
        }
        self.interpolate_ring(phase, window, 0)
    }

    /// Evaluates the derivative bank at branch `phase` over the
    /// `taps_per_phase`-sample `window` (oldest first), giving `dy` for a
    /// maximum-likelihood timing detector.
    pub fn derivative<S: Sample<K>>(&self, phase: usize, window: &[S]) -> (r: S)
        requires
            self@.wf(),
            phase < self@.num_phases,
            window@.len() == self@.taps_per_phase,
        ensures
            self@.differentiates(phase as int, window@, r),
    {
        proof {
            lemma_window_is_ring(window@);
        }
        self.derivative_ring(phase, window, 0)
    }

    /// [`Self::interpolate`] over the window that starts at absolute sample
    /// index `base` of a `ring` that holds sample `i` in slot
    /// `i % ring.len()`, in place.
    pub fn interpolate_ring<S: Sample<K>>(&self, phase: usize, ring: &[S], base: usize) -> (r: S)
        requires
            self@.wf(),
            phase < self@.num_phases,
            ring@.len() > 0,
            base + self@.taps_per_phase <= usize::MAX,
        ensures
            self@.interpolates(
                phase as int,
                ring_window(ring@, base as int, self@.taps_per_phase),
                r,
            ),
    {
        evaluate_branch(
            &self.interpolation,
            self.num_phases,
            self.taps_per_phase,
            phase,
            ring,
            base,
        )
    }

    /// [`Self::derivative`] over the window that starts at absolute sample
    /// index `base` of a `ring`, in place.
    pub fn derivative_ring<S: Sample<K>>(&self, phase: usize, ring: &[S], base: usize) -> (r: S)
        requires
            self@.wf(),
            phase < self@.num_phases,
            ring@.len() > 0,
            base + self@.taps_per_phase <= usize::MAX,
        ensures
            self@.differentiates(
                phase as int,
                ring_window(ring@, base as int, self@.taps_per_phase),
                r,
            ),
    {
        evaluate_branch(
            &self.derivative,
            self.num_phases,
            self.taps_per_phase,
            phase,
            ring,
            base,
        )
    }
}

/// The subfilter length is odd, and the low-pass spans at least `min_len`
/// coefficients.
pub proof fn subfilter_is_odd_and_spans(min_len: nat, num_phases: nat)
    requires
        min_len > 0,
        num_phases > 0,
    ensures
        subfilter_len(min_len, num_phases) % 2 == 1,
        filled_len(min_len, num_phases) >= min_len,
{
    let span = (min_len - 1) as nat;
    let intervals = ceiling_quotient(span, num_phases);
    let taps = subfilter_len(min_len, num_phases);
    vstd::arithmetic::div_mod::lemma_fundamental_div_mod(span as int, num_phases as int);
    assert(num_phases * intervals >= span) by (nonlinear_arith)
        requires
            span == num_phases * (span / num_phases) + span % num_phases,
            0 <= span % num_phases < num_phases,
            intervals == (if span % num_phases == 0 {
                span / num_phases
            } else {
                span / num_phases + 1
            }),
    ;
    assert(num_phases * (taps - 1) >= num_phases * intervals) by (nonlinear_arith)
        requires
            taps - 1 >= intervals,
            num_phases > 0,
    ;
}

/// No shorter odd subfilter spans `min_len` coefficients.
pub proof fn subfilter_is_shortest(min_len: nat, num_phases: nat, taps: nat)
    requires
        min_len > 0,
        num_phases > 0,
        taps % 2 == 1,
        num_phases * (taps - 1) + 1 >= min_len,
    ensures
        taps >= subfilter_len(min_len, num_phases),
{
    let span = (min_len - 1) as nat;
    vstd::arithmetic::div_mod::lemma_fundamental_div_mod(span as int, num_phases as int);
    assert(taps - 1 >= ceiling_quotient(span, num_phases)) by (nonlinear_arith)
        requires
            span == num_phases * (span / num_phases) + span % num_phases,
            0 <= span % num_phases < num_phases,
            num_phases * (taps - 1) >= span,
            ceiling_quotient(span, num_phases) == (if span % num_phases == 0 {
                span / num_phases
            } else {
                span / num_phases + 1
            }),
    ;
}

/// The branches split the prototype: coefficient `n` is in branch
/// `n % num_phases`, at tap `n / num_phases` counted from the newest sample.
pub proof fn branches_cover_the_prototype<K>(bank: Seq<K>, num_phases: nat, taps: nat, n: nat)
    requires
        num_phases > 0,
        bank.len() == num_phases * taps,
        n < bank.len(),
    ensures
        0 <= n / num_phases < taps,
        branch(bank, num_phases, taps, (n % num_phases) as int)[taps - 1 - n / num_phases]
            == bank[n as int],
{
    vstd::arithmetic::div_mod::lemma_fundamental_div_mod(n as int, num_phases as int);
    let tap = n / num_phases;
    assert(tap < taps) by (nonlinear_arith)
        requires
            n == num_phases * tap + n % num_phases,
            0 <= n % num_phases,
            n < num_phases * taps,
            num_phases > 0,
    ;
    assert(tap * num_phases == num_phases * tap) by (nonlinear_arith);
    assert((taps - 1 - (taps - 1 - tap)) * num_phases + n % num_phases == n);
}

/// No coefficient is in two places: tap `tap` of branch `phase`, counted from
/// the newest sample, holds a coefficient from which both can be told.
pub proof fn branches_are_disjoint<K>(
    bank: Seq<K>,
    num_phases: nat,
    taps: nat,
    phase: nat,
    tap: nat,
)
    requires
        bank.len() == num_phases * taps,
        phase < num_phases,
        tap < taps,
    ensures
        ({
            let n = (tap * num_phases + phase) as nat;
            &&& n < bank.len()
            &&& branch(bank, num_phases, taps, phase as int)[taps - 1 - tap] == bank[n as int]
            &&& n % num_phases == phase
            &&& n / num_phases == tap
        }),
{
    let n = (tap * num_phases + phase) as nat;
    lemma_branch_in_bank(num_phases, taps, tap, phase);
    assert(taps - 1 - (taps - 1 - tap) == tap);
    vstd::arithmetic::div_mod::lemma_fundamental_div_mod_converse(
        n as int,
        num_phases as int,
        tap as int,
        phase as int,
    );
}

/// Whatever the design `G` gives for `num_phases` branches and a stopband
/// attenuation: at least two coefficients, no more than can be indexed, and a
/// low-pass as long as was asked for.
pub open spec fn is_dependable<G: LowpassDesign<K>, K: Real>(
    num_phases: usize,
    stopband_atten: K,
) -> bool {
    forall|cutoff: K, num_taps: usize, beta: K|
        is_cutoff(num_phases, cutoff) && #[trigger] lowpass::is_order::<G, K>(
            stopband_atten,
            cutoff,
            num_taps,
            beta,
        ) ==> {
            &&& num_taps >= 2
            &&& num_phases * subfilter_len(num_taps as nat, num_phases as nat) <= usize::MAX
            &&& forall|length: usize, taps: Vec<K>|
                length == filled_len(num_taps as nat, num_phases as nat)
                    && #[trigger] lowpass::is_lowpass::<G, K>(length, beta, cutoff, taps)
                    ==> taps.len() == length
        }
}

/// A dependable design is never refused.
pub proof fn dependable_design_is_not_refused<G: LowpassDesign<K>, K: Real>(
    num_phases: usize,
    stopband_atten: K,
    error: DesignError,
)
    requires
        is_dependable::<G, K>(num_phases, stopband_atten),
    ensures
        !is_refused::<G, K>(num_phases, stopband_atten, error),
{
}

} // verus!
