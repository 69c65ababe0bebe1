//! What holds of the carrier loop and of the placing of strobes where arithmetic
//! is exact. Each law is stated over an abstract value of the number type:
//! rounding aside, it is what a loop on floating-point numbers does.

use crate::algebra;
use crate::carrier;
use crate::complex;
use crate::complex::Complex;
use crate::loop_filter::LoopFilter;
use crate::number;
use crate::number::Real;
use crate::runs;
use crate::runs::Event;
use crate::symbol_sync;
use crate::symbol_sync::SyncState;
use crate::ted::TimingErrorDetector;
use vstd::prelude::*;

verus! {

/// Every operation but cosine and sine, for which see [`is_circular`], gives
/// exactly what it says of the operands' values. A quotient does so where the
/// divisor is not zero.
pub open spec fn is_exact<T: Real>(value: spec_fn(T) -> real) -> bool {
    &&& forall|r: T| #[trigger] number::is_zero(r) ==> value(r) == 0real
    &&& forall|r: T| #[trigger] number::is_one(r) ==> value(r) == 1real
    &&& forall|n: usize, r: T| #[trigger] number::is_count(n, r) ==> value(r) == n as real
    &&& forall|a: T, b: T, r: T|
        #[trigger] number::is_sum(a, b, r) ==> value(r) == value(a) + value(b)
    &&& forall|a: T, b: T, r: T|
        #[trigger] number::is_difference(a, b, r) ==> value(r) == value(a) - value(b)
    &&& forall|a: T, b: T, r: T|
        #[trigger] number::is_product(a, b, r) ==> value(r) == value(a) * value(b)
    &&& forall|a: T, b: T, r: T|
        #[trigger] number::is_quotient(a, b, r) && value(b) != 0real ==> value(r) * value(b)
            == value(a)
    &&& forall|a: T, r: T| #[trigger] number::is_negation(a, r) ==> value(r) == -value(a)
    &&& forall|a: T, r: T|
        #[trigger] number::is_magnitude(a, r) ==> value(r) == larger(value(a), -value(a))
    &&& forall|a: T, b: T, r: T|
        #[trigger] number::is_larger(a, b, r) ==> value(r) == larger(value(a), value(b))
    &&& forall|a: T, r: T| #[trigger] number::is_floor(a, r) ==> is_whole_part(value(a), value(r))
    &&& forall|a: T, r: T|
        #[trigger] number::is_rounding(a, r) ==> is_nearest_whole(value(a), value(r))
    &&& forall|a: T, index: Option<usize>|
        #[trigger] number::is_index(a, index) ==> is_truncation(value(a), index)
    &&& forall|a: T, answer: bool| #[trigger] number::answers_finite(a, answer) ==> answer
    &&& forall|a: T, b: T, answer: bool|
        #[trigger] number::answers_above(a, b, answer) ==> answer == (value(a) > value(b))
    &&& forall|a: T, b: T, answer: bool|
        #[trigger] number::answers_at_most(a, b, answer) ==> answer == (value(a) <= value(b))
}

/// `x` is the whole number `n`.
pub open spec fn is_whole(n: int, x: real) -> bool {
    n as real == x
}

/// `b` lies the whole number `n` after `a`.
pub open spec fn is_apart(n: int, a: real, b: real) -> bool {
    n as real == b - a
}

/// `whole` is the greatest whole number that is not above `x`.
pub open spec fn is_whole_part(x: real, whole: real) -> bool {
    &&& exists|n: int| is_whole(n, whole)
    &&& whole <= x < whole + 1real
}

/// `whole` is a whole number that none is closer to `x` than.
pub open spec fn is_nearest_whole(x: real, whole: real) -> bool {
    &&& exists|n: int| is_whole(n, whole)
    &&& -1real <= 2real * (x - whole) <= 1real
}

/// `index` is `x` without its fraction, or `None` where no index is.
pub open spec fn is_truncation(x: real, index: Option<usize>) -> bool {
    match index {
        Some(n) => (n as real) <= x < (n as real) + 1real || (n == 0 && -1real < x < 0real),
        None => x <= -1real || x >= (usize::MAX as real) + 1real,
    }
}

/// The larger of two values.
pub open spec fn larger(x: real, y: real) -> real {
    if x < y {
        y
    } else {
        x
    }
}

/// The squared magnitude of a complex number.
pub open spec fn squared_magnitude<T>(value: spec_fn(T) -> real, z: Complex<T>) -> real {
    value(z.re) * value(z.re) + value(z.im) * value(z.im)
}

/// The value of `r` is that of `a * b`.
pub open spec fn has_product_value<T>(
    value: spec_fn(T) -> real,
    a: Complex<T>,
    b: Complex<T>,
    r: Complex<T>,
) -> bool {
    &&& value(r.re) == value(a.re) * value(b.re) - value(a.im) * value(b.im)
    &&& value(r.im) == value(a.re) * value(b.im) + value(a.im) * value(b.re)
}

pub(crate) proof fn lemma_product_value<T: Real>(
    value: spec_fn(T) -> real,
    a: Complex<T>,
    b: Complex<T>,
    r: Complex<T>,
)
    requires
        is_exact(value),
        complex::is_complex_product(a, b, r),
    ensures
        has_product_value(value, a, b, r),
{
}

/// The value of `Re{conj(a) * b}`.
pub open spec fn correlation_value<T>(
    value: spec_fn(T) -> real,
    a: Complex<T>,
    b: Complex<T>,
) -> real {
    value(a.re) * value(b.re) + value(a.im) * value(b.im)
}

// Carrier.

/// The pair lies on the unit circle.
pub open spec fn is_on_circle(cosine: spec_fn(real) -> real, sine: spec_fn(real) -> real, x: real)
    -> bool {
    cosine(x) * cosine(x) + sine(x) * sine(x) == 1real
}

/// The addition theorems hold of two angles.
pub open spec fn adds_angles(
    cosine: spec_fn(real) -> real,
    sine: spec_fn(real) -> real,
    x: real,
    y: real,
) -> bool {
    &&& cosine(x + y) == cosine(x) * cosine(y) - sine(x) * sine(y)
    &&& sine(x + y) == cosine(x) * sine(y) + sine(x) * cosine(y)
}

/// The number type's cosine and sine are those of a circle.
pub open spec fn is_circular<T: Real>(
    value: spec_fn(T) -> real,
    cosine: spec_fn(real) -> real,
    sine: spec_fn(real) -> real,
) -> bool {
    &&& forall|a: T, r: T| #[trigger] number::is_cosine(a, r) ==> value(r) == cosine(value(a))
    &&& forall|a: T, r: T| #[trigger] number::is_sine(a, r) ==> value(r) == sine(value(a))
    &&& forall|x: real| #[trigger] is_on_circle(cosine, sine, x)
    &&& forall|x: real, y: real| #[trigger] adds_angles(cosine, sine, x, y)
}

/// The value of `r` is that of `z` turned by the angle `x`.
pub open spec fn is_turned<T>(
    value: spec_fn(T) -> real,
    cosine: spec_fn(real) -> real,
    sine: spec_fn(real) -> real,
    z: Complex<T>,
    x: real,
    r: Complex<T>,
) -> bool {
    &&& value(r.re) == value(z.re) * cosine(x) - value(z.im) * sine(x)
    &&& value(r.im) == value(z.re) * sine(x) + value(z.im) * cosine(x)
}

/// Derotation turns a sample back by the phase.
pub proof fn derotation_turns_back<T: Real>(
    value: spec_fn(T) -> real,
    cosine: spec_fn(real) -> real,
    sine: spec_fn(real) -> real,
    sample: Complex<T>,
    phase: T,
    r: Complex<T>,
)
    requires
        is_exact(value),
        is_circular(value, cosine, sine),
        carrier::is_derotation(sample, phase, r),
    ensures
        is_turned(value, cosine, sine, sample, -value(phase), r),
{
    let (angle, phasor) = choose|angle: T, phasor: Complex<T>|
        {
            &&& number::is_negation(phase, angle)
            &&& #[trigger] complex::is_phasor(angle, phasor)
            &&& complex::is_complex_product(sample, phasor, r)
        };
    assert(complex::is_phasor(angle, phasor));
    lemma_product_value(value, sample, phasor, r);
}

/// Derotation by one phase keeps magnitudes and relative phases: the product
/// `x * conj(y)` of two samples is that of the derotated ones.
pub proof fn derotation_keeps_magnitude_and_relative_phase<T: Real>(
    value: spec_fn(T) -> real,
    cosine: spec_fn(real) -> real,
    sine: spec_fn(real) -> real,
    phase: T,
    x: Complex<T>,
    y: Complex<T>,
    derotated_x: Complex<T>,
    derotated_y: Complex<T>,
)
    requires
        is_exact(value),
        is_circular(value, cosine, sine),
        carrier::is_derotation(x, phase, derotated_x),
        carrier::is_derotation(y, phase, derotated_y),
    ensures
        squared_magnitude(value, derotated_x) == squared_magnitude(value, x),
        correlation_value(value, derotated_x, derotated_y) == correlation_value(value, x, y),
        value(derotated_x.im) * value(derotated_y.re) - value(derotated_x.re) * value(
            derotated_y.im,
        ) == value(x.im) * value(y.re) - value(x.re) * value(y.im),
{
    derotation_turns_back(value, cosine, sine, x, phase, derotated_x);
    derotation_turns_back(value, cosine, sine, y, phase, derotated_y);
    let angle = -value(phase);
    assert(is_on_circle(cosine, sine, angle));
    let (c, s) = (cosine(angle), sine(angle));
    algebra::lemma_turn_keeps_products(c, s, value(x.re), value(x.im), value(y.re), value(y.im));
    algebra::lemma_turn_keeps_products(c, s, value(x.re), value(x.im), value(x.re), value(x.im));
}

/// Derotation turns back what a carrier turned: of a sample that a carrier
/// turned by the angle `x` it leaves a turn by `x` less the phase. So a loop
/// whose phase is the carrier's gives back the sample as it was sent.
pub proof fn derotation_undoes_a_turn<T: Real>(
    value: spec_fn(T) -> real,
    cosine: spec_fn(real) -> real,
    sine: spec_fn(real) -> real,
    sent: Complex<T>,
    x: real,
    received: Complex<T>,
    phase: T,
    r: Complex<T>,
)
    requires
        is_exact(value),
        is_circular(value, cosine, sine),
        is_turned(value, cosine, sine, sent, x, received),
        carrier::is_derotation(received, phase, r),
    ensures
        is_turned(value, cosine, sine, sent, x - value(phase), r),
        value(phase) == x ==> value(r.re) == value(sent.re) && value(r.im) == value(sent.im),
{
    derotation_turns_back(value, cosine, sine, received, phase, r);
    let y = -value(phase);
    assert(adds_angles(cosine, sine, x, y));
    assert(x + y == x - value(phase));
    algebra::lemma_turns_compose(
        cosine(x),
        sine(x),
        cosine(y),
        sine(y),
        value(sent.re),
        value(sent.im),
    );
    lemma_zero_angle(value, cosine, sine);
    algebra::lemma_annihilates(value(sent.re));
    algebra::lemma_annihilates(value(sent.im));
}

proof fn lemma_zero_angle<T: Real>(
    value: spec_fn(T) -> real,
    cosine: spec_fn(real) -> real,
    sine: spec_fn(real) -> real,
)
    requires
        is_circular(value, cosine, sine),
    ensures
        cosine(0real) == 1real,
        sine(0real) == 0real,
{
    assert(is_on_circle(cosine, sine, 0real));
    assert(adds_angles(cosine, sine, 0real, 0real));
    algebra::lemma_zero_angle(cosine(0real), sine(0real));
}

/// A new or reset carrier synchronizer, whose phase is zero, leaves a sample as
/// it is.
pub proof fn zero_phase_leaves_the_sample<T: Real>(
    value: spec_fn(T) -> real,
    cosine: spec_fn(real) -> real,
    sine: spec_fn(real) -> real,
    sample: Complex<T>,
    phase: T,
    r: Complex<T>,
)
    requires
        is_exact(value),
        is_circular(value, cosine, sine),
        number::is_zero(phase),
        carrier::is_derotation(sample, phase, r),
    ensures
        value(r.re) == value(sample.re),
        value(r.im) == value(sample.im),
{
    derotation_turns_back(value, cosine, sine, sample, phase, r);
    lemma_zero_angle(value, cosine, sine);
    algebra::lemma_annihilates(value(sample.re));
    algebra::lemma_annihilates(value(sample.im));
}

/// Advancing the oscillator by `correction` turns every derotated sample by
/// minus that correction.
pub proof fn advance_turns_the_derotated_sample<T: Real>(
    value: spec_fn(T) -> real,
    cosine: spec_fn(real) -> real,
    sine: spec_fn(real) -> real,
    sample: Complex<T>,
    phase: T,
    correction: T,
    advanced: T,
    before: Complex<T>,
    after: Complex<T>,
)
    requires
        is_exact(value),
        is_circular(value, cosine, sine),
        number::is_sum(phase, correction, advanced),
        carrier::is_derotation(sample, phase, before),
        carrier::is_derotation(sample, advanced, after),
    ensures
        is_turned(value, cosine, sine, before, -value(correction), after),
{
    derotation_turns_back(value, cosine, sine, sample, phase, before);
    derotation_turns_back(value, cosine, sine, sample, advanced, after);
    let (x, y) = (-value(phase), -value(correction));
    assert(adds_angles(cosine, sine, x, y));
    assert(-value(advanced) == x + y);
    algebra::lemma_turns_compose(
        cosine(x),
        sine(x),
        cosine(y),
        sine(y),
        value(sample.re),
        value(sample.im),
    );
}

// Timing.

/// The values of the finite numbers order them as the number type's own
/// comparison does, and a finite number's distance from its floor is finite
/// and not negative. Rounding may be arbitrary otherwise.
pub open spec fn is_ordered<T: Real>(
    finite: spec_fn(T) -> bool,
    value: spec_fn(T) -> real,
) -> bool {
    &&& forall|r: T| #[trigger] number::is_zero(r) ==> value(r) == 0real
    &&& forall|r: T| #[trigger] number::is_one(r) ==> finite(r) && value(r) == 1real
    &&& forall|a: T, whole: T, r: T|
        finite(a) && #[trigger] number::is_floor(a, whole) && #[trigger] number::is_difference(
            a,
            whole,
            r,
        ) ==> finite(r) && value(r) >= 0real
    &&& forall|a: T, b: T, answer: bool|
        finite(a) && finite(b) && #[trigger] number::answers_at_most(a, b, answer) ==> answer == (
        value(a) <= value(b))
}

/// The fractional offset of a finite position is at least zero and below one,
/// however the difference from the floor was rounded.
pub proof fn fractional_offset_is_below_one<T: Real>(
    finite: spec_fn(T) -> bool,
    value: spec_fn(T) -> real,
    position: T,
    r: T,
)
    requires
        is_ordered(finite, value),
        finite(position),
        symbol_sync::is_fractional_offset(position, r),
    ensures
        0real <= value(r) < 1real,
{
}

/// Where arithmetic is exact, the fractional offset is the position less its
/// floor.
pub proof fn fractional_offset_is_the_fraction<T: Real>(
    value: spec_fn(T) -> real,
    position: T,
    r: T,
)
    requires
        is_exact(value),
        symbol_sync::is_fractional_offset(position, r),
    ensures
        is_whole_part(value(position), value(position) - value(r)),
        0real <= value(r) < 1real,
{
    let (whole, offset, one) = choose|whole: T, offset: T, one: T|
        {
            &&& #[trigger] number::is_floor(position, whole)
            &&& #[trigger] number::is_difference(position, whole, offset)
            &&& #[trigger] number::is_one(one)
            &&& {
                ||| number::answers_at_most(one, offset, false) && r == offset
                ||| number::answers_at_most(one, offset, true) && number::is_zero(r)
            }
        };
    assert(number::is_floor(position, whole));
    assert(number::is_difference(position, whole, offset));
    assert(number::is_one(one));
    assert(value(position) - value(r) == value(whole));
}

/// A strobe uses the branch nearest to its position, in units of one branch
/// from the centre of its window: to half a branch, but that no branch lies
/// before the first or after the last.
pub proof fn phase_is_the_nearest<D, F, T: Real>(
    value: spec_fn(T) -> real,
    s: SyncState<D, F, T>,
    position: T,
    index: nat,
    phase: nat,
)
    requires
        is_exact(value),
        0 < s.pfb.num_phases <= usize::MAX,
        index <= usize::MAX,
        s.is_phase(position, index, phase),
    ensures
        phase < s.pfb.num_phases,
        ({
            let place = (value(position) - (index as real)) * (s.pfb.num_phases as real);
            &&& place <= 0real ==> phase == 0
            &&& place >= 0real ==> -1real <= 2real * (place - (phase as real))
            &&& place >= 0real && phase + 1 < s.pfb.num_phases ==> 2real * (place - (phase as real))
                <= 1real
        }),
{
    let num_phases = s.pfb.num_phases;
    let branch = choose|branch: usize|
        {
            &&& #[trigger] symbol_sync::is_nearest_branch(
                position,
                index,
                num_phases,
                Some(branch),
            )
            &&& phase == if branch < num_phases {
                branch as nat
            } else {
                (num_phases - 1) as nat
            }
        };
    assert(symbol_sync::is_nearest_branch(position, index, num_phases, Some(branch)));
    let (centre, offset, phases, scaled, rounded, zero, clamped) = choose|
        centre: T,
        offset: T,
        phases: T,
        scaled: T,
        rounded: T,
        zero: T,
        clamped: T,
    |
        {
            &&& number::is_count(index as usize, centre)
            &&& #[trigger] number::is_difference(position, centre, offset)
            &&& number::is_count(num_phases as usize, phases)
            &&& #[trigger] number::is_product(offset, phases, scaled)
            &&& #[trigger] number::is_rounding(scaled, rounded)
            &&& number::is_zero(zero)
            &&& #[trigger] number::is_larger(rounded, zero, clamped)
            &&& number::is_index(clamped, Some(branch))
        };
    assert(number::is_count(index as usize, centre));
    assert(number::is_difference(position, centre, offset));
    assert(number::is_count(num_phases as usize, phases));
    assert(number::is_product(offset, phases, scaled) && number::is_rounding(scaled, rounded));
    assert(number::is_zero(zero) && number::is_larger(rounded, zero, clamped));
    assert(number::is_index(clamped, Some(branch)));
    let place = value(scaled);
    assert(place == (value(position) - (index as real)) * (num_phases as real));
    let nearest = value(rounded);
    assert(is_nearest_whole(place, nearest));
    let n = choose|n: int| is_whole(n, nearest);
    assert(is_whole(n, nearest));
    assert(is_truncation(value(clamped), Some(branch)));
    assert(branch as int == if n < 0 {
        0
    } else {
        n
    });
}

/// Strobe windows are centred on the whole part of the position, but on no
/// sample before the group delay, nor on sample zero.
pub proof fn centre_is_the_whole_part<D, F, T: Real>(
    value: spec_fn(T) -> real,
    s: SyncState<D, F, T>,
    position: T,
    index: nat,
)
    requires
        is_exact(value),
        s.is_centre(position, index),
    ensures
        is_centred(value(position), s.pfb.group_delay(), index),
        index <= usize::MAX || index == s.pfb.group_delay(),
{
    let whole = choose|whole: usize|
        {
            &&& #[trigger] symbol_sync::is_floor_index(position, Some(whole))
            &&& index == if whole >= s.pfb.group_delay() {
                whole as nat
            } else {
                s.pfb.group_delay()
            }
        };
    assert(symbol_sync::is_floor_index(position, Some(whole)));
    let (one, clamped, floor) = choose|one: T, clamped: T, floor: T|
        {
            &&& number::is_one(one)
            &&& #[trigger] number::is_larger(position, one, clamped)
            &&& #[trigger] number::is_floor(clamped, floor)
            &&& number::is_index(floor, Some(whole))
        };
    assert(number::is_one(one) && number::is_larger(position, one, clamped));
    assert(number::is_floor(clamped, floor) && number::is_index(floor, Some(whole)));
    let whole_part = value(floor);
    assert(is_whole_part(value(clamped), whole_part));
    let n = choose|n: int| is_whole(n, whole_part);
    assert(is_whole(n, whole_part));
    assert(is_truncation(whole_part, Some(whole)));
    assert(whole as int == n);
}

/// `index` is the whole part of `x` or of one, whichever is larger; where that
/// lies before `delay`, it is `delay`.
pub open spec fn is_centred(x: real, delay: nat, index: nat) -> bool {
    ||| index >= delay && (index as real) <= larger(x, 1real) < (index as real) + 1real
    ||| index == delay && larger(x, 1real) < delay as real
}

/// No sample index represents a strobe only from the last index on.
pub proof fn only_late_positions_lack_an_index<T: Real>(value: spec_fn(T) -> real, position: T)
    requires
        is_exact(value),
        symbol_sync::is_floor_index(position, None::<usize>),
    ensures
        value(position) >= (usize::MAX as real) + 1real,
{
    let (one, clamped, floor) = choose|one: T, clamped: T, floor: T|
        {
            &&& number::is_one(one)
            &&& #[trigger] number::is_larger(position, one, clamped)
            &&& #[trigger] number::is_floor(clamped, floor)
            &&& number::is_index(floor, None::<usize>)
        };
    assert(number::is_one(one) && number::is_larger(position, one, clamped));
    assert(number::is_floor(clamped, floor) && number::is_index(floor, None::<usize>));
    assert(is_whole_part(value(clamped), value(floor)));
    assert(is_truncation(value(floor), None));
}

/// No branch index represents a place only from the last index on.
pub proof fn only_far_places_lack_a_branch<T: Real>(
    value: spec_fn(T) -> real,
    position: T,
    index: nat,
    num_phases: nat,
)
    requires
        is_exact(value),
        num_phases <= usize::MAX,
        index <= usize::MAX,
        symbol_sync::is_nearest_branch(position, index, num_phases, None),
    ensures
        (value(position) - (index as real)) * (num_phases as real) >= usize::MAX as real,
{
    let (centre, offset, phases, scaled, rounded, zero, clamped) = choose|
        centre: T,
        offset: T,
        phases: T,
        scaled: T,
        rounded: T,
        zero: T,
        clamped: T,
    |
        {
            &&& number::is_count(index as usize, centre)
            &&& #[trigger] number::is_difference(position, centre, offset)
            &&& number::is_count(num_phases as usize, phases)
            &&& #[trigger] number::is_product(offset, phases, scaled)
            &&& #[trigger] number::is_rounding(scaled, rounded)
            &&& number::is_zero(zero)
            &&& #[trigger] number::is_larger(rounded, zero, clamped)
            &&& number::is_index(clamped, None::<usize>)
        };
    assert(number::is_count(index as usize, centre));
    assert(number::is_difference(position, centre, offset));
    assert(number::is_count(num_phases as usize, phases));
    assert(number::is_product(offset, phases, scaled) && number::is_rounding(scaled, rounded));
    assert(number::is_zero(zero) && number::is_larger(rounded, zero, clamped));
    assert(number::is_index(clamped, None::<usize>));
    assert(is_nearest_whole(value(scaled), value(rounded)));
    assert(is_truncation(value(clamped), None));
}

/// A strobe no earlier than the group delay is centred on the whole part of its
/// position, and its branch lies within half a branch of the rest; the last
/// branch serves up to the next sample.
pub proof fn strobe_is_placed_to_half_a_branch<D, F, T: Real>(
    value: spec_fn(T) -> real,
    s: SyncState<D, F, T>,
    position: T,
    index: nat,
    phase: nat,
)
    requires
        is_exact(value),
        0 < s.pfb.num_phases <= usize::MAX,
        s.is_centre(position, index),
        s.is_phase(position, index, phase),
        value(position) >= 1real,
        value(position) >= s.pfb.group_delay() as real,
    ensures
        index as real <= value(position) < (index as real) + 1real,
        ({
            let place = (value(position) - (index as real)) * (s.pfb.num_phases as real);
            &&& -1real <= 2real * (place - (phase as real))
            &&& place - (phase as real) < 1real
            &&& phase + 1 < s.pfb.num_phases ==> 2real * (place - (phase as real)) <= 1real
        }),
{
    centre_is_the_whole_part(value, s, position, index);
    phase_is_the_nearest(value, s, position, index, phase);
    let (offset, phases) = (value(position) - (index as real), s.pfb.num_phases as real);
    algebra::lemma_keeps_sign(offset, phases);
    algebra::lemma_keeps_sign(1real - offset, phases);
    algebra::lemma_distributes(phases, 1real, offset);
    if offset == 0real {
        algebra::lemma_annihilates(phases);
    }
}

/// `count` additions of `step` add `count` times its value.
pub proof fn advances_by_whole_steps<T: Real>(
    value: spec_fn(T) -> real,
    start: T,
    step: T,
    count: nat,
    r: T,
)
    requires
        is_exact(value),
        runs::is_advanced(start, step, count, r),
    ensures
        value(r) == value(start) + (count as real) * value(step),
    decreases count,
{
    if count == 0 {
        algebra::lemma_annihilates(value(step));
    } else {
        let less = (count - 1) as nat;
        let earlier = choose|earlier: T|
            runs::is_advanced(start, step, less, earlier) && #[trigger] number::is_sum(
                earlier,
                step,
                r,
            );
        assert(number::is_sum(earlier, step, r));
        advances_by_whole_steps(value, start, step, less, earlier);
        assert(count as real == (less as real) + 1real);
        algebra::lemma_distributes(value(step), less as real, 1real);
    }
}

/// Steps of a whole value move by a whole number.
proof fn lemma_advances_by_a_whole_number<T: Real>(
    value: spec_fn(T) -> real,
    start: T,
    step: T,
    size: int,
    count: nat,
    r: T,
)
    requires
        is_exact(value),
        runs::is_advanced(start, step, count, r),
        is_whole(size, value(step)),
    ensures
        exists|moved: int| #[trigger] is_apart(moved, value(start), value(r)),
    decreases count,
{
    if count == 0 {
        assert(is_apart(0, value(start), value(r)));
    } else {
        let less = (count - 1) as nat;
        let earlier = choose|earlier: T|
            runs::is_advanced(start, step, less, earlier) && #[trigger] number::is_sum(
                earlier,
                step,
                r,
            );
        assert(number::is_sum(earlier, step, r));
        lemma_advances_by_a_whole_number(value, start, step, size, less, earlier);
        let moved = choose|moved: int| #[trigger] is_apart(moved, value(start), value(earlier));
        assert(is_apart(moved + size, value(start), value(r)));
    }
}

/// Without feedback, the fractional offset of a data-aided loop stays what it
/// was, whatever the samples are.
pub proof fn open_loop_keeps_the_fractional_offset<
    D: TimingErrorDetector<T>,
    F: LoopFilter<T>,
    T: Real,
>(
    value: spec_fn(T) -> real,
    states: Seq<SyncState<D, F, T>>,
    events: Seq<Event<T>>,
    samples: usize,
    offset: T,
    later: T,
)
    requires
        is_exact(value),
        runs::is_data_aided::<D, T>(),
        runs::is_run(states, events),
        runs::is_without_feedback(events),
        symbol_sync::is_symbol_period(samples, states[0].sps, states[0].half_symbol),
        symbol_sync::is_fractional_offset(states[0].position, offset),
        symbol_sync::is_fractional_offset(states.last().position, later),
    ensures
        value(states.last().position) == value(states[0].position) + (runs::symbol_count(
            events,
        ) as real) * (samples as real),
        value(later) == value(offset),
{
    runs::open_loop_moves_by_whole_symbols(states, events);
    let (start, end) = (states[0].position, states.last().position);
    let (step, count) = (states[0].sps, runs::symbol_count(events));
    assert(number::is_count(samples, step));
    advances_by_whole_steps(value, start, step, count, end);
    assert(is_whole(samples as int, value(step)));
    lemma_advances_by_a_whole_number(value, start, step, samples as int, count, end);
    fractional_offset_is_the_fraction(value, start, offset);
    fractional_offset_is_the_fraction(value, end, later);
    let moved = choose|moved: int| #[trigger] is_apart(moved, value(start), value(end));
    let (start_whole, end_whole) = (value(start) - value(offset), value(end) - value(later));
    let first = choose|n: int| is_whole(n, start_whole);
    let last = choose|n: int| is_whole(n, end_whole);
    assert(is_apart(moved, value(start), value(end)));
    assert(is_whole(first, start_whole) && is_whole(last, end_whole));
    assert((last - first - moved) as real == value(offset) - value(later));
    assert(last - first - moved == 0);
}

} // verus!
