//! The arithmetic that the synchronization loops need of their number type.

use vstd::prelude::*;

verus! {

/// A number type.
///
/// No operation has a contract, so nothing is believed of an implementation.
/// What an operation returns is spoken of through the predicates below:
/// `is_sum(a, b, r)` holds of the values `r` that `a.plus(b)` can return.
pub trait Real: Copy {
    /// The additive identity.
    fn zero() -> Self;

    /// The multiplicative identity.
    fn one() -> Self;

    /// The number nearest to a count or an index.
    fn from_index(index: usize) -> Self;

    /// `self + rhs`.
    fn plus(self, rhs: Self) -> Self;

    /// `self - rhs`.
    fn minus(self, rhs: Self) -> Self;

    /// `self * rhs`.
    fn times(self, rhs: Self) -> Self;

    /// `self / rhs`.
    fn over(self, rhs: Self) -> Self;

    /// `-self`.
    fn negated(self) -> Self;

    /// The absolute value.
    fn magnitude(self) -> Self;

    /// The larger of two numbers.
    fn larger(self, other: Self) -> Self;

    /// The greatest whole number that is not above `self`.
    fn floor(self) -> Self;

    /// The nearest whole number.
    fn round(self) -> Self;

    /// The whole part as an index, or `None` where no index represents it.
    fn to_index(self) -> Option<usize>;

    /// Whether the number is neither infinite nor undefined.
    fn is_finite(self) -> bool;

    /// Whether `self > other`.
    fn above(self, other: Self) -> bool;

    /// Whether `self <= other`.
    fn at_most(self, other: Self) -> bool;

    /// The cosine of an angle in radians.
    fn cos(self) -> Self;

    /// The sine of an angle in radians.
    fn sin(self) -> Self;
}

/// A number type that has the circle constant.
pub trait CircleConst: Real {
    /// The circle constant.
    fn pi() -> Self;
}

/// `r` is what [`Real::zero`] returns.
pub open spec fn is_zero<T: Real>(r: T) -> bool {
    call_ensures(T::zero, (), r)
}

/// `r` is what [`Real::one`] returns.
pub open spec fn is_one<T: Real>(r: T) -> bool {
    call_ensures(T::one, (), r)
}

/// `r` is what [`CircleConst::pi`] returns.
pub open spec fn is_pi<T: CircleConst>(r: T) -> bool {
    call_ensures(T::pi, (), r)
}

/// `r` is what [`Real::from_index`] returns for `index`.
pub open spec fn is_count<T: Real>(index: usize, r: T) -> bool {
    call_ensures(T::from_index, (index,), r)
}

/// `r` is what `a.plus(b)` returns.
pub open spec fn is_sum<T: Real>(a: T, b: T, r: T) -> bool {
    call_ensures(T::plus, (a, b), r)
}

/// `r` is what `a.minus(b)` returns.
pub open spec fn is_difference<T: Real>(a: T, b: T, r: T) -> bool {
    call_ensures(T::minus, (a, b), r)
}

/// `r` is what `a.times(b)` returns.
pub open spec fn is_product<T: Real>(a: T, b: T, r: T) -> bool {
    call_ensures(T::times, (a, b), r)
}

/// `r` is what `a.over(b)` returns.
pub open spec fn is_quotient<T: Real>(a: T, b: T, r: T) -> bool {
    call_ensures(T::over, (a, b), r)
}

/// `r` is what `a.negated()` returns.
pub open spec fn is_negation<T: Real>(a: T, r: T) -> bool {
    call_ensures(T::negated, (a,), r)
}

/// `r` is what `a.magnitude()` returns.
pub open spec fn is_magnitude<T: Real>(a: T, r: T) -> bool {
    call_ensures(T::magnitude, (a,), r)
}

/// `r` is what `a.larger(b)` returns.
pub open spec fn is_larger<T: Real>(a: T, b: T, r: T) -> bool {
    call_ensures(T::larger, (a, b), r)
}

/// `r` is what `a.floor()` returns.
pub open spec fn is_floor<T: Real>(a: T, r: T) -> bool {
    call_ensures(T::floor, (a,), r)
}

/// `r` is what `a.round()` returns.
pub open spec fn is_rounding<T: Real>(a: T, r: T) -> bool {
    call_ensures(T::round, (a,), r)
}

/// `index` is what `a.to_index()` returns.
pub open spec fn is_index<T: Real>(a: T, index: Option<usize>) -> bool {
    call_ensures(T::to_index, (a,), index)
}

/// `a.is_finite()` can answer `answer`.
pub open spec fn answers_finite<T: Real>(a: T, answer: bool) -> bool {
    call_ensures(T::is_finite, (a,), answer)
}

/// `a.above(b)` can answer `answer`.
pub open spec fn answers_above<T: Real>(a: T, b: T, answer: bool) -> bool {
    call_ensures(T::above, (a, b), answer)
}

/// `a.at_most(b)` can answer `answer`.
pub open spec fn answers_at_most<T: Real>(a: T, b: T, answer: bool) -> bool {
    call_ensures(T::at_most, (a, b), answer)
}

/// The number type finds `a` finite and above zero.
pub open spec fn is_finite_and_positive<T: Real>(a: T) -> bool {
    &&& answers_finite(a, true)
    &&& exists|zero: T| #[trigger] is_zero(zero) && answers_above(a, zero, true)
}

/// `r` is what `a.cos()` returns.
pub open spec fn is_cosine<T: Real>(a: T, r: T) -> bool {
    call_ensures(T::cos, (a,), r)
}

/// `r` is what `a.sin()` returns.
pub open spec fn is_sine<T: Real>(a: T, r: T) -> bool {
    call_ensures(T::sin, (a,), r)
}

/// Each operation of [`Real`] has one result: two calls with the same operands
/// agree.
pub open spec fn is_deterministic<T: Real>() -> bool {
    &&& forall|r: T, q: T| #[trigger] is_zero(r) && #[trigger] is_zero(q) ==> r == q
    &&& forall|r: T, q: T| #[trigger] is_one(r) && #[trigger] is_one(q) ==> r == q
    &&& forall|n: usize, r: T, q: T|
        #[trigger] is_count(n, r) && #[trigger] is_count(n, q) ==> r == q
    &&& forall|a: T, b: T, r: T, q: T|
        #[trigger] is_sum(a, b, r) && #[trigger] is_sum(a, b, q) ==> r == q
    &&& forall|a: T, b: T, r: T, q: T|
        #[trigger] is_difference(a, b, r) && #[trigger] is_difference(a, b, q) ==> r == q
    &&& forall|a: T, b: T, r: T, q: T|
        #[trigger] is_product(a, b, r) && #[trigger] is_product(a, b, q) ==> r == q
    &&& forall|a: T, b: T, r: T, q: T|
        #[trigger] is_quotient(a, b, r) && #[trigger] is_quotient(a, b, q) ==> r == q
    &&& forall|a: T, r: T, q: T|
        #[trigger] is_negation(a, r) && #[trigger] is_negation(a, q) ==> r == q
    &&& forall|a: T, r: T, q: T|
        #[trigger] is_magnitude(a, r) && #[trigger] is_magnitude(a, q) ==> r == q
    &&& forall|a: T, b: T, r: T, q: T|
        #[trigger] is_larger(a, b, r) && #[trigger] is_larger(a, b, q) ==> r == q
    &&& forall|a: T, r: T, q: T| #[trigger] is_floor(a, r) && #[trigger] is_floor(a, q) ==> r == q
    &&& forall|a: T, r: T, q: T|
        #[trigger] is_rounding(a, r) && #[trigger] is_rounding(a, q) ==> r == q
    &&& forall|a: T, r: Option<usize>, q: Option<usize>|
        #[trigger] is_index(a, r) && #[trigger] is_index(a, q) ==> r == q
    &&& forall|a: T, r: bool, q: bool|
        #[trigger] answers_finite(a, r) && #[trigger] answers_finite(a, q) ==> r == q
    &&& forall|a: T, b: T, r: bool, q: bool|
        #[trigger] answers_above(a, b, r) && #[trigger] answers_above(a, b, q) ==> r == q
    &&& forall|a: T, b: T, r: bool, q: bool|
        #[trigger] answers_at_most(a, b, r) && #[trigger] answers_at_most(a, b, q) ==> r == q
    &&& forall|a: T, r: T, q: T|
        #[trigger] is_cosine(a, r) && #[trigger] is_cosine(a, q) ==> r == q
    &&& forall|a: T, r: T, q: T| #[trigger] is_sine(a, r) && #[trigger] is_sine(a, q) ==> r == q
}

/// What a filter with coefficients of type `K` can be run over.
///
/// As with [`Real`], no operation has a contract.
pub trait Sample<K>: Copy {
    /// The additive identity.
    fn silence() -> Self;

    /// `self + rhs`.
    fn mixed(self, rhs: Self) -> Self;

    /// `self * gain`.
    fn scaled(self, gain: K) -> Self;
}

/// `r` is what [`Sample::silence`] returns.
pub open spec fn is_silence<K, S: Sample<K>>(r: S) -> bool {
    call_ensures(<S as Sample<K>>::silence, (), r)
}

/// `r` is what `a.mixed(b)` returns.
pub open spec fn is_mix<K, S: Sample<K>>(a: S, b: S, r: S) -> bool {
    call_ensures(<S as Sample<K>>::mixed, (a, b), r)
}

/// `r` is what `a.scaled(gain)` returns.
pub open spec fn is_scaling<K, S: Sample<K>>(a: S, gain: K, r: S) -> bool {
    call_ensures(<S as Sample<K>>::scaled, (a, gain), r)
}

/// Each operation of [`Sample`] has one result: two calls with the same operands
/// agree.
pub open spec fn is_deterministic_on<K, S: Sample<K>>() -> bool {
    &&& forall|r: S, q: S|
        #[trigger] is_silence::<K, S>(r) && #[trigger] is_silence::<K, S>(q) ==> r == q
    &&& forall|a: S, b: S, r: S, q: S|
        #[trigger] is_mix::<K, S>(a, b, r) && #[trigger] is_mix::<K, S>(a, b, q) ==> r == q
    &&& forall|a: S, gain: K, r: S, q: S|
        #[trigger] is_scaling(a, gain, r) && #[trigger] is_scaling(a, gain, q) ==> r == q
}

/// A real signal is filtered with the number type's own arithmetic.
impl<T: Real> Sample<T> for T {
    fn silence() -> (r: Self)
        ensures
            is_zero(r),
    {
        T::zero()
    }

    fn mixed(self, rhs: Self) -> (r: Self)
        ensures
            is_sum(self, rhs, r),
    {
        self.plus(rhs)
    }

    fn scaled(self, gain: T) -> (r: Self)
        ensures
            is_product(self, gain, r),
    {
        self.times(gain)
    }
}

} // verus!
