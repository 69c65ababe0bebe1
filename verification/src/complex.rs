//! Complex numbers over any [`Real`].

use crate::number;
use crate::number::{Real, Sample};
use vstd::prelude::*;

verus! {

/// A complex number in Cartesian form.
#[derive(Clone, Copy, Debug)]
pub struct Complex<T> {
    /// The real part.
    pub re: T,
    /// The imaginary part.
    pub im: T,
}

/// `r` is `a + b`, part by part.
pub open spec fn is_complex_sum<T: Real>(a: Complex<T>, b: Complex<T>, r: Complex<T>) -> bool {
    &&& number::is_sum(a.re, b.re, r.re)
    &&& number::is_sum(a.im, b.im, r.im)
}

/// `r` is `a - b`, part by part.
pub open spec fn is_complex_difference<T: Real>(
    a: Complex<T>,
    b: Complex<T>,
    r: Complex<T>,
) -> bool {
    &&& number::is_difference(a.re, b.re, r.re)
    &&& number::is_difference(a.im, b.im, r.im)
}

/// `r` is the conjugate of `a`.
pub open spec fn is_conjugate<T: Real>(a: Complex<T>, r: Complex<T>) -> bool {
    &&& r.re == a.re
    &&& number::is_negation(a.im, r.im)
}

/// `r` is `a * b`: `(a.re b.re - a.im b.im) + (a.re b.im + a.im b.re) i`.
pub open spec fn is_complex_product<T: Real>(a: Complex<T>, b: Complex<T>, r: Complex<T>) -> bool {
    exists|re_re: T, im_im: T, re_im: T, im_re: T|
        {
            &&& #[trigger] number::is_product(a.re, b.re, re_re)
            &&& #[trigger] number::is_product(a.im, b.im, im_im)
            &&& #[trigger] number::is_product(a.re, b.im, re_im)
            &&& #[trigger] number::is_product(a.im, b.re, im_re)
            &&& number::is_difference(re_re, im_im, r.re)
            &&& number::is_sum(re_im, im_re, r.im)
        }
}

/// `r` is `a` times the real number `gain`, part by part.
pub open spec fn is_complex_scaling<T: Real>(a: Complex<T>, gain: T, r: Complex<T>) -> bool {
    &&& number::is_product(a.re, gain, r.re)
    &&& number::is_product(a.im, gain, r.im)
}

/// `r` is the unit phasor at `angle`.
pub open spec fn is_phasor<T: Real>(angle: T, r: Complex<T>) -> bool {
    &&& number::is_cosine(angle, r.re)
    &&& number::is_sine(angle, r.im)
}

impl<T: Real> Complex<T> {
    /// `self - rhs`.
    pub fn minus(self, rhs: Self) -> (r: Self)
        ensures
            is_complex_difference(self, rhs, r),
    {
        Complex { re: self.re.minus(rhs.re), im: self.im.minus(rhs.im) }
    }

    /// `self * rhs`.
    pub fn times(self, rhs: Self) -> (r: Self)
        ensures
            is_complex_product(self, rhs, r),
    {
        let re_re = self.re.times(rhs.re);
        let im_im = self.im.times(rhs.im);
        let re_im = self.re.times(rhs.im);
        let im_re = self.im.times(rhs.re);
        assert(number::is_product(self.re, rhs.re, re_re));
        assert(number::is_product(self.im, rhs.im, im_im));
        assert(number::is_product(self.re, rhs.im, re_im));
        assert(number::is_product(self.im, rhs.re, im_re));
        Complex { re: re_re.minus(im_im), im: re_im.plus(im_re) }
    }

    /// The complex conjugate.
    pub fn conj(self) -> (r: Self)
        ensures
            is_conjugate(self, r),
    {
        Complex { re: self.re, im: self.im.negated() }
    }

    /// The unit phasor `cos(angle) + sin(angle) i`.
    pub fn cis(angle: T) -> (r: Self)
        ensures
            is_phasor(angle, r),
    {
        Complex { re: angle.cos(), im: angle.sin() }
    }
}

/// A complex signal is filtered part by part.
impl<T: Real> Sample<T> for Complex<T> {
    fn silence() -> (r: Self)
        ensures
            number::is_zero(r.re),
            number::is_zero(r.im),
    {
        Complex { re: T::zero(), im: T::zero() }
    }

    fn mixed(self, rhs: Self) -> (r: Self)
        ensures
            is_complex_sum(self, rhs, r),
    {
        Complex { re: self.re.plus(rhs.re), im: self.im.plus(rhs.im) }
    }

    fn scaled(self, gain: T) -> (r: Self)
        ensures
            is_complex_scaling(self, gain, r),
    {
        Complex { re: self.re.times(gain), im: self.im.times(gain) }
    }
}

} // verus!
