//! Identities of real numbers, from the field's own laws.

use vstd::prelude::*;

verus! {

pub(crate) proof fn lemma_commutes(a: real, b: real)
    ensures
        a * b == b * a,
{
    assert(a * b == b * a) by (nonlinear_arith);
}

pub(crate) proof fn lemma_distributes(a: real, b: real, c: real)
    ensures
        a * (b + c) == a * b + a * c,
        a * (b - c) == a * b - a * c,
        (b + c) * a == b * a + c * a,
        (b - c) * a == b * a - c * a,
{
    assert(a * (b + c) == a * b + a * c) by (nonlinear_arith);
    assert(a * (b - c) == a * b - a * c) by (nonlinear_arith);
    lemma_commutes(a, b + c);
    lemma_commutes(a, b - c);
    lemma_commutes(a, b);
    lemma_commutes(a, c);
}

pub(crate) proof fn lemma_negates(a: real, b: real)
    ensures
        a * (-b) == -(a * b),
        (-a) * b == -(a * b),
{
    assert(a * (-b) == -(a * b)) by (nonlinear_arith);
    assert((-a) * b == -(a * b)) by (nonlinear_arith);
}

pub(crate) proof fn lemma_associates(a: real, b: real, c: real)
    ensures
        (a * b) * c == a * (b * c),
{
    assert((a * b) * c == a * (b * c)) by (nonlinear_arith);
}

pub(crate) proof fn lemma_regroups(a: real, b: real, c: real, d: real)
    ensures
        (a * b) * (c * d) == (a * c) * (b * d),
{
    lemma_associates(a, b, c * d);
    lemma_associates(b, c, d);
    lemma_commutes(b, c);
    lemma_associates(c, b, d);
    lemma_associates(a, c, b * d);
}

pub(crate) proof fn lemma_expands(a: real, b: real, c: real, d: real)
    ensures
        (a + b) * (c + d) == a * c + a * d + b * c + b * d,
        (a - b) * (c - d) == a * c - a * d - b * c + b * d,
        (a + b) * (c - d) == a * c - a * d + b * c - b * d,
        (a - b) * (c + d) == a * c + a * d - b * c - b * d,
{
    lemma_distributes(c + d, a, b);
    lemma_distributes(c - d, a, b);
    lemma_distributes(a, c, d);
    lemma_distributes(b, c, d);
}

pub(crate) proof fn lemma_turned_product(zr: real, zi: real, ar: real, ai: real, br: real, bi: real)
    ensures
        (zr * ar - zi * ai) * (zr * br - zi * bi) + (zr * ai + zi * ar) * (zr * bi + zi * br) == (zr
            * zr + zi * zi) * (ar * br + ai * bi),
        (zr * ai + zi * ar) * (zr * br - zi * bi) - (zr * ar - zi * ai) * (zr * bi + zi * br) == (zr
            * zr + zi * zi) * (ai * br - ar * bi),
{
    lemma_expands(zr * ar, zi * ai, zr * br, zi * bi);
    lemma_expands(zr * ai, zi * ar, zr * bi, zi * br);
    lemma_expands(zr * ai, zi * ar, zr * br, zi * bi);
    lemma_expands(zr * ar, zi * ai, zr * bi, zi * br);
    lemma_commutes(zr, zi);
    lemma_regroups(zr, ar, zr, br);
    lemma_regroups(zr, ar, zi, bi);
    lemma_regroups(zi, ai, zr, br);
    lemma_regroups(zi, ai, zi, bi);
    lemma_regroups(zr, ai, zr, bi);
    lemma_regroups(zr, ai, zi, br);
    lemma_regroups(zi, ar, zr, bi);
    lemma_regroups(zi, ar, zi, br);
    lemma_regroups(zr, ai, zr, br);
    lemma_regroups(zr, ai, zi, bi);
    lemma_regroups(zi, ar, zr, br);
    lemma_regroups(zi, ar, zi, bi);
    lemma_regroups(zr, ar, zr, bi);
    lemma_regroups(zr, ar, zi, br);
    lemma_regroups(zi, ai, zr, bi);
    lemma_regroups(zi, ai, zi, br);
    lemma_expands(zr * zr, zi * zi, ar * br, ai * bi);
    lemma_expands(zr * zr, zi * zi, ai * br, ar * bi);
}

pub(crate) proof fn lemma_rotated_swing(
    zr: real,
    zi: real,
    mr: real,
    mi: real,
    cr: real,
    ci: real,
    pr: real,
    pi: real,
)
    ensures
        (zr * mr - zi * mi) * ((zr * cr - zi * ci) - (zr * pr - zi * pi)) + (zr * mi + zi * mr) * (
        (zr * ci + zi * cr) - (zr * pi + zi * pr)) == (zr * zr + zi * zi) * (mr * (cr - pr) + mi
            * (ci - pi)),
{
    let (dr, di) = (cr - pr, ci - pi);
    lemma_distributes(zr, cr, pr);
    lemma_distributes(zi, ci, pi);
    lemma_distributes(zr, ci, pi);
    lemma_distributes(zi, cr, pr);
    assert((zr * cr - zi * ci) - (zr * pr - zi * pi) == zr * dr - zi * di);
    assert((zr * ci + zi * cr) - (zr * pi + zi * pr) == zr * di + zi * dr);
    lemma_turned_product(zr, zi, mr, mi, dr, di);
}

pub(crate) proof fn lemma_turn_keeps_products(c: real, s: real, ar: real, ai: real, br: real, bi: real)
    requires
        c * c + s * s == 1real,
    ensures
        (ar * c - ai * s) * (br * c - bi * s) + (ar * s + ai * c) * (br * s + bi * c) == ar * br
            + ai * bi,
        (ar * s + ai * c) * (br * c - bi * s) - (ar * c - ai * s) * (br * s + bi * c) == ai * br
            - ar * bi,
{
    lemma_turned_product(c, s, ar, ai, br, bi);
    lemma_commutes(ar, c);
    lemma_commutes(ai, s);
    lemma_commutes(ar, s);
    lemma_commutes(ai, c);
    lemma_commutes(br, c);
    lemma_commutes(bi, s);
    lemma_commutes(br, s);
    lemma_commutes(bi, c);
}

pub(crate) proof fn lemma_turns_compose(c: real, s: real, d: real, t: real, zr: real, zi: real)
    ensures
        zr * (c * d - s * t) - zi * (c * t + s * d) == (zr * c - zi * s) * d - (zr * s + zi * c)
            * t,
        zr * (c * t + s * d) + zi * (c * d - s * t) == (zr * c - zi * s) * t + (zr * s + zi * c)
            * d,
{
    lemma_distributes(zr, c * d, s * t);
    lemma_distributes(zi, c * t, s * d);
    lemma_distributes(zr, c * t, s * d);
    lemma_distributes(zi, c * d, s * t);
    lemma_distributes(d, zr * c, zi * s);
    lemma_distributes(t, zr * s, zi * c);
    lemma_distributes(t, zr * c, zi * s);
    lemma_distributes(d, zr * s, zi * c);
    lemma_associates(zr, c, d);
    lemma_associates(zr, s, t);
    lemma_associates(zi, c, t);
    lemma_associates(zi, s, d);
    lemma_associates(zr, c, t);
    lemma_associates(zr, s, d);
    lemma_associates(zi, c, d);
    lemma_associates(zi, s, t);
}

pub(crate) proof fn lemma_annihilates(a: real)
    ensures
        a * 0real == 0real,
        0real * a == 0real,
{
    lemma_distributes(a, 0real, 0real);
}

pub(crate) proof fn lemma_central_term(
    slope_sum: real,
    next_sum: real,
    previous_sum: real,
    level: real,
    slope: real,
    next: real,
    previous: real,
    factor: real,
)
    requires
        slope_sum * 2real == factor * (next_sum - previous_sum),
        slope * 2real == factor * (next - previous),
    ensures
        (slope_sum + level * slope) * 2real == factor * ((next_sum + level * next) - (previous_sum
            + level * previous)),
{
    lemma_distributes(2real, slope_sum, level * slope);
    lemma_associates(level, slope, 2real);
    lemma_associates(level, factor, next - previous);
    lemma_commutes(level, factor);
    lemma_associates(factor, level, next - previous);
    lemma_distributes(level, next, previous);
    lemma_distributes(factor, next_sum - previous_sum, level * (next - previous));
}

/// A positive factor keeps the sign.
pub(crate) proof fn lemma_keeps_sign(a: real, b: real)
    requires
        b > 0real,
    ensures
        a * b > 0real <==> a > 0real,
        a * b < 0real <==> a < 0real,
{
    if a > 0real {
        assert(a * b > 0real) by (nonlinear_arith)
            requires
                a > 0real,
                b > 0real,
        ;
    } else if a < 0real {
        assert(a * b < 0real) by (nonlinear_arith)
            requires
                a < 0real,
                b > 0real,
        ;
    } else {
        lemma_annihilates(b);
    }
}

/// A square is not negative, and zero only of zero.
pub(crate) proof fn lemma_square(a: real)
    ensures
        a * a >= 0real,
        a != 0real ==> a * a > 0real,
{
    if a > 0real {
        lemma_keeps_sign(a, a);
    } else if a < 0real {
        lemma_keeps_sign(-a, -a);
        lemma_negates(a, a);
        lemma_negates(a, -a);
    } else {
        lemma_annihilates(a);
    }
}

/// The only point of the circle that two turns by itself leave where it is.
pub(crate) proof fn lemma_zero_angle(c: real, s: real)
    requires
        c * c + s * s == 1real,
        c == c * c - s * s,
        s == c * s + s * c,
    ensures
        c == 1real,
        s == 0real,
{
    let a = 1real - 2real * c;
    lemma_commutes(c, s);
    lemma_distributes(s, 1real, 2real * c);
    lemma_associates(2real, c, s);
    assert(a * s == 0real);
    if s > 0real {
        lemma_keeps_sign(a, s);
    } else if s < 0real {
        lemma_keeps_sign(a, -s);
        lemma_negates(a, s);
    }
    if s != 0real {
        assert(c * c + c * c == c) by (nonlinear_arith)
            requires
                c + c == 1real,
        ;
        assert(false);
    }
    lemma_annihilates(s);
}

/// The squared magnitude of a complex number is not negative, and zero only of
/// zero.
pub(crate) proof fn lemma_magnitude(re: real, im: real)
    ensures
        re * re + im * im >= 0real,
        re != 0real || im != 0real ==> re * re + im * im > 0real,
{
    lemma_square(re);
    lemma_square(im);
}

pub(crate) proof fn lemma_pulls_out(a: real, h: real, b: real)
    ensures
        a * (h * b) == h * (a * b),
{
    lemma_associates(a, h, b);
    lemma_associates(h, a, b);
    lemma_commutes(a, h);
}

pub(crate) proof fn lemma_blends(a: real, h: real, b: real, l: real, c: real)
    ensures
        a * (h * b + l * c) == h * (a * b) + l * (a * c),
{
    lemma_distributes(a, h * b, l * c);
    lemma_pulls_out(a, h, b);
    lemma_pulls_out(a, l, c);
}

pub(crate) proof fn lemma_detector_gain(circle: real, s: real, curvature: real)
    requires
        curvature * 3real == (-circle) * (1real + 3real * s),
    ensures
        (curvature + 8real * s) * 3real == -(circle + 3real * ((circle - 8real) * s)),
{
    lemma_negates(circle, 1real + 3real * s);
    lemma_distributes(circle, 1real, 3real * s);
    lemma_associates(circle, 3real, s);
    lemma_commutes(circle, 3real);
    lemma_associates(3real, circle, s);
    lemma_distributes(s, circle, 8real);
}

/// Each tap of each branch lies within the bank.
pub(crate) proof fn lemma_tap_in_bank(p: int, taps: int, tap: int, phase: int)
    requires
        0 <= tap < taps,
        0 <= phase < p,
    ensures
        0 <= tap * p + phase < p * taps,
{
    assert(0 <= tap * p && tap * p + phase < p * taps) by (nonlinear_arith)
        requires
            0 <= tap < taps,
            0 <= phase < p,
    ;
}

/// The last tap of a branch but the first lies past the filled coefficients.
pub(crate) proof fn lemma_last_tap(p: int, taps: int, phase: int)
    requires
        p > 0,
        taps > 0,
        1 <= phase < p,
    ensures
        (taps - 1) * p == p * (taps - 1),
        p * (taps - 1) + 1 <= (taps - 1) * p + phase < p * taps,
{
    assert((taps - 1) * p == p * (taps - 1)) by (nonlinear_arith);
    assert(p * (taps - 1) + p == p * taps) by (nonlinear_arith);
}

/// The neighbours of an inner branch's coefficient: both between the ends of
/// the filled coefficients, or both past them.
pub(crate) proof fn lemma_inner_tap(p: int, taps: int, tap: int, phase: int)
    requires
        p > 0,
        0 <= tap < taps,
        2 <= phase,
        phase + 2 <= p,
    ensures
        tap < taps - 1 ==> 0 < tap * p + phase && tap * p + phase + 2 <= p * (taps - 1),
        tap == taps - 1 ==> p * (taps - 1) + 1 <= tap * p + phase - 1 && tap * p + phase + 1 < p
            * taps,
{
    assert(p * (taps - 1) + p == p * taps) by (nonlinear_arith);
    assert(0 <= tap * p) by (nonlinear_arith)
        requires
            0 <= tap,
            0 < p,
    ;
    if tap < taps - 1 {
        assert(tap * p + p <= p * (taps - 1)) by (nonlinear_arith)
            requires
                tap + 1 <= taps - 1,
                0 < p,
        ;
    } else {
        assert(tap * p == p * (taps - 1)) by (nonlinear_arith)
            requires
                tap == taps - 1,
        ;
    }
}

} // verus!
