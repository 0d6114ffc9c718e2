//! Saturating fixed-point scalar arithmetic.
//!
//! A scalar is an `i64` counting micro-units: `FX_ONE` (1 000 000) stands
//! for `1.0`. Sums and products saturate at the `i64` range; products and
//! quotients truncate toward zero after rescaling, as the specification
//! functions below state exactly.

use vstd::prelude::*;

verus! {

/// Number of micro-units in `1.0`.
pub const FX_ONE: i64 = 1_000_000;

/// Saturate a mathematical integer into the `i64` range.
pub open spec fn sat64_s(x: int) -> i64 {
    if x > i64::MAX {
        i64::MAX
    } else if x < i64::MIN {
        i64::MIN
    } else {
        x as i64
    }
}

/// Quotient truncated toward zero, for a positive divisor.
pub open spec fn tdiv_s(a: int, b: int) -> int
    recommends
        b > 0,
{
    if a >= 0 {
        a / b
    } else {
        -((-a) / b)
    }
}

/// Saturating fixed-point sum.
pub open spec fn fx_add_s(a: i64, b: i64) -> i64 {
    sat64_s(a + b)
}

/// Saturating fixed-point difference.
pub open spec fn fx_sub_s(a: i64, b: i64) -> i64 {
    sat64_s(a - b)
}

/// Saturating fixed-point product: rescaled by `FX_ONE`, truncated toward zero.
pub open spec fn fx_mul_s(a: i64, b: i64) -> i64 {
    sat64_s(tdiv_s(a * b, FX_ONE as int))
}

/// Saturating fixed-point quotient, for a positive divisor.
pub open spec fn fx_div_s(a: i64, b: i64) -> i64
    recommends
        b > 0,
{
    sat64_s(tdiv_s(a * (FX_ONE as int), b as int))
}

/// Saturating product of a plain integer count with a fixed-point scalar.
pub open spec fn sat_mul_s(a: i64, b: i64) -> i64 {
    sat64_s(a * b)
}

/// Saturating negation.
pub open spec fn fx_neg_s(a: i64) -> i64 {
    sat64_s(-a)
}

/// Clamp into the interval `[lo, hi]`.
pub open spec fn clamp_s(x: i64, lo: i64, hi: i64) -> i64
    recommends
        lo <= hi,
{
    if x < lo {
        lo
    } else if x > hi {
        hi
    } else {
        x
    }
}

/// The product of two `i64` values fits in `i128`.
proof fn lemma_i64_prod_fits(a: int, b: int)
    requires
        i64::MIN <= a <= i64::MAX,
        i64::MIN <= b <= i64::MAX,
    ensures
        i128::MIN <= a * b <= i128::MAX,
{
    assert(i128::MIN <= a * b <= i128::MAX) by (nonlinear_arith)
        requires
            -0x8000_0000_0000_0000 <= a <= 0x7fff_ffff_ffff_ffff,
            -0x8000_0000_0000_0000 <= b <= 0x7fff_ffff_ffff_ffff,
    ;
}

/// Truncating division shrinks the magnitude of the dividend.
proof fn lemma_tdiv_magnitude(a: int, b: int)
    requires
        b > 0,
    ensures
        a >= 0 ==> 0 <= tdiv_s(a, b) <= a,
        a < 0 ==> a <= tdiv_s(a, b) <= 0,
{
    if a >= 0 {
        vstd::arithmetic::div_mod::lemma_div_pos_is_pos(a, b);
        vstd::arithmetic::div_mod::lemma_div_nonincreasing(a, b);
    } else {
        vstd::arithmetic::div_mod::lemma_div_pos_is_pos(-a, b);
        vstd::arithmetic::div_mod::lemma_div_nonincreasing(-a, b);
    }
}

/// Saturate an `i128` into the `i64` range.
fn sat64(q: i128) -> (r: i64)
    ensures
        r == sat64_s(q as int),
{
    if q > i64::MAX as i128 {
        i64::MAX
    } else if q < i64::MIN as i128 {
        i64::MIN
    } else {
        q as i64
    }
}

/// Saturating fixed-point sum.
pub fn fx_add(a: i64, b: i64) -> (r: i64)
    ensures
        r == fx_add_s(a, b),
{
    match a.checked_add(b) {
        Some(v) => v,
        None => if a >= 0 {
            i64::MAX
        } else {
            i64::MIN
        },
    }
}

/// Saturating fixed-point difference.
pub fn fx_sub(a: i64, b: i64) -> (r: i64)
    ensures
        r == fx_sub_s(a, b),
{
    match a.checked_sub(b) {
        Some(v) => v,
        None => if a >= 0 {
            i64::MAX
        } else {
            i64::MIN
        },
    }
}

/// Saturating fixed-point product.
pub fn fx_mul(a: i64, b: i64) -> (r: i64)
    ensures
        r == fx_mul_s(a, b),
{
    proof {
        lemma_i64_prod_fits(a as int, b as int);
    }
    let p: i128 = (a as i128) * (b as i128);
    proof {
        lemma_tdiv_magnitude(p as int, FX_ONE as int);
    }
    let q: i128 = p.checked_div(FX_ONE as i128).unwrap();
    assert(q == tdiv_s(a * b, FX_ONE as int)) by {
        assert((p as int) * -1 == -(p as int));
    }
    sat64(q)
}

/// Saturating fixed-point quotient; the divisor must be positive.
pub fn fx_div(a: i64, b: i64) -> (r: i64)
    requires
        b > 0,
    ensures
        r == fx_div_s(a, b),
{
    proof {
        lemma_i64_prod_fits(a as int, FX_ONE as int);
    }
    let p: i128 = (a as i128) * (FX_ONE as i128);
    proof {
        lemma_tdiv_magnitude(p as int, b as int);
    }
    let q: i128 = p.checked_div(b as i128).unwrap();
    sat64(q)
}

/// Quotient of two fixed-point scalars as a plain truncated integer count.
pub fn tdiv64(a: i64, b: i64) -> (r: i64)
    requires
        b > 0,
    ensures
        r as int == tdiv_s(a as int, b as int),
{
    proof {
        lemma_tdiv_magnitude(a as int, b as int);
    }
    a.checked_div(b).unwrap()
}

/// Saturating product of a plain integer count with a fixed-point scalar.
pub fn sat_mul(a: i64, b: i64) -> (r: i64)
    ensures
        r == sat_mul_s(a, b),
{
    proof {
        lemma_i64_prod_fits(a as int, b as int);
    }
    let p: i128 = (a as i128) * (b as i128);
    sat64(p)
}

/// Saturating negation.
pub fn fx_neg(a: i64) -> (r: i64)
    ensures
        r == fx_neg_s(a),
{
    if a == i64::MIN {
        i64::MAX
    } else {
        -a
    }
}

/// Clamp into the interval `[lo, hi]`.
pub fn clamp(x: i64, lo: i64, hi: i64) -> (r: i64)
    requires
        lo <= hi,
    ensures
        r == clamp_s(x, lo, hi),
{
    if x < lo {
        lo
    } else if x > hi {
        hi
    } else {
        x
    }
}

/// `pi` in micro-radians, rounded to the nearest unit.
pub const FX_PI: i64 = 3_141_593;

/// `2 * pi` in micro-radians, rounded to the nearest unit.
pub const FX_TWO_PI: i64 = 6_283_185;

/// `pi / 2` in micro-radians, rounded to the nearest unit.
pub const FX_HALF_PI: i64 = 1_570_796;

/// Remainder truncated toward zero, for a positive divisor.
pub open spec fn trem_s(a: int, b: int) -> int
    recommends
        b > 0,
{
    a - tdiv_s(a, b) * b
}

/// An angle wrapped into `[-FX_PI, FX_PI]`.
pub open spec fn wrap_pi_s(a: i64) -> i64 {
    let m = trem_s(a as int, FX_TWO_PI as int);
    if m > FX_PI {
        (m - FX_TWO_PI) as i64
    } else if m < -FX_PI {
        (m + FX_TWO_PI) as i64
    } else {
        m as i64
    }
}

/// Odd Taylor polynomial for the sine, in fixed point, for `|x| <= FX_HALF_PI`.
pub open spec fn sin_poly_s(x: i64) -> i64 {
    let x2 = fx_mul_s(x, x);
    let x3 = fx_mul_s(x2, x);
    let x5 = fx_mul_s(x3, x2);
    let x7 = fx_mul_s(x5, x2);
    let x9 = fx_mul_s(x7, x2);
    let s1 = fx_sub_s(x, sat64_s(tdiv_s(x3 as int, 6)));
    let s2 = fx_add_s(s1, sat64_s(tdiv_s(x5 as int, 120)));
    let s3 = fx_sub_s(s2, sat64_s(tdiv_s(x7 as int, 5040)));
    fx_add_s(s3, sat64_s(tdiv_s(x9 as int, 362880)))
}

/// Even Taylor polynomial for the cosine, in fixed point, for `|x| <= FX_HALF_PI`.
pub open spec fn cos_poly_s(x: i64) -> i64 {
    let x2 = fx_mul_s(x, x);
    let x4 = fx_mul_s(x2, x2);
    let x6 = fx_mul_s(x4, x2);
    let x8 = fx_mul_s(x6, x2);
    let c1 = fx_sub_s(FX_ONE, sat64_s(tdiv_s(x2 as int, 2)));
    let c2 = fx_add_s(c1, sat64_s(tdiv_s(x4 as int, 24)));
    let c3 = fx_sub_s(c2, sat64_s(tdiv_s(x6 as int, 720)));
    fx_add_s(c3, sat64_s(tdiv_s(x8 as int, 40320)))
}

/// Fixed-point sine of an angle in micro-radians, clamped into
/// `[-FX_ONE, FX_ONE]`.
pub open spec fn fx_sin_s(a: i64) -> i64 {
    let m = wrap_pi_s(a);
    let f = if m > FX_HALF_PI {
        (FX_PI - m) as i64
    } else if m < -FX_HALF_PI {
        (-FX_PI - m) as i64
    } else {
        m
    };
    clamp_s(sin_poly_s(f), (-FX_ONE) as i64, FX_ONE)
}

/// Fixed-point cosine of an angle in micro-radians, clamped into
/// `[-FX_ONE, FX_ONE]`.
pub open spec fn fx_cos_s(a: i64) -> i64 {
    let m = wrap_pi_s(a);
    let mag = if m >= 0 {
        m
    } else {
        (-m) as i64
    };
    if mag > FX_HALF_PI {
        sat64_s(-clamp_s(cos_poly_s((FX_PI - mag) as i64), (-FX_ONE) as i64, FX_ONE))
    } else {
        clamp_s(cos_poly_s(mag), (-FX_ONE) as i64, FX_ONE)
    }
}

/// The truncating remainder by a positive divisor is smaller in magnitude
/// than the divisor.
proof fn lemma_trem_range(a: int, b: int)
    requires
        b > 0,
    ensures
        a >= 0 ==> 0 <= trem_s(a, b) < b,
        a < 0 ==> -b < trem_s(a, b) <= 0,
{
    if a >= 0 {
        vstd::arithmetic::div_mod::lemma_fundamental_div_mod(a, b);
        vstd::arithmetic::div_mod::lemma_mod_division_less_than_divisor(a, b);
        assert(b * (a / b) == (a / b) * b) by (nonlinear_arith);
        assert(trem_s(a, b) == a % b);
    } else {
        vstd::arithmetic::div_mod::lemma_fundamental_div_mod(-a, b);
        vstd::arithmetic::div_mod::lemma_mod_division_less_than_divisor(-a, b);
        assert(b * ((-a) / b) == ((-a) / b) * b) by (nonlinear_arith);
        assert((-((-a) / b)) * b == -(((-a) / b) * b)) by (nonlinear_arith);
        assert(trem_s(a, b) == -((-a) % b));
    }
}

/// An angle wrapped into `[-FX_PI, FX_PI]`.
fn wrap_pi(a: i64) -> (r: i64)
    ensures
        r == wrap_pi_s(a),
        -FX_PI <= r <= FX_PI,
{
    proof {
        lemma_trem_range(a as int, FX_TWO_PI as int);
    }
    let m: i64 = a.checked_rem(FX_TWO_PI).unwrap();
    assert(m == trem_s(a as int, FX_TWO_PI as int)) by {
        assert((a as int) * -1 == -(a as int));
    }
    if m > FX_PI {
        m - FX_TWO_PI
    } else if m < -FX_PI {
        m + FX_TWO_PI
    } else {
        m
    }
}

/// Fixed-point sine of an angle in micro-radians.
pub fn fx_sin(a: i64) -> (r: i64)
    ensures
        r == fx_sin_s(a),
        -FX_ONE <= r <= FX_ONE,
{
    let m = wrap_pi(a);
    let f: i64 = if m > FX_HALF_PI {
        FX_PI - m
    } else if m < -FX_HALF_PI {
        -FX_PI - m
    } else {
        m
    };
    let x2 = fx_mul(f, f);
    let x3 = fx_mul(x2, f);
    let x5 = fx_mul(x3, x2);
    let x7 = fx_mul(x5, x2);
    let x9 = fx_mul(x7, x2);
    let s1 = fx_sub(f, tdiv64(x3, 6));
    let s2 = fx_add(s1, tdiv64(x5, 120));
    let s3 = fx_sub(s2, tdiv64(x7, 5040));
    let s4 = fx_add(s3, tdiv64(x9, 362880));
    clamp(s4, -FX_ONE, FX_ONE)
}

/// Fixed-point cosine of an angle in micro-radians.
pub fn fx_cos(a: i64) -> (r: i64)
    ensures
        r == fx_cos_s(a),
        -FX_ONE <= r <= FX_ONE,
{
    let m = wrap_pi(a);
    let mag: i64 = if m >= 0 {
        m
    } else {
        -m
    };
    let f: i64 = if mag > FX_HALF_PI {
        FX_PI - mag
    } else {
        mag
    };
    let x2 = fx_mul(f, f);
    let x4 = fx_mul(x2, x2);
    let x6 = fx_mul(x4, x2);
    let x8 = fx_mul(x6, x2);
    let c1 = fx_sub(FX_ONE, tdiv64(x2, 2));
    let c2 = fx_add(c1, tdiv64(x4, 24));
    let c3 = fx_sub(c2, tdiv64(x6, 720));
    let c4 = fx_add(c3, tdiv64(x8, 40320));
    let c = clamp(c4, -FX_ONE, FX_ONE);
    if mag > FX_HALF_PI {
        -c
    } else {
        c
    }
}


/// Multiplying by the fixed-point unit changes nothing.
pub proof fn lemma_fx_mul_one(a: i64)
    ensures
        fx_mul_s(FX_ONE, a) == a,
        fx_mul_s(a, FX_ONE) == a,
{
    if a >= 0 {
        vstd::arithmetic::div_mod::lemma_div_multiples_vanish(a as int, FX_ONE as int);
        assert(FX_ONE * a == (FX_ONE as int) * (a as int));
    } else {
        vstd::arithmetic::div_mod::lemma_div_multiples_vanish(-(a as int), FX_ONE as int);
        assert(-((FX_ONE as int) * (a as int)) == (FX_ONE as int) * (-(a as int)));
    }
    assert((a as int) * (FX_ONE as int) == (FX_ONE as int) * (a as int));
}

/// Multiplying by zero gives zero.
pub proof fn lemma_fx_mul_zero(a: i64)
    ensures
        fx_mul_s(0, a) == 0,
        fx_mul_s(a, 0) == 0,
{
    assert(0 * (a as int) == 0);
    assert((a as int) * 0 == 0);
    assert(tdiv_s(0, FX_ONE as int) == 0) by {
        vstd::arithmetic::div_mod::lemma_div_of0(FX_ONE as int);
    }
}


/// The fixed-point product is commutative.
pub proof fn lemma_fx_mul_comm(a: i64, b: i64)
    ensures
        fx_mul_s(a, b) == fx_mul_s(b, a),
{
    assert((a as int) * (b as int) == (b as int) * (a as int));
}

/// The fixed-point sine and cosine take their exact reference values
/// at angle zero.
pub proof fn lemma_trig_at_zero()
    ensures
        fx_sin_s(0) == 0,
        fx_cos_s(0) == FX_ONE,
{
    vstd::arithmetic::div_mod::lemma_div_of0(FX_TWO_PI as int);
    assert(tdiv_s(0, FX_TWO_PI as int) == 0);
    assert(wrap_pi_s(0) == 0);
    lemma_fx_mul_zero(0);
    vstd::arithmetic::div_mod::lemma_div_of0(6);
    vstd::arithmetic::div_mod::lemma_div_of0(120);
    vstd::arithmetic::div_mod::lemma_div_of0(5040);
    vstd::arithmetic::div_mod::lemma_div_of0(362880);
    assert(sin_poly_s(0) == 0);
    vstd::arithmetic::div_mod::lemma_div_of0(2);
    vstd::arithmetic::div_mod::lemma_div_of0(24);
    vstd::arithmetic::div_mod::lemma_div_of0(720);
    vstd::arithmetic::div_mod::lemma_div_of0(40320);
    assert(cos_poly_s(0) == FX_ONE);
}

} // verus!
