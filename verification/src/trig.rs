//! Fixed-point sine and cosine.
//!
//! The angle is reduced into one turn, the cosine comes from an even
//! polynomial on the first quadrant (mirrored on the second), and the sine
//! magnitude is recovered as `sqrt(1 - cos^2)`, which pins the sum of squares
//! to one square unit within `2 * SCALE` raw steps.

use vstd::prelude::*;

verus! {

use crate::fx::{
    fxmul, isqrt, is_sqrt_floor, lemma_abs_mul_le, lemma_fxmul_bound, lemma_sqrt_floor_def,
    lemma_sqrt_floor_unique, sqrt_floor, SCALE,
};
use vstd::arithmetic::div_mod::{
    lemma_fundamental_div_mod, lemma_fundamental_div_mod_converse, lemma_mod_bound,
};

/// Half a turn in raw angle steps (`pi * SCALE`, rounded to nearest).
pub const PI_FX: i64 = 26353589;

/// One full turn in raw angle steps (`2 * pi * SCALE`, rounded to nearest).
pub const TWO_PI_FX: i64 = 52707179;

/// A quarter turn in raw angle steps (`pi / 2 * SCALE`, rounded to nearest).
pub const HALF_PI_FX: i64 = 13176795;

/// Largest angle magnitude `rotate_by` accepts (about `8.7e10` turns).
pub const ANGLE_LIM: i64 = 0x4000_0000_0000_0000;

/// `SCALE / 2`: second-order cosine coefficient.
pub const COS_C2: i64 = 4194304;

/// `SCALE / 24`, rounded: fourth-order cosine coefficient.
pub const COS_C4: i64 = 349525;

/// `SCALE / 720`, rounded: sixth-order cosine coefficient.
pub const COS_C6: i64 = 11651;

/// `SCALE / 40320`, rounded: eighth-order cosine coefficient.
pub const COS_C8: i64 = 208;

/// The angle folded into `[-PI_FX, PI_FX]` (congruent modulo one turn).
pub open spec fn s_reduce(t: int) -> int {
    let m = t % (TWO_PI_FX as int);
    if m > PI_FX {
        m - TWO_PI_FX
    } else {
        m
    }
}

/// The first-quadrant cosine polynomial, evaluated by fixed-point Horner steps.
pub open spec fn s_cos_poly(u: int) -> int {
    let u2 = u * u / (SCALE as int);
    let h6 = COS_C6 - u2 * (COS_C8 as int) / (SCALE as int);
    let h4 = COS_C4 - u2 * h6 / (SCALE as int);
    let h2 = COS_C2 - u2 * h4 / (SCALE as int);
    SCALE - u2 * h2 / (SCALE as int)
}

/// Clamping into one unit either way.
pub open spec fn s_clamp_unit(c: int) -> int {
    if c > SCALE {
        SCALE as int
    } else if c < -SCALE {
        -(SCALE as int)
    } else {
        c
    }
}

/// Cosine of a reduced angle: the polynomial on the first quadrant, its
/// mirror image on the second, clamped into one unit.
pub open spec fn s_cos_fx(x: int) -> int {
    let ax = if x < 0 {
        -x
    } else {
        x
    };
    if ax <= HALF_PI_FX {
        s_clamp_unit(s_cos_poly(ax))
    } else {
        s_clamp_unit(-s_cos_poly(PI_FX - ax))
    }
}

/// Sine and cosine of an angle in raw steps: the cosine as above, the sine
/// magnitude as the integer square root of `SCALE^2 - cos^2`, signed by the
/// half of the turn the reduced angle lies in.
pub open spec fn s_sin_cos(t: int) -> (int, int) {
    let x = s_reduce(t);
    let c = s_cos_fx(x);
    let smag = sqrt_floor((SCALE as int) * SCALE - c * c);
    (
        if x >= 0 {
            smag
        } else {
            -smag
        },
        c,
    )
}

/// Folds an angle into `[-PI_FX, PI_FX]`, congruent modulo one turn.
fn reduce_angle(theta: i64) -> (x: i64)
    requires
        -ANGLE_LIM <= theta <= ANGLE_LIM,
    ensures
        x == s_reduce(theta as int),
        -PI_FX <= x <= PI_FX,
{
    let m: i64 = if theta >= 0 {
        let m0: u64 = (theta as u64) % (TWO_PI_FX as u64);
        m0 as i64
    } else {
        let m0: u64 = ((-theta) as u64) % (TWO_PI_FX as u64);
        proof {
            let t = TWO_PI_FX as int;
            let mneg = (-theta) as int;
            lemma_fundamental_div_mod(mneg, t);
            lemma_mod_bound(mneg, t);
            let q0 = mneg / t;
            if m0 == 0 {
                assert((-q0) * t == -(t * q0)) by (nonlinear_arith);
                lemma_fundamental_div_mod_converse(theta as int, t, -q0, 0);
            } else {
                assert((-q0 - 1) * t == -(t * q0) - t) by (nonlinear_arith);
                lemma_fundamental_div_mod_converse(theta as int, t, -q0 - 1, t - m0);
            }
        }
        if m0 == 0 {
            0
        } else {
            (TWO_PI_FX as u64 - m0) as i64
        }
    };
    if m > PI_FX {
        m - TWO_PI_FX
    } else {
        m
    }
}

/// The cosine polynomial on the first quadrant.
fn cos_poly(u: i64) -> (c: i64)
    requires
        0 <= u <= HALF_PI_FX,
    ensures
        c == s_cos_poly(u as int),
        -2 * SCALE <= c <= 2 * SCALE,
{
    proof {
        lemma_fxmul_bound(u as int, u as int, HALF_PI_FX as int, HALF_PI_FX as int);
    }
    let u2: i64 = fxmul(u, u);
    proof {
        lemma_fxmul_bound(u2 as int, COS_C8 as int, 20698062, COS_C8 as int);
    }
    let h6: i64 = COS_C6 - fxmul(u2, COS_C8);
    proof {
        lemma_fxmul_bound(u2 as int, h6 as int, 20698062, 12166);
    }
    let h4: i64 = COS_C4 - fxmul(u2, h6);
    proof {
        lemma_fxmul_bound(u2 as int, h4 as int, 20698062, 378274);
    }
    let h2: i64 = COS_C2 - fxmul(u2, h4);
    proof {
        lemma_fxmul_bound(u2 as int, h2 as int, 20698062, 5127697);
    }
    SCALE - fxmul(u2, h2)
}

/// Sine and cosine of an angle in raw steps.
pub fn sin_cos(theta: i64) -> (sc: (i64, i64))
    requires
        -ANGLE_LIM <= theta <= ANGLE_LIM,
    ensures
        sc.0 == s_sin_cos(theta as int).0,
        sc.1 == s_sin_cos(theta as int).1,
        -SCALE <= sc.0 <= SCALE,
        -SCALE <= sc.1 <= SCALE,
        (SCALE as int) * SCALE - 2 * SCALE <= sc.0 * sc.0 + sc.1 * sc.1,
        sc.0 * sc.0 + sc.1 * sc.1 <= (SCALE as int) * SCALE,
{
    let x = reduce_angle(theta);
    let ax: i64 = if x < 0 {
        -x
    } else {
        x
    };
    let craw: i64 = if ax <= HALF_PI_FX {
        cos_poly(ax)
    } else {
        -cos_poly(PI_FX - ax)
    };
    let c: i64 = if craw > SCALE {
        SCALE
    } else if craw < -SCALE {
        -SCALE
    } else {
        craw
    };
    proof {
        lemma_abs_mul_le(c as int, c as int, SCALE as int, SCALE as int);
        crate::fx::lemma_fxsq_nonneg(c as int);
    }
    let cc: i64 = c * c;
    let diff: i64 = SCALE * SCALE - cc;
    let smag_u: u64 = isqrt(diff as u64);
    proof {
        assert(is_sqrt_floor(diff as int, smag_u as int));
        assert(smag_u <= SCALE) by (nonlinear_arith)
            requires
                (smag_u as int) * (smag_u as int) <= diff as int,
                diff as int <= (SCALE as int) * SCALE,
                0 <= smag_u,
        ;
        assert((smag_u as int) * (smag_u as int) + (c as int) * (c as int) >= (SCALE as int) * SCALE
            - 2 * SCALE) by (nonlinear_arith)
            requires
                (diff as int) < ((smag_u as int) + 1) * ((smag_u as int) + 1),
                diff as int == (SCALE as int) * SCALE - (c as int) * (c as int),
                0 <= smag_u <= SCALE,
        ;
    }
    let smag: i64 = smag_u as i64;
    let s: i64 = if x >= 0 {
        smag
    } else {
        -smag
    };
    proof {
        assert((-(smag as int)) * (-(smag as int)) == (smag as int) * (smag as int))
            by (nonlinear_arith);
    }
    (s, c)
}

/// Sine and cosine each fit in one unit, and their squares sum to one
/// square unit within `2 * SCALE` raw steps.
pub proof fn lemma_sin_cos_bounds(t: int)
    ensures
        ({
            let sc = s_sin_cos(t);
            -(SCALE as int) <= sc.0 <= SCALE && -(SCALE as int) <= sc.1 <= SCALE && (SCALE as int)
                * SCALE - 2 * SCALE <= sc.0 * sc.0 + sc.1 * sc.1 && sc.0 * sc.0 + sc.1 * sc.1 <= (
            SCALE as int) * SCALE
        }),
{
    let x = s_reduce(t);
    let c = s_cos_fx(x);
    assert(-(SCALE as int) <= c <= SCALE);
    assert((c * c) <= (SCALE as int) * SCALE) by (nonlinear_arith)
        requires
            -(SCALE as int) <= c <= SCALE,
    ;
    crate::fx::lemma_fxsq_nonneg(c);
    let d = (SCALE as int) * SCALE - c * c;
    lemma_sqrt_floor_def(d);
    let smag = sqrt_floor(d);
    assert(is_sqrt_floor(d, smag));
    assert(smag <= SCALE) by (nonlinear_arith)
        requires
            smag * smag <= d,
            d <= (SCALE as int) * SCALE,
            0 <= smag,
            SCALE == 8388608,
    ;
    assert(smag * smag + c * c >= (SCALE as int) * SCALE - 2 * SCALE) by (nonlinear_arith)
        requires
            d < (smag + 1) * (smag + 1),
            d == (SCALE as int) * SCALE - c * c,
            0 <= smag <= SCALE,
    ;
    assert((-smag) * (-smag) == smag * smag) by (nonlinear_arith);
}

/// A zero angle has sine zero and cosine one, exactly.
pub proof fn lemma_sin_cos_zero()
    ensures
        s_sin_cos(0) == (0int, SCALE as int),
{
    lemma_sqrt_floor_def(0);
    assert(is_sqrt_floor(0, 0));
    lemma_sqrt_floor_unique(0, sqrt_floor(0), 0);
    assert(s_reduce(0) == 0);
    vstd::arithmetic::div_mod::lemma_div_of0(SCALE as int);
    assert(s_cos_poly(0) == SCALE);
    assert(s_cos_fx(0) == SCALE);
}

} // verus!
