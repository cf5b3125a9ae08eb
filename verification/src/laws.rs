//! The library's laws: properties of the camera that hold across calls,
//! stated over the same spec functions the mutators' contracts use and
//! proved once and for all.

use vstd::prelude::*;

verus! {

use crate::camera::{rotated_from, translated, Camera};
use crate::fx::{
    is_sqrt_floor, lemma_abs_mul_le, lemma_sqrt_floor_def, lemma_sqrt_floor_unique, sqrt_floor,
    MIN_SQ, SCALE,
};
use crate::trig::{lemma_sin_cos_zero, s_sin_cos};
use crate::vec3::{
    lemma_norm_unit, s_cross, s_dot_raw, s_in_range, s_norm, s_unit_ish, s_world_up, sv, V3,
};
use vstd::arithmetic::div_mod::{lemma_fundamental_div_mod, lemma_mod_bound};

/// Translation composes: translating by `v1` and then by `v2` reaches
/// exactly the state reached by one translation by the componentwise sum
/// `v12`.
pub proof fn lemma_translate_composes(
    c0: Camera,
    c1: Camera,
    c2: Camera,
    c12: Camera,
    v1: V3,
    v2: V3,
    v12: V3,
)
    requires
        translated(c0, v1, c1),
        translated(c1, v2, c2),
        v12.x == v1.x + v2.x,
        v12.y == v1.y + v2.y,
        v12.z == v1.z + v2.z,
        translated(c0, v12, c12),
    ensures
        c2 == c12,
{
}

/// Translating by the zero vector leaves the camera exactly unchanged.
pub proof fn lemma_translate_zero(c0: Camera, c1: Camera)
    requires
        translated(c0, (V3 { x: 0, y: 0, z: 0 }), c1),
    ensures
        c1 == c0,
{
}

/// Rotating by zero yaw and zero pitch leaves the whole basis exactly
/// unchanged (the identity turn is skipped, and right and up re-derive to
/// the values the invariant already pins down).
pub proof fn lemma_rotate_zero(c0: Camera, c1: Camera)
    requires
        c0.wf(),
        rotated_from(c0, c1, 0, 0),
    ensures
        c1.forward == c0.forward,
        c1.right == c0.right,
        c1.up == c0.up,
        c1.pos == c0.pos,
{
    lemma_sin_cos_zero();
}

/// Unit length: in every well-formed state whose normalizations are
/// non-degenerate, each basis vector's squared length is within
/// `s_unit_ish` of one square unit, so each length is within `8e-6` of one
/// (inside a `1e-5` tolerance).
pub proof fn lemma_unit_length(c: Camera)
    requires
        c.wf(),
        s_dot_raw(sv(c.forward), sv(c.forward)) >= MIN_SQ,
        s_dot_raw(
            s_cross(sv(c.forward), s_world_up()),
            s_cross(sv(c.forward), s_world_up()),
        ) >= MIN_SQ,
        s_dot_raw(
            s_cross(sv(c.right), sv(c.forward)),
            s_cross(sv(c.right), sv(c.forward)),
        ) >= MIN_SQ,
    ensures
        s_unit_ish(sv(c.forward)),
        s_unit_ish(sv(c.right)),
        s_unit_ish(sv(c.up)),
{
    lemma_norm_unit(s_cross(sv(c.forward), s_world_up()));
    lemma_norm_unit(s_cross(sv(c.right), sv(c.forward)));
}

/// Crossing with the world-up axis is exact: no rounding survives, since
/// world-up is axis-aligned with component exactly `SCALE`.
pub proof fn lemma_cross_world_up(f: (int, int, int))
    ensures
        s_cross(f, s_world_up()) == ((-f.2, 0int, f.0)),
{
    vstd::arithmetic::mul::lemma_mul_unary_negation(f.2, SCALE as int);
    crate::fx::lemma_mul_div_exact(-f.2, SCALE as int);
    crate::fx::lemma_mul_div_exact(f.0, SCALE as int);
    vstd::arithmetic::div_mod::lemma_div_of0(SCALE as int);
    assert(f.1 * 0 == 0) by (nonlinear_arith);
    assert(f.2 * 0 == 0) by (nonlinear_arith);
    assert(f.0 * 0 == 0) by (nonlinear_arith);
    assert(f.1 * 0 - f.2 * (SCALE as int) == (-f.2) * SCALE);
    assert(f.2 * 0 - f.0 * 0 == 0);
    assert(f.0 * (SCALE as int) - f.1 * 0 == f.0 * SCALE);
}

/// Normalizing `w` disturbs its rescaled dot product with any vector `g`
/// only by the per-component rounding: with `n` the integer square root of
/// `|w|^2`, `n * (norm(w) . g)` stays within `3 * n * gb` of
/// `SCALE * (w . g)`, where `gb` bounds `g`'s components.
pub proof fn lemma_norm_dot(w: (int, int, int), g: (int, int, int), gb: int)
    requires
        s_dot_raw(w, w) >= MIN_SQ,
        -gb <= g.0 <= gb,
        -gb <= g.1 <= gb,
        -gb <= g.2 <= gb,
        0 <= gb,
    ensures
        ({
            let n = sqrt_floor(s_dot_raw(w, w));
            let r = s_norm(w);
            n >= 131072 && SCALE * s_dot_raw(w, g) - 3 * (n * gb) <= n * s_dot_raw(r, g)
                && n * s_dot_raw(r, g) <= SCALE * s_dot_raw(w, g) + 3 * (n * gb)
        }),
{
    let s = s_dot_raw(w, w);
    lemma_sqrt_floor_def(s);
    let n = sqrt_floor(s);
    assert(n >= 131072) by (nonlinear_arith)
        requires
            s < (n + 1) * (n + 1),
            s >= 17179869184,
            0 <= n,
    ;
    lemma_fundamental_div_mod(w.0 * SCALE, n);
    lemma_fundamental_div_mod(w.1 * SCALE, n);
    lemma_fundamental_div_mod(w.2 * SCALE, n);
    lemma_mod_bound(w.0 * SCALE, n);
    lemma_mod_bound(w.1 * SCALE, n);
    lemma_mod_bound(w.2 * SCALE, n);
    let q0 = w.0 * SCALE / n;
    let q1 = w.1 * SCALE / n;
    let q2 = w.2 * SCALE / n;
    let p0 = w.0 * SCALE % n;
    let p1 = w.1 * SCALE % n;
    let p2 = w.2 * SCALE % n;
    assert(n * (q0 * g.0) == SCALE * (w.0 * g.0) - p0 * g.0) by (nonlinear_arith)
        requires
            w.0 * SCALE == n * q0 + p0,
    ;
    assert(n * (q1 * g.1) == SCALE * (w.1 * g.1) - p1 * g.1) by (nonlinear_arith)
        requires
            w.1 * SCALE == n * q1 + p1,
    ;
    assert(n * (q2 * g.2) == SCALE * (w.2 * g.2) - p2 * g.2) by (nonlinear_arith)
        requires
            w.2 * SCALE == n * q2 + p2,
    ;
    lemma_abs_mul_le(p0, g.0, n, gb);
    lemma_abs_mul_le(p1, g.1, n, gb);
    lemma_abs_mul_le(p2, g.2, n, gb);
    assert(n * (q0 * g.0 + q1 * g.1 + q2 * g.2) == n * (q0 * g.0) + n * (q1 * g.1) + n * (q2
        * g.2)) by (nonlinear_arith);
    assert(s_norm(w) == ((q0, q1, q2)));
}

/// Bounding `n * x` by `k * (n * b)` with `n` positive bounds `x` by `k * b`.
proof fn lemma_cancel_scaled(n: int, x: int, b: int, k: int)
    by (nonlinear_arith)
    requires
        1 <= n,
        0 <= b,
        0 <= k,
        -(k * (n * b)) <= n * x,
        n * x <= k * (n * b),
    ensures
        -(k * b) <= x <= k * b,
{
}

/// Orthogonality: in every well-formed state the three pairwise dot
/// products of the basis vectors are at most `196 * SCALE` in raw scale —
/// dividing by `SCALE^2` (two unit vectors), each cosine is at most
/// `2.4e-5`, inside a `1e-4` tolerance.
pub proof fn lemma_orthogonality(c: Camera)
    requires
        c.wf(),
    ensures
        -4 * (SCALE as int) <= s_dot_raw(sv(c.right), sv(c.forward)) <= 4 * (SCALE as int),
        -196 * (SCALE as int) <= s_dot_raw(sv(c.up), sv(c.forward)) <= 196 * (SCALE as int),
        -196 * (SCALE as int) <= s_dot_raw(sv(c.up), sv(c.right)) <= 196 * (SCALE as int),
{
    let f = sv(c.forward);
    let r = sv(c.right);
    let u = sv(c.up);
    let gb = SCALE as int + 1;
    lemma_cross_world_up(f);
    let w = (-f.2, 0int, f.0);
    assert(s_dot_raw(w, f) == (-f.2) * f.0 + 0 * f.1 + f.0 * f.2);
    assert((-f.2) * f.0 + 0 * f.1 + f.0 * f.2 == 0) by (nonlinear_arith);
    if s_dot_raw(w, w) < MIN_SQ {
        assert(r == (0int, 0int, 0int));
        assert(0int * f.0 == 0 && 0int * f.1 == 0 && 0int * f.2 == 0) by (nonlinear_arith);
        assert(s_dot_raw(r, f) == 0);
    } else {
        lemma_norm_dot(w, f, gb);
        let n = sqrt_floor(s_dot_raw(w, w));
        lemma_cancel_scaled(n, s_dot_raw(r, f), gb, 3);
    }
    let uw = s_cross(r, f);
    let n0 = r.1 * f.2 - r.2 * f.1;
    let n1 = r.2 * f.0 - r.0 * f.2;
    let n2 = r.0 * f.1 - r.1 * f.0;
    lemma_fundamental_div_mod(n0, SCALE as int);
    lemma_fundamental_div_mod(n1, SCALE as int);
    lemma_fundamental_div_mod(n2, SCALE as int);
    lemma_mod_bound(n0, SCALE as int);
    lemma_mod_bound(n1, SCALE as int);
    lemma_mod_bound(n2, SCALE as int);
    let r0 = n0 % (SCALE as int);
    let r1 = n1 % (SCALE as int);
    let r2 = n2 % (SCALE as int);
    // the exact cross product is orthogonal to both factors
    assert(n0 * f.0 + n1 * f.1 + n2 * f.2 == 0) by (nonlinear_arith)
        requires
            n0 == r.1 * f.2 - r.2 * f.1,
            n1 == r.2 * f.0 - r.0 * f.2,
            n2 == r.0 * f.1 - r.1 * f.0,
    ;
    assert(n0 * r.0 + n1 * r.1 + n2 * r.2 == 0) by (nonlinear_arith)
        requires
            n0 == r.1 * f.2 - r.2 * f.1,
            n1 == r.2 * f.0 - r.0 * f.2,
            n2 == r.0 * f.1 - r.1 * f.0,
    ;
    assert(SCALE * (uw.0 * f.0) == (n0 - r0) * f.0) by (nonlinear_arith)
        requires
            n0 == (SCALE as int) * uw.0 + r0,
    ;
    assert(SCALE * (uw.1 * f.1) == (n1 - r1) * f.1) by (nonlinear_arith)
        requires
            n1 == (SCALE as int) * uw.1 + r1,
    ;
    assert(SCALE * (uw.2 * f.2) == (n2 - r2) * f.2) by (nonlinear_arith)
        requires
            n2 == (SCALE as int) * uw.2 + r2,
    ;
    assert(SCALE * (uw.0 * r.0) == (n0 - r0) * r.0) by (nonlinear_arith)
        requires
            n0 == (SCALE as int) * uw.0 + r0,
    ;
    assert(SCALE * (uw.1 * r.1) == (n1 - r1) * r.1) by (nonlinear_arith)
        requires
            n1 == (SCALE as int) * uw.1 + r1,
    ;
    assert(SCALE * (uw.2 * r.2) == (n2 - r2) * r.2) by (nonlinear_arith)
        requires
            n2 == (SCALE as int) * uw.2 + r2,
    ;
    assert((n0 - r0) * f.0 == n0 * f.0 - r0 * f.0) by (nonlinear_arith);
    assert((n1 - r1) * f.1 == n1 * f.1 - r1 * f.1) by (nonlinear_arith);
    assert((n2 - r2) * f.2 == n2 * f.2 - r2 * f.2) by (nonlinear_arith);
    assert((n0 - r0) * r.0 == n0 * r.0 - r0 * r.0) by (nonlinear_arith);
    assert((n1 - r1) * r.1 == n1 * r.1 - r1 * r.1) by (nonlinear_arith);
    assert((n2 - r2) * r.2 == n2 * r.2 - r2 * r.2) by (nonlinear_arith);
    lemma_abs_mul_le(r0, f.0, SCALE as int, gb);
    lemma_abs_mul_le(r1, f.1, SCALE as int, gb);
    lemma_abs_mul_le(r2, f.2, SCALE as int, gb);
    lemma_abs_mul_le(r0, r.0, SCALE as int, gb);
    lemma_abs_mul_le(r1, r.1, SCALE as int, gb);
    lemma_abs_mul_le(r2, r.2, SCALE as int, gb);
    assert(-3 * ((SCALE as int) * gb) <= SCALE * s_dot_raw(uw, f) <= 3 * ((SCALE as int) * gb));
    assert(-3 * gb <= s_dot_raw(uw, f) <= 3 * gb) by (nonlinear_arith)
        requires
            -3 * ((SCALE as int) * gb) <= (SCALE as int) * s_dot_raw(uw, f),
            (SCALE as int) * s_dot_raw(uw, f) <= 3 * ((SCALE as int) * gb),
            SCALE == 8388608,
            gb == (SCALE as int) + 1,
    ;
    assert(-3 * gb <= s_dot_raw(uw, r) <= 3 * gb) by (nonlinear_arith)
        requires
            -3 * ((SCALE as int) * gb) <= (SCALE as int) * s_dot_raw(uw, r),
            (SCALE as int) * s_dot_raw(uw, r) <= 3 * ((SCALE as int) * gb),
            SCALE == 8388608,
            gb == (SCALE as int) + 1,
    ;
    if s_dot_raw(uw, uw) < MIN_SQ {
        assert(u == (0int, 0int, 0int));
        assert(0int * f.0 == 0 && 0int * f.1 == 0 && 0int * f.2 == 0) by (nonlinear_arith);
        assert(0int * r.0 == 0 && 0int * r.1 == 0 && 0int * r.2 == 0) by (nonlinear_arith);
        assert(s_dot_raw(u, f) == 0);
        assert(s_dot_raw(u, r) == 0);
    } else {
        lemma_norm_dot(uw, f, gb);
        lemma_norm_dot(uw, r, gb);
        let m = sqrt_floor(s_dot_raw(uw, uw));
        assert(-195 * (m * gb) <= m * s_dot_raw(u, f) <= 195 * (m * gb)) by (nonlinear_arith)
            requires
                (SCALE as int) * s_dot_raw(uw, f) - 3 * (m * gb) <= m * s_dot_raw(u, f),
                m * s_dot_raw(u, f) <= (SCALE as int) * s_dot_raw(uw, f) + 3 * (m * gb),
                -3 * gb <= s_dot_raw(uw, f) <= 3 * gb,
                m >= 131072,
                SCALE == 8388608,
                0 <= gb,
        ;
        assert(-195 * (m * gb) <= m * s_dot_raw(u, r) <= 195 * (m * gb)) by (nonlinear_arith)
            requires
                (SCALE as int) * s_dot_raw(uw, r) - 3 * (m * gb) <= m * s_dot_raw(u, r),
                m * s_dot_raw(u, r) <= (SCALE as int) * s_dot_raw(uw, r) + 3 * (m * gb),
                -3 * gb <= s_dot_raw(uw, r) <= 3 * gb,
                m >= 131072,
                SCALE == 8388608,
                0 <= gb,
        ;
        lemma_cancel_scaled(m, s_dot_raw(u, f), gb, 195);
        lemma_cancel_scaled(m, s_dot_raw(u, r), gb, 195);
    }
}

/// For any horizontal unit-length forward direction (zero y-component),
/// re-deriving right and then up lands up exactly on the world-up axis.
proof fn lemma_level_up(f: (int, int, int))
    requires
        f.1 == 0,
        s_unit_ish(f),
        s_in_range(f, SCALE as int + 1),
    ensures
        s_norm(s_cross(s_norm(s_cross(f, s_world_up())), f)) == s_world_up(),
{
    let sc = SCALE as int;
    assert(sc * sc == 70368744177664) by (nonlinear_arith)
        requires
            sc == 8388608,
    ;
    lemma_cross_world_up(f);
    let w = (-f.2, 0int, f.0);
    assert((-f.2) * (-f.2) == f.2 * f.2) by (nonlinear_arith);
    assert(f.1 * f.1 == 0) by (nonlinear_arith)
        requires
            f.1 == 0,
    ;
    assert(0int * 0int == 0);
    let sw = s_dot_raw(w, w);
    assert(sw == s_dot_raw(f, f));
    assert(70368710623232 <= sw <= 70369851473920);
    lemma_sqrt_floor_def(sw);
    let m = sqrt_floor(sw);
    assert(is_sqrt_floor(sw, m));
    assert(8388605 <= m <= 8388673) by (nonlinear_arith)
        requires
            m * m <= sw,
            sw < (m + 1) * (m + 1),
            0 <= m,
            70368710623232 <= sw <= 70369851473920,
    ;
    let r = s_norm(w);
    assert(0int * sc == 0);
    vstd::arithmetic::div_mod::lemma_div_of0(m);
    assert(r == ((w.0 * sc / m, 0int, w.2 * sc / m)));
    assert(r.1 == 0);
    lemma_fundamental_div_mod(w.0 * sc, m);
    lemma_fundamental_div_mod(w.2 * sc, m);
    lemma_mod_bound(w.0 * sc, m);
    lemma_mod_bound(w.2 * sc, m);
    let p0 = w.0 * sc % m;
    let p2 = w.2 * sc % m;
    let uw = s_cross(r, f);
    assert(r.1 * f.2 == 0) by (nonlinear_arith)
        requires
            r.1 == 0,
    ;
    assert(r.2 * f.1 == 0) by (nonlinear_arith)
        requires
            f.1 == 0,
    ;
    assert(r.0 * f.1 == 0) by (nonlinear_arith)
        requires
            f.1 == 0,
    ;
    assert(r.1 * f.0 == 0) by (nonlinear_arith)
        requires
            r.1 == 0,
    ;
    vstd::arithmetic::div_mod::lemma_div_of0(sc);
    assert(uw.0 == 0);
    assert(uw.2 == 0);
    let xx = r.2 * f.0 - r.0 * f.2;
    assert(m * (r.2 * f.0) == sc * (f.0 * f.0) - p2 * f.0) by (nonlinear_arith)
        requires
            f.0 * sc == m * (r.2) + p2,
    ;
    assert(m * (r.0 * f.2) == -(sc * (f.2 * f.2)) - p0 * f.2) by (nonlinear_arith)
        requires
            (-f.2) * sc == m * (r.0) + p0,
    ;
    assert(m * xx == m * (r.2 * f.0) - m * (r.0 * f.2)) by (nonlinear_arith)
        requires
            xx == r.2 * f.0 - r.0 * f.2,
    ;
    lemma_abs_mul_le(p2, f.0, m, sc + 1);
    lemma_abs_mul_le(p0, f.2, m, sc + 1);
    assert(m * xx >= sc * sw - m * (sc + 1) - m * (sc + 1));
    assert(xx >= 70368148590978) by (nonlinear_arith)
        requires
            m * xx >= 8388608 * sw - m * 8388609 - m * 8388609,
            sw >= 70368710623232,
            1 <= m <= 8388673,
    ;
    let yy = uw.1;
    assert(yy == xx / sc);
    vstd::arithmetic::div_mod::lemma_div_is_ordered(70368148590978, xx, sc);
    assert(yy >= 8388537);
    assert(s_dot_raw(uw, uw) == yy * yy);
    assert(yy * yy >= MIN_SQ) by (nonlinear_arith)
        requires
            yy >= 8388537,
    ;
    assert(is_sqrt_floor(yy * yy, yy)) by (nonlinear_arith)
        requires
            0 <= yy,
    ;
    lemma_sqrt_floor_def(yy * yy);
    lemma_sqrt_floor_unique(yy * yy, sqrt_floor(yy * yy), yy);
    vstd::arithmetic::div_mod::lemma_div_of0(yy);
    vstd::arithmetic::mul::lemma_mul_is_commutative(yy, sc);
    crate::fx::lemma_mul_div_exact(sc, yy);
    assert(s_norm(uw) == ((0int, sc, 0int)));
}

/// No-roll yaw: starting from the default basis, a yaw-only rotation leaves
/// up exactly at the world-up axis — the horizon stays level, with zero
/// component along world-right and a full positive unit along world-up.
pub proof fn lemma_no_roll_yaw(c0: Camera, c1: Camera, yaw: int)
    requires
        c0.wf(),
        sv(c0.forward) == (0int, 0int, -(SCALE as int)),
        rotated_from(c0, c1, yaw, 0),
    ensures
        sv(c1.up) == s_world_up(),
{
    let sc = SCALE as int;
    assert(sc * sc == 70368744177664) by (nonlinear_arith)
        requires
            sc == 8388608,
    ;
    lemma_sin_cos_zero();
    let f0 = (0int, 0int, -sc);
    assert((-sc) * (-sc) == sc * sc) by (nonlinear_arith);
    assert(0int * 0int == 0);
    assert(s_dot_raw(f0, f0) == sc * sc);
    assert(s_unit_ish(f0));
    let f2 = sv(c1.forward);
    if s_sin_cos(yaw) == (0int, sc) {
        assert(f2 == f0);
        lemma_level_up(f2);
    } else {
        let scy = s_sin_cos(yaw);
        let sy = scy.0;
        let cy = scy.1;
        crate::trig::lemma_sin_cos_bounds(yaw);
        let rot = crate::camera::s_rotate(s_world_up(), scy, f0);
        vstd::arithmetic::div_mod::lemma_div_of0(sc);
        assert(sc * (-sc) == -(sc * sc)) by (nonlinear_arith);
        crate::fx::lemma_neg_div(sc * sc, sc);
        crate::fx::lemma_mul_div_exact(sc, sc);
        assert(0int * 0int == 0 && 0int * (-sc) == 0 && sc * 0int == 0 && 0int * sc == 0);
        assert(s_cross(s_world_up(), f0) == ((-sc, 0int, 0int)));
        assert(s_dot_raw(s_world_up(), f0) == 0);
        assert(0int * (sc - cy) == 0) by (nonlinear_arith);
        assert(0int * cy == 0 && 0int * sy == 0);
        assert((-sc) * sy == (-sy) * sc) by (nonlinear_arith);
        assert((-sc) * cy == (-cy) * sc) by (nonlinear_arith);
        crate::fx::lemma_mul_div_exact(-sy, sc);
        crate::fx::lemma_mul_div_exact(-cy, sc);
        assert(rot == ((-sy, 0int, -cy)));
        assert((-sy) * (-sy) == sy * sy) by (nonlinear_arith);
        assert((-cy) * (-cy) == cy * cy) by (nonlinear_arith);
        assert(s_dot_raw(rot, rot) == sy * sy + cy * cy);
        assert(s_dot_raw(rot, rot) >= MIN_SQ);
        lemma_norm_unit(rot);
        crate::vec3::lemma_norm_range(rot);
        assert(f2 == s_norm(rot));
        lemma_sqrt_floor_def(s_dot_raw(rot, rot));
        let n2 = sqrt_floor(s_dot_raw(rot, rot));
        assert(is_sqrt_floor(s_dot_raw(rot, rot), n2));
        assert(n2 >= 1) by (nonlinear_arith)
            requires
                (n2 + 1) * (n2 + 1) > 17179869184,
                0 <= n2,
        ;
        assert(0int * sc == 0);
        vstd::arithmetic::div_mod::lemma_div_of0(n2);
        assert(f2.1 == 0);
        lemma_level_up(f2);
    }
}

/// Rotating all components of both operands cyclically rotates the cross
/// product's components the same way.
proof fn lemma_cross_cyclic(a: (int, int, int), b: (int, int, int))
    ensures
        s_cross((a.1, a.2, a.0), (b.1, b.2, b.0)) == ((
            s_cross(a, b).1,
            s_cross(a, b).2,
            s_cross(a, b).0,
        )),
{
}

/// Rotating the components cyclically commutes with normalization.
proof fn lemma_norm_cyclic(v: (int, int, int))
    ensures
        s_norm((v.1, v.2, v.0)) == ((s_norm(v).1, s_norm(v).2, s_norm(v).0)),
{
    assert(s_dot_raw((v.1, v.2, v.0), (v.1, v.2, v.0)) == s_dot_raw(v, v));
}

/// One component of the vector triple product: for any `r` and `f`,
/// `(f x (r x f)).0 == r.0 * (f . f) - f.0 * (r . f)`, written out.
proof fn lemma_triple_comp(r0: int, r1: int, r2: int, f0: int, f1: int, f2: int)
    ensures
        f1 * (r0 * f1 - r1 * f0) - f2 * (r2 * f0 - r0 * f2) == r0 * (f0 * f0 + f1 * f1 + f2 * f2)
            - f0 * (r0 * f0 + r1 * f1 + r2 * f2),
{
    assert(f1 * (r0 * f1 - r1 * f0) == f1 * (r0 * f1) - f1 * (r1 * f0)) by (nonlinear_arith);
    assert(f2 * (r2 * f0 - r0 * f2) == f2 * (r2 * f0) - f2 * (r0 * f2)) by (nonlinear_arith);
    assert(r0 * (f0 * f0 + f1 * f1 + f2 * f2) == r0 * (f0 * f0) + r0 * (f1 * f1) + r0 * (f2
        * f2)) by (nonlinear_arith);
    assert(f0 * (r0 * f0 + r1 * f1 + r2 * f2) == f0 * (r0 * f0) + f0 * (r1 * f1) + f0 * (r2
        * f2)) by (nonlinear_arith);
    assert(f1 * (r0 * f1) == r0 * (f1 * f1)) by (nonlinear_arith);
    assert(f1 * (r1 * f0) == f0 * (r1 * f1)) by (nonlinear_arith);
    assert(f2 * (r2 * f0) == f0 * (r2 * f2)) by (nonlinear_arith);
    assert(f2 * (r0 * f2) == r0 * (f2 * f2)) by (nonlinear_arith);
    assert(r0 * (f0 * f0) == f0 * (r0 * f0)) by (nonlinear_arith);
}

/// The Lagrange identity: the squared length of the exact cross product is
/// `|r|^2 |f|^2 - (r . f)^2`.
proof fn lemma_lagrange(r: (int, int, int), f: (int, int, int), n0: int, n1: int, n2: int)
    requires
        n0 == r.1 * f.2 - r.2 * f.1,
        n1 == r.2 * f.0 - r.0 * f.2,
        n2 == r.0 * f.1 - r.1 * f.0,
    ensures
        n0 * n0 + n1 * n1 + n2 * n2 == (r.0 * r.0 + r.1 * r.1 + r.2 * r.2) * (f.0 * f.0 + f.1
            * f.1 + f.2 * f.2) - (r.0 * f.0 + r.1 * f.1 + r.2 * f.2) * (r.0 * f.0 + r.1 * f.1
            + r.2 * f.2),
{
    let sf = f.0 * f.0 + f.1 * f.1 + f.2 * f.2;
    let sr = r.0 * r.0 + r.1 * r.1 + r.2 * r.2;
    let df = r.0 * f.0 + r.1 * f.1 + r.2 * f.2;
    lemma_triple_comp(r.0, r.1, r.2, f.0, f.1, f.2);
    lemma_triple_comp(r.1, r.2, r.0, f.1, f.2, f.0);
    lemma_triple_comp(r.2, r.0, r.1, f.2, f.0, f.1);
    assert(f.1 * n2 - f.2 * n1 == r.0 * sf - f.0 * df);
    assert(f.2 * n0 - f.0 * n2 == r.1 * sf - f.1 * df);
    assert(f.0 * n1 - f.1 * n0 == r.2 * sf - f.2 * df);
    // the dot of the cross with itself, cycled so the triple components apply
    assert(n0 * (r.1 * f.2 - r.2 * f.1) == n0 * (r.1 * f.2) - n0 * (r.2 * f.1))
        by (nonlinear_arith);
    assert(n1 * (r.2 * f.0 - r.0 * f.2) == n1 * (r.2 * f.0) - n1 * (r.0 * f.2))
        by (nonlinear_arith);
    assert(n2 * (r.0 * f.1 - r.1 * f.0) == n2 * (r.0 * f.1) - n2 * (r.1 * f.0))
        by (nonlinear_arith);
    assert(r.0 * (f.1 * n2 - f.2 * n1) == r.0 * (f.1 * n2) - r.0 * (f.2 * n1))
        by (nonlinear_arith);
    assert(r.1 * (f.2 * n0 - f.0 * n2) == r.1 * (f.2 * n0) - r.1 * (f.0 * n2))
        by (nonlinear_arith);
    assert(r.2 * (f.0 * n1 - f.1 * n0) == r.2 * (f.0 * n1) - r.2 * (f.1 * n0))
        by (nonlinear_arith);
    assert(n0 * (r.1 * f.2) == r.1 * (f.2 * n0)) by (nonlinear_arith);
    assert(n0 * (r.2 * f.1) == r.2 * (f.1 * n0)) by (nonlinear_arith);
    assert(n1 * (r.2 * f.0) == r.2 * (f.0 * n1)) by (nonlinear_arith);
    assert(n1 * (r.0 * f.2) == r.0 * (f.2 * n1)) by (nonlinear_arith);
    assert(n2 * (r.0 * f.1) == r.0 * (f.1 * n2)) by (nonlinear_arith);
    assert(n2 * (r.1 * f.0) == r.1 * (f.0 * n2)) by (nonlinear_arith);
    assert(n0 * n0 == n0 * (r.1 * f.2 - r.2 * f.1));
    assert(n1 * n1 == n1 * (r.2 * f.0 - r.0 * f.2));
    assert(n2 * n2 == n2 * (r.0 * f.1 - r.1 * f.0));
    assert(n0 * n0 + n1 * n1 + n2 * n2 == r.0 * (f.1 * n2 - f.2 * n1) + r.1 * (f.2 * n0 - f.0
        * n2) + r.2 * (f.0 * n1 - f.1 * n0));
    assert(r.0 * (r.0 * sf - f.0 * df) == sf * (r.0 * r.0) - df * (r.0 * f.0))
        by (nonlinear_arith);
    assert(r.1 * (r.1 * sf - f.1 * df) == sf * (r.1 * r.1) - df * (r.1 * f.1))
        by (nonlinear_arith);
    assert(r.2 * (r.2 * sf - f.2 * df) == sf * (r.2 * r.2) - df * (r.2 * f.2))
        by (nonlinear_arith);
    assert(sf * (r.0 * r.0) + sf * (r.1 * r.1) + sf * (r.2 * r.2) == sr * sf)
        by (nonlinear_arith)
        requires
            sr == r.0 * r.0 + r.1 * r.1 + r.2 * r.2,
    ;
    assert(df * (r.0 * f.0) + df * (r.1 * f.1) + df * (r.2 * f.2) == df * df)
        by (nonlinear_arith)
        requires
            df == r.0 * f.0 + r.1 * f.1 + r.2 * f.2,
    ;
}

/// The first component of `forward x up` is within 156 raw steps of the
/// first component of `right`, for any well-formed triple: the error budget
/// collects one rounding per normalization and cross-product step.
proof fn lemma_handed_comp(f: (int, int, int), r: (int, int, int), u: (int, int, int))
    requires
        s_unit_ish(f),
        s_unit_ish(r),
        s_in_range(f, SCALE as int + 1),
        s_in_range(r, SCALE as int + 1),
        u == s_norm(s_cross(r, f)),
        -4 * (SCALE as int) <= s_dot_raw(r, f) <= 4 * (SCALE as int),
    ensures
        -156 <= s_cross(f, u).0 - r.0 <= 156,
{
    let sc = SCALE as int;
    assert(sc * sc == 70368744177664) by (nonlinear_arith)
        requires
            sc == 8388608,
    ;
    let sf = s_dot_raw(f, f);
    let sr = s_dot_raw(r, r);
    let df = s_dot_raw(r, f);
    let n0 = r.1 * f.2 - r.2 * f.1;
    let n1 = r.2 * f.0 - r.0 * f.2;
    let n2 = r.0 * f.1 - r.1 * f.0;
    let uw = s_cross(r, f);
    lemma_fundamental_div_mod(n0, sc);
    lemma_fundamental_div_mod(n1, sc);
    lemma_fundamental_div_mod(n2, sc);
    lemma_mod_bound(n0, sc);
    lemma_mod_bound(n1, sc);
    lemma_mod_bound(n2, sc);
    let p0 = n0 % sc;
    let p1 = n1 % sc;
    let p2 = n2 % sc;
    assert(uw == ((n0 / sc, n1 / sc, n2 / sc)));
    lemma_lagrange(r, f, n0, n1, n2);
    assert(n0 * n0 + n1 * n1 + n2 * n2 == sr * sf - df * df);
    assert(4951755434776164129858125824 <= sr * sf <= 4951915996461560796440166400)
        by (nonlinear_arith)
        requires
            70368710623232 <= sr <= 70369851473920,
            70368710623232 <= sf <= 70369851473920,
    ;
    assert(0 <= df * df <= 1125899906842624) by (nonlinear_arith)
        requires
            -33554432 <= df <= 33554432,
    ;
    lemma_abs_mul_le(r.1, f.2, 8388609, 8388609);
    lemma_abs_mul_le(r.2, f.1, 8388609, 8388609);
    lemma_abs_mul_le(r.2, f.0, 8388609, 8388609);
    lemma_abs_mul_le(r.0, f.2, 8388609, 8388609);
    lemma_abs_mul_le(r.0, f.1, 8388609, 8388609);
    lemma_abs_mul_le(r.1, f.0, 8388609, 8388609);
    assert(-140737521909762 <= n0 <= 140737521909762);
    lemma_abs_mul_le(n0, p0, 140737521909762, sc);
    lemma_abs_mul_le(n1, p1, 140737521909762, sc);
    lemma_abs_mul_le(n2, p2, 140737521909762, sc);
    lemma_abs_mul_le(p0, p0, sc, sc);
    lemma_abs_mul_le(p1, p1, sc, sc);
    lemma_abs_mul_le(p2, p2, sc, sc);
    crate::fx::lemma_fxsq_nonneg(p0);
    crate::fx::lemma_fxsq_nonneg(p1);
    crate::fx::lemma_fxsq_nonneg(p2);
    assert(sc * sc * (uw.0 * uw.0) == n0 * n0 - 2 * (n0 * p0) + p0 * p0) by (nonlinear_arith)
        requires
            n0 == sc * (uw.0) + p0,
            sc == 8388608,
    ;
    assert(sc * sc * (uw.1 * uw.1) == n1 * n1 - 2 * (n1 * p1) + p1 * p1) by (nonlinear_arith)
        requires
            n1 == sc * (uw.1) + p1,
            sc == 8388608,
    ;
    assert(sc * sc * (uw.2 * uw.2) == n2 * n2 - 2 * (n2 * p2) + p2 * p2) by (nonlinear_arith)
        requires
            n2 == sc * (uw.2) + p2,
            sc == 8388608,
    ;
    let xx = s_dot_raw(uw, uw);
    assert(4951748351223625075522535424 <= 70368744177664 * xx <= 4951923080013185057101447168);
    assert(70368576405479 <= xx <= 70371059450924);
    lemma_sqrt_floor_def(xx);
    let m = sqrt_floor(xx);
    assert(is_sqrt_floor(xx, m));
    assert(8388597 <= m <= 8388745) by (nonlinear_arith)
        requires
            m * m <= xx,
            xx < (m + 1) * (m + 1),
            0 <= m,
            70368576405479 <= xx <= 70371059450924,
    ;
    assert(xx >= MIN_SQ);
    assert(u == ((uw.0 * sc / m, uw.1 * sc / m, uw.2 * sc / m)));
    lemma_fundamental_div_mod(uw.1 * sc, m);
    lemma_fundamental_div_mod(uw.2 * sc, m);
    lemma_mod_bound(uw.1 * sc, m);
    lemma_mod_bound(uw.2 * sc, m);
    let g1 = uw.1 * sc % m;
    let g2 = uw.2 * sc % m;
    // the y and z components of up, rescaled by m, against the exact cross
    assert(m * (f.1 * u.2) == f.1 * n2 - f.1 * p2 - f.1 * g2) by (nonlinear_arith)
        requires
            uw.2 * sc == m * (u.2) + g2,
            n2 == sc * (uw.2) + p2,
            sc == 8388608,
    ;
    assert(m * (f.2 * u.1) == f.2 * n1 - f.2 * p1 - f.2 * g1) by (nonlinear_arith)
        requires
            uw.1 * sc == m * (u.1) + g1,
            n1 == sc * (uw.1) + p1,
            sc == 8388608,
    ;
    // the vector triple product, first component
    lemma_triple_comp(r.0, r.1, r.2, f.0, f.1, f.2);
    assert(f.1 * n2 - f.2 * n1 == r.0 * sf - f.0 * df);
    let t0 = s_cross(f, u).0;
    lemma_fundamental_div_mod(f.1 * u.2 - f.2 * u.1, sc);
    lemma_mod_bound(f.1 * u.2 - f.2 * u.1, sc);
    let w0 = (f.1 * u.2 - f.2 * u.1) % sc;
    assert(m * (sc * t0) == m * (f.1 * u.2) - m * (f.2 * u.1) - m * w0) by (nonlinear_arith)
        requires
            f.1 * u.2 - f.2 * u.1 == sc * t0 + w0,
            sc == 8388608,
    ;
    let dd = t0 - r.0;
    assert(m * (sc * dd) == m * (sc * t0) - r.0 * (sc * m)) by (nonlinear_arith)
        requires
            dd == t0 - r.0,
            sc == 8388608,
    ;
    assert(r.0 * sf - r.0 * (sc * m) == r.0 * (sf - sc * m)) by (nonlinear_arith);
    assert(-1199570944 <= sf - sc * m <= 1199570944);
    lemma_abs_mul_le(r.0, sf - sc * m, 8388609, 1199570944);
    lemma_abs_mul_le(f.0, df, 8388609, 33554432);
    lemma_abs_mul_le(f.1, p2, 8388609, sc);
    lemma_abs_mul_le(f.2, p1, 8388609, sc);
    lemma_abs_mul_le(f.1, g2, 8388609, 8388745);
    lemma_abs_mul_le(f.2, g1, 8388609, 8388745);
    lemma_abs_mul_le(m, w0, 8388745, sc);
    assert(-10696053829402898 <= m * (sc * dd) <= 10696053829402898);
    assert(-156 <= dd <= 156) by (nonlinear_arith)
        requires
            -10696053829402898 <= m * (sc * dd) <= 10696053829402898,
            8388597 <= m,
            sc == 8388608,
    ;
}

/// Right-handedness: in every well-formed, non-degenerate state the cross
/// product of forward with up lies within 156 raw steps of right in each
/// component (`1.9e-5` of a unit, inside a `1e-4` tolerance).
pub proof fn lemma_right_handed(c: Camera)
    requires
        c.wf(),
        s_dot_raw(sv(c.forward), sv(c.forward)) >= MIN_SQ,
        s_dot_raw(
            s_cross(sv(c.forward), s_world_up()),
            s_cross(sv(c.forward), s_world_up()),
        ) >= MIN_SQ,
    ensures
        -156 <= s_cross(sv(c.forward), sv(c.up)).0 - sv(c.right).0 <= 156,
        -156 <= s_cross(sv(c.forward), sv(c.up)).1 - sv(c.right).1 <= 156,
        -156 <= s_cross(sv(c.forward), sv(c.up)).2 - sv(c.right).2 <= 156,
{
    let f = sv(c.forward);
    let r = sv(c.right);
    let u = sv(c.up);
    lemma_norm_unit(s_cross(f, s_world_up()));
    lemma_orthogonality(c);
    crate::vec3::lemma_norm_range(s_cross(f, s_world_up()));
    lemma_handed_comp(f, r, u);
    let f1 = (f.1, f.2, f.0);
    let r1 = (r.1, r.2, r.0);
    let u1 = (u.1, u.2, u.0);
    lemma_cross_cyclic(r, f);
    lemma_norm_cyclic(s_cross(r, f));
    assert(s_dot_raw(r1, f1) == s_dot_raw(r, f));
    assert(s_dot_raw(f1, f1) == s_dot_raw(f, f));
    assert(s_dot_raw(r1, r1) == s_dot_raw(r, r));
    lemma_handed_comp(f1, r1, u1);
    lemma_cross_cyclic(f, u);
    let f2 = (f.2, f.0, f.1);
    let r2 = (r.2, r.0, r.1);
    let u2 = (u.2, u.0, u.1);
    lemma_cross_cyclic(r1, f1);
    lemma_norm_cyclic(s_cross(r1, f1));
    assert(s_dot_raw(r2, f2) == s_dot_raw(r, f));
    assert(s_dot_raw(f2, f2) == s_dot_raw(f, f));
    assert(s_dot_raw(r2, r2) == s_dot_raw(r, r));
    lemma_handed_comp(f2, r2, u2);
    lemma_cross_cyclic(f1, u1);
}

} // verus!
