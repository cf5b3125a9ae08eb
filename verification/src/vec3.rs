//! Fixed-point 3-vectors: dot and cross products and normalization, with the
//! mathematical-integer model each contract is stated over.

use vstd::prelude::*;

verus! {

use crate::fx::{
    div_euclid_pos, is_sqrt_floor, isqrt, lemma_abs_mul_le, lemma_div_bound, lemma_fxsq_nonneg,
    sqrt_floor, LIM, MIN_SQ, SCALE,
};

/// A 3-component vector of fixed-point coordinates (raw steps of `1 / SCALE`).
#[derive(Clone, Copy, Debug, PartialEq, Eq, Structural)]
pub struct V3 {
    pub x: i64,
    pub y: i64,
    pub z: i64,
}

/// The mathematical-integer view of a vector.
pub open spec fn sv(v: V3) -> (int, int, int) {
    (v.x as int, v.y as int, v.z as int)
}

/// Every component has magnitude at most `m`.
pub open spec fn s_in_range(v: (int, int, int), m: int) -> bool {
    -m <= v.0 <= m && -m <= v.1 <= m && -m <= v.2 <= m
}

/// Dot product at raw scale (`SCALE * SCALE` steps per square unit).
pub open spec fn s_dot_raw(a: (int, int, int), b: (int, int, int)) -> int {
    a.0 * b.0 + a.1 * b.1 + a.2 * b.2
}

/// Cross product, each component rescaled by `SCALE` with Euclidean rounding.
pub open spec fn s_cross(a: (int, int, int), b: (int, int, int)) -> (int, int, int) {
    (
        (a.1 * b.2 - a.2 * b.1) / (SCALE as int),
        (a.2 * b.0 - a.0 * b.2) / (SCALE as int),
        (a.0 * b.1 - a.1 * b.0) / (SCALE as int),
    )
}

/// Rescaling to unit length: each component becomes `c * SCALE / n` where `n`
/// is the integer square root of the squared length.  A vector shorter than
/// 1/64 of a unit is degenerate and collapses to the zero vector.
pub open spec fn s_norm(v: (int, int, int)) -> (int, int, int) {
    let s = s_dot_raw(v, v);
    if s < MIN_SQ {
        (0int, 0int, 0int)
    } else {
        let n = sqrt_floor(s);
        (v.0 * SCALE / n, v.1 * SCALE / n, v.2 * SCALE / n)
    }
}

/// The fixed world-up reference axis: one unit along +Y.
pub open spec fn s_world_up() -> (int, int, int) {
    (0int, SCALE as int, 0int)
}

/// The squared length is within `4 * SCALE` below and `132 * SCALE` above
/// one square unit; the length itself is then within `8e-6` of one.
pub open spec fn s_unit_ish(v: (int, int, int)) -> bool {
    (SCALE as int) * SCALE - 4 * SCALE <= s_dot_raw(v, v) <= (SCALE as int) * SCALE + 132 * SCALE
}

/// The fixed world-up reference axis as a value.
pub fn world_up() -> (u: V3)
    ensures
        sv(u) == s_world_up(),
{
    V3 { x: 0, y: SCALE, z: 0 }
}

/// Componentwise vector sum.
pub fn vadd(a: &V3, b: &V3) -> (r: V3)
    requires
        i64::MIN <= a.x + b.x <= i64::MAX,
        i64::MIN <= a.y + b.y <= i64::MAX,
        i64::MIN <= a.z + b.z <= i64::MAX,
    ensures
        r.x == a.x + b.x,
        r.y == a.y + b.y,
        r.z == a.z + b.z,
{
    V3 { x: a.x + b.x, y: a.y + b.y, z: a.z + b.z }
}

/// Dot product rescaled by `SCALE` (unit scale), rounded like ghost `/`.
pub fn vdot(a: &V3, b: &V3) -> (r: i64)
    requires
        s_in_range(sv(*a), LIM as int),
        s_in_range(sv(*b), LIM as int),
    ensures
        r == s_dot_raw(sv(*a), sv(*b)) / (SCALE as int),
{
    proof {
        lemma_abs_mul_le(a.x as int, b.x as int, LIM as int, LIM as int);
        lemma_abs_mul_le(a.y as int, b.y as int, LIM as int, LIM as int);
        lemma_abs_mul_le(a.z as int, b.z as int, LIM as int, LIM as int);
    }
    let p: i64 = a.x * b.x + a.y * b.y + a.z * b.z;
    div_euclid_pos(p, SCALE)
}

/// Cross product rescaled by `SCALE`, each component rounded like ghost `/`.
pub fn vcross(a: &V3, b: &V3) -> (r: V3)
    requires
        s_in_range(sv(*a), LIM as int),
        s_in_range(sv(*b), LIM as int),
    ensures
        sv(r) == s_cross(sv(*a), sv(*b)),
{
    proof {
        lemma_abs_mul_le(a.y as int, b.z as int, LIM as int, LIM as int);
        lemma_abs_mul_le(a.z as int, b.y as int, LIM as int, LIM as int);
        lemma_abs_mul_le(a.z as int, b.x as int, LIM as int, LIM as int);
        lemma_abs_mul_le(a.x as int, b.z as int, LIM as int, LIM as int);
        lemma_abs_mul_le(a.x as int, b.y as int, LIM as int, LIM as int);
        lemma_abs_mul_le(a.y as int, b.x as int, LIM as int, LIM as int);
    }
    let cx: i64 = div_euclid_pos(a.y * b.z - a.z * b.y, SCALE);
    let cy: i64 = div_euclid_pos(a.z * b.x - a.x * b.z, SCALE);
    let cz: i64 = div_euclid_pos(a.x * b.y - a.y * b.x, SCALE);
    V3 { x: cx, y: cy, z: cz }
}

/// Rescales `v` to unit length (squared length within `s_unit_ish` of one,
/// see `lemma_norm_unit`); a degenerate input collapses to the zero vector.
pub fn vnormalize(v: &V3) -> (r: V3)
    requires
        s_in_range(sv(*v), LIM as int),
    ensures
        sv(r) == s_norm(sv(*v)),
        s_in_range(sv(r), SCALE as int + 1),
{
    proof {
        lemma_abs_mul_le(v.x as int, v.x as int, LIM as int, LIM as int);
        lemma_abs_mul_le(v.y as int, v.y as int, LIM as int, LIM as int);
        lemma_abs_mul_le(v.z as int, v.z as int, LIM as int, LIM as int);
        lemma_fxsq_nonneg(v.x as int);
        lemma_fxsq_nonneg(v.y as int);
        lemma_fxsq_nonneg(v.z as int);
    }
    let s: i64 = v.x * v.x + v.y * v.y + v.z * v.z;
    if s < MIN_SQ {
        V3 { x: 0, y: 0, z: 0 }
    } else {
        let n: u64 = isqrt(s as u64);
        proof {
            assert(n >= 131072) by (nonlinear_arith)
                requires
                    (n as int + 1) * (n as int + 1) > 17179869184,
                    0 <= n,
            ;
            lemma_comp_le_sqrt(v.x as int, s as int, n as int);
            lemma_comp_le_sqrt(v.y as int, s as int, n as int);
            lemma_comp_le_sqrt(v.z as int, s as int, n as int);
        }
        let ni: i64 = n as i64;
        let rx: i64 = div_euclid_pos(v.x * SCALE, ni);
        let ry: i64 = div_euclid_pos(v.y * SCALE, ni);
        let rz: i64 = div_euclid_pos(v.z * SCALE, ni);
        proof {
            lemma_norm_comp_range(v.x as int, s as int, n as int);
            lemma_norm_comp_range(v.y as int, s as int, n as int);
            lemma_norm_comp_range(v.z as int, s as int, n as int);
        }
        V3 { x: rx, y: ry, z: rz }
    }
}

/// Componentwise bounds on the operands bound the cross product.
pub proof fn lemma_cross_range(a: (int, int, int), b: (int, int, int), ma: int, mb: int)
    requires
        s_in_range(a, ma),
        s_in_range(b, mb),
        0 <= ma,
        0 <= mb,
    ensures
        s_in_range(s_cross(a, b), 2 * (ma * mb) / (SCALE as int) + 1),
{
    lemma_abs_mul_le(a.1, b.2, ma, mb);
    lemma_abs_mul_le(a.2, b.1, ma, mb);
    lemma_abs_mul_le(a.2, b.0, ma, mb);
    lemma_abs_mul_le(a.0, b.2, ma, mb);
    lemma_abs_mul_le(a.0, b.1, ma, mb);
    lemma_abs_mul_le(a.1, b.0, ma, mb);
    assert(0 <= ma * mb) by (nonlinear_arith)
        requires
            0 <= ma,
            0 <= mb,
    ;
    lemma_div_bound(a.1 * b.2 - a.2 * b.1, 2 * (ma * mb), SCALE as int);
    lemma_div_bound(a.2 * b.0 - a.0 * b.2, 2 * (ma * mb), SCALE as int);
    lemma_div_bound(a.0 * b.1 - a.1 * b.0, 2 * (ma * mb), SCALE as int);
}

/// Componentwise bounds on the operands bound the rescaled dot product.
pub proof fn lemma_dot_range(a: (int, int, int), b: (int, int, int), ma: int, mb: int)
    requires
        s_in_range(a, ma),
        s_in_range(b, mb),
        0 <= ma,
        0 <= mb,
    ensures
        -(3 * (ma * mb) / (SCALE as int)) - 1 <= s_dot_raw(a, b) / (SCALE as int) <= 3 * (ma * mb)
            / (SCALE as int),
{
    lemma_abs_mul_le(a.0, b.0, ma, mb);
    lemma_abs_mul_le(a.1, b.1, ma, mb);
    lemma_abs_mul_le(a.2, b.2, ma, mb);
    assert(0 <= ma * mb) by (nonlinear_arith)
        requires
            0 <= ma,
            0 <= mb,
    ;
    lemma_div_bound(s_dot_raw(a, b), 3 * (ma * mb), SCALE as int);
}

/// Normalizing a non-degenerate vector gives a squared length within
/// `s_unit_ish` of one square unit.
pub proof fn lemma_norm_unit(v: (int, int, int))
    requires
        s_dot_raw(v, v) >= MIN_SQ,
    ensures
        s_unit_ish(s_norm(v)),
        s_dot_raw(v, v) >= MIN_SQ ==> s_norm(v) == (
            v.0 * SCALE / sqrt_floor(s_dot_raw(v, v)),
            v.1 * SCALE / sqrt_floor(s_dot_raw(v, v)),
            v.2 * SCALE / sqrt_floor(s_dot_raw(v, v)),
        ),
{
    let s = s_dot_raw(v, v);
    crate::fx::lemma_sqrt_floor_def(s);
    let n = sqrt_floor(s);
    assert(n >= 131072) by (nonlinear_arith)
        requires
            s < (n + 1) * (n + 1),
            s >= 17179869184,
            0 <= n,
    ;
    lemma_sq_decomp(v.0, n);
    lemma_sq_decomp(v.1, n);
    lemma_sq_decomp(v.2, n);
    let q0 = v.0 * SCALE / n;
    let q1 = v.1 * SCALE / n;
    let q2 = v.2 * SCALE / n;
    let p0 = v.0 * SCALE % n;
    let p1 = v.1 * SCALE % n;
    let p2 = v.2 * SCALE % n;
    let t = q0 * q0 + q1 * q1 + q2 * q2;
    let ee = v.0 * p0 + v.1 * p1 + v.2 * p2;
    let ff = p0 * p0 + p1 * p1 + p2 * p2;
    assert(is_sqrt_floor(s, n));
    assert(n * n <= s);
    assert(s <= n * n + 2 * n) by (nonlinear_arith)
        requires
            s < (n + 1) * (n + 1),
    ;
    assert(n * n * t == n * n * (q0 * q0) + n * n * (q1 * q1) + n * n * (q2 * q2))
        by (nonlinear_arith)
        requires
            t == q0 * q0 + q1 * q1 + q2 * q2,
    ;
    assert(n * n * t == (SCALE as int) * SCALE * s - 2 * SCALE * ee + ff);
    let b0 = if v.0 < 0 { -v.0 } else { v.0 };
    let b1 = if v.1 < 0 { -v.1 } else { v.1 };
    let b2 = if v.2 < 0 { -v.2 } else { v.2 };
    let aa = b0 + b1 + b2;
    lemma_abs_mul_le(v.0, p0, b0, n);
    lemma_abs_mul_le(v.1, p1, b1, n);
    lemma_abs_mul_le(v.2, p2, b2, n);
    assert(b0 * n + b1 * n + b2 * n == aa * n) by (nonlinear_arith)
        requires
            aa == b0 + b1 + b2,
    ;
    assert(-(aa * n) <= ee <= aa * n);
    lemma_abs_mul_le(p0, p0, n, n);
    lemma_abs_mul_le(p1, p1, n, n);
    lemma_abs_mul_le(p2, p2, n, n);
    assert(0 <= ff <= 3 * (n * n)) by (nonlinear_arith)
        requires
            ff == p0 * p0 + p1 * p1 + p2 * p2,
            p0 * p0 <= n * n,
            p1 * p1 <= n * n,
            p2 * p2 <= n * n,
            0 <= p0,
            0 <= p1,
            0 <= p2,
    ;
    assert(aa * aa <= 3 * s) by (nonlinear_arith)
        requires
            s == v.0 * v.0 + v.1 * v.1 + v.2 * v.2,
            b0 == if v.0 < 0 { -v.0 } else { v.0 },
            b1 == if v.1 < 0 { -v.1 } else { v.1 },
            b2 == if v.2 < 0 { -v.2 } else { v.2 },
            aa == b0 + b1 + b2,
    ;
    assert(4 * aa <= 7 * n + 7) by (nonlinear_arith)
        requires
            aa * aa <= 3 * s,
            s < (n + 1) * (n + 1),
            0 <= aa,
            0 <= n,
    ;
    assert(t <= (SCALE as int) * SCALE + 132 * SCALE) by (nonlinear_arith)
        requires
            n * n * t == (SCALE as int) * SCALE * s - 2 * SCALE * ee + ff,
            n * n <= s <= n * n + 2 * n,
            -(aa * n) <= ee <= aa * n,
            0 <= ff <= 3 * (n * n),
            4 * aa <= 7 * n + 7,
            0 <= aa,
            n >= 131072,
    ;
    assert(t >= (SCALE as int) * SCALE - 4 * SCALE) by (nonlinear_arith)
        requires
            n * n * t == (SCALE as int) * SCALE * s - 2 * SCALE * ee + ff,
            n * n <= s <= n * n + 2 * n,
            -(aa * n) <= ee <= aa * n,
            0 <= ff,
            4 * aa <= 7 * n + 7,
            0 <= aa,
            n >= 131072,
    ;
}

/// Every component of a normalized vector has magnitude at most `SCALE + 1`.
pub proof fn lemma_norm_range(v: (int, int, int))
    requires
        s_dot_raw(v, v) >= MIN_SQ,
    ensures
        s_in_range(s_norm(v), SCALE as int + 1),
{
    let s = s_dot_raw(v, v);
    crate::fx::lemma_sqrt_floor_def(s);
    let n = sqrt_floor(s);
    assert(n >= 1) by (nonlinear_arith)
        requires
            s < (n + 1) * (n + 1),
            s >= 17179869184,
            0 <= n,
    ;
    lemma_fxsq_nonneg(v.0);
    lemma_fxsq_nonneg(v.1);
    lemma_fxsq_nonneg(v.2);
    lemma_norm_comp_range(v.0, s, n);
    lemma_norm_comp_range(v.1, s, n);
    lemma_norm_comp_range(v.2, s, n);
}

/// The Euclidean decomposition of a normalized component, squared.
proof fn lemma_sq_decomp(c: int, n: int)
    requires
        1 <= n,
    ensures
        c * SCALE == n * (c * SCALE / n) + c * SCALE % n,
        0 <= c * SCALE % n < n,
        n * n * ((c * SCALE / n) * (c * SCALE / n)) == (SCALE as int) * SCALE * (c * c) - 2 * SCALE
            * (c * (c * SCALE % n)) + (c * SCALE % n) * (c * SCALE % n),
{
    vstd::arithmetic::div_mod::lemma_fundamental_div_mod(c * SCALE, n);
    vstd::arithmetic::div_mod::lemma_mod_bound(c * SCALE, n);
    let q = c * SCALE / n;
    let p = c * SCALE % n;
    assert(n * n * (q * q) == (SCALE as int) * SCALE * (c * c) - 2 * SCALE * (c * p) + p * p)
        by (nonlinear_arith)
        requires
            c * SCALE == n * q + p,
    ;
}

/// A component of a vector is no longer than the integer square root of the
/// vector's squared length.
proof fn lemma_comp_le_sqrt(c: int, s: int, n: int)
    requires
        c * c <= s,
        0 <= n,
        s < (n + 1) * (n + 1),
    ensures
        -n <= c <= n,
{
    assert(-n <= c <= n) by (nonlinear_arith)
        requires
            c * c <= s,
            0 <= n,
            s < (n + 1) * (n + 1),
    ;
}

/// A normalized component `c * SCALE / n` has magnitude at most `SCALE + 1`.
proof fn lemma_norm_comp_range(c: int, s: int, n: int)
    requires
        c * c <= s,
        1 <= n,
        s < (n + 1) * (n + 1),
    ensures
        -(SCALE as int) - 1 <= c * SCALE / n <= SCALE as int + 1,
{
    lemma_comp_le_sqrt(c, s, n);
    assert(-(n * SCALE) <= c * SCALE <= n * SCALE) by (nonlinear_arith)
        requires
            -n <= c <= n,
            0 <= n,
    ;
    lemma_div_bound(c * SCALE, n * SCALE, n);
    crate::fx::lemma_mul_div_exact(SCALE as int, n);
}

} // verus!
