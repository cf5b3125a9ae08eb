//! Fixed-point scalars: Euclidean division, scaled multiplication and an
//! integer square root, each with an exact contract.

use vstd::prelude::*;

verus! {

use vstd::arithmetic::div_mod::{
    lemma_div_is_ordered, lemma_div_pos_is_pos, lemma_fundamental_div_mod,
    lemma_fundamental_div_mod_converse,
};

/// Number of raw steps in one unit: lengths, radians and trigonometric values
/// are all carried as integer multiples of `1 / SCALE` (here `2^23`).
pub const SCALE: i64 = 8388608;

/// Largest operand magnitude admitted by `fxmul` (`2^29`, or 64 units).
pub const LIM: i64 = 536870912;

/// A squared length below this (1/64 of a unit, squared, in raw steps) is
/// treated as degenerate by normalization: the camera only reaches it within
/// about a degree of the vertical singularity.
pub const MIN_SQ: i64 = 17179869184;

/// `|a * b| <= ma * mb` whenever `|a| <= ma` and `|b| <= mb`.
pub proof fn lemma_abs_mul_le(a: int, b: int, ma: int, mb: int)
    by (nonlinear_arith)
    requires
        -ma <= a <= ma,
        -mb <= b <= mb,
        0 <= ma,
        0 <= mb,
    ensures
        -(ma * mb) <= a * b <= ma * mb,
{
}

/// Componentwise bounds on the operands bound a fixed-point product.
pub proof fn lemma_fxmul_bound(a: int, b: int, ma: int, mb: int)
    requires
        -ma <= a <= ma,
        -mb <= b <= mb,
        0 <= ma,
        0 <= mb,
    ensures
        -(ma * mb / (SCALE as int)) - 1 <= a * b / (SCALE as int) <= ma * mb / (SCALE as int),
{
    lemma_abs_mul_le(a, b, ma, mb);
    assert(0 <= ma * mb) by (nonlinear_arith)
        requires
            0 <= ma,
            0 <= mb,
    ;
    lemma_div_bound(a * b, ma * mb, SCALE as int);
}

/// Squares are nonnegative.
pub proof fn lemma_fxsq_nonneg(a: int)
    by (nonlinear_arith)
    ensures
        a * a >= 0,
{
}

/// Dividing an exact multiple gives the factor back: `a * d / d == a`.
pub proof fn lemma_mul_div_exact(a: int, d: int)
    requires
        1 <= d,
    ensures
        a * d / d == a,
{
    lemma_fundamental_div_mod_converse(a * d, d, a, 0);
}

/// Euclidean division of a nonnegative number negated: `(-m) / d` is `-(m / d)`
/// when `d` divides `m`, and one less otherwise.
pub proof fn lemma_neg_div(m: int, d: int)
    requires
        0 <= m,
        1 <= d,
    ensures
        m % d == 0 ==> (-m) / d == -(m / d),
        m % d != 0 ==> (-m) / d == -(m / d) - 1,
{
    lemma_fundamental_div_mod(m, d);
    let q = m / d;
    let r = m % d;
    if r == 0 {
        assert((-q) * d == -(d * q)) by (nonlinear_arith);
        lemma_fundamental_div_mod_converse(-m, d, -q, 0);
    } else {
        assert((-q - 1) * d == -(d * q) - d) by (nonlinear_arith);
        lemma_fundamental_div_mod_converse(-m, d, -q - 1, d - r);
    }
}

/// `|p| <= m` bounds the Euclidean quotient: `-(m / d) - 1 <= p / d <= m / d`.
pub proof fn lemma_div_bound(p: int, m: int, d: int)
    requires
        -m <= p <= m,
        0 <= m,
        1 <= d,
    ensures
        -(m / d) - 1 <= p / d <= m / d,
{
    lemma_div_is_ordered(p, m, d);
    lemma_div_is_ordered(-m, p, d);
    lemma_neg_div(m, d);
}

/// Division with the rounding of ghost `/` (Euclidean: the remainder is never
/// negative), for a positive divisor.
pub fn div_euclid_pos(a: i64, b: i64) -> (q: i64)
    requires
        1 <= b,
        -0x7fff_ffff_ffff_ffff <= a,
    ensures
        q == a as int / b as int,
{
    if a >= 0 {
        let qu: u64 = (a as u64) / (b as u64);
        proof {
            lemma_fundamental_div_mod(a as int, b as int);
            assert(qu <= a) by (nonlinear_arith)
                requires
                    a as int == b as int * (qu as int) + (a as int % b as int),
                    0 <= a as int % b as int,
                    1 <= b,
                    0 <= qu,
            ;
        }
        qu as i64
    } else {
        let m: u64 = (-a) as u64;
        let q0: u64 = m / (b as u64);
        let r0: u64 = m % (b as u64);
        proof {
            lemma_fundamental_div_mod(m as int, b as int);
            lemma_div_pos_is_pos(m as int, b as int);
            assert(q0 <= m) by (nonlinear_arith)
                requires
                    m as int == b as int * (q0 as int) + (r0 as int),
                    0 <= r0,
                    1 <= b,
                    0 <= q0,
            ;
        }
        if r0 == 0 {
            proof {
                assert((-(q0 as int)) * (b as int) == -((b as int) * (q0 as int)))
                    by (nonlinear_arith);
                lemma_fundamental_div_mod_converse(a as int, b as int, -(q0 as int), 0);
            }
            -(q0 as i64)
        } else {
            proof {
                assert((-(q0 as int) - 1) * (b as int) == -((b as int) * (q0 as int)) - b)
                    by (nonlinear_arith);
                lemma_fundamental_div_mod_converse(
                    a as int,
                    b as int,
                    -(q0 as int) - 1,
                    b - r0,
                );
            }
            -(q0 as i64) - 1
        }
    }
}

/// Fixed-point product: `a * b` rescaled by `SCALE`, rounded like ghost `/`.
pub fn fxmul(a: i64, b: i64) -> (r: i64)
    requires
        -LIM <= a <= LIM,
        -LIM <= b <= LIM,
    ensures
        r == a * b / (SCALE as int),
{
    proof {
        lemma_abs_mul_le(a as int, b as int, LIM as int, LIM as int);
    }
    let p: i64 = a * b;
    div_euclid_pos(p, SCALE)
}

/// `r` is the integer square root of `s`, rounded down.
pub open spec fn is_sqrt_floor(s: int, r: int) -> bool {
    0 <= r && r * r <= s && s < (r + 1) * (r + 1)
}

/// The integer square root of `s`, rounded down (meaningful for `s >= 0`;
/// see `lemma_sqrt_floor_def`).
pub open spec fn sqrt_floor(s: int) -> int {
    choose|r: int| is_sqrt_floor(s, r)
}

/// Two integer square roots of the same number are equal.
pub proof fn lemma_sqrt_floor_unique(s: int, a: int, b: int)
    requires
        is_sqrt_floor(s, a),
        is_sqrt_floor(s, b),
    ensures
        a == b,
{
    assert(a == b) by (nonlinear_arith)
        requires
            0 <= a,
            0 <= b,
            a * a <= s,
            s < (a + 1) * (a + 1),
            b * b <= s,
            s < (b + 1) * (b + 1),
    ;
}

/// Every nonnegative number has an integer square root, so `sqrt_floor`
/// satisfies its defining property.
pub proof fn lemma_sqrt_floor_def(s: int)
    requires
        0 <= s,
    ensures
        is_sqrt_floor(s, sqrt_floor(s)),
    decreases s,
{
    if s == 0 {
        assert(is_sqrt_floor(0, 0));
    } else {
        lemma_sqrt_floor_def(s - 1);
        let r = sqrt_floor(s - 1);
        assert(is_sqrt_floor(s - 1, r));
        if (r + 1) * (r + 1) <= s {
            assert(is_sqrt_floor(s, r + 1)) by (nonlinear_arith)
                requires
                    0 <= r,
                    r * r <= s - 1,
                    s - 1 < (r + 1) * (r + 1),
                    (r + 1) * (r + 1) <= s,
            ;
        } else {
            assert(is_sqrt_floor(s, r));
        }
    }
}

/// Integer square root, rounded down.
pub fn isqrt(n: u64) -> (r: u64)
    requires
        n <= 0x1000_0000_0000_0000,
    ensures
        is_sqrt_floor(n as int, r as int),
        r == sqrt_floor(n as int),
        r <= 0x8000_0000,
{
    let mut r: u64 = 0;
    let mut k: u64 = 31;
    proof {
        assert(1u64 << 31u64 == 0x8000_0000) by (bit_vector);
    }
    while k > 0
        invariant
            k <= 31,
            n <= 0x1000_0000_0000_0000,
            r * r <= n,
            r + (1u64 << k) <= 0x8000_0000,
            n < (r + (1u64 << k)) * (r + (1u64 << k)),
        decreases k,
    {
        proof {
            assert(1u64 << k == 2 * (1u64 << (k - 1) as u64)) by (bit_vector)
                requires
                    1 <= k <= 31,
            ;
        }
        let bit: u64 = 1u64 << (k - 1);
        let cand: u64 = r + bit;
        proof {
            assert(cand * cand <= 0x4000_0000_0000_0000) by (nonlinear_arith)
                requires
                    cand <= 0x8000_0000,
            ;
        }
        if cand * cand <= n {
            r = cand;
        }
        k = k - 1;
    }
    proof {
        assert(1u64 << 0u64 == 1) by (bit_vector);
        assert(is_sqrt_floor(n as int, r as int));
        lemma_sqrt_floor_def(n as int);
        lemma_sqrt_floor_unique(n as int, r as int, sqrt_floor(n as int));
    }
    r
}

} // verus!
