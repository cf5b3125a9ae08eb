//! The free-look camera: position plus an orthonormal, right-handed basis,
//! mutated by `translate` and `rotate_by`.
//!
//! Yaw turns about the fixed world-up axis, pitch about the camera's current
//! right axis, and after every rotation the whole basis is re-derived from
//! the new forward direction and world-up ("recompute, don't accumulate"),
//! so no drift or roll can build up across calls.

use vstd::prelude::*;

verus! {

use crate::fx::{fxmul, lemma_fxmul_bound, LIM, MIN_SQ, SCALE};
use crate::trig::{s_sin_cos, sin_cos, ANGLE_LIM};
use crate::vec3::{
    lemma_cross_range, lemma_dot_range, lemma_norm_unit, s_cross, s_dot_raw, s_in_range, s_norm,
    s_unit_ish, s_world_up, sv, vadd, vcross, vdot, vnormalize, world_up, V3,
};

/// A free-look camera: a world-space position and an orthonormal,
/// right-handed basis (forward, up, right), all in fixed point.
#[derive(Clone, Copy, Debug)]
pub struct Camera {
    pub pos: V3,
    pub forward: V3,
    pub up: V3,
    pub right: V3,
}

/// Rodrigues rotation of `v` about the unit axis whose sine and cosine of
/// the turn angle are `sc`:
/// `v * cos + (axis x v) * sin + axis * ((axis . v) * (1 - cos))`,
/// every product rescaled by `SCALE` with Euclidean rounding.
pub open spec fn s_rotate(
    axis: (int, int, int),
    sc: (int, int),
    v: (int, int, int),
) -> (int, int, int) {
    let cv = s_cross(axis, v);
    let d = s_dot_raw(axis, v) / (SCALE as int);
    let k = d * ((SCALE as int) - sc.1) / (SCALE as int);
    (
        v.0 * sc.1 / (SCALE as int) + cv.0 * sc.0 / (SCALE as int) + axis.0 * k / (SCALE as int),
        v.1 * sc.1 / (SCALE as int) + cv.1 * sc.0 / (SCALE as int) + axis.1 * k / (SCALE as int),
        v.2 * sc.1 / (SCALE as int) + cv.2 * sc.0 / (SCALE as int) + axis.2 * k / (SCALE as int),
    )
}

/// The forward direction after `rotate_by`: pitch about the current right
/// axis, then yaw about the fixed world-up axis, renormalizing after each
/// step.  A turn whose sine is zero and whose cosine is one is the exact
/// identity and is skipped, so an idle tick moves nothing.
pub open spec fn s_rotated_forward(c: Camera, yaw: int, pitch: int) -> (int, int, int) {
    let f1 = if s_sin_cos(pitch) == (0int, SCALE as int) {
        sv(c.forward)
    } else {
        s_norm(s_rotate(sv(c.right), s_sin_cos(pitch), sv(c.forward)))
    };
    if s_sin_cos(yaw) == (0int, SCALE as int) {
        f1
    } else {
        s_norm(s_rotate(s_world_up(), s_sin_cos(yaw), f1))
    }
}

/// How one `translate` call relates the state before (`c0`) to the state
/// after (`c1`): the position advances componentwise, the basis is kept.
pub open spec fn translated(c0: Camera, d: V3, c1: Camera) -> bool {
    &&& c1.pos.x == c0.pos.x + d.x
    &&& c1.pos.y == c0.pos.y + d.y
    &&& c1.pos.z == c0.pos.z + d.z
    &&& c1.forward == c0.forward
    &&& c1.up == c0.up
    &&& c1.right == c0.right
}

/// How one `rotate_by` call relates the state before (`c0`) to the state
/// after (`c1`).
pub open spec fn rotated_from(c0: Camera, c1: Camera, yaw: int, pitch: int) -> bool {
    &&& c1.pos == c0.pos
    &&& sv(c1.forward) == s_rotated_forward(c0, yaw, pitch)
    &&& sv(c1.right) == s_norm(s_cross(sv(c1.forward), s_world_up()))
    &&& sv(c1.up) == s_norm(s_cross(sv(c1.right), sv(c1.forward)))
}

impl Camera {
    /// The basis invariant: forward has unit length (or has degenerately
    /// collapsed), right is the normalized cross of forward with world-up,
    /// up the normalized cross of right with forward, and every basis
    /// component is at most one unit and a step.
    pub open spec fn wf(self) -> bool {
        &&& s_in_range(sv(self.forward), SCALE as int + 1)
        &&& s_in_range(sv(self.up), SCALE as int + 1)
        &&& s_in_range(sv(self.right), SCALE as int + 1)
        &&& (s_unit_ish(sv(self.forward)) || s_dot_raw(sv(self.forward), sv(self.forward))
            < MIN_SQ)
        &&& sv(self.right) == s_norm(s_cross(sv(self.forward), s_world_up()))
        &&& sv(self.up) == s_norm(s_cross(sv(self.right), sv(self.forward)))
    }

    /// Re-derives right and up from the current forward and the fixed
    /// world-up axis.
    fn fix_up_right(&mut self)
        requires
            s_in_range(sv(old(self).forward), SCALE as int + 1),
        ensures
            final(self).pos == old(self).pos,
            final(self).forward == old(self).forward,
            sv(final(self).right) == s_norm(s_cross(sv(final(self).forward), s_world_up())),
            sv(final(self).up) == s_norm(s_cross(sv(final(self).right), sv(final(self).forward))),
            s_in_range(sv(final(self).right), SCALE as int + 1),
            s_in_range(sv(final(self).up), SCALE as int + 1),
    {
        let u = world_up();
        proof {
            lemma_cross_range(sv(self.forward), s_world_up(), 8388609, 8388608);
        }
        let w = vcross(&self.forward, &u);
        self.right = vnormalize(&w);
        proof {
            lemma_cross_range(sv(self.right), sv(self.forward), 8388609, 8388609);
        }
        let uw = vcross(&self.right, &self.forward);
        self.up = vnormalize(&uw);
    }

    /// Builds a camera at `pos` looking along `forward`.  The basis is
    /// re-derived from `forward` and the fixed world-up, so the `up` handed
    /// in only seeds the field and is immediately recomputed.
    pub fn _new(pos: V3, forward: V3, up: V3) -> (c: Camera)
        requires
            s_in_range(sv(forward), LIM as int),
        ensures
            c.wf(),
            c.pos == pos,
            sv(c.forward) == s_norm(sv(forward)),
    {
        let f = vnormalize(&forward);
        proof {
            if s_dot_raw(sv(forward), sv(forward)) >= MIN_SQ {
                lemma_norm_unit(sv(forward));
            }
        }
        let mut c = Camera { pos, forward: f, up, right: V3 { x: SCALE, y: 0, z: 0 } };
        c.fix_up_right();
        c
    }

    /// The camera's world-space position.
    pub fn position(&self) -> (p: V3)
        ensures
            p == self.pos,
    {
        self.pos
    }

    /// The unit forward direction.
    pub fn forward(&self) -> (f: V3)
        ensures
            f == self.forward,
    {
        self.forward
    }

    /// The unit up direction.
    pub fn up(&self) -> (u: V3)
        ensures
            u == self.up,
    {
        self.up
    }

    /// The unit right direction.
    pub fn right(&self) -> (r: V3)
        ensures
            r == self.right,
    {
        self.right
    }

    /// Moves the position by `translation` (already resolved into world
    /// space and scaled by the caller); the basis is untouched.
    pub fn translate(&mut self, translation: V3)
        requires
            i64::MIN <= old(self).pos.x + translation.x <= i64::MAX,
            i64::MIN <= old(self).pos.y + translation.y <= i64::MAX,
            i64::MIN <= old(self).pos.z + translation.z <= i64::MAX,
        ensures
            final(self).pos.x == old(self).pos.x + translation.x,
            final(self).pos.y == old(self).pos.y + translation.y,
            final(self).pos.z == old(self).pos.z + translation.z,
            final(self).forward == old(self).forward,
            final(self).up == old(self).up,
            final(self).right == old(self).right,
            translated(*old(self), translation, *final(self)),
            old(self).wf() ==> final(self).wf(),
    {
        self.pos = vadd(&self.pos, &translation);
    }

    /// Rotates the basis by `yaw` about the fixed world-up axis and by
    /// `pitch` about the current right axis (pitch first), both in raw
    /// radian steps, then re-derives the whole basis from the new forward.
    pub fn rotate_by(&mut self, yaw: i64, pitch: i64)
        requires
            old(self).wf(),
            -ANGLE_LIM <= yaw <= ANGLE_LIM,
            -ANGLE_LIM <= pitch <= ANGLE_LIM,
        ensures
            final(self).wf(),
            rotated_from(*old(self), *final(self), yaw as int, pitch as int),
    {
        let scp = sin_cos(pitch);
        let f1 = if scp.0 == 0 && scp.1 == SCALE {
            self.forward
        } else {
            let axis_p = self.right;
            let rot_p = rotate_about(&axis_p, scp, &self.forward);
            proof {
                if s_dot_raw(sv(rot_p), sv(rot_p)) >= MIN_SQ {
                    lemma_norm_unit(sv(rot_p));
                }
            }
            vnormalize(&rot_p)
        };
        let scy = sin_cos(yaw);
        let f2 = if scy.0 == 0 && scy.1 == SCALE {
            f1
        } else {
            let u = world_up();
            let rot_y = rotate_about(&u, scy, &f1);
            proof {
                if s_dot_raw(sv(rot_y), sv(rot_y)) >= MIN_SQ {
                    lemma_norm_unit(sv(rot_y));
                }
            }
            vnormalize(&rot_y)
        };
        self.forward = f2;
        self.fix_up_right();
    }
}

/// Rodrigues rotation of `v` about the unit-length `axis`, with `sc` the
/// sine and cosine of the turn angle.
fn rotate_about(axis: &V3, sc: (i64, i64), v: &V3) -> (r: V3)
    requires
        s_in_range(sv(*axis), SCALE as int + 1),
        s_in_range(sv(*v), SCALE as int + 1),
        -SCALE <= sc.0 <= SCALE,
        -SCALE <= sc.1 <= SCALE,
    ensures
        sv(r) == s_rotate(sv(*axis), (sc.0 as int, sc.1 as int), sv(*v)),
        s_in_range(sv(r), 10 * SCALE as int),
{
    proof {
        lemma_cross_range(sv(*axis), sv(*v), 8388609, 8388609);
        lemma_dot_range(sv(*axis), sv(*v), 8388609, 8388609);
    }
    let cv = vcross(axis, v);
    let d = vdot(axis, v);
    proof {
        lemma_fxmul_bound(d as int, SCALE - sc.1, 25165831, 16777216);
    }
    let k = fxmul(d, SCALE - sc.1);
    proof {
        lemma_fxmul_bound(v.x as int, sc.1 as int, 8388609, 8388608);
        lemma_fxmul_bound(v.y as int, sc.1 as int, 8388609, 8388608);
        lemma_fxmul_bound(v.z as int, sc.1 as int, 8388609, 8388608);
        lemma_fxmul_bound(cv.x as int, sc.0 as int, 16777221, 8388608);
        lemma_fxmul_bound(cv.y as int, sc.0 as int, 16777221, 8388608);
        lemma_fxmul_bound(cv.z as int, sc.0 as int, 16777221, 8388608);
        lemma_fxmul_bound(axis.x as int, k as int, 8388609, 50331663);
        lemma_fxmul_bound(axis.y as int, k as int, 8388609, 50331663);
        lemma_fxmul_bound(axis.z as int, k as int, 8388609, 50331663);
    }
    let rx: i64 = fxmul(v.x, sc.1) + fxmul(cv.x, sc.0) + fxmul(axis.x, k);
    let ry: i64 = fxmul(v.y, sc.1) + fxmul(cv.y, sc.0) + fxmul(axis.y, k);
    let rz: i64 = fxmul(v.z, sc.1) + fxmul(cv.z, sc.0) + fxmul(axis.z, k);
    V3 { x: rx, y: ry, z: rz }
}

impl Default for Camera {
    /// The default camera: at the origin, forward along -Z, up along +Y,
    /// right along +X.
    fn default() -> (c: Camera)
        ensures
            c.wf(),
            sv(c.pos) == (0int, 0int, 0int),
            sv(c.forward) == (0int, 0int, -(SCALE as int)),
            sv(c.up) == s_world_up(),
            sv(c.right) == ((SCALE as int), 0int, 0int),
    {
        let mut c = Camera {
            pos: V3 { x: 0, y: 0, z: 0 },
            forward: V3 { x: 0, y: 0, z: -SCALE },
            up: V3 { x: 0, y: SCALE, z: 0 },
            right: V3 { x: SCALE, y: 0, z: 0 },
        };
        c.fix_up_right();
        proof {
            let s = SCALE as int;
            assert(s * s == 70368744177664) by (nonlinear_arith)
                requires
                    s == 8388608,
            ;
            assert((-s) * s == -(s * s)) by (nonlinear_arith);
            assert(s * (-s) == -(s * s)) by (nonlinear_arith);
            vstd::arithmetic::div_mod::lemma_div_of0(s);
            crate::fx::lemma_mul_div_exact(s, s);
            let f = (0int, 0int, -s);
            assert(sv(c.forward) == f);
            assert((-s) * (-s) == s * s) by (nonlinear_arith);
            assert(s_dot_raw(f, f) == s * s);
            assert(s_unit_ish(f));
            assert(0int * 0int == 0 && 0int * s == 0 && s * 0int == 0 && 0int * (-s) == 0
                && (-s) * 0int == 0);
            assert(s_cross(f, s_world_up()) == ((s, 0int, 0int)));
            crate::fx::lemma_sqrt_floor_def(s * s);
            assert(crate::fx::is_sqrt_floor(s * s, s)) by (nonlinear_arith)
                requires
                    s == 8388608,
            ;
            crate::fx::lemma_sqrt_floor_unique(s * s, crate::fx::sqrt_floor(s * s), s);
            assert(s_norm((s, 0int, 0int)) == ((s, 0int, 0int)));
            assert(s_cross((s, 0int, 0int), f) == ((0int, s, 0int)));
            assert(s_norm((0int, s, 0int)) == ((0int, s, 0int)));
        }
        c
    }
}

} // verus!
