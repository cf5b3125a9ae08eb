//! Packing the camera basis into the flat record a renderer's constant
//! buffer consumes once per frame.

use vstd::prelude::*;

verus! {

use crate::camera::Camera;
use crate::vec3::V3;

/// A 4-component vector of fixed-point coordinates.
#[derive(Clone, Copy, Debug, PartialEq, Eq, Structural)]
pub struct V4 {
    pub x: i64,
    pub y: i64,
    pub z: i64,
    pub w: i64,
}

/// The per-frame uniform record: position and the three basis vectors, each
/// padded to four components with a trailing zero.  The shader-side block is
/// matched by field order, not by name, so the order here (position,
/// forward, right, up) is part of the interface.
#[derive(Clone, Copy, Debug, PartialEq, Eq, Structural)]
pub struct CameraConsts {
    pub camera_pos: V4,
    pub camera_forward: V4,
    pub camera_right: V4,
    pub camera_up: V4,
}

/// Pads a vector with a trailing zero in the fourth component, the
/// homogeneous convention that separates directions and positions from any
/// downstream transform's point of view.
pub fn vec3_to_vec4_pad_zeros(v: &V3) -> (r: V4)
    ensures
        r.x == v.x,
        r.y == v.y,
        r.z == v.z,
        r.w == 0,
{
    V4 { x: v.x, y: v.y, z: v.z, w: 0 }
}

/// Snapshots the camera into a fresh uniform record.
pub fn camera_consts(camera: &Camera) -> (r: CameraConsts)
    ensures
        r.camera_pos.x == camera.pos.x,
        r.camera_pos.y == camera.pos.y,
        r.camera_pos.z == camera.pos.z,
        r.camera_pos.w == 0,
        r.camera_forward.x == camera.forward.x,
        r.camera_forward.y == camera.forward.y,
        r.camera_forward.z == camera.forward.z,
        r.camera_forward.w == 0,
        r.camera_right.x == camera.right.x,
        r.camera_right.y == camera.right.y,
        r.camera_right.z == camera.right.z,
        r.camera_right.w == 0,
        r.camera_up.x == camera.up.x,
        r.camera_up.y == camera.up.y,
        r.camera_up.z == camera.up.z,
        r.camera_up.w == 0,
{
    let pos = camera.position();
    let fwd = camera.forward();
    let rgt = camera.right();
    let upv = camera.up();
    CameraConsts {
        camera_pos: vec3_to_vec4_pad_zeros(&pos),
        camera_forward: vec3_to_vec4_pad_zeros(&fwd),
        camera_right: vec3_to_vec4_pad_zeros(&rgt),
        camera_up: vec3_to_vec4_pad_zeros(&upv),
    }
}

} // verus!
