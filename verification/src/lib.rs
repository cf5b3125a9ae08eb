//! A free-look camera core over fixed-point arithmetic.
//!
//! The library keeps a camera position together with an orthonormal,
//! right-handed basis (forward, up, right) under incremental yaw/pitch
//! rotation and translation, and packs the basis into a flat record for a
//! rendering uniform block.  All quantities are carried as signed fixed-point
//! numbers (multiples of `1 / fx::SCALE`), so every operation is exact
//! integer arithmetic with stated rounding, and the numerical invariants of
//! the basis are proved rather than sampled.

pub mod camera;
pub mod fx;
pub mod laws;
pub mod trig;
pub mod uniform;
pub mod vec3;
