use vstd::prelude::*;

pub mod flock;
pub mod init;
pub mod vector;

pub use flock::{update_boids, Boid, Params};
pub use init::{random_boid, range_scale, rvec2_range, rvec3_range, Bounds};
pub use vector::Vec3;

verus! {

} // verus!
