//! A small path tracer for scenes of spheres, computed in decimal fixed-point
//! arithmetic so that every result is an exact function of its inputs.

pub mod aim;
pub mod camera;
pub mod centre;
pub mod hit;
pub mod image;
pub mod material;
pub mod ray;
pub mod render;
pub mod rounding;
pub mod sampler;
pub mod scalar;
pub mod shade;
pub mod sphere;
pub mod unit;
pub mod vec;
pub mod wide;
