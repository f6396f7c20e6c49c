//! The decision core of a Monte Carlo path tracer.
//!
//! Every quantity that the renderer measures (a distance along a ray, a
//! coordinate, a probability) enters this crate as a [`scalar::Scalar`]: an
//! integer that keeps the order of the single-precision number it stands for.
//! On those the crate decides: which object a ray meets first, when a light
//! path ends, which way a material sends a ray on, and where a pixel's bytes
//! go in the finished frame.
pub mod aabb;
pub mod bvt;
pub mod camera;
pub mod frame;
pub mod material;
pub mod partition;
pub mod queue;
pub mod random;
pub mod sampling;
pub mod scalar;
pub mod scene;
pub mod shape;
pub mod space;
pub mod texture;
