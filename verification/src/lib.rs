//! A recursive path-tracing renderer whose real-valued arithmetic is carried
//! out on a fixed-point grid: a stored `i64` value `x` stands for the real
//! number `x / 65536`. Every operation's rounding behaviour is stated exactly
//! in its contract, so the geometry, material and estimator logic is verified
//! down to the last unit of the grid.

pub mod fx;
pub mod vec;
pub mod ray;
pub mod hittable;
pub mod material;
pub mod sphere;
pub mod hittable_list;
pub mod camera;
pub mod tracer;
pub mod laws;
