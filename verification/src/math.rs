//! Fixed-point number types and integer vectors.

pub mod fixed;
pub mod fixed_vec2;
pub mod i32f32;
pub mod vec;
