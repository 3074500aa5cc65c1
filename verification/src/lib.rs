//! A 2D Monte-Carlo light-transport renderer over exact fixed-point arithmetic.
//!
//! Scalars are signed 64-bit fixed-point numbers with 16 fractional bits
//! (`fx::ONE` is one unit). All geometric and radiometric computations are
//! exact integer arithmetic, so every routine carries a contract that pins
//! its result down precisely.

pub mod fx;
pub mod vec2;
pub mod shape;
pub mod rng;
pub mod material;
pub mod scene;
pub mod render;
