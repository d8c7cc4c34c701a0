//! Floating-point numbers, by their bit patterns.

pub mod double;
pub mod laws;
pub mod model;
pub mod rounding;
pub mod scaling;
