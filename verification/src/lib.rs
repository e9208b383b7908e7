//! Geometric and pixel-buffer kernel of a small ray tracer.
//!
//! The coordinate system is left-handed: the x, y and z axes point right,
//! up and forward.
pub mod arith;
pub mod canvas;
pub mod color;
pub mod math;
pub mod misc;
pub mod root;
pub mod rounding;
pub mod scalar;
pub mod unit;
