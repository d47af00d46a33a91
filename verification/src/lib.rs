//! A negative-selection anomaly detector over a two-dimensional feature
//! space, using fixed-point coordinates so that every distance comparison
//! and normalization step is exact integer arithmetic.

pub mod fixed;
pub mod index;
pub mod codec;
pub mod model;

pub use fixed::Point;
