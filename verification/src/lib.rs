//! Elementary 2D geometry for a small game framework: rectangles, points, sizes
//! and vectors over double-precision coordinates, and their conversion to
//! integer rectangles and points as a graphics library takes them.
//!
//! A coordinate is a [`scalar::Scalar`]: an IEEE 754 double held by its bit
//! pattern. Every operation on it is integer code, proved against the value
//! that the bit pattern stands for.

pub mod arith;
pub mod geometry;
pub mod laws;
pub mod order;
pub mod pixel;
pub mod rectangle;
pub mod round;
pub mod scalar;
pub mod truncate;
pub mod value;
