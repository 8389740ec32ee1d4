//! Graph SLAM: a factor graph of poses and landmarks, its text format, and the frame of a
//! Gauss-Newton optimizer around arithmetic that its user supplies.
//!
//! Scalars are double-precision numbers held as their bit patterns: the library moves
//! them, and leaves computing with them to the `Numerics` and `NumberText` of its user.

pub mod factor_graph;
pub mod optimizer;
pub mod parser;
pub mod text;
