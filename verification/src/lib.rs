//! Dense two-dimensional grid container with geometric transformations
//! and graph-style traversal operations built on top of it.
//!
//! The [`Matrix`](matrix::Matrix) type stores its elements contiguously
//! in row-major order. On top of the container sit in-place flips,
//! transposition and quarter-turn rotations, neighbour and direction
//! enumeration, and predicate-driven reachability (flood fill).

pub mod error;
pub mod laws;
pub mod matrix;
pub mod reach;
pub mod adjacency;
pub mod directions;
pub mod transform;

pub use error::MatrixFormatError;
pub use matrix::Matrix;
