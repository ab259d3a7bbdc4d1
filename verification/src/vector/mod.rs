//! Nearest-neighbour search over vectors.
//!
//! Distances are floating-point numbers, which are computed outside. Here a
//! distance is an integer that orders as the distance does.

pub mod gpu;
pub mod kmeans;
pub mod pq;
pub mod sharded;
pub mod vamana;
