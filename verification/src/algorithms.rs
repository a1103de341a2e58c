//! Palette extraction algorithms.

pub mod kmeans;
pub mod median_cut;
pub mod octree;
