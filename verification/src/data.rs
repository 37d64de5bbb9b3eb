//! Per-chunk voxel storage and the surface extraction that reads it.

pub mod voxel_octree;
pub mod surface_nets;
