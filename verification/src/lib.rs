//! An endless, editable voxel world and its meshes.
//!
//! The world is cut into cubic chunks. Each chunk keeps its voxels in a
//! [`data::voxel_octree::VoxelOctree`]; neighbouring chunks overlap by a
//! seam, so that each can be meshed on its own without cracks. A
//! [`chunk::chunk_manager::ChunkManager`] owns the loaded chunks, fills in
//! missing ones from a density function, and reads and writes voxels by
//! world coordinate. [`data::surface_nets`] turns a chunk into a triangle
//! mesh, and [`bevy_voxel::BevyVoxelResource`] is what an application
//! drives: streaming around a viewer, snapping ray hits, and edits of
//! single voxels, cubes and spheres.
//!
//! Everything here works on integers: positions are whole voxels, mesh
//! vertices lie on half voxels, normals are sums of corner differences.
//! World units, colours and physics are the application's business.

pub mod utils;
pub mod data;
pub mod chunk;
pub mod bevy_voxel;
