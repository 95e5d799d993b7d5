//! Verified core of a voxel engine: chunk coordinate packing, chunk storage,
//! face-culled meshing, chunk streaming decisions, block and texture
//! registries, and the sub-allocator that places chunk meshes in the GPU
//! megabuffers.

pub mod engine;
pub mod fx;
pub mod game;
pub mod render;
