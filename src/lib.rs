//! Voxel chunk storage and greedy surface extraction, with the plain
//! descriptor types of the GPU helper layer.
pub mod bits;
pub mod chunk;
pub mod chunks;
pub mod counting;
pub mod coverage;
pub mod descriptors;
pub mod extract;
pub mod surfaces;
pub mod transpose;
