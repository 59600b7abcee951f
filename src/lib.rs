//! Sparse voxel octree and greedy merging of its occupied cells into boxes.
pub mod octree;
pub mod simplify;
