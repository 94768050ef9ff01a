pub mod generation;
pub mod voxel;
