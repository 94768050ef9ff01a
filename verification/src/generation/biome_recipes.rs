use vstd::prelude::*;
use crate::generation::voxel_type::VoxelType;

verus! {

#[derive(Clone, Copy, Debug, PartialEq, Eq, Hash, Structural)]
pub enum BiomeCategory {
    GreenForest,
    Snowy,
    Desert,
}

/// The terrain of one world column: how many voxels are solid from the
/// bottom up, and the voxel they are made of.
#[derive(Clone, Copy, Debug, PartialEq, Eq, Structural)]
pub struct SampledTerrain {
    pub height: usize,
    pub surface: VoxelType,
}

} // verus!
