use vstd::prelude::*;

verus! {

pub const CHUNK_X: usize = 32;
pub const CHUNK_Y: usize = 256;
pub const CHUNK_Z: usize = 32;
pub const CHUNK_VOLUME: usize = CHUNK_X * CHUNK_Y * CHUNK_Z;

/// The voxel kinds of the first terrain layout: air and grass.
#[derive(Clone, Copy, PartialEq, Debug, Structural)]
pub enum VoxelType {
    Air,
    Grass,
}

} // verus!
