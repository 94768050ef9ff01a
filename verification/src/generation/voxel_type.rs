use vstd::prelude::*;
use crate::generation::chunk::{padded_index, spec_padded_index};

verus! {

pub const CHUNK_X: usize = 32;
pub const CHUNK_Y: usize = 512;
pub const CHUNK_Z: usize = 32;
pub const CHUNK_VOLUME: usize = CHUNK_X * CHUNK_Y * CHUNK_Z;
pub const WORLD_MIN_Y: i32 = -128;
pub const WORLD_MAX_Y_EXCLUSIVE: i32 = WORLD_MIN_Y + CHUNK_Y as i32;
pub const MESH_SECTION_Y: usize = 64;
pub const MESH_SECTION_COUNT: usize = CHUNK_Y / MESH_SECTION_Y;

/// The chunk volume as a number.
pub proof fn lemma_chunk_volume()
    ensures
        CHUNK_VOLUME == 524288,
        CHUNK_X * CHUNK_Z == 1024,
        CHUNK_Z * CHUNK_Y == 16384,
{
    assert(CHUNK_VOLUME == 524288) by (nonlinear_arith)
        requires CHUNK_VOLUME == CHUNK_X * CHUNK_Y * CHUNK_Z, CHUNK_X == 32, CHUNK_Y == 512, CHUNK_Z == 32;
    assert(CHUNK_X * CHUNK_Z == 1024) by (nonlinear_arith)
        requires CHUNK_X == 32, CHUNK_Z == 32;
    assert(CHUNK_Z * CHUNK_Y == 16384) by (nonlinear_arith)
        requires CHUNK_Y == 512, CHUNK_Z == 32;
}

/// Converts a chunk-local height index into a world height.
pub fn local_y_to_world_y(local_y: usize) -> (world_y: i32)
    requires
        WORLD_MIN_Y + (local_y as i32) >= i32::MIN,
    ensures
        world_y == WORLD_MIN_Y + (local_y as i32),
{
    WORLD_MIN_Y + local_y as i32
}

/// The chunk-local height of a world height, when it lies inside the column.
pub open spec fn spec_world_y_to_local_y(world_y: int) -> Option<usize> {
    let local_y = world_y - WORLD_MIN_Y;
    if local_y < 0 || local_y >= CHUNK_Y {
        None
    } else {
        Some(local_y as usize)
    }
}

/// Converts a world height into a chunk-local height index, or `None`
/// when the height lies outside the vertical extent of a chunk.
pub fn world_y_to_local_y(world_y: i32) -> (local: Option<usize>)
    requires
        world_y - WORLD_MIN_Y <= i32::MAX,
    ensures
        local == spec_world_y_to_local_y(world_y as int),
{
    let local_y = world_y - WORLD_MIN_Y;
    if local_y < 0 || local_y >= CHUNK_Y as i32 {
        None
    } else {
        Some(local_y as usize)
    }
}

/// Every in-range local height survives a trip to world space and back.
pub proof fn lemma_local_world_round_trip(local_y: usize)
    requires
        local_y < CHUNK_Y,
    ensures
        spec_world_y_to_local_y(WORLD_MIN_Y + (local_y as i32)) == Some(local_y),
{
}

/// Every world height that maps into a chunk maps back to itself.
pub proof fn lemma_world_local_round_trip(world_y: i32)
    requires
        spec_world_y_to_local_y(world_y as int) is Some,
    ensures
        WORLD_MIN_Y + (spec_world_y_to_local_y(world_y as int)->0 as i32) == world_y,
        WORLD_MIN_Y <= world_y < WORLD_MAX_Y_EXCLUSIVE,
{
}

#[derive(Clone, Copy, PartialEq, Eq, Debug, Structural)]
pub enum VoxelType {
    Air,
    Grass,
    Snow,
    Sand,
}

impl VoxelType {
    /// Whether the voxel at padded coordinates `(x, y, z)` blocks light;
    /// the bottom padding layer counts as solid.
    pub fn is_solid(padded: &[VoxelType], x: usize, y: usize, z: usize) -> (solid: bool)
        requires
            y == 0 || spec_padded_index(x as int, y as int, z as int) < padded.len(),
        ensures
            solid == (y == 0 || padded@[spec_padded_index(x as int, y as int, z as int)]
                != VoxelType::Air),
    {
        if y == 0 {
            return true;
        }
        padded[padded_index(x, y, z)] != VoxelType::Air
    }
}

} // verus!
