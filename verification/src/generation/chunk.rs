use vstd::prelude::*;
use crate::generation::voxel_type::{VoxelType, CHUNK_X, CHUNK_Y, CHUNK_Z, CHUNK_VOLUME, lemma_chunk_volume};
use crate::generation::biome_recipes::SampledTerrain;
use vstd::arithmetic::div_mod::lemma_fundamental_div_mod_converse;

verus! {

pub const PADDED_X: usize = CHUNK_X + 2;
pub const PADDED_Y: usize = CHUNK_Y + 2;
pub const PADDED_Z: usize = CHUNK_Z + 2;

/// Position of padded coordinates `(px, py, pz)` in a flat padded buffer
/// (x slowest, then z, then y).
pub open spec fn spec_padded_index(px: int, py: int, pz: int) -> int {
    px * (PADDED_Z * PADDED_Y) + pz * PADDED_Y + py
}

pub fn padded_index(px: usize, py: usize, pz: usize) -> (index: usize)
    requires
        spec_padded_index(px as int, py as int, pz as int) <= usize::MAX,
    ensures
        index == spec_padded_index(px as int, py as int, pz as int),
{
    px * (PADDED_Z * PADDED_Y) + pz * PADDED_Y + py
}

pub open spec fn in_padded_box(px: int, py: int, pz: int) -> bool {
    &&& 0 <= px < PADDED_X
    &&& 0 <= py < PADDED_Y
    &&& 0 <= pz < PADDED_Z
}

proof fn lemma_padded_dims()
    ensures
        PADDED_Z * PADDED_Y == 17476,
        PADDED_X * PADDED_Y * PADDED_Z == 594184,
{
    assert(PADDED_Z * PADDED_Y == 17476) by (nonlinear_arith)
        requires PADDED_Z == 34, PADDED_Y == 514;
    assert(PADDED_X * PADDED_Y * PADDED_Z == 594184) by (nonlinear_arith)
        requires PADDED_X == 34, PADDED_Z == 34, PADDED_Y == 514;
}

/// Distinct cells of the padded box have distinct indices, each below the
/// box volume.
pub proof fn lemma_padded_index_bijective(px: int, py: int, pz: int, qx: int, qy: int, qz: int)
    requires
        in_padded_box(px, py, pz),
        in_padded_box(qx, qy, qz),
    ensures
        0 <= spec_padded_index(px, py, pz) < PADDED_X * PADDED_Y * PADDED_Z,
        (spec_padded_index(px, py, pz) == spec_padded_index(qx, qy, qz)) == (px == qx && py == qy
            && pz == qz),
{
    lemma_padded_dims();
}

/// The cells of the padded column starting at `(cx, 1, cz)` are the cells
/// `(cx, py, cz)` with `1 <= py <= CHUNK_Y`.
proof fn lemma_column_cells(cx: int, cz: int, px: int, py: int, pz: int)
    requires
        in_padded_box(cx, 1, cz),
        in_padded_box(px, py, pz),
    ensures
        (spec_padded_index(cx, 1, cz) <= spec_padded_index(px, py, pz) < spec_padded_index(cx, 1, cz)
            + CHUNK_Y) == (px == cx && pz == cz && 1 <= py <= CHUNK_Y),
        (px == cx && pz == cz && 1 <= py <= CHUNK_Y) ==> spec_padded_index(px, py, pz)
            - spec_padded_index(cx, 1, cz) == py - 1,
{
    lemma_padded_dims();
}

pub open spec fn interior_cell(px: int, py: int, pz: int) -> bool {
    &&& 1 <= px <= CHUNK_X
    &&& 1 <= py <= CHUNK_Y
    &&& 1 <= pz <= CHUNK_Z
}

/// Index in a chunk's flat buffer of the voxel at padded coordinates `(px, py, pz)`.
pub open spec fn own_index(px: int, py: int, pz: int) -> int {
    (px - 1) * (CHUNK_Z * CHUNK_Y) + (pz - 1) * CHUNK_Y + (py - 1)
}

/// Index in an x-side edge buffer (`CHUNK_Z` columns) of the voxel at `(py, pz)`.
pub open spec fn x_edge_index(py: int, pz: int) -> int {
    (pz - 1) * CHUNK_Y + (py - 1)
}

/// Index in a z-side edge buffer (`CHUNK_X` columns) of the voxel at `(px, py)`.
pub open spec fn z_edge_index(px: int, py: int) -> int {
    (px - 1) * CHUNK_Y + (py - 1)
}

pub open spec fn edge_view(edge: Option<&[VoxelType]>) -> Option<Seq<VoxelType>> {
    match edge {
        Some(e) => Some(e@),
        None => None,
    }
}

pub open spec fn edge_voxel(edge: Option<Seq<VoxelType>>, i: int) -> VoxelType {
    match edge {
        Some(e) => e[i],
        None => VoxelType::Air,
    }
}

/// The voxel a padded chunk holds at `(px, py, pz)`: the chunk's own voxels
/// inside; on the four side faces, the neighbour edges that are given; air
/// everywhere else (top, bottom, vertical corner columns, missing neighbours).
pub open spec fn padded_cell_value(
    own: Seq<VoxelType>,
    pos_x: Option<Seq<VoxelType>>,
    neg_x: Option<Seq<VoxelType>>,
    pos_z: Option<Seq<VoxelType>>,
    neg_z: Option<Seq<VoxelType>>,
    px: int,
    py: int,
    pz: int,
) -> VoxelType {
    if interior_cell(px, py, pz) {
        own[own_index(px, py, pz)]
    } else if px == PADDED_X - 1 && 1 <= py <= CHUNK_Y && 1 <= pz <= CHUNK_Z {
        edge_voxel(pos_x, x_edge_index(py, pz))
    } else if px == 0 && 1 <= py <= CHUNK_Y && 1 <= pz <= CHUNK_Z {
        edge_voxel(neg_x, x_edge_index(py, pz))
    } else if pz == PADDED_Z - 1 && 1 <= py <= CHUNK_Y && 1 <= px <= CHUNK_X {
        edge_voxel(pos_z, z_edge_index(px, py))
    } else if pz == 0 && 1 <= py <= CHUNK_Y && 1 <= px <= CHUNK_X {
        edge_voxel(neg_z, z_edge_index(px, py))
    } else {
        VoxelType::Air
    }
}

/// How long the padded buffer must be for the copies that
/// `build_padded_chunk` makes (the +x side reaches furthest, then +z).
pub open spec fn padded_extent(has_pos_x: bool, has_pos_z: bool) -> int {
    if has_pos_x {
        spec_padded_index(PADDED_X - 1, CHUNK_Y as int, CHUNK_Z as int) + 1
    } else if has_pos_z {
        spec_padded_index(CHUNK_X as int, CHUNK_Y as int, PADDED_Z - 1) + 1
    } else {
        spec_padded_index(CHUNK_X as int, CHUNK_Y as int, CHUNK_Z as int) + 1
    }
}

/// Copies `CHUNK_Y` voxels of `src` starting at `src_start` into `padded`
/// starting at `dst`.
fn copy_column(padded: &mut [VoxelType], dst: usize, src: &[VoxelType], src_start: usize)
    requires
        dst + CHUNK_Y <= old(padded).len(),
        src_start + CHUNK_Y <= src.len(),
    ensures
        final(padded)@.len() == old(padded)@.len(),
        forall|i: int|
            0 <= i < old(padded)@.len() ==> #[trigger] final(padded)@[i] == if dst <= i < dst
                + CHUNK_Y {
                src@[src_start + i - dst]
            } else {
                old(padded)@[i]
            },
{
    let mut k: usize = 0;
    while k < CHUNK_Y
        invariant
            dst + CHUNK_Y <= old(padded).len(),
            src_start + CHUNK_Y <= src.len(),
            padded.len() == old(padded).len(),
            padded@.len() == old(padded)@.len(),
            k <= CHUNK_Y,
            forall|i: int|
                0 <= i < old(padded)@.len() ==> #[trigger] padded@[i] == if dst <= i < dst + k {
                    src@[src_start + i - dst]
                } else {
                    old(padded)@[i]
                },
        decreases CHUNK_Y - k,
    {
        padded[dst + k] = src[src_start + k];
        k += 1;
    }
}

pub const PADDED_VOLUME_INT: usize = PADDED_X * PADDED_Y * PADDED_Z;

/// A run of equal voxels: the voxel and how many times it repeats.
#[derive(Debug, Clone)]
pub struct Run {
    pub value: VoxelType,
    pub length: u16,
}

/// A chunk's voxels, x slowest, then z, then y.
#[derive(Debug, Clone)]
pub struct Chunk {
    pub flat: Vec<VoxelType>,
}

pub open spec fn stage_value(
    own: Seq<VoxelType>,
    pos_x: Option<Seq<VoxelType>>,
    neg_x: Option<Seq<VoxelType>>,
    pos_z: Option<Seq<VoxelType>>,
    neg_z: Option<Seq<VoxelType>>,
    stage: int,
    px: int,
    py: int,
    pz: int,
) -> VoxelType {
    padded_cell_value(
        own,
        if stage >= 1 { pos_x } else { None },
        if stage >= 2 { neg_x } else { None },
        if stage >= 3 { pos_z } else { None },
        if stage >= 4 { neg_z } else { None },
        px,
        py,
        pz,
    )
}

impl Chunk {
    /// Builds the padded grid around a chunk: the chunk's voxels inside, the
    /// given neighbour edges on the four sides, air everywhere else.
    pub fn build_padded_chunk(
        padded: &mut [VoxelType],
        own: &[VoxelType],
        neighbor_pos_x: Option<&[VoxelType]>,
        neighbor_neg_x: Option<&[VoxelType]>,
        neighbor_pos_z: Option<&[VoxelType]>,
        neighbor_neg_z: Option<&[VoxelType]>,
    )
        requires
            old(padded).len() >= padded_extent(neighbor_pos_x is Some, neighbor_pos_z is Some),
            own.len() >= CHUNK_VOLUME,
            neighbor_pos_x matches Some(e) ==> e.len() >= CHUNK_Z * CHUNK_Y,
            neighbor_neg_x matches Some(e) ==> e.len() >= CHUNK_Z * CHUNK_Y,
            neighbor_pos_z matches Some(e) ==> e.len() >= CHUNK_X * CHUNK_Y,
            neighbor_neg_z matches Some(e) ==> e.len() >= CHUNK_X * CHUNK_Y,
        ensures
            final(padded)@.len() == old(padded)@.len(),
            forall|px: int, py: int, pz: int|
                in_padded_box(px, py, pz) && spec_padded_index(px, py, pz) < final(padded)@.len()
                    ==> #[trigger] final(padded)@[spec_padded_index(px, py, pz)]
                    == padded_cell_value(
                    own@,
                    edge_view(neighbor_pos_x),
                    edge_view(neighbor_neg_x),
                    edge_view(neighbor_pos_z),
                    edge_view(neighbor_neg_z),
                    px,
                    py,
                    pz,
                ),
            forall|i: int|
                PADDED_VOLUME_INT <= i < final(padded)@.len() ==> #[trigger] final(padded)@[i]
                    == VoxelType::Air,
    {
        let ghost ex = edge_view(neighbor_pos_x);
        let ghost wx = edge_view(neighbor_neg_x);
        let ghost nz = edge_view(neighbor_pos_z);
        let ghost sz = edge_view(neighbor_neg_z);
        proof {
            lemma_padded_dims();
            lemma_chunk_volume();
            assert(PADDED_VOLUME_INT == 594184);
        }
        let mut i: usize = 0;
        while i < padded.len()
            invariant
                padded.len() == old(padded).len(),
                i <= padded.len(),
                forall|k: int| 0 <= k < i ==> #[trigger] padded@[k] == VoxelType::Air,
            decreases padded.len() - i,
        {
            padded[i] = VoxelType::Air;
            i += 1;
        }
        let own_stride_zy = CHUNK_Z * CHUNK_Y;
        let padded_stride_zy = PADDED_Z * PADDED_Y;
        let padded_stride_y = PADDED_Y;

        // The chunk itself goes in the middle.
        let mut x: usize = 0;
        while x < CHUNK_X
            invariant
                PADDED_Z * PADDED_Y == 17476,
                own_stride_zy == 16384,
                padded_stride_zy == 17476,
                padded_stride_y == 514,
                x <= CHUNK_X,
            own.len() >= CHUNK_VOLUME,
            PADDED_VOLUME_INT == 594184,
            padded.len() == old(padded).len(),
            padded.len() >= padded_extent(neighbor_pos_x is Some, neighbor_pos_z is Some),
            forall|i: int| PADDED_VOLUME_INT <= i < padded@.len() ==> #[trigger] padded@[i] == VoxelType::Air,
            forall|px: int, py: int, pz: int|
                in_padded_box(px, py, pz) && spec_padded_index(px, py, pz) < padded@.len()
                    ==> #[trigger] padded@[spec_padded_index(px, py, pz)] == (if interior_cell(px, py, pz) && px - 1 < x {
                        own@[own_index(px, py, pz)]
                    } else {
                        VoxelType::Air
                    }),
            decreases CHUNK_X - x,
        {
            let own_x = x * own_stride_zy;
            let padded_x = (x + 1) * padded_stride_zy;
            let mut z: usize = 0;
            while z < CHUNK_Z
                invariant
                    PADDED_Z * PADDED_Y == 17476,
                    own_stride_zy == 16384,
                    padded_stride_zy == 17476,
                    padded_stride_y == 514,
                    x < CHUNK_X,
                    own_x == x * own_stride_zy,
                    padded_x == (x + 1) * padded_stride_zy,
                    z <= CHUNK_Z,
            own.len() >= CHUNK_VOLUME,
            PADDED_VOLUME_INT == 594184,
            padded.len() == old(padded).len(),
            padded.len() >= padded_extent(neighbor_pos_x is Some, neighbor_pos_z is Some),
            forall|i: int| PADDED_VOLUME_INT <= i < padded@.len() ==> #[trigger] padded@[i] == VoxelType::Air,
            forall|px: int, py: int, pz: int|
                in_padded_box(px, py, pz) && spec_padded_index(px, py, pz) < padded@.len()
                    ==> #[trigger] padded@[spec_padded_index(px, py, pz)] == (if interior_cell(px, py, pz) && (px - 1 < x || (px - 1 == x && pz - 1 < z)) {
                        own@[own_index(px, py, pz)]
                    } else {
                        VoxelType::Air
                    }),
                decreases CHUNK_Z - z,
            {
                let own_start = own_x + z * CHUNK_Y;
                let padded_start = padded_x + (z + 1) * padded_stride_y + 1;
                proof {
                    assert(padded_start == spec_padded_index(x + 1, 1, z + 1));
                    assert(own_start == own_index(x + 1, 1, z + 1));
                }
                let ghost before = padded@;
                copy_column(padded, padded_start, own, own_start);
                proof {
                    assert forall|px: int, py: int, pz: int|
                        in_padded_box(px, py, pz) && spec_padded_index(px, py, pz) < padded@.len()
                            implies #[trigger] padded@[spec_padded_index(px, py, pz)] == (
                        if interior_cell(px, py, pz) && (px - 1 < x || (px - 1 == x && pz - 1 < z + 1)) {
                            own@[own_index(px, py, pz)]
                        } else {
                            VoxelType::Air
                        }) by {
                        lemma_column_cells(x + 1, z + 1, px, py, pz);
                    }
                }
                z += 1;
            }
            x += 1;
        }

        // The +x neighbour's edge.
        if let Some(edge) = neighbor_pos_x {
            let base = (PADDED_X - 1) * padded_stride_zy;
            let mut z: usize = 0;
            while z < CHUNK_Z
                invariant
                    PADDED_Z * PADDED_Y == 17476,
                    padded_stride_zy == 17476,
                    padded_stride_y == 514,
                    base == 576708,
                    neighbor_pos_x == Some(edge),
                    edge.len() >= CHUNK_Z * CHUNK_Y,
                    z <= CHUNK_Z,
            own.len() >= CHUNK_VOLUME,
            PADDED_VOLUME_INT == 594184,
            padded.len() == old(padded).len(),
            padded.len() >= padded_extent(neighbor_pos_x is Some, neighbor_pos_z is Some),
            forall|i: int| PADDED_VOLUME_INT <= i < padded@.len() ==> #[trigger] padded@[i] == VoxelType::Air,
            forall|px: int, py: int, pz: int|
                in_padded_box(px, py, pz) && spec_padded_index(px, py, pz) < padded@.len()
                    ==> #[trigger] padded@[spec_padded_index(px, py, pz)] == (if px == PADDED_X - 1 && 1 <= py <= CHUNK_Y && 1 <= pz <= z {
                        edge@[x_edge_index(py, pz)]
                    } else {
                        stage_value(own@, ex, wx, nz, sz, 0, px, py, pz)
                    }),
                decreases CHUNK_Z - z,
            {
                let dst = base + (z + 1) * padded_stride_y + 1;
                let src = z * CHUNK_Y;
                proof {
                    assert(dst == spec_padded_index(PADDED_X - 1, 1, z + 1));
                }
                copy_column(padded, dst, edge, src);
                proof {
                    assert forall|px: int, py: int, pz: int|
                        in_padded_box(px, py, pz) && spec_padded_index(px, py, pz) < padded@.len()
                            implies #[trigger] padded@[spec_padded_index(px, py, pz)] == (
                        if px == PADDED_X - 1 && 1 <= py <= CHUNK_Y && 1 <= pz <= z + 1 {
                            edge@[x_edge_index(py, pz)]
                        } else {
                            stage_value(own@, ex, wx, nz, sz, 0, px, py, pz)
                        }) by {
                        lemma_column_cells(PADDED_X - 1, z + 1, px, py, pz);
                    }
                }
                z += 1;
            }
        }

        // The -x neighbour's edge.
        if let Some(edge) = neighbor_neg_x {
            let mut z: usize = 0;
            while z < CHUNK_Z
                invariant
                    PADDED_Z * PADDED_Y == 17476,
                    padded_stride_y == 514,
                    neighbor_neg_x == Some(edge),
                    edge.len() >= CHUNK_Z * CHUNK_Y,
                    z <= CHUNK_Z,
            own.len() >= CHUNK_VOLUME,
            PADDED_VOLUME_INT == 594184,
            padded.len() == old(padded).len(),
            padded.len() >= padded_extent(neighbor_pos_x is Some, neighbor_pos_z is Some),
            forall|i: int| PADDED_VOLUME_INT <= i < padded@.len() ==> #[trigger] padded@[i] == VoxelType::Air,
            forall|px: int, py: int, pz: int|
                in_padded_box(px, py, pz) && spec_padded_index(px, py, pz) < padded@.len()
                    ==> #[trigger] padded@[spec_padded_index(px, py, pz)] == (if px == 0 && 1 <= py <= CHUNK_Y && 1 <= pz <= z {
                        edge@[x_edge_index(py, pz)]
                    } else {
                        stage_value(own@, ex, wx, nz, sz, 1, px, py, pz)
                    }),
                decreases CHUNK_Z - z,
            {
                let dst = (z + 1) * padded_stride_y + 1;
                let src = z * CHUNK_Y;
                proof {
                    assert(dst == spec_padded_index(0, 1, z + 1));
                }
                copy_column(padded, dst, edge, src);
                proof {
                    assert forall|px: int, py: int, pz: int|
                        in_padded_box(px, py, pz) && spec_padded_index(px, py, pz) < padded@.len()
                            implies #[trigger] padded@[spec_padded_index(px, py, pz)] == (
                        if px == 0 && 1 <= py <= CHUNK_Y && 1 <= pz <= z + 1 {
                            edge@[x_edge_index(py, pz)]
                        } else {
                            stage_value(own@, ex, wx, nz, sz, 1, px, py, pz)
                        }) by {
                        lemma_column_cells(0, z + 1, px, py, pz);
                    }
                }
                z += 1;
            }
        }

        // The +z neighbour's edge.
        if let Some(edge) = neighbor_pos_z {
            let base = (PADDED_Z - 1) * padded_stride_y;
            let mut x: usize = 0;
            while x < CHUNK_X
                invariant
                    PADDED_Z * PADDED_Y == 17476,
                    padded_stride_zy == 17476,
                    padded_stride_y == 514,
                    base == 16962,
                    neighbor_pos_z == Some(edge),
                    edge.len() >= CHUNK_X * CHUNK_Y,
                    x <= CHUNK_X,
            own.len() >= CHUNK_VOLUME,
            PADDED_VOLUME_INT == 594184,
            padded.len() == old(padded).len(),
            padded.len() >= padded_extent(neighbor_pos_x is Some, neighbor_pos_z is Some),
            forall|i: int| PADDED_VOLUME_INT <= i < padded@.len() ==> #[trigger] padded@[i] == VoxelType::Air,
            forall|px: int, py: int, pz: int|
                in_padded_box(px, py, pz) && spec_padded_index(px, py, pz) < padded@.len()
                    ==> #[trigger] padded@[spec_padded_index(px, py, pz)] == (if pz == PADDED_Z - 1 && 1 <= py <= CHUNK_Y && 1 <= px <= x {
                        edge@[z_edge_index(px, py)]
                    } else {
                        stage_value(own@, ex, wx, nz, sz, 2, px, py, pz)
                    }),
                decreases CHUNK_X - x,
            {
                let dst = (x + 1) * padded_stride_zy + base + 1;
                let src = x * CHUNK_Y;
                proof {
                    assert(dst == spec_padded_index(x + 1, 1, PADDED_Z - 1));
                }
                copy_column(padded, dst, edge, src);
                proof {
                    assert forall|px: int, py: int, pz: int|
                        in_padded_box(px, py, pz) && spec_padded_index(px, py, pz) < padded@.len()
                            implies #[trigger] padded@[spec_padded_index(px, py, pz)] == (
                        if pz == PADDED_Z - 1 && 1 <= py <= CHUNK_Y && 1 <= px <= x + 1 {
                            edge@[z_edge_index(px, py)]
                        } else {
                            stage_value(own@, ex, wx, nz, sz, 2, px, py, pz)
                        }) by {
                        lemma_column_cells(x + 1, PADDED_Z - 1, px, py, pz);
                    }
                }
                x += 1;
            }
        }

        // The -z neighbour's edge.
        if let Some(edge) = neighbor_neg_z {
            let mut x: usize = 0;
            while x < CHUNK_X
                invariant
                    PADDED_Z * PADDED_Y == 17476,
                    padded_stride_zy == 17476,
                    neighbor_neg_z == Some(edge),
                    edge.len() >= CHUNK_X * CHUNK_Y,
                    x <= CHUNK_X,
            own.len() >= CHUNK_VOLUME,
            PADDED_VOLUME_INT == 594184,
            padded.len() == old(padded).len(),
            padded.len() >= padded_extent(neighbor_pos_x is Some, neighbor_pos_z is Some),
            forall|i: int| PADDED_VOLUME_INT <= i < padded@.len() ==> #[trigger] padded@[i] == VoxelType::Air,
            forall|px: int, py: int, pz: int|
                in_padded_box(px, py, pz) && spec_padded_index(px, py, pz) < padded@.len()
                    ==> #[trigger] padded@[spec_padded_index(px, py, pz)] == (if pz == 0 && 1 <= py <= CHUNK_Y && 1 <= px <= x {
                        edge@[z_edge_index(px, py)]
                    } else {
                        stage_value(own@, ex, wx, nz, sz, 3, px, py, pz)
                    }),
                decreases CHUNK_X - x,
            {
                let dst = (x + 1) * padded_stride_zy + 1;
                let src = x * CHUNK_Y;
                proof {
                    assert(dst == spec_padded_index(x + 1, 1, 0));
                }
                copy_column(padded, dst, edge, src);
                proof {
                    assert forall|px: int, py: int, pz: int|
                        in_padded_box(px, py, pz) && spec_padded_index(px, py, pz) < padded@.len()
                            implies #[trigger] padded@[spec_padded_index(px, py, pz)] == (
                        if pz == 0 && 1 <= py <= CHUNK_Y && 1 <= px <= x + 1 {
                            edge@[z_edge_index(px, py)]
                        } else {
                            stage_value(own@, ex, wx, nz, sz, 3, px, py, pz)
                        }) by {
                        lemma_column_cells(x + 1, 0, px, py, pz);
                    }
                }
                x += 1;
            }
        }
    }
}

/// The voxel at height `y` of a column sampled as `s`: its surface voxel
/// below the sampled height, air from there up.
pub open spec fn column_voxel(s: SampledTerrain, y: int) -> VoxelType {
    if y < s.height {
        s.surface
    } else {
        VoxelType::Air
    }
}

/// The voxels of sampled columns, one column after the other, each from the
/// bottom up: the layout of a chunk's buffer and of an edge buffer.
pub open spec fn columns_voxels(columns: Seq<SampledTerrain>) -> Seq<VoxelType> {
    Seq::new((columns.len() * CHUNK_Y) as nat, |i: int| column_voxel(columns[i / CHUNK_Y as int], i % CHUNK_Y as int))
}

/// Splits an index of a buffer of whole columns into its column and height.
proof fn lemma_column_split(i: int, n: int)
    requires
        0 <= i < n * 512,
    ensures
        0 <= i / 512 < n,
        0 <= i % 512 < 512,
        i == (i / 512) * 512 + i % 512,
{
    assert(i == (i / 512) * 512 + i % 512 && 0 <= i % 512 < 512) by (nonlinear_arith)
        requires 0 <= i;
    assert(i / 512 < n) by (nonlinear_arith)
        requires 0 <= i < n * 512;
}

/// Splits an index of a chunk buffer into its x, z and height.
proof fn lemma_flat_split(i: int)
    requires
        0 <= i < 524288,
    ensures
        0 <= i / 16384 < 32,
        0 <= (i / 512) % 32 < 32,
        0 <= i % 512 < 512,
        (i / 16384) * 32 + (i / 512) % 32 == i / 512,
        flat_index(i / 16384, i % 512, (i / 512) % 32) == i,
{
    lemma_column_split(i, 1024);
    let c = i / 512;
    assert(c == (c / 32) * 32 + c % 32 && 0 <= c % 32 < 32) by (nonlinear_arith)
        requires 0 <= c;
    assert(c / 32 == i / 16384) by (nonlinear_arith)
        requires 0 <= i, c == i / 512;
    assert(c / 32 < 32) by (nonlinear_arith)
        requires 0 <= c < 1024;
}

/// Index of chunk coordinates `(x, y, z)` in a chunk's flat buffer.
pub open spec fn flat_index(x: int, y: int, z: int) -> int {
    x * (CHUNK_Z * CHUNK_Y) + z * CHUNK_Y + y
}

/// World coordinate of local coordinate `local` in chunk `chunk` along an
/// axis whose chunks are `size` wide.
pub open spec fn world_coord(chunk: int, size: int, local: int) -> int {
    chunk * size + local
}

/// Chunk coordinates whose columns all have world coordinates that fit in `i32`.
pub open spec fn chunk_in_range(chunk_x: int, chunk_z: int) -> bool {
    &&& i32::MIN <= chunk_x * CHUNK_X
    &&& chunk_x * CHUNK_X + (CHUNK_X - 1) <= i32::MAX
    &&& i32::MIN <= chunk_z * CHUNK_Z
    &&& chunk_z * CHUNK_Z + (CHUNK_Z - 1) <= i32::MAX
}

/// World `(x, z)` of the column at local `(x, z)` of chunk `(chunk_x, chunk_z)`.
pub open spec fn column_coord(chunk_x: int, chunk_z: int, x: int, z: int) -> (i32, i32) {
    (world_coord(chunk_x, CHUNK_X as int, x) as i32, world_coord(chunk_z, CHUNK_Z as int, z) as i32)
}

/// What `sample` gives for every column of a chunk, x slowest then z: the
/// order of `column_coords`.
pub open spec fn chunk_samples(
    sample: spec_fn((i32, i32)) -> SampledTerrain,
    chunk_x: int,
    chunk_z: int,
) -> Seq<SampledTerrain> {
    Seq::new(
        (CHUNK_X * CHUNK_Z) as nat,
        |i: int| sample(column_coord(chunk_x, chunk_z, i / CHUNK_Z as int, i % CHUNK_Z as int)),
    )
}

/// What `sample` gives for the columns at local x = `x` of a chunk, by z:
/// the order of `west_edge_coords` (x = 0) and `east_edge_coords` (x = 31).
pub open spec fn x_side_samples(
    sample: spec_fn((i32, i32)) -> SampledTerrain,
    chunk_x: int,
    chunk_z: int,
    x: int,
) -> Seq<SampledTerrain> {
    Seq::new(CHUNK_Z as nat, |z: int| sample(column_coord(chunk_x, chunk_z, x, z)))
}

/// What `sample` gives for the columns at local z = `z` of a chunk, by x:
/// the order of `south_edge_coords` (z = 0) and `north_edge_coords` (z = 31).
pub open spec fn z_side_samples(
    sample: spec_fn((i32, i32)) -> SampledTerrain,
    chunk_x: int,
    chunk_z: int,
    z: int,
) -> Seq<SampledTerrain> {
    Seq::new(CHUNK_X as nat, |x: int| sample(column_coord(chunk_x, chunk_z, x, z)))
}

/// An edge made from the samples of one side of a chunk is the matching
/// slice of the chunk filled from the samples of all its columns, whatever
/// the sampler: the west edge is the slice x == 0, the east edge x == 31,
/// the south edge z == 0 and the north edge z == 31.
pub proof fn lemma_edges_are_chunk_slices(
    sample: spec_fn((i32, i32)) -> SampledTerrain,
    chunk_x: int,
    chunk_z: int,
)
    ensures
        forall|x: int, z: int, y: int|
            0 <= x < CHUNK_X && 0 <= z < CHUNK_Z && 0 <= y < CHUNK_Y ==> #[trigger] columns_voxels(
                x_side_samples(sample, chunk_x, chunk_z, x),
            )[z * CHUNK_Y + y] == columns_voxels(chunk_samples(sample, chunk_x, chunk_z))[flat_index(x, y, z)],
        forall|x: int, z: int, y: int|
            0 <= x < CHUNK_X && 0 <= z < CHUNK_Z && 0 <= y < CHUNK_Y ==> #[trigger] columns_voxels(
                z_side_samples(sample, chunk_x, chunk_z, z),
            )[x * CHUNK_Y + y] == columns_voxels(chunk_samples(sample, chunk_x, chunk_z))[flat_index(x, y, z)],
{
    let all = chunk_samples(sample, chunk_x, chunk_z);
    assert forall|x: int, z: int, y: int| 0 <= x < CHUNK_X && 0 <= z < CHUNK_Z && 0 <= y < CHUNK_Y implies {
        let whole = columns_voxels(all)[flat_index(x, y, z)];
        &&& #[trigger] columns_voxels(x_side_samples(sample, chunk_x, chunk_z, x))[z * CHUNK_Y + y] == whole
        &&& columns_voxels(z_side_samples(sample, chunk_x, chunk_z, z))[x * CHUNK_Y + y] == whole
    } by {
        let c = x * 32 + z;
        assert(0 <= c < 1024) by (nonlinear_arith)
            requires 0 <= x < 32, 0 <= z < 32, c == x * 32 + z;
        assert(flat_index(x, y, z) == c * 512 + y) by (nonlinear_arith)
            requires c == x * 32 + z, CHUNK_Z == 32, CHUNK_Y == 512;
        assert(0 <= c * 512 + y < 1024 * 512) by (nonlinear_arith)
            requires 0 <= c < 1024, 0 <= y < 512;
        lemma_fundamental_div_mod_converse(c * 512 + y, 512, c, y);
        lemma_fundamental_div_mod_converse(c, 32, x, z);
        lemma_fundamental_div_mod_converse(z * 512 + y, 512, z, y);
        lemma_fundamental_div_mod_converse(x * 512 + y, 512, x, y);
        assert(0 <= z * 512 + y < 32 * 512 && 0 <= x * 512 + y < 32 * 512) by (nonlinear_arith)
            requires 0 <= x < 32, 0 <= z < 32, 0 <= y < 512;
        assert(all[c] == sample(column_coord(chunk_x, chunk_z, x, z)));
    }
}

fn world_coord_of(chunk: i32, size: usize, local: usize) -> (w: i32)
    requires
        size == 32,
        local < size,
        i32::MIN <= chunk * 32,
        chunk * 32 + 31 <= i32::MAX,
    ensures
        w == world_coord(chunk as int, size as int, local as int),
{
    chunk * size as i32 + local as i32
}

impl Chunk {
    /// Fills a chunk from its sampled columns, given x slowest then z: each
    /// column is solid up to its sampled height.
    pub fn generate(columns: &[SampledTerrain]) -> (chunk: Chunk)
        requires
            columns.len() == CHUNK_X * CHUNK_Z,
        ensures
            chunk.flat@.len() == CHUNK_VOLUME,
            chunk.flat@ == columns_voxels(columns@),
            forall|x: int, y: int, z: int|
                0 <= x < CHUNK_X && 0 <= y < CHUNK_Y && 0 <= z < CHUNK_Z ==> #[trigger] chunk.flat@[flat_index(
                    x,
                    y,
                    z,
                )] == column_voxel(columns@[x * CHUNK_Z + z], y),
    {
        proof {
            lemma_chunk_volume();
        }
        let mut flat: Vec<VoxelType> = Vec::with_capacity(CHUNK_VOLUME);
        let mut x: usize = 0;
        while x < CHUNK_X
            invariant
                columns.len() == CHUNK_X * CHUNK_Z,
                CHUNK_X * CHUNK_Z == 1024,
                CHUNK_Z * CHUNK_Y == 16384,
                x <= CHUNK_X,
                flat@.len() == x * 16384,
                forall|xx: int, y: int, z: int|
                    0 <= xx < x && 0 <= y < CHUNK_Y && 0 <= z < CHUNK_Z ==> #[trigger] flat@[flat_index(
                        xx,
                        y,
                        z,
                    )] == column_voxel(columns@[xx * CHUNK_Z + z], y),
            decreases CHUNK_X - x,
        {
            let mut z: usize = 0;
            while z < CHUNK_Z
                invariant
                    columns.len() == CHUNK_X * CHUNK_Z,
                    CHUNK_X * CHUNK_Z == 1024,
                    CHUNK_Z * CHUNK_Y == 16384,
                    x < CHUNK_X,
                    z <= CHUNK_Z,
                    flat@.len() == x * 16384 + z * 512,
                    forall|xx: int, y: int, zz: int|
                        0 <= y < CHUNK_Y && 0 <= zz < CHUNK_Z && (0 <= xx < x || (xx == x && zz < z))
                            ==> #[trigger] flat@[flat_index(xx, y, zz)] == column_voxel(
                            columns@[xx * CHUNK_Z + zz],
                            y,
                        ),
                decreases CHUNK_Z - z,
            {
                let sampled = columns[x * CHUNK_Z + z];
                let mut y: usize = 0;
                while y < CHUNK_Y
                    invariant
                        columns.len() == CHUNK_X * CHUNK_Z,
                        CHUNK_Z * CHUNK_Y == 16384,
                        x < CHUNK_X,
                        z < CHUNK_Z,
                        y <= CHUNK_Y,
                        sampled == columns@[x * CHUNK_Z + z],
                        flat@.len() == x * 16384 + z * 512 + y,
                        forall|xx: int, yy: int, zz: int|
                            0 <= yy < CHUNK_Y && 0 <= zz < CHUNK_Z && (0 <= xx < x || (xx == x && zz
                                < z) || (xx == x && zz == z && yy < y)) ==> #[trigger] flat@[flat_index(
                                xx,
                                yy,
                                zz,
                            )] == column_voxel(columns@[xx * CHUNK_Z + zz], yy),
                    decreases CHUNK_Y - y,
                {
                    let voxel = if y < sampled.height {
                        sampled.surface
                    } else {
                        VoxelType::Air
                    };
                    flat.push(voxel);
                    y += 1;
                }
                z += 1;
            }
            x += 1;
        }
        proof {
            assert forall|i: int| 0 <= i < CHUNK_VOLUME implies #[trigger] flat@[i] == columns_voxels(columns@)[i] by {
                lemma_flat_split(i);
                let x = i / 16384;
                let z = (i / 512) % 32;
                let y = i % 512;
                assert(flat@[flat_index(x, y, z)] == column_voxel(columns@[x * CHUNK_Z + z], y));
            }
            assert(flat@ =~= columns_voxels(columns@));
        }
        Chunk { flat }
    }

    /// The voxel at chunk coordinates `(x, y, z)` of a flat chunk buffer.
    pub fn get_voxel(flat: &[VoxelType], x: usize, y: usize, z: usize) -> (voxel: VoxelType)
        requires
            flat_index(x as int, y as int, z as int) < flat.len(),
        ensures
            voxel == flat@[flat_index(x as int, y as int, z as int)],
    {
        flat[x * (CHUNK_Z * CHUNK_Y) + z * CHUNK_Y + y]
    }

    /// The voxels of one sampled column, bottom to top.
    pub fn generate_border_column(sampled: SampledTerrain) -> (column: Vec<VoxelType>)
        ensures
            column@.len() == CHUNK_Y,
            forall|y: int| 0 <= y < CHUNK_Y ==> #[trigger] column@[y] == column_voxel(sampled, y),
    {
        let mut column: Vec<VoxelType> = Vec::with_capacity(CHUNK_Y);
        let mut y: usize = 0;
        while y < CHUNK_Y
            invariant
                y <= CHUNK_Y,
                column@.len() == y,
                forall|yy: int| 0 <= yy < y ==> #[trigger] column@[yy] == column_voxel(sampled, yy),
            decreases CHUNK_Y - y,
        {
            column.push(if y < sampled.height { sampled.surface } else { VoxelType::Air });
            y += 1;
        }
        column
    }

    /// The voxels of the given sampled columns, one column after the other.
    fn edge_from_columns(columns: &[SampledTerrain]) -> (edge: Vec<VoxelType>)
        requires
            columns.len() == 32,
        ensures
            edge@.len() == 32 * CHUNK_Y,
            edge@ == columns_voxels(columns@),
            forall|i: int, y: int|
                0 <= i < 32 && 0 <= y < CHUNK_Y ==> #[trigger] edge@[i * CHUNK_Y + y] == column_voxel(
                    columns@[i],
                    y,
                ),
    {
        let mut edge: Vec<VoxelType> = Vec::with_capacity(32 * CHUNK_Y);
        let mut i: usize = 0;
        while i < columns.len()
            invariant
                columns.len() == 32,
                i <= 32,
                edge@.len() == i * CHUNK_Y,
                forall|ii: int, y: int|
                    0 <= ii < i && 0 <= y < CHUNK_Y ==> #[trigger] edge@[ii * CHUNK_Y + y]
                        == column_voxel(columns@[ii], y),
            decreases 32 - i,
        {
            let mut column = Self::generate_border_column(columns[i]);
            let ghost before = edge@;
            let ghost col = column@;
            edge.append(&mut column);
            proof {
                assert forall|ii: int, y: int|
                    0 <= ii < i + 1 && 0 <= y < CHUNK_Y implies #[trigger] edge@[ii * CHUNK_Y + y]
                        == column_voxel(columns@[ii], y) by {
                    if ii < i {
                        assert(ii * CHUNK_Y + y < i * CHUNK_Y) by (nonlinear_arith)
                            requires ii < i, y < CHUNK_Y, CHUNK_Y == 512;
                        assert(edge@[ii * CHUNK_Y + y] == before[ii * CHUNK_Y + y]);
                    } else {
                        assert(edge@[ii * CHUNK_Y + y] == col[y]) by {
                            assert(ii * CHUNK_Y + y == before.len() + y);
                        }
                    }
                }
            }
            i += 1;
        }
        proof {
            assert forall|j: int| 0 <= j < 32 * CHUNK_Y implies #[trigger] edge@[j] == columns_voxels(columns@)[j] by {
                lemma_column_split(j, 32);
                assert(edge@[(j / 512) * CHUNK_Y + j % 512] == column_voxel(columns@[j / 512], j % 512));
            }
            assert(edge@ =~= columns_voxels(columns@));
        }
        edge
    }

    /// The edge of a chunk on its -x side (the columns at local x = 0, by z),
    /// from those columns' samples.
    pub fn generate_west_edge(columns: &[SampledTerrain]) -> (edge: Vec<VoxelType>)
        requires
            columns.len() == CHUNK_Z,
        ensures
            edge@.len() == CHUNK_Z * CHUNK_Y,
            edge@ == columns_voxels(columns@),
            forall|z: int, y: int|
                0 <= z < CHUNK_Z && 0 <= y < CHUNK_Y ==> #[trigger] edge@[z * CHUNK_Y + y] == column_voxel(
                    columns@[z],
                    y,
                ),
    {
        Self::edge_from_columns(columns)
    }

    /// The edge of a chunk on its +x side (the columns at local x = `CHUNK_X - 1`, by z).
    pub fn generate_east_edge(columns: &[SampledTerrain]) -> (edge: Vec<VoxelType>)
        requires
            columns.len() == CHUNK_Z,
        ensures
            edge@.len() == CHUNK_Z * CHUNK_Y,
            edge@ == columns_voxels(columns@),
            forall|z: int, y: int|
                0 <= z < CHUNK_Z && 0 <= y < CHUNK_Y ==> #[trigger] edge@[z * CHUNK_Y + y] == column_voxel(
                    columns@[z],
                    y,
                ),
    {
        Self::edge_from_columns(columns)
    }

    /// The edge of a chunk on its -z side (the columns at local z = 0, by x).
    pub fn generate_south_edge(columns: &[SampledTerrain]) -> (edge: Vec<VoxelType>)
        requires
            columns.len() == CHUNK_X,
        ensures
            edge@.len() == CHUNK_X * CHUNK_Y,
            edge@ == columns_voxels(columns@),
            forall|x: int, y: int|
                0 <= x < CHUNK_X && 0 <= y < CHUNK_Y ==> #[trigger] edge@[x * CHUNK_Y + y] == column_voxel(
                    columns@[x],
                    y,
                ),
    {
        Self::edge_from_columns(columns)
    }

    /// The edge of a chunk on its +z side (the columns at local z = `CHUNK_Z - 1`, by x).
    pub fn generate_north_edge(columns: &[SampledTerrain]) -> (edge: Vec<VoxelType>)
        requires
            columns.len() == CHUNK_X,
        ensures
            edge@.len() == CHUNK_X * CHUNK_Y,
            edge@ == columns_voxels(columns@),
            forall|x: int, y: int|
                0 <= x < CHUNK_X && 0 <= y < CHUNK_Y ==> #[trigger] edge@[x * CHUNK_Y + y] == column_voxel(
                    columns@[x],
                    y,
                ),
    {
        Self::edge_from_columns(columns)
    }

    /// World `(x, z)` of every column of chunk `(chunk_x, chunk_z)`, x slowest
    /// then z: the order in which `generate` takes its samples.
    pub fn column_coords(chunk_x: i32, chunk_z: i32) -> (coords: Vec<(i32, i32)>)
        requires
            chunk_in_range(chunk_x as int, chunk_z as int),
        ensures
            coords@.len() == CHUNK_X * CHUNK_Z,
            forall|x: int, z: int|
                0 <= x < CHUNK_X && 0 <= z < CHUNK_Z ==> #[trigger] coords@[x * CHUNK_Z + z] == (
                    world_coord(chunk_x as int, CHUNK_X as int, x) as i32,
                    world_coord(chunk_z as int, CHUNK_Z as int, z) as i32,
                ),
    {
        let mut coords: Vec<(i32, i32)> = Vec::with_capacity(CHUNK_X * CHUNK_Z);
        let mut x: usize = 0;
        while x < CHUNK_X
            invariant
                chunk_in_range(chunk_x as int, chunk_z as int),
                x <= CHUNK_X,
                coords@.len() == x * CHUNK_Z,
                forall|xx: int, z: int|
                    0 <= xx < x && 0 <= z < CHUNK_Z ==> #[trigger] coords@[xx * CHUNK_Z + z] == (
                        world_coord(chunk_x as int, CHUNK_X as int, xx) as i32,
                        world_coord(chunk_z as int, CHUNK_Z as int, z) as i32,
                    ),
            decreases CHUNK_X - x,
        {
            let world_x = world_coord_of(chunk_x, CHUNK_X, x);
            let mut z: usize = 0;
            while z < CHUNK_Z
                invariant
                    chunk_in_range(chunk_x as int, chunk_z as int),
                    x < CHUNK_X,
                    z <= CHUNK_Z,
                    world_x == world_coord(chunk_x as int, CHUNK_X as int, x as int),
                    coords@.len() == x * CHUNK_Z + z,
                    forall|xx: int, zz: int|
                        0 <= zz < CHUNK_Z && (0 <= xx < x || (xx == x && zz < z)) ==> #[trigger] coords@[xx
                            * CHUNK_Z + zz] == (
                            world_coord(chunk_x as int, CHUNK_X as int, xx) as i32,
                            world_coord(chunk_z as int, CHUNK_Z as int, zz) as i32,
                        ),
                decreases CHUNK_Z - z,
            {
                let world_z = world_coord_of(chunk_z, CHUNK_Z, z);
                coords.push((world_x, world_z));
                z += 1;
            }
            x += 1;
        }
        coords
    }

    /// World `(x, z)` of the columns of one side of chunk `(chunk_x, chunk_z)`:
    /// the columns at local x = `local_x` by z when `along_z`, else the
    /// columns at local z = `local_z` by x.
    fn side_coords(chunk_x: i32, chunk_z: i32, along_z: bool, local_x: usize, local_z: usize) -> (coords: Vec<(i32, i32)>)
        requires
            chunk_in_range(chunk_x as int, chunk_z as int),
            local_x < CHUNK_X,
            local_z < CHUNK_Z,
        ensures
            coords@.len() == 32,
            forall|i: int|
                0 <= i < 32 ==> #[trigger] coords@[i] == if along_z {
                    (
                        world_coord(chunk_x as int, CHUNK_X as int, local_x as int) as i32,
                        world_coord(chunk_z as int, CHUNK_Z as int, i) as i32,
                    )
                } else {
                    (
                        world_coord(chunk_x as int, CHUNK_X as int, i) as i32,
                        world_coord(chunk_z as int, CHUNK_Z as int, local_z as int) as i32,
                    )
                },
    {
        let mut coords: Vec<(i32, i32)> = Vec::with_capacity(32);
        let mut i: usize = 0;
        while i < 32
            invariant
                chunk_in_range(chunk_x as int, chunk_z as int),
                local_x < CHUNK_X,
                local_z < CHUNK_Z,
                i <= 32,
                coords@.len() == i,
                forall|k: int|
                    0 <= k < i ==> #[trigger] coords@[k] == if along_z {
                        (
                            world_coord(chunk_x as int, CHUNK_X as int, local_x as int) as i32,
                            world_coord(chunk_z as int, CHUNK_Z as int, k) as i32,
                        )
                    } else {
                        (
                            world_coord(chunk_x as int, CHUNK_X as int, k) as i32,
                            world_coord(chunk_z as int, CHUNK_Z as int, local_z as int) as i32,
                        )
                    },
            decreases 32 - i,
        {
            let coord = if along_z {
                (world_coord_of(chunk_x, CHUNK_X, local_x), world_coord_of(chunk_z, CHUNK_Z, i))
            } else {
                (world_coord_of(chunk_x, CHUNK_X, i), world_coord_of(chunk_z, CHUNK_Z, local_z))
            };
            coords.push(coord);
            i += 1;
        }
        coords
    }

    /// World `(x, z)` of the columns that `generate_west_edge` takes, by z.
    pub fn west_edge_coords(chunk_x: i32, chunk_z: i32) -> (coords: Vec<(i32, i32)>)
        requires
            chunk_in_range(chunk_x as int, chunk_z as int),
        ensures
            coords@.len() == CHUNK_Z,
            forall|z: int|
                0 <= z < CHUNK_Z ==> #[trigger] coords@[z] == (
                    world_coord(chunk_x as int, CHUNK_X as int, 0) as i32,
                    world_coord(chunk_z as int, CHUNK_Z as int, z) as i32,
                ),
    {
        Self::side_coords(chunk_x, chunk_z, true, 0, 0)
    }

    /// World `(x, z)` of the columns that `generate_east_edge` takes, by z.
    pub fn east_edge_coords(chunk_x: i32, chunk_z: i32) -> (coords: Vec<(i32, i32)>)
        requires
            chunk_in_range(chunk_x as int, chunk_z as int),
        ensures
            coords@.len() == CHUNK_Z,
            forall|z: int|
                0 <= z < CHUNK_Z ==> #[trigger] coords@[z] == (
                    world_coord(chunk_x as int, CHUNK_X as int, CHUNK_X - 1) as i32,
                    world_coord(chunk_z as int, CHUNK_Z as int, z) as i32,
                ),
    {
        Self::side_coords(chunk_x, chunk_z, true, CHUNK_X - 1, 0)
    }

    /// World `(x, z)` of the columns that `generate_south_edge` takes, by x.
    pub fn south_edge_coords(chunk_x: i32, chunk_z: i32) -> (coords: Vec<(i32, i32)>)
        requires
            chunk_in_range(chunk_x as int, chunk_z as int),
        ensures
            coords@.len() == CHUNK_X,
            forall|x: int|
                0 <= x < CHUNK_X ==> #[trigger] coords@[x] == (
                    world_coord(chunk_x as int, CHUNK_X as int, x) as i32,
                    world_coord(chunk_z as int, CHUNK_Z as int, 0) as i32,
                ),
    {
        Self::side_coords(chunk_x, chunk_z, false, 0, 0)
    }

    /// World `(x, z)` of the columns that `generate_north_edge` takes, by x.
    pub fn north_edge_coords(chunk_x: i32, chunk_z: i32) -> (coords: Vec<(i32, i32)>)
        requires
            chunk_in_range(chunk_x as int, chunk_z as int),
        ensures
            coords@.len() == CHUNK_X,
            forall|x: int|
                0 <= x < CHUNK_X ==> #[trigger] coords@[x] == (
                    world_coord(chunk_x as int, CHUNK_X as int, x) as i32,
                    world_coord(chunk_z as int, CHUNK_Z as int, CHUNK_Z - 1) as i32,
                ),
    {
        Self::side_coords(chunk_x, chunk_z, false, 0, CHUNK_Z - 1)
    }
}

} // verus!
