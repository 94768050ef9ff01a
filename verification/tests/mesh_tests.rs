use voxel_world::generation::chunk::{padded_index, PADDED_X, PADDED_Y, PADDED_Z};
use voxel_world::generation::mesh::{
    build_mesh_from_scratch, material_of, mesh_back_faces_binary, mesh_bottom_faces_binary,
    mesh_front_faces_binary, mesh_left_faces_binary, mesh_right_faces_binary,
    mesh_top_faces_binary, pack_face_key, unpack_ao, unpack_ao_corner, unpack_material,
    vertex_ao, ChunkMeshScratch, FaceDirection, FaceQuad,
};
use voxel_world::generation::voxel_type::{VoxelType, CHUNK_X, CHUNK_Y, CHUNK_Z};

fn empty_padded() -> Vec<VoxelType> {
    vec![VoxelType::Air; PADDED_X * PADDED_Y * PADDED_Z]
}

fn assert_quad(q: &FaceQuad, dir: FaceDirection, layer: usize, row: usize, column: usize, width: usize, depth: usize) {
    assert_eq!(q.direction, dir);
    assert_eq!(q.layer, layer);
    assert_eq!(q.row, row);
    assert_eq!(q.column, column);
    assert_eq!(q.width, width);
    assert_eq!(q.depth, depth);
}

#[test]
fn vertex_ao_counts_solid_neighbours() {
    assert_eq!(vertex_ao(false, false, false), 0);
    assert_eq!(vertex_ao(true, false, false), 1);
    assert_eq!(vertex_ao(false, false, true), 1);
    assert_eq!(vertex_ao(true, false, true), 2);
    assert_eq!(vertex_ao(true, true, false), 3);
    assert_eq!(vertex_ao(true, true, true), 3);
}

#[test]
fn face_keys_round_trip() {
    let mask: u8 = 1 | (2 << 2) | (3 << 4) | (0 << 6);
    let key = pack_face_key(VoxelType::Snow, mask);
    assert_eq!(key, 1 | ((mask as u16) << 2));
    assert_eq!(unpack_material(key), 1);
    assert_eq!(material_of(key), 1);
    assert_eq!(unpack_ao(key), mask);
    assert_eq!(unpack_ao_corner(key, 0), 1);
    assert_eq!(unpack_ao_corner(key, 1), 2);
    assert_eq!(unpack_ao_corner(key, 2), 3);
    assert_eq!(unpack_ao_corner(key, 3), 0);
    assert_eq!(material_of(pack_face_key(VoxelType::Grass, 0)), 0);
    assert_eq!(material_of(pack_face_key(VoxelType::Sand, 255)), 2);
}

#[test]
fn single_voxel_gives_one_quad_per_pass() {
    let mut padded = empty_padded();
    padded[padded_index(5, 5, 5)] = VoxelType::Sand;
    let mut masks_y = [0u32; CHUNK_Y];
    let mut keys_y = [[0u16; CHUNK_Z]; CHUNK_Y];
    let mut masks_z = [0u32; CHUNK_Z];
    let mut keys_z = [[0u16; CHUNK_X]; CHUNK_Z];
    let mut keys_x = [[0u16; CHUNK_X]; CHUNK_Y];
    let mut quads = Vec::new();
    let mut ao = Vec::new();
    let mut indices = Vec::new();
    let mut offset: u32 = 0;
    mesh_right_faces_binary(&padded, &mut masks_y, &mut keys_y, &mut quads, &mut ao, &mut indices, &mut offset);
    mesh_left_faces_binary(&padded, &mut masks_y, &mut keys_y, &mut quads, &mut ao, &mut indices, &mut offset);
    mesh_top_faces_binary(&padded, &mut masks_z, &mut keys_z, &mut quads, &mut ao, &mut indices, &mut offset);
    mesh_bottom_faces_binary(&padded, &mut masks_z, &mut keys_z, &mut quads, &mut ao, &mut indices, &mut offset);
    mesh_front_faces_binary(&padded, &mut masks_y, &mut keys_x, &mut quads, &mut ao, &mut indices, &mut offset);
    mesh_back_faces_binary(&padded, &mut masks_y, &mut keys_x, &mut quads, &mut ao, &mut indices, &mut offset);
    assert_eq!(quads.len(), 6);
    assert_quad(&quads[0], FaceDirection::Right, 4, 4, 4, 1, 1);
    assert_quad(&quads[1], FaceDirection::Left, 4, 4, 4, 1, 1);
    assert_quad(&quads[2], FaceDirection::Top, 4, 4, 4, 1, 1);
    assert_quad(&quads[3], FaceDirection::Bottom, 4, 4, 4, 1, 1);
    assert_quad(&quads[4], FaceDirection::Front, 4, 4, 4, 1, 1);
    assert_quad(&quads[5], FaceDirection::Back, 4, 4, 4, 1, 1);
    assert!(quads.iter().all(|q| q.voxel == VoxelType::Sand));
    assert_eq!(ao, vec![0u8; 24]);
    assert_eq!(offset, 24);
    assert_eq!(indices.len(), 36);
    assert_eq!(&indices[0..6], &[0, 1, 2, 0, 2, 3]);
    assert_eq!(&indices[30..36], &[20, 21, 22, 20, 22, 23]);
}

#[test]
fn equal_neighbouring_faces_merge_into_one_quad() {
    let mut padded = empty_padded();
    // a 3 (z) by 2 (y) wall of grass at chunk x = 10
    for pz in 3..6 {
        for py in 7..9 {
            padded[padded_index(11, py, pz)] = VoxelType::Grass;
        }
    }
    let mut masks = [0u32; CHUNK_Y];
    let mut keys = [[0u16; CHUNK_Z]; CHUNK_Y];
    let mut quads = Vec::new();
    let mut ao = Vec::new();
    let mut indices = Vec::new();
    let mut offset: u32 = 8;
    mesh_right_faces_binary(&padded, &mut masks, &mut keys, &mut quads, &mut ao, &mut indices, &mut offset);
    assert_eq!(quads.len(), 1);
    assert_quad(&quads[0], FaceDirection::Right, 10, 6, 2, 3, 2);
    assert_eq!(offset, 12);
    assert_eq!(indices, vec![8, 9, 10, 8, 10, 11]);
}

#[test]
fn different_materials_do_not_merge() {
    let mut padded = empty_padded();
    padded[padded_index(11, 7, 3)] = VoxelType::Grass;
    padded[padded_index(11, 7, 4)] = VoxelType::Snow;
    let mut masks = [0u32; CHUNK_Y];
    let mut keys = [[0u16; CHUNK_Z]; CHUNK_Y];
    let mut quads = Vec::new();
    let mut ao = Vec::new();
    let mut indices = Vec::new();
    let mut offset: u32 = 0;
    mesh_right_faces_binary(&padded, &mut masks, &mut keys, &mut quads, &mut ao, &mut indices, &mut offset);
    assert_eq!(quads.len(), 2);
    assert_quad(&quads[0], FaceDirection::Right, 10, 6, 2, 1, 1);
    assert_eq!(quads[0].voxel, VoxelType::Grass);
    assert_quad(&quads[1], FaceDirection::Right, 10, 6, 3, 1, 1);
    assert_eq!(quads[1].voxel, VoxelType::Snow);
}

#[test]
fn hidden_faces_are_not_meshed() {
    let mut padded = empty_padded();
    padded[padded_index(5, 5, 5)] = VoxelType::Grass;
    padded[padded_index(6, 5, 5)] = VoxelType::Grass;
    let mut masks = [0u32; CHUNK_Y];
    let mut keys = [[0u16; CHUNK_Z]; CHUNK_Y];
    let mut quads = Vec::new();
    let mut ao = Vec::new();
    let mut indices = Vec::new();
    let mut offset: u32 = 0;
    mesh_right_faces_binary(&padded, &mut masks, &mut keys, &mut quads, &mut ao, &mut indices, &mut offset);
    assert_eq!(quads.len(), 1);
    assert_quad(&quads[0], FaceDirection::Right, 5, 4, 4, 1, 1);
}

#[test]
fn occluded_corners_get_ao() {
    let mut padded = empty_padded();
    padded[padded_index(5, 5, 5)] = VoxelType::Grass;
    // a voxel above-left of the top face shades two of its corners
    padded[padded_index(4, 6, 5)] = VoxelType::Grass;
    let mut masks = [0u32; CHUNK_Z];
    let mut keys = [[0u16; CHUNK_X]; CHUNK_Z];
    let mut quads = Vec::new();
    let mut ao = Vec::new();
    let mut indices = Vec::new();
    let mut offset: u32 = 0;
    mesh_top_faces_binary(&padded, &mut masks, &mut keys, &mut quads, &mut ao, &mut indices, &mut offset);
    // the top face of (4, 4, 4) and the top face of the shading voxel
    assert_eq!(quads.len(), 2);
    assert_quad(&quads[0], FaceDirection::Top, 4, 4, 4, 1, 1);
    assert_quad(&quads[1], FaceDirection::Top, 5, 4, 3, 1, 1);
    assert_eq!(ao.len(), 8);
    assert!(ao[0..4].iter().filter(|a| **a > 0).count() == 2);
    assert!(ao[4..8].iter().all(|a| *a == 0));
}

#[test]
fn scratch_meshing_runs_all_passes_and_empties_buffers() {
    let mut scratch = ChunkMeshScratch::new();
    scratch.padded[padded_index(5, 5, 5)] = VoxelType::Grass;
    let data = build_mesh_from_scratch(&mut scratch);
    assert_eq!(data.quads.len(), 6);
    let dirs: Vec<FaceDirection> = data.quads.iter().map(|q| q.direction).collect();
    assert_eq!(
        dirs,
        vec![
            FaceDirection::Right,
            FaceDirection::Left,
            FaceDirection::Top,
            FaceDirection::Bottom,
            FaceDirection::Front,
            FaceDirection::Back
        ]
    );
    assert_eq!(data.ao.len(), 24);
    assert_eq!(data.indices.len(), 36);
    assert_eq!(&data.indices[6..12], &[4, 5, 6, 4, 6, 7]);
    assert!(scratch.quads.is_empty());
    assert!(scratch.ao.is_empty());
    assert!(scratch.indices.is_empty());
    scratch.clear();
    assert!(scratch.own_flat.is_empty());
    assert_eq!(scratch.padded[padded_index(5, 5, 5)], VoxelType::Grass);
}

#[test]
fn empty_scratch_meshes_to_nothing() {
    let mut scratch = ChunkMeshScratch::new();
    let data = build_mesh_from_scratch(&mut scratch);
    assert!(data.quads.is_empty());
    assert!(data.ao.is_empty());
    assert!(data.indices.is_empty());
}

#[test]
fn meshing_the_same_voxels_twice_gives_the_same_mesh() {
    let mut scratch = ChunkMeshScratch::new();
    for (px, py, pz, v) in [
        (3usize, 3usize, 3usize, VoxelType::Grass),
        (3, 4, 3, VoxelType::Grass),
        (4, 3, 3, VoxelType::Snow),
        (10, 20, 30, VoxelType::Sand),
        (11, 20, 30, VoxelType::Sand),
    ] {
        scratch.padded[padded_index(px, py, pz)] = v;
    }
    let first = build_mesh_from_scratch(&mut scratch);
    let second = build_mesh_from_scratch(&mut scratch);
    assert_eq!(first.quads.len(), second.quads.len());
    for (a, b) in first.quads.iter().zip(second.quads.iter()) {
        assert_eq!(
            (a.direction, a.layer, a.row, a.column, a.width, a.depth, a.voxel),
            (b.direction, b.layer, b.row, b.column, b.width, b.depth, b.voxel)
        );
    }
    assert_eq!(first.ao, second.ao);
    assert_eq!(first.indices, second.indices);
    // quads come in pass order
    let ranks: Vec<usize> = first.quads.iter().map(|q| q.direction as usize).collect();
    assert!(ranks.windows(2).all(|w| w[0] <= w[1]));
}

#[test]
fn a_pass_accepts_any_counter_its_faces_fit_under() {
    let padded = empty_padded();
    let mut masks = [0u32; CHUNK_Y];
    let mut keys = [[0u16; CHUNK_Z]; CHUNK_Y];
    let mut quads = Vec::new();
    let mut ao = Vec::new();
    let mut indices = Vec::new();
    let mut offset: u32 = u32::MAX - 4;
    mesh_right_faces_binary(&padded, &mut masks, &mut keys, &mut quads, &mut ao, &mut indices, &mut offset);
    assert!(quads.is_empty());
    assert_eq!(offset, u32::MAX - 4);

    let mut padded = empty_padded();
    padded[padded_index(5, 5, 5)] = VoxelType::Grass;
    mesh_right_faces_binary(&padded, &mut masks, &mut keys, &mut quads, &mut ao, &mut indices, &mut offset);
    assert_eq!(quads.len(), 1);
    assert_eq!(offset, u32::MAX);
    let b = u32::MAX - 4;
    assert_eq!(indices, vec![b, b + 1, b + 2, b, b + 2, b + 3]);
}

#[test]
fn chunk_mesh_is_the_six_passes_in_turn() {
    let mut scratch = ChunkMeshScratch::new();
    for (px, py, pz, v) in [
        (3usize, 3usize, 3usize, VoxelType::Grass),
        (3, 4, 3, VoxelType::Grass),
        (4, 3, 3, VoxelType::Snow),
        (10, 20, 30, VoxelType::Sand),
    ] {
        scratch.padded[padded_index(px, py, pz)] = v;
    }
    let padded = scratch.padded.clone();
    let mut masks_y = [0u32; CHUNK_Y];
    let mut keys_y = [[0u16; CHUNK_Z]; CHUNK_Y];
    let mut masks_z = [0u32; CHUNK_Z];
    let mut keys_z = [[0u16; CHUNK_X]; CHUNK_Z];
    let mut keys_x = [[0u16; CHUNK_X]; CHUNK_Y];
    let mut quads = Vec::new();
    let mut ao = Vec::new();
    let mut indices = Vec::new();
    let mut offset: u32 = 0;
    mesh_right_faces_binary(&padded, &mut masks_y, &mut keys_y, &mut quads, &mut ao, &mut indices, &mut offset);
    mesh_left_faces_binary(&padded, &mut masks_y, &mut keys_y, &mut quads, &mut ao, &mut indices, &mut offset);
    mesh_top_faces_binary(&padded, &mut masks_z, &mut keys_z, &mut quads, &mut ao, &mut indices, &mut offset);
    mesh_bottom_faces_binary(&padded, &mut masks_z, &mut keys_z, &mut quads, &mut ao, &mut indices, &mut offset);
    mesh_front_faces_binary(&padded, &mut masks_y, &mut keys_x, &mut quads, &mut ao, &mut indices, &mut offset);
    mesh_back_faces_binary(&padded, &mut masks_y, &mut keys_x, &mut quads, &mut ao, &mut indices, &mut offset);
    let data = build_mesh_from_scratch(&mut scratch);
    assert_eq!(data.quads.len(), quads.len());
    for (a, b) in data.quads.iter().zip(quads.iter()) {
        assert_eq!(
            (a.direction, a.layer, a.row, a.column, a.width, a.depth, a.voxel),
            (b.direction, b.layer, b.row, b.column, b.width, b.depth, b.voxel)
        );
    }
    assert_eq!(data.ao, ao);
    assert_eq!(data.indices, indices);
    assert_eq!(offset as usize, 4 * quads.len());
}

#[test]
fn a_counter_needs_room_only_for_the_merged_quads() {
    let mut padded = empty_padded();
    // six faces that merge into one quad
    for pz in 3..6 {
        for py in 7..9 {
            padded[padded_index(11, py, pz)] = VoxelType::Grass;
        }
    }
    let mut masks = [0u32; CHUNK_Y];
    let mut keys = [[0u16; CHUNK_Z]; CHUNK_Y];
    let mut quads = Vec::new();
    let mut ao = Vec::new();
    let mut indices = Vec::new();
    let mut offset: u32 = u32::MAX - 4;
    mesh_right_faces_binary(&padded, &mut masks, &mut keys, &mut quads, &mut ao, &mut indices, &mut offset);
    assert_eq!(quads.len(), 1);
    assert_eq!(offset, u32::MAX);
}

#[test]
fn back_faces_are_shaded_from_below_behind() {
    let mut padded = empty_padded();
    // chunk voxel (0, 1, 31) and a solid padding cell one below, just behind its +z face
    padded[padded_index(1, 2, 32)] = VoxelType::Grass;
    padded[padded_index(1, 1, 33)] = VoxelType::Grass;
    let mut masks = [0u32; CHUNK_Y];
    let mut keys = [[0u16; CHUNK_X]; CHUNK_Y];
    let mut quads = Vec::new();
    let mut ao = Vec::new();
    let mut indices = Vec::new();
    let mut offset: u32 = 0;
    mesh_back_faces_binary(&padded, &mut masks, &mut keys, &mut quads, &mut ao, &mut indices, &mut offset);
    assert_eq!(quads.len(), 1);
    assert_quad(&quads[0], FaceDirection::Back, 31, 1, 0, 1, 1);
    assert_eq!(ao, vec![1, 1, 0, 0]);
    // a solid cell one above, behind, shades the other two vertices
    let mut padded = empty_padded();
    padded[padded_index(1, 2, 32)] = VoxelType::Grass;
    padded[padded_index(1, 3, 33)] = VoxelType::Grass;
    let mut quads = Vec::new();
    let mut ao = Vec::new();
    let mut indices = Vec::new();
    let mut offset: u32 = 0;
    mesh_back_faces_binary(&padded, &mut masks, &mut keys, &mut quads, &mut ao, &mut indices, &mut offset);
    assert_eq!(ao, vec![0, 0, 1, 1]);
}
