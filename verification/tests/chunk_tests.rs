use voxel_world::generation::biome_recipes::{BiomeCategory, SampledTerrain};
use voxel_world::generation::chunk::{padded_index, Chunk, PADDED_X, PADDED_Y, PADDED_Z};
use voxel_world::generation::voxel_type::{
    local_y_to_world_y, world_y_to_local_y, VoxelType, CHUNK_VOLUME, CHUNK_X, CHUNK_Y, CHUNK_Z,
    WORLD_MAX_Y_EXCLUSIVE, WORLD_MIN_Y,
};

fn column(height: usize, surface: VoxelType) -> SampledTerrain {
    SampledTerrain { height, surface }
}

#[test]
fn padded_index_is_x_slowest_then_z_then_y() {
    assert_eq!(padded_index(0, 0, 0), 0);
    assert_eq!(padded_index(0, 1, 0), 1);
    assert_eq!(padded_index(0, 0, 1), PADDED_Y);
    assert_eq!(padded_index(1, 0, 0), PADDED_Z * PADDED_Y);
    assert_eq!(padded_index(2, 3, 4), 2 * 34 * 514 + 4 * 514 + 3);
    assert_eq!(
        padded_index(PADDED_X - 1, PADDED_Y - 1, PADDED_Z - 1),
        PADDED_X * PADDED_Y * PADDED_Z - 1
    );
}

#[test]
fn local_and_world_heights_convert_both_ways() {
    assert_eq!(local_y_to_world_y(0), WORLD_MIN_Y);
    assert_eq!(local_y_to_world_y(128), 0);
    assert_eq!(local_y_to_world_y(CHUNK_Y - 1), WORLD_MAX_Y_EXCLUSIVE - 1);
    assert_eq!(world_y_to_local_y(-128), Some(0));
    assert_eq!(world_y_to_local_y(0), Some(128));
    assert_eq!(world_y_to_local_y(383), Some(511));
    assert_eq!(world_y_to_local_y(384), None);
    assert_eq!(world_y_to_local_y(-129), None);
    for local in 0..CHUNK_Y {
        assert_eq!(world_y_to_local_y(local_y_to_world_y(local)), Some(local));
    }
}

#[test]
fn biome_categories_compare_by_variant() {
    assert_eq!(BiomeCategory::Snowy, BiomeCategory::Snowy);
    assert_ne!(BiomeCategory::Desert, BiomeCategory::GreenForest);
}

#[test]
fn generate_fills_each_column_up_to_its_height() {
    let mut columns = Vec::new();
    for x in 0..CHUNK_X {
        for z in 0..CHUNK_Z {
            let surface = if x < 16 { VoxelType::Grass } else { VoxelType::Sand };
            columns.push(column(x + z, surface));
        }
    }
    let chunk = Chunk::generate(&columns);
    assert_eq!(chunk.flat.len(), CHUNK_VOLUME);
    assert_eq!(Chunk::get_voxel(&chunk.flat, 3, 9, 7), VoxelType::Grass);
    assert_eq!(Chunk::get_voxel(&chunk.flat, 3, 10, 7), VoxelType::Air);
    assert_eq!(Chunk::get_voxel(&chunk.flat, 20, 0, 0), VoxelType::Sand);
    assert_eq!(Chunk::get_voxel(&chunk.flat, 20, 19, 0), VoxelType::Sand);
    assert_eq!(Chunk::get_voxel(&chunk.flat, 20, 20, 0), VoxelType::Air);
    assert_eq!(Chunk::get_voxel(&chunk.flat, 0, 0, 0), VoxelType::Air);
}

#[test]
fn border_column_is_solid_below_its_height() {
    let col = Chunk::generate_border_column(column(5, VoxelType::Snow));
    assert_eq!(col.len(), CHUNK_Y);
    assert!(col[..5].iter().all(|v| *v == VoxelType::Snow));
    assert!(col[5..].iter().all(|v| *v == VoxelType::Air));
    let full = Chunk::generate_border_column(column(10_000, VoxelType::Grass));
    assert!(full.iter().all(|v| *v == VoxelType::Grass));
}

#[test]
fn edges_lay_out_columns_one_after_another() {
    let sides: Vec<SampledTerrain> = (0..32).map(|i| column(i, VoxelType::Grass)).collect();
    let west = Chunk::generate_west_edge(&sides);
    let east = Chunk::generate_east_edge(&sides);
    let south = Chunk::generate_south_edge(&sides);
    let north = Chunk::generate_north_edge(&sides);
    for edge in [&west, &east, &south, &north] {
        assert_eq!(edge.len(), 32 * CHUNK_Y);
        assert_eq!(edge[7 * CHUNK_Y + 6], VoxelType::Grass);
        assert_eq!(edge[7 * CHUNK_Y + 7], VoxelType::Air);
        assert_eq!(edge[0], VoxelType::Air);
    }
}

#[test]
fn column_coords_follow_the_chunk_position() {
    let coords = Chunk::column_coords(2, -1);
    assert_eq!(coords.len(), 1024);
    assert_eq!(coords[0], (64, -32));
    assert_eq!(coords[1], (64, -31));
    assert_eq!(coords[32], (65, -32));
    assert_eq!(coords[1023], (95, -1));
}

#[test]
fn side_coords_pick_the_facing_columns() {
    assert_eq!(Chunk::west_edge_coords(1, 0)[3], (32, 3));
    assert_eq!(Chunk::east_edge_coords(-1, 0)[3], (-1, 3));
    assert_eq!(Chunk::south_edge_coords(0, 1)[5], (5, 32));
    assert_eq!(Chunk::north_edge_coords(0, -1)[5], (5, -1));
    assert_eq!(Chunk::west_edge_coords(0, 0).len(), 32);
}

#[test]
fn padded_chunk_holds_own_voxels_edges_and_air() {
    let own = vec![VoxelType::Grass; CHUNK_VOLUME];
    let pos_x = vec![VoxelType::Snow; CHUNK_Z * CHUNK_Y];
    let neg_z = vec![VoxelType::Sand; CHUNK_X * CHUNK_Y];
    let mut padded = vec![VoxelType::Snow; PADDED_X * PADDED_Y * PADDED_Z];
    Chunk::build_padded_chunk(&mut padded, &own, Some(&pos_x), None, None, Some(&neg_z));
    assert_eq!(padded[padded_index(1, 1, 1)], VoxelType::Grass);
    assert_eq!(padded[padded_index(32, 512, 32)], VoxelType::Grass);
    assert_eq!(padded[padded_index(33, 5, 5)], VoxelType::Snow);
    assert_eq!(padded[padded_index(0, 5, 5)], VoxelType::Air);
    assert_eq!(padded[padded_index(5, 5, 33)], VoxelType::Air);
    assert_eq!(padded[padded_index(5, 5, 0)], VoxelType::Sand);
    assert_eq!(padded[padded_index(5, 0, 5)], VoxelType::Air);
    assert_eq!(padded[padded_index(5, 513, 5)], VoxelType::Air);
    assert_eq!(padded[padded_index(0, 5, 0)], VoxelType::Air);
    assert_eq!(padded[padded_index(33, 5, 33)], VoxelType::Air);
}

#[test]
fn is_solid_treats_the_bottom_padding_as_solid() {
    let padded = vec![VoxelType::Air; PADDED_X * PADDED_Y * PADDED_Z];
    assert!(VoxelType::is_solid(&padded, 5, 0, 5));
    assert!(!VoxelType::is_solid(&padded, 5, 1, 5));
    let mut padded = padded;
    padded[padded_index(5, 1, 5)] = VoxelType::Sand;
    assert!(VoxelType::is_solid(&padded, 5, 1, 5));
}

fn sampler(x: i32, z: i32) -> SampledTerrain {
    let h = ((x * 7 + z * 13).rem_euclid(40)) as usize;
    let surface = if (x + z).rem_euclid(3) == 0 { VoxelType::Snow } else { VoxelType::Grass };
    column(h, surface)
}

fn sample_all(coords: &[(i32, i32)]) -> Vec<SampledTerrain> {
    coords.iter().map(|&(x, z)| sampler(x, z)).collect()
}

#[test]
fn edges_are_the_matching_slices_of_the_chunk() {
    let (cx, cz) = (3, -2);
    let chunk = Chunk::generate(&sample_all(&Chunk::column_coords(cx, cz)));
    let west = Chunk::generate_west_edge(&sample_all(&Chunk::west_edge_coords(cx, cz)));
    let east = Chunk::generate_east_edge(&sample_all(&Chunk::east_edge_coords(cx, cz)));
    let south = Chunk::generate_south_edge(&sample_all(&Chunk::south_edge_coords(cx, cz)));
    let north = Chunk::generate_north_edge(&sample_all(&Chunk::north_edge_coords(cx, cz)));
    for a in 0..32 {
        for y in 0..CHUNK_Y {
            assert_eq!(west[a * CHUNK_Y + y], Chunk::get_voxel(&chunk.flat, 0, y, a));
            assert_eq!(east[a * CHUNK_Y + y], Chunk::get_voxel(&chunk.flat, 31, y, a));
            assert_eq!(south[a * CHUNK_Y + y], Chunk::get_voxel(&chunk.flat, a, y, 0));
            assert_eq!(north[a * CHUNK_Y + y], Chunk::get_voxel(&chunk.flat, a, y, 31));
        }
    }
    assert_eq!(&west[..], &chunk.flat[0..16384]);
    assert_eq!(&east[..], &chunk.flat[507904..524288]);
}
