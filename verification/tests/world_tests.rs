use voxel_world::generation::biome_recipes::SampledTerrain;
use voxel_world::generation::chunk::{padded_index, Chunk};
use voxel_world::generation::mesh::{ChunkMeshScratch, FaceDirection};
use voxel_world::generation::voxel_type::VoxelType;
use voxel_world::generation::worldgen::hash2_bits;
use voxel_world::generation::{
    chunk_key, chunk_ready, compute_chunk_mesh, load_chunks_around_player, spawn_initial_chunks,
    unload_distant_chunks, LoadedChunks, RENDER_DISTANCE, START_DISTANCE, UNLOAD_DISTANCE,
    WORLD_SEED,
};

#[test]
fn hash2_bits_matches_known_values() {
    assert_eq!(hash2_bits(0, 0, 0), (0, 0));
    assert_eq!(hash2_bits(1, 0, 0), (43719, 57210));
    assert_eq!(hash2_bits(0, 1, 0), (60243, 21687));
    assert_eq!(hash2_bits(-3, 7, WORLD_SEED), (34440, 16405));
}

#[test]
fn hash2_bits_stay_below_two_to_the_sixteen() {
    for x in -20..20 {
        for z in -20..20 {
            let (a, b) = hash2_bits(x, z, WORLD_SEED);
            assert!(a < 65536 && b < 65536);
        }
    }
}

#[test]
fn chunk_keys_pack_both_coordinates() {
    assert_eq!(chunk_key(0, 0), 0);
    assert_eq!(chunk_key(1, 2), (1u64 << 32) | 2);
    assert_eq!(chunk_key(-1, 0), 0xFFFF_FFFFu64 << 32);
    assert_eq!(chunk_key(0, -1), 0xFFFF_FFFFu64);
    assert_ne!(chunk_key(1, 0), chunk_key(0, 1));
}

#[test]
fn loading_marks_the_square_around_the_player_pending() {
    let mut loaded = LoadedChunks::new();
    let spawn = load_chunks_around_player(&mut loaded, 3, -2);
    let side = (2 * RENDER_DISTANCE) as usize;
    assert_eq!(spawn.len(), side * side);
    assert_eq!(spawn[0], (3 - RENDER_DISTANCE, -2 - RENDER_DISTANCE));
    assert_eq!(spawn[1], (3 - RENDER_DISTANCE, -1 - RENDER_DISTANCE));
    assert_eq!(spawn[side * side - 1], (2 + RENDER_DISTANCE, -3 + RENDER_DISTANCE));
    assert_eq!(loaded.pending.len(), side * side);
    assert!(loaded.entities.is_empty());
    // everything is pending now: a second call asks for nothing
    let again = load_chunks_around_player(&mut loaded, 3, -2);
    assert!(again.is_empty());
}

#[test]
fn loading_skips_shown_and_pending_chunks() {
    let mut loaded = LoadedChunks::new();
    loaded.entities.insert(chunk_key(0, 0), 7);
    loaded.pending.insert(chunk_key(1, 1));
    let spawn = load_chunks_around_player(&mut loaded, 0, 0);
    assert_eq!(spawn.len(), 4096 - 2);
    assert!(!spawn.contains(&(0, 0)));
    assert!(!spawn.contains(&(1, 1)));
    assert!(spawn.contains(&(-32, 31)));
    assert!(!spawn.contains(&(32, 0)));
    assert_eq!(loaded.entities.len(), 1);
}

#[test]
fn a_ready_chunk_moves_from_pending_to_shown() {
    let mut loaded = LoadedChunks::new();
    let _ = load_chunks_around_player(&mut loaded, 0, 0);
    chunk_ready(&mut loaded, 2, -5, 99);
    assert!(!loaded.pending.contains(&chunk_key(2, -5)));
    assert_eq!(loaded.entities.get(&chunk_key(2, -5)), Some(&99));
    assert_eq!(loaded.pending.len(), 4095);
}

#[test]
fn unloading_removes_only_chunks_beyond_the_distance() {
    let mut loaded = LoadedChunks::new();
    chunk_ready(&mut loaded, UNLOAD_DISTANCE, 0, 1);
    chunk_ready(&mut loaded, UNLOAD_DISTANCE + 1, 0, 2);
    chunk_ready(&mut loaded, 0, -UNLOAD_DISTANCE - 1, 3);
    chunk_ready(&mut loaded, -UNLOAD_DISTANCE, UNLOAD_DISTANCE, 4);
    loaded.pending.insert(chunk_key(100, 100));
    let mut despawn = unload_distant_chunks(&mut loaded, 0, 0);
    despawn.sort();
    assert_eq!(despawn, vec![2, 3]);
    assert_eq!(loaded.entities.len(), 2);
    assert!(loaded.entities.contains_key(&chunk_key(UNLOAD_DISTANCE, 0)));
    assert!(loaded.entities.contains_key(&chunk_key(-UNLOAD_DISTANCE, UNLOAD_DISTANCE)));
    assert!(loaded.pending.contains(&chunk_key(100, 100)));
    // relative to a moved player
    let despawn = unload_distant_chunks(&mut loaded, 40, 0);
    assert_eq!(despawn, vec![4]);
}

#[test]
fn initial_chunks_cover_the_start_square() {
    let loaded = LoadedChunks::new();
    let spawn = spawn_initial_chunks(&loaded);
    let side = (2 * START_DISTANCE) as usize;
    assert_eq!(spawn.len(), side * side);
    assert_eq!(spawn[0], (-START_DISTANCE, -START_DISTANCE));
    assert_eq!(spawn[side * side - 1], (START_DISTANCE - 1, START_DISTANCE - 1));
    let mut loaded = LoadedChunks::new();
    chunk_ready(&mut loaded, 0, 0, 5);
    let spawn = spawn_initial_chunks(&loaded);
    assert_eq!(spawn.len(), side * side - 1);
    assert!(!spawn.contains(&(0, 0)));
}

fn flat(height: usize, n: usize) -> Vec<SampledTerrain> {
    vec![SampledTerrain { height, surface: VoxelType::Grass }; n]
}

#[test]
fn flat_chunk_meshes_to_one_top_and_one_bottom_quad() {
    let mut scratch = ChunkMeshScratch::new();
    let data = compute_chunk_mesh(&mut scratch, &flat(1, 1024), &flat(1, 32), &flat(1, 32), &flat(1, 32), &flat(1, 32));
    assert_eq!(data.quads.len(), 2);
    assert_eq!(data.quads[0].direction, FaceDirection::Top);
    assert_eq!(data.quads[1].direction, FaceDirection::Bottom);
    for q in &data.quads {
        assert_eq!((q.layer, q.row, q.column, q.width, q.depth), (0, 0, 0, 32, 32));
        assert_eq!(q.voxel, VoxelType::Grass);
    }
    assert_eq!(data.ao, vec![0u8; 8]);
    assert_eq!(data.indices, vec![0, 1, 2, 0, 2, 3, 4, 5, 6, 4, 6, 7]);
    assert_eq!(scratch.own_flat.len(), 32 * 32 * 512);
}

#[test]
fn lower_neighbours_expose_the_chunk_sides() {
    let mut scratch = ChunkMeshScratch::new();
    // the +x neighbour is one voxel lower: the chunk's +x side shows one row of faces
    let data = compute_chunk_mesh(&mut scratch, &flat(2, 1024), &flat(1, 32), &flat(2, 32), &flat(2, 32), &flat(2, 32));
    let right: Vec<_> = data.quads.iter().filter(|q| q.direction == FaceDirection::Right).collect();
    assert!(!right.is_empty());
    assert!(right.iter().all(|q| q.layer == 31 && q.row == 1 && q.depth == 1));
    assert_eq!(right.iter().map(|q| q.width).sum::<usize>(), 32);
    assert_eq!(scratch.padded[padded_index(33, 1, 1)], VoxelType::Grass);
    assert_eq!(scratch.padded[padded_index(33, 2, 1)], VoxelType::Air);
    assert_eq!(scratch.padded[padded_index(32, 2, 1)], VoxelType::Grass);
    let chunk = Chunk::generate(&flat(2, 1024));
    assert_eq!(scratch.own_flat, chunk.flat);
}

#[test]
fn loaded_chunks_survive_unloading_around_the_same_player() {
    let mut loaded = LoadedChunks::new();
    let spawn = load_chunks_around_player(&mut loaded, -7, 11);
    for (i, (cx, cz)) in spawn.iter().enumerate() {
        chunk_ready(&mut loaded, *cx, *cz, i as u64);
    }
    assert!(loaded.pending.is_empty());
    assert_eq!(loaded.entities.len(), spawn.len());
    let despawn = unload_distant_chunks(&mut loaded, -7, 11);
    assert!(despawn.is_empty());
    assert_eq!(loaded.entities.len(), spawn.len());
    // far enough away, every one of them goes
    let despawn = unload_distant_chunks(&mut loaded, -7 + 100, 11);
    assert_eq!(despawn.len(), spawn.len());
    assert!(loaded.entities.is_empty());
}
