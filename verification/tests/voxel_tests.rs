use voxel_world::voxel::{
    compress_to_runs, create_chunk_mesh, is_transparent, Chunk, VoxelType, CHUNK_VOLUME, CHUNK_Y,
    CHUNK_Z,
};

#[test]
fn test_compress() {
    let flat = vec![VoxelType::Air, VoxelType::Air, VoxelType::Air, VoxelType::Grass];
    let runs = compress_to_runs(&flat);
    println!("{:?}", runs);
    assert_eq!(runs.len(), 2);
    assert_eq!(runs[0].value, VoxelType::Air);
    assert_eq!(runs[0].length, 3);
    assert_eq!(runs[1].value, VoxelType::Grass);
    assert_eq!(runs[1].length, 1);
}

#[test]
fn compress_empty_gives_no_runs() {
    let runs = compress_to_runs(&[]);
    assert!(runs.is_empty());
}

#[test]
fn compress_alternating_voxels_gives_one_run_each() {
    let flat = vec![VoxelType::Grass, VoxelType::Air, VoxelType::Grass, VoxelType::Air];
    let runs = compress_to_runs(&flat);
    assert_eq!(runs.len(), 4);
    for (i, run) in runs.iter().enumerate() {
        assert_eq!(run.length, 1);
        assert_eq!(run.value, flat[i]);
    }
}

#[test]
fn compress_long_run_keeps_its_length() {
    let flat = vec![VoxelType::Grass; 1000];
    let runs = compress_to_runs(&flat);
    assert_eq!(runs.len(), 1);
    assert_eq!(runs[0].length, 1000);
}

#[test]
fn generated_chunk_decompresses_to_flat_terrain() {
    let chunk = Chunk::generate();
    let flat = chunk.decompress();
    assert_eq!(flat.len(), CHUNK_VOLUME);
    for x in [0usize, 5, 31] {
        for z in [0usize, 17, 31] {
            for y in 0..CHUNK_Y {
                let expected = if y < 64 { VoxelType::Grass } else { VoxelType::Air };
                assert_eq!(Chunk::get_voxel(&flat, x, y, z), expected);
            }
        }
    }
}

#[test]
fn decompress_round_trips_compress() {
    let chunk = Chunk::generate();
    let flat = chunk.decompress();
    let runs = compress_to_runs(&flat);
    let mut expanded = Vec::new();
    for run in &runs {
        for _ in 0..run.length {
            expanded.push(run.value);
        }
    }
    assert_eq!(expanded, flat);
    // one grass run and one air run per column
    assert_eq!(runs.len(), 2 * 32 * 32);
}

#[test]
fn get_voxel_uses_x_then_z_then_y_layout() {
    let mut flat = vec![VoxelType::Air; CHUNK_VOLUME];
    flat[2 * (CHUNK_Z * CHUNK_Y) + 3 * CHUNK_Y + 4] = VoxelType::Grass;
    assert_eq!(Chunk::get_voxel(&flat, 2, 4, 3), VoxelType::Grass);
    assert_eq!(Chunk::get_voxel(&flat, 3, 4, 2), VoxelType::Air);
}

#[test]
fn outside_positions_are_transparent() {
    let flat = vec![VoxelType::Grass; CHUNK_VOLUME];
    assert!(is_transparent(&flat, -1, 0, 0));
    assert!(is_transparent(&flat, 32, 0, 0));
    assert!(is_transparent(&flat, 0, 256, 0));
    assert!(is_transparent(&flat, 0, 0, -1));
    assert!(!is_transparent(&flat, 0, 0, 0));
    assert!(!is_transparent(&flat, 31, 255, 31));
}

#[test]
fn flat_chunk_mesh_has_top_bottom_and_border_faces() {
    let chunk = Chunk::generate();
    let mesh = create_chunk_mesh(&chunk);
    // 1024 top faces, 1024 bottom faces, 4 sides of 32 columns by 64 voxels.
    assert_eq!(mesh.faces.len(), 1024 + 1024 + 4 * 32 * 64);
    assert_eq!(mesh.indices.len(), 6 * mesh.faces.len());
    let top = mesh.faces.iter().filter(|f| f.face == 2).count();
    assert_eq!(top, 1024);
    assert!(mesh.faces.iter().filter(|f| f.face == 2).all(|f| f.y == 63));
    assert!(mesh.faces.iter().all(|f| f.value == VoxelType::Grass));
    assert_eq!(&mesh.indices[0..6], &[0, 1, 2, 0, 2, 3]);
    assert_eq!(&mesh.indices[6..12], &[4, 5, 6, 4, 6, 7]);
}

#[test]
fn decompress_is_the_concatenation_of_the_runs() {
    let chunk = Chunk::generate();
    let flat = chunk.decompress();
    let mut expanded = Vec::new();
    for run in chunk.runs() {
        for _ in 0..run.length {
            expanded.push(run.value);
        }
    }
    assert_eq!(expanded, flat);
    let runs = compress_to_runs(&flat);
    assert_eq!(runs.len(), chunk.runs().len());
    for (a, b) in runs.iter().zip(chunk.runs().iter()) {
        assert_eq!((a.value, a.length), (b.value, b.length));
    }
}

#[test]
fn transparency_outside_the_chunk_needs_no_voxels() {
    let flat: Vec<VoxelType> = Vec::new();
    assert!(is_transparent(&flat, -1, 0, 0));
    assert!(is_transparent(&flat, 0, 256, 0));
    let small = vec![VoxelType::Grass; 4];
    assert!(!is_transparent(&small, 0, 3, 0));
}
