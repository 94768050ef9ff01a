pub mod voxel_type;
pub mod chunk;
pub mod mesh;
pub mod mask_bits;
pub mod biome_recipes;
pub mod worldgen;
pub mod types;

use vstd::prelude::*;
use bevy::platform::collections::{HashMap, HashSet};
use bevy::platform::hash::FixedHasher;
use crate::generation::biome_recipes::SampledTerrain;
use crate::generation::chunk::{
    Chunk, columns_voxels, in_padded_box, lemma_padded_index_bijective, padded_cell_value, spec_padded_index,
};
use crate::generation::mesh::{
    build_mesh_from_scratch, chunk_mesh_output, last_slice_keys, ChunkMeshData, ChunkMeshScratch,
    FaceDirection, PADDED_VOLUME,
};
use crate::generation::voxel_type::{VoxelType, CHUNK_X, CHUNK_Y, CHUNK_Z};

verus! {

pub const RENDER_DISTANCE: i32 = 32;
pub const UNLOAD_DISTANCE: i32 = 36;
pub const WORLD_SEED: u32 = 5345235;
pub const START_DISTANCE: i32 = 4;

/// The 64-bit key of chunk `(x, z)`: x in the high half, z in the low half.
pub open spec fn spec_chunk_key(x: i32, z: i32) -> u64 {
    ((x as u32 as u64) << 32u64) | (z as u32 as u64)
}

pub open spec fn spec_key_x(key: u64) -> i32 {
    (key >> 32u64) as u32 as i32
}

pub open spec fn spec_key_z(key: u64) -> i32 {
    key as u32 as i32
}

/// A chunk key gives back the coordinates it was made from, so distinct
/// chunks have distinct keys.
pub proof fn lemma_chunk_key_round_trip(x: i32, z: i32)
    ensures
        spec_key_x(spec_chunk_key(x, z)) == x,
        spec_key_z(spec_chunk_key(x, z)) == z,
{
    assert(((((x as u32 as u64) << 32u64) | (z as u32 as u64)) >> 32u64) as u32 as i32 == x) by (bit_vector);
    assert((((x as u32 as u64) << 32u64) | (z as u32 as u64)) as u32 as i32 == z) by (bit_vector);
}

pub fn chunk_key(x: i32, z: i32) -> (key: u64)
    ensures
        key == spec_chunk_key(x, z),
{
    ((x as u32 as u64) << 32) | (z as u32 as u64)
}

/// The voxel at `(px, py, pz)` of the padded grid of a chunk whose columns
/// were sampled as `columns`, beside neighbours whose facing sides were
/// sampled as `pos_x`, `neg_x`, `pos_z` and `neg_z`.
pub open spec fn chunk_padded_value(
    columns: Seq<SampledTerrain>,
    pos_x: Seq<SampledTerrain>,
    neg_x: Seq<SampledTerrain>,
    pos_z: Seq<SampledTerrain>,
    neg_z: Seq<SampledTerrain>,
    px: int,
    py: int,
    pz: int,
) -> VoxelType {
    padded_cell_value(
        columns_voxels(columns),
        Some(columns_voxels(pos_x)),
        Some(columns_voxels(neg_x)),
        Some(columns_voxels(pos_z)),
        Some(columns_voxels(neg_z)),
        px,
        py,
        pz,
    )
}

/// Meshes one chunk, the work of a chunk task: fills the chunk from its
/// sampled columns (x slowest, then z), makes the edges of its four
/// neighbours from the samples of the sides that face it (the +x
/// neighbour's -x side and the -x neighbour's +x side by z, the +z
/// neighbour's -z side and the -z neighbour's +z side by x), lays them out
/// in the scratch's padded grid and runs the six meshing passes on it.
pub fn compute_chunk_mesh(
    scratch: &mut ChunkMeshScratch,
    columns: &[SampledTerrain],
    pos_x_side: &[SampledTerrain],
    neg_x_side: &[SampledTerrain],
    pos_z_side: &[SampledTerrain],
    neg_z_side: &[SampledTerrain],
) -> (data: ChunkMeshData)
    requires
        old(scratch).padded@.len() >= PADDED_VOLUME,
        columns.len() == CHUNK_X * CHUNK_Z,
        pos_x_side.len() == CHUNK_Z,
        neg_x_side.len() == CHUNK_Z,
        pos_z_side.len() == CHUNK_X,
        neg_z_side.len() == CHUNK_X,
    ensures
        final(scratch).padded@.len() == old(scratch).padded@.len(),
        forall|px: int, py: int, pz: int|
            in_padded_box(px, py, pz) ==> #[trigger] final(scratch).padded@[spec_padded_index(px, py, pz)]
                == chunk_padded_value(columns@, pos_x_side@, neg_x_side@, pos_z_side@, neg_z_side@, px, py, pz),
        forall|i: int|
            PADDED_VOLUME <= i < final(scratch).padded@.len() ==> #[trigger] final(scratch).padded@[i]
                == VoxelType::Air,
        final(scratch).own_flat@ == columns_voxels(columns@),
        forall|i: int| 0 <= i < 4 ==> (#[trigger] final(scratch).neighbors@[i])@.len() == 0,
        chunk_mesh_output(
            final(scratch).padded@,
            old(scratch).quads@,
            old(scratch).ao@,
            old(scratch).indices@,
            data.quads@,
            data.ao@,
            data.indices@,
        ),
        final(scratch).quads@.len() == 0,
        final(scratch).ao@.len() == 0,
        final(scratch).indices@.len() == 0,
        forall|r: int| 0 <= r < CHUNK_Y ==> #[trigger] final(scratch).mask_y@[r] == 0,
        forall|r: int| 0 <= r < CHUNK_Z ==> #[trigger] final(scratch).mask_z@[r] == 0,
        last_slice_keys(final(scratch).padded@, FaceDirection::Left, final(scratch).face_keys_y),
        last_slice_keys(final(scratch).padded@, FaceDirection::Bottom, final(scratch).face_keys_z),
        last_slice_keys(final(scratch).padded@, FaceDirection::Back, final(scratch).face_keys_x),
{
    let chunk = Chunk::generate(columns);
    let west_edge = Chunk::generate_west_edge(pos_x_side);
    let east_edge = Chunk::generate_east_edge(neg_x_side);
    let south_edge = Chunk::generate_south_edge(pos_z_side);
    let north_edge = Chunk::generate_north_edge(neg_z_side);
    scratch.clear();
    scratch.own_flat = chunk.flat;
    proof {
        crate::generation::voxel_type::lemma_chunk_volume();
    }
    Chunk::build_padded_chunk(
        scratch.padded.as_mut_slice(),
        scratch.own_flat.as_slice(),
        Some(west_edge.as_slice()),
        Some(east_edge.as_slice()),
        Some(south_edge.as_slice()),
        Some(north_edge.as_slice()),
    );
    proof {
        assert forall|px: int, py: int, pz: int| #[trigger] in_padded_box(px, py, pz) implies spec_padded_index(px, py, pz)
            < PADDED_VOLUME by {
            lemma_padded_index_bijective(px, py, pz, px, py, pz);
        }
    }
    build_mesh_from_scratch(scratch)
}

/// The engine's hash map, whose contents `map_entries` names.
#[verifier::external_type_specification]
#[verifier::external_body]
#[verifier::reject_recursive_types(K)]
#[verifier::reject_recursive_types(V)]
#[verifier::reject_recursive_types(S)]
pub struct ExHashMap<K, V, S>(HashMap<K, V, S>);

/// The engine's hash set, whose members `set_members` names.
#[verifier::external_type_specification]
#[verifier::external_body]
#[verifier::reject_recursive_types(T)]
#[verifier::reject_recursive_types(S)]
pub struct ExHashSet<T, S>(HashSet<T, S>);

/// The fixed-seed hasher that the engine's map and set use by default.
#[verifier::external_type_specification]
#[verifier::external_body]
pub struct ExFixedHasher(FixedHasher);

/// A map from chunk keys to the bits of entities.
pub type EntityMap = HashMap<u64, u64>;

/// The entries of a map from chunk keys to entity bits.
pub uninterp spec fn map_entries(m: EntityMap) -> Map<u64, u64>;

/// The members of a set of chunk keys.
pub uninterp spec fn set_members(s: HashSet<u64>) -> Set<u64>;

/// `HashMap::new`: a map with no entries.
#[verifier::external_body]
fn new_entity_map() -> (entities: EntityMap)
    ensures
        map_entries(entities) == (Map::<u64, u64>::empty()),
{
    HashMap::new()
}

/// `HashMap::contains_key`: whether the map has an entry for `key`.
#[verifier::external_body]
fn entity_map_contains(m: &EntityMap, key: u64) -> (found: bool)
    ensures
        found == map_entries(*m).contains_key(key),
{
    m.contains_key(&key)
}

/// `HashMap::insert`: the entry for `key` becomes `value`; the value it
/// replaces, if any, is returned.
#[verifier::external_body]
fn entity_map_insert(m: &mut EntityMap, key: u64, value: u64) -> (previous: Option<u64>)
    ensures
        map_entries(*final(m)) == map_entries(*old(m)).insert(key, value),
        previous == if map_entries(*old(m)).contains_key(key) {
            Some(map_entries(*old(m))[key])
        } else {
            None::<u64>
        },
{
    m.insert(key, value)
}

/// `HashMap::remove`: the entry for `key` leaves the map; its value, if
/// there was one, is returned.
#[verifier::external_body]
fn entity_map_remove(m: &mut EntityMap, key: u64) -> (removed: Option<u64>)
    ensures
        map_entries(*final(m)) == map_entries(*old(m)).remove(key),
        removed == if map_entries(*old(m)).contains_key(key) {
            Some(map_entries(*old(m))[key])
        } else {
            None::<u64>
        },
{
    m.remove(&key)
}

/// `HashMap::keys`, each key copied out: every key of the map once, in the
/// map's own order, which is left unsaid.
#[verifier::external_body]
fn entity_map_keys(m: &EntityMap) -> (keys: Vec<u64>)
    ensures
        keys@.no_duplicates(),
        keys@.to_set() == map_entries(*m).dom(),
{
    m.keys().copied().collect()
}

/// `HashSet::new`: a set with no members.
#[verifier::external_body]
fn new_key_set() -> (s: HashSet<u64>)
    ensures
        set_members(s) == (Set::<u64>::empty()),
{
    HashSet::new()
}

/// `HashSet::contains`: whether `key` is a member.
#[verifier::external_body]
fn key_set_contains(s: &HashSet<u64>, key: u64) -> (found: bool)
    ensures
        found == set_members(*s).contains(key),
{
    s.contains(&key)
}

/// `HashSet::insert`: `key` becomes a member; returns whether it was not one.
#[verifier::external_body]
fn key_set_insert(s: &mut HashSet<u64>, key: u64) -> (added: bool)
    ensures
        set_members(*final(s)) == set_members(*old(s)).insert(key),
        added == !set_members(*old(s)).contains(key),
{
    s.insert(key)
}

/// `HashSet::remove`: `key` is no longer a member; returns whether it was one.
#[verifier::external_body]
fn key_set_remove(s: &mut HashSet<u64>, key: u64) -> (removed: bool)
    ensures
        set_members(*final(s)) == set_members(*old(s)).remove(key),
        removed == set_members(*old(s)).contains(key),
{
    s.remove(&key)
}

/// The chunks that are shown (key to the entity bits of their mesh) and
/// those whose mesh is being built.
pub struct LoadedChunks {
    pub entities: EntityMap,
    pub pending: HashSet<u64>,
}

impl LoadedChunks {
    pub fn new() -> (loaded: Self)
        ensures
            map_entries(loaded.entities) == Map::<u64, u64>::empty(),
            set_members(loaded.pending) == Set::<u64>::empty(),
    {
        LoadedChunks { entities: new_entity_map(), pending: new_key_set() }
    }
}

/// A chunk far from the player's chunk on either axis.
pub open spec fn too_far(key: u64, player_chunk_x: i32, player_chunk_z: i32) -> bool {
    let dx = spec_key_x(key) - player_chunk_x;
    let dz = spec_key_z(key) - player_chunk_z;
    dx > UNLOAD_DISTANCE || dx < -UNLOAD_DISTANCE || dz > UNLOAD_DISTANCE || dz < -UNLOAD_DISTANCE
}

pub open spec fn far_from(player_chunk_x: i32, player_chunk_z: i32) -> spec_fn(u64) -> bool {
    |k: u64| too_far(k, player_chunk_x, player_chunk_z)
}

/// The distance along each axis from the player's chunk fits in `i32`.
pub open spec fn offsets_fit(key: u64, player_chunk_x: i32, player_chunk_z: i32) -> bool {
    &&& i32::MIN < spec_key_x(key) - player_chunk_x <= i32::MAX
    &&& i32::MIN < spec_key_z(key) - player_chunk_z <= i32::MAX
}

/// Filtering a sequence without duplicates keeps it without duplicates and
/// keeps exactly the members that pass.
proof fn lemma_filter_facts(s: Seq<u64>, p: spec_fn(u64) -> bool)
    requires
        s.no_duplicates(),
    ensures
        s.filter(p).no_duplicates(),
        s.filter(p).to_set() == s.to_set().filter(p),
    decreases s.len(),
{
    reveal(Seq::filter);
    if s.len() > 0 {
        let t = s.drop_last();
        let x = s.last();
        assert(t.no_duplicates());
        lemma_filter_facts(t, p);
        assert(!t.contains(x)) by {
            if t.contains(x) {
                let j = choose|j: int| 0 <= j < t.len() && t[j] == x;
                assert(s[j] == s[s.len() - 1]);
            }
        }
        if p(x) {
            assert(!t.filter(p).contains(x)) by {
                if t.filter(p).contains(x) {
                    t.lemma_filter_contains_rev(p, x);
                }
            }
            assert(s.filter(p) == t.filter(p).push(x));
            t.filter(p).lemma_push_to_set_commute(x);
            assert forall|i: int, j: int|
                0 <= i < j < s.filter(p).len() implies s.filter(p)[i] != s.filter(p)[j] by {
                if j == s.filter(p).len() - 1 {
                    assert(t.filter(p).contains(s.filter(p)[i]));
                }
            }
        } else {
            assert(s.filter(p) == t.filter(p));
        }
        t.lemma_push_to_set_commute(x);
        assert(s =~= t.push(x));
        assert(s.to_set().filter(p) =~= if p(x) {
            t.to_set().filter(p).insert(x)
        } else {
            t.to_set().filter(p)
        });
    }
}

/// Unloading keeps a shown chunk `(x, z)` exactly when it lies within
/// `UNLOAD_DISTANCE` chunks of the player's chunk on both axes, in either
/// direction; every other shown chunk goes.
pub proof fn lemma_unload_keeps_near(
    before: Map<u64, u64>,
    after: Map<u64, u64>,
    player_chunk_x: i32,
    player_chunk_z: i32,
    x: i32,
    z: i32,
)
    requires
        after == before.restrict(before.dom().filter(|k: u64| !too_far(k, player_chunk_x, player_chunk_z))),
    ensures
        after.contains_key(spec_chunk_key(x, z)) == (before.contains_key(spec_chunk_key(x, z))
            && -UNLOAD_DISTANCE <= x - player_chunk_x <= UNLOAD_DISTANCE
            && -UNLOAD_DISTANCE <= z - player_chunk_z <= UNLOAD_DISTANCE),
{
    lemma_chunk_key_round_trip(x, z);
}

/// Removes every shown chunk that is more than `UNLOAD_DISTANCE` chunks
/// from the player's chunk on either axis; returns their entities, one per
/// removed chunk, in the map's order.
pub fn unload_distant_chunks(loaded: &mut LoadedChunks, player_chunk_x: i32, player_chunk_z: i32) -> (despawn: Vec<u64>)
    requires
        forall|k: u64| #[trigger] map_entries(old(loaded).entities).contains_key(k) ==> offsets_fit(
            k,
            player_chunk_x,
            player_chunk_z,
        ),
    ensures
        set_members(final(loaded).pending) == set_members(old(loaded).pending),
        map_entries(final(loaded).entities) == map_entries(old(loaded).entities).restrict(
            map_entries(old(loaded).entities).dom().filter(|k: u64| !too_far(k, player_chunk_x, player_chunk_z)),
        ),
        forall|k: u64| #[trigger] map_entries(final(loaded).entities).contains_key(k) ==> !too_far(
            k,
            player_chunk_x,
            player_chunk_z,
        ),
        exists|far: Seq<u64>|
            {
                &&& far.no_duplicates()
                &&& far.to_set() == map_entries(old(loaded).entities).dom().filter(
                    |k: u64| too_far(k, player_chunk_x, player_chunk_z),
                )
                &&& despawn@ == far.map_values(|k: u64| map_entries(old(loaded).entities)[k])
            },
{
    let ghost m0 = map_entries(loaded.entities);
    let ghost p0 = set_members(loaded.pending);
    let keys = entity_map_keys(&loaded.entities);
    let ghost pred = far_from(player_chunk_x, player_chunk_z);
    let mut to_unload: Vec<u64> = Vec::new();
    let mut i: usize = 0;
    while i < keys.len()
        invariant
            map_entries(loaded.entities) == m0,
            set_members(loaded.pending) == p0,
            keys@.to_set() == m0.dom(),
            forall|k: u64| #[trigger] m0.contains_key(k) ==> offsets_fit(k, player_chunk_x, player_chunk_z),
            pred == far_from(player_chunk_x, player_chunk_z),
            i <= keys.len(),
            to_unload@ == keys@.take(i as int).filter(pred),
        decreases keys.len() - i,
    {
        let key = keys[i];
        assert(keys@.to_set().contains(key));
        let x = (key >> 32) as u32 as i32;
        let z = key as u32 as i32;
        let dx = x - player_chunk_x;
        let dz = z - player_chunk_z;
        proof {
            reveal(Seq::filter);
            assert(keys@.take(i + 1).drop_last() =~= keys@.take(i as int));
            assert(keys@.take(i + 1).last() == key);
        }
        if dx > UNLOAD_DISTANCE || dx < -UNLOAD_DISTANCE || dz > UNLOAD_DISTANCE || dz < -UNLOAD_DISTANCE {
            to_unload.push(key);
        }
        i += 1;
    }
    proof {
        assert(keys@.take(keys.len() as int) =~= keys@);
        lemma_filter_facts(keys@, pred);
        assert(keys@.to_set().filter(pred) =~= m0.dom().filter(|k: u64| too_far(k, player_chunk_x, player_chunk_z)));
    }
    let ghost far = to_unload@;
    assert forall|k: u64| #[trigger] far.contains(k) implies m0.contains_key(k) by {
        assert(far.to_set().contains(k));
    }
    let mut despawn: Vec<u64> = Vec::new();
    let mut i: usize = 0;
    while i < to_unload.len()
        invariant
            far == to_unload@,
            far.no_duplicates(),
            set_members(loaded.pending) == p0,
            forall|k: u64| #[trigger] far.contains(k) ==> m0.contains_key(k),
            i <= far.len(),
            map_entries(loaded.entities) == m0.remove_keys(far.take(i as int).to_set()),
            despawn@ == far.take(i as int).map_values(|k: u64| m0[k]),
        decreases far.len() - i,
    {
        let key = to_unload[i];
        assert(far.contains(key));
        assert(!far.take(i as int).contains(key)) by {
            if far.take(i as int).contains(key) {
                let j = choose|j: int| 0 <= j < i && far.take(i as int)[j] == key;
                assert(far[j] == far[i as int]);
            }
        }
        let removed = entity_map_remove(&mut loaded.entities, key);
        if let Some(entity) = removed {
            despawn.push(entity);
        }
        proof {
            assert(far.take(i + 1) =~= far.take(i as int).push(key));
            far.take(i as int).lemma_push_to_set_commute(key);
            assert(map_entries(loaded.entities) =~= m0.remove_keys(far.take(i + 1).to_set()));
            assert(despawn@ =~= far.take(i + 1).map_values(|k: u64| m0[k]));
        }
        i += 1;
    }
    proof {
        assert(far.take(far.len() as int) =~= far);
        assert(map_entries(loaded.entities) =~= m0.restrict(m0.dom().filter(|k: u64| !too_far(k, player_chunk_x, player_chunk_z))));
    }
    despawn
}

/// The chunks of the `side` by `side` square whose first chunk is
/// `(x0, z0)`, x slowest then z.
pub open spec fn square_coords(x0: int, z0: int, side: int) -> Seq<(i32, i32)> {
    Seq::new((side * side) as nat, |i: int| ((x0 + i / side) as i32, (z0 + i % side) as i32))
}

pub open spec fn coord_key(c: (i32, i32)) -> u64 {
    spec_chunk_key(c.0, c.1)
}

/// The keys of a sequence of chunks, in order.
pub open spec fn coord_keys(s: Seq<(i32, i32)>) -> Seq<u64> {
    s.map_values(|c: (i32, i32)| coord_key(c))
}

/// Chunks that are neither shown nor being built.
pub open spec fn not_known(entities: Map<u64, u64>, pending: Set<u64>) -> spec_fn((i32, i32)) -> bool {
    |c: (i32, i32)| !entities.contains_key(coord_key(c)) && !pending.contains(coord_key(c))
}

/// Marks as pending every chunk within `RENDER_DISTANCE` of the player's
/// chunk (the square from `player - RENDER_DISTANCE` to
/// `player + RENDER_DISTANCE - 1` on both axes) that is neither shown nor
/// pending, and returns those chunks in order: their meshes are to be built.
pub fn load_chunks_around_player(loaded: &mut LoadedChunks, player_chunk_x: i32, player_chunk_z: i32) -> (spawn: Vec<(i32, i32)>)
    requires
        i32::MIN <= player_chunk_x - RENDER_DISTANCE,
        player_chunk_x + RENDER_DISTANCE <= i32::MAX,
        i32::MIN <= player_chunk_z - RENDER_DISTANCE,
        player_chunk_z + RENDER_DISTANCE <= i32::MAX,
    ensures
        spawn@ == square_coords(
            player_chunk_x - RENDER_DISTANCE,
            player_chunk_z - RENDER_DISTANCE,
            2 * RENDER_DISTANCE,
        ).filter(not_known(map_entries(old(loaded).entities), set_members(old(loaded).pending))),
        map_entries(final(loaded).entities) == map_entries(old(loaded).entities),
        set_members(final(loaded).pending) == set_members(old(loaded).pending).union(
            coord_keys(spawn@).to_set(),
        ),
        forall|c: (i32, i32)|
            #[trigger] square_coords(
                player_chunk_x - RENDER_DISTANCE,
                player_chunk_z - RENDER_DISTANCE,
                2 * RENDER_DISTANCE,
            ).contains(c) ==> map_entries(final(loaded).entities).contains_key(coord_key(c))
                || set_members(final(loaded).pending).contains(coord_key(c)),
{
    let ghost m0 = map_entries(loaded.entities);
    let ghost p0 = set_members(loaded.pending);
    let ghost x0 = player_chunk_x - RENDER_DISTANCE;
    let ghost z0 = player_chunk_z - RENDER_DISTANCE;
    let ghost square = square_coords(x0, z0, 64);
    let ghost pred = not_known(m0, p0);
    let mut spawn: Vec<(i32, i32)> = Vec::new();
    let mut cx = player_chunk_x - RENDER_DISTANCE;
    proof {
        assert(square.take(0) =~= Seq::<(i32, i32)>::empty());
        reveal(Seq::filter);
        assert(coord_keys(spawn@).to_set() =~= Set::<u64>::empty());
        assert(set_members(loaded.pending) =~= p0.union(Set::<u64>::empty()));
    }
    while cx < player_chunk_x + RENDER_DISTANCE
        invariant
            x0 == player_chunk_x - RENDER_DISTANCE,
            z0 == player_chunk_z - RENDER_DISTANCE,
            player_chunk_x + RENDER_DISTANCE <= i32::MAX,
            i32::MIN <= player_chunk_z - RENDER_DISTANCE,
            player_chunk_z + RENDER_DISTANCE <= i32::MAX,
            square == square_coords(x0, z0, 64),
            pred == not_known(m0, p0),
            x0 <= cx <= player_chunk_x + RENDER_DISTANCE,
            map_entries(loaded.entities) == m0,
            set_members(loaded.pending) == p0.union(coord_keys(spawn@).to_set()),
            spawn@ == square.take((cx - x0) * 64).filter(pred),
            forall|j: int| 0 <= j < spawn@.len() ==> #[trigger] spawn@[j].0 < cx,
        decreases player_chunk_x + RENDER_DISTANCE - cx,
    {
        let mut cz = player_chunk_z - RENDER_DISTANCE;
        while cz < player_chunk_z + RENDER_DISTANCE
            invariant
                x0 == player_chunk_x - RENDER_DISTANCE,
                z0 == player_chunk_z - RENDER_DISTANCE,
                player_chunk_x + RENDER_DISTANCE <= i32::MAX,
                player_chunk_z + RENDER_DISTANCE <= i32::MAX,
                square == square_coords(x0, z0, 64),
                pred == not_known(m0, p0),
                x0 <= cx < player_chunk_x + RENDER_DISTANCE,
                z0 <= cz <= player_chunk_z + RENDER_DISTANCE,
                map_entries(loaded.entities) == m0,
                set_members(loaded.pending) == p0.union(coord_keys(spawn@).to_set()),
                spawn@ == square.take((cx - x0) * 64 + (cz - z0)).filter(pred),
                forall|j: int| 0 <= j < spawn@.len() ==> #[trigger] spawn@[j].0 < cx || (spawn@[j].0 == cx
                    && spawn@[j].1 < cz),
            decreases player_chunk_z + RENDER_DISTANCE - cz,
        {
            let ghost i = (cx - x0) * 64 + (cz - z0);
            let ghost before = spawn@;
            let key = chunk_key(cx, cz);
            assert(square[i] == (cx, cz));
            assert(key == coord_key((cx, cz)));
            proof {
                lemma_chunk_key_round_trip(cx, cz);
                if coord_keys(spawn@).to_set().contains(key) {
                    let j = choose|j: int| 0 <= j < spawn@.len() && #[trigger] coord_keys(spawn@)[j] == key;
                    lemma_chunk_key_round_trip(spawn@[j].0, spawn@[j].1);
                    assert(false);
                }
                reveal(Seq::filter);
                assert(square.take(i + 1).drop_last() =~= square.take(i));
            }
            if !entity_map_contains(&loaded.entities, key) && !key_set_contains(&loaded.pending, key) {
                key_set_insert(&mut loaded.pending, key);
                spawn.push((cx, cz));
                proof {
                    assert(coord_keys(spawn@) =~= coord_keys(before).push(key));
                    coord_keys(before).lemma_push_to_set_commute(key);
                    assert(set_members(loaded.pending) =~= p0.union(coord_keys(spawn@).to_set()));
                }
            }
            cz += 1;
        }
        cx += 1;
    }
    proof {
        assert(square.take(4096int) =~= square);
        assert forall|c: (i32, i32)| #[trigger] square.contains(c) implies map_entries(loaded.entities).contains_key(coord_key(c))
            || set_members(loaded.pending).contains(coord_key(c)) by {
            let i = choose|i: int| 0 <= i < square.len() && square[i] == c;
            if pred(c) {
                square.lemma_filter_contains(pred, i);
                let j = choose|j: int| 0 <= j < spawn@.len() && spawn@[j] == c;
                assert(coord_keys(spawn@)[j] == coord_key(c));
                assert(coord_keys(spawn@).to_set().contains(coord_key(c)));
            }
        }
    }
    spawn
}

/// Once every chunk of the square around the player is shown or pending, as
/// `load_chunks_around_player` leaves it, loading around the same chunk
/// again asks for no chunk.
pub proof fn lemma_reload_spawns_nothing(
    entities: Map<u64, u64>,
    pending: Set<u64>,
    player_chunk_x: i32,
    player_chunk_z: i32,
)
    requires
        forall|c: (i32, i32)|
            #[trigger] square_coords(
                player_chunk_x - RENDER_DISTANCE,
                player_chunk_z - RENDER_DISTANCE,
                2 * RENDER_DISTANCE,
            ).contains(c) ==> entities.contains_key(coord_key(c)) || pending.contains(coord_key(c)),
    ensures
        square_coords(
            player_chunk_x - RENDER_DISTANCE,
            player_chunk_z - RENDER_DISTANCE,
            2 * RENDER_DISTANCE,
        ).filter(not_known(entities, pending)).len() == 0,
{
    let square = square_coords(
        player_chunk_x - RENDER_DISTANCE,
        player_chunk_z - RENDER_DISTANCE,
        2 * RENDER_DISTANCE,
    );
    let pred = not_known(entities, pending);
    let f = square.filter(pred);
    if f.len() > 0 {
        square.lemma_filter_pred(pred, 0);
        square.lemma_filter_contains_rev(pred, f[0]);
        assert(square.contains(f[0]));
    }
}

/// The chunks that loading around the player asks for lie within the
/// unload distance of that player, so unloading around the same chunk never
/// removes them.
pub proof fn lemma_render_square_within_unload(player_chunk_x: i32, player_chunk_z: i32, c: (i32, i32))
    requires
        i32::MIN <= player_chunk_x - RENDER_DISTANCE,
        player_chunk_x + RENDER_DISTANCE <= i32::MAX,
        i32::MIN <= player_chunk_z - RENDER_DISTANCE,
        player_chunk_z + RENDER_DISTANCE <= i32::MAX,
        square_coords(
            player_chunk_x - RENDER_DISTANCE,
            player_chunk_z - RENDER_DISTANCE,
            2 * RENDER_DISTANCE,
        ).contains(c),
    ensures
        !too_far(coord_key(c), player_chunk_x, player_chunk_z),
{
    let square = square_coords(
        player_chunk_x - RENDER_DISTANCE,
        player_chunk_z - RENDER_DISTANCE,
        2 * RENDER_DISTANCE,
    );
    let i = choose|i: int| 0 <= i < square.len() && square[i] == c;
    assert(0 <= i / 64 < 64 && 0 <= i % 64 < 64) by (nonlinear_arith)
        requires 0 <= i < 4096;
    lemma_chunk_key_round_trip(c.0, c.1);
}

/// A chunk's mesh is ready and shown by `entity`: it is no longer pending
/// and is now shown.
pub fn chunk_ready(loaded: &mut LoadedChunks, coord_x: i32, coord_z: i32, entity: u64)
    ensures
        set_members(final(loaded).pending) == set_members(old(loaded).pending).remove(spec_chunk_key(coord_x, coord_z)),
        map_entries(final(loaded).entities) == map_entries(old(loaded).entities).insert(spec_chunk_key(coord_x, coord_z), entity),
{
    let key = chunk_key(coord_x, coord_z);
    key_set_remove(&mut loaded.pending, key);
    entity_map_insert(&mut loaded.entities, key, entity);
}

/// The chunks around the origin (from `-START_DISTANCE` to
/// `START_DISTANCE - 1` on both axes) that are not shown yet, in order.
pub fn spawn_initial_chunks(loaded: &LoadedChunks) -> (spawn: Vec<(i32, i32)>)
    ensures
        spawn@ == square_coords(-START_DISTANCE as int, -START_DISTANCE as int, 2 * START_DISTANCE).filter(
            |c: (i32, i32)| !map_entries(loaded.entities).contains_key(coord_key(c)),
        ),
{
    let ghost square = square_coords(-4, -4, 8);
    let ghost pred = |c: (i32, i32)| !map_entries(loaded.entities).contains_key(coord_key(c));
    let mut spawn: Vec<(i32, i32)> = Vec::new();
    let mut cx: i32 = -START_DISTANCE;
    proof {
        assert(square.take(0) =~= Seq::<(i32, i32)>::empty());
        reveal(Seq::filter);
    }
    while cx < START_DISTANCE
        invariant
            square == square_coords(-4, -4, 8),
            pred == (|c: (i32, i32)| !map_entries(loaded.entities).contains_key(coord_key(c))),
            -4 <= cx <= 4,
            spawn@ == square.take((cx + 4) * 8).filter(pred),
        decreases START_DISTANCE - cx,
    {
        let mut cz: i32 = -START_DISTANCE;
        while cz < START_DISTANCE
            invariant
                square == square_coords(-4, -4, 8),
                pred == (|c: (i32, i32)| !map_entries(loaded.entities).contains_key(coord_key(c))),
                -4 <= cx < 4,
                -4 <= cz <= 4,
                spawn@ == square.take((cx + 4) * 8 + (cz + 4)).filter(pred),
            decreases START_DISTANCE - cz,
        {
            let ghost i = (cx + 4) * 8 + (cz + 4);
            assert(square[i] == (cx, cz));
            proof {
                reveal(Seq::filter);
                assert(square.take(i + 1).drop_last() =~= square.take(i));
            }
            let key = chunk_key(cx, cz);
            if !entity_map_contains(&loaded.entities, key) {
                spawn.push((cx, cz));
            }
            cz += 1;
        }
        cx += 1;
    }
    proof {
        assert(square.take(64int) =~= square);
    }
    spawn
}

} // verus!
