# voxel_world

A voxel terrain engine whose chunk logic is verified with Verus.

- `src/generation/` — the streamed world: chunk layout and padded grids
  (`chunk`), binary greedy meshing with ambient occlusion (`mesh`, `mask_bits`),
  voxel kinds and height conversions (`voxel_type`), the integer lattice hash
  of the terrain noise (`worldgen`), column samples (`biome_recipes`) and the
  bookkeeping of shown and pending chunks around the player (`mod.rs`).
- `src/voxel.rs` — a single run-length encoded chunk with per-face culling.
- `tests/` — tests of the library on concrete values.
- `app/` — the Bevy program around the library: floating-point terrain noise,
  render meshes and materials, player, camera and UI.

Every public function of the library carries a contract; the laws that relate
several functions (round trips, uniqueness of the greedy tiling, determinism
of chunk meshing, idempotent chunk loading) are public proof functions.
