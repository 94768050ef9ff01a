use vstd::prelude::*;
use vstd::std_specs::bits::{u32_trailing_zeros, axiom_u32_trailing_zeros};
use vstd::set_lib::{set_int_range, lemma_int_range, lemma_len_subset};
use vstd::arithmetic::div_mod::{lemma_fundamental_div_mod_converse, lemma_div_denominator};
use crate::generation::voxel_type::{VoxelType, CHUNK_X, CHUNK_Y, CHUNK_Z, CHUNK_VOLUME, lemma_chunk_volume};
use crate::generation::chunk::{padded_index, spec_padded_index, PADDED_X, PADDED_Y, PADDED_Z};
use crate::generation::mask_bits::{
    bit_set, span_mask, lemma_zero_has_no_bits, lemma_single_bit_test, lemma_span_mask_bit,
    lemma_and_not_bit, lemma_and_full_bits, lemma_and_not_shrinks, lemma_and_not_full,
    lemma_or_single_bit,
};

verus! {

pub type Ao = u8;

// ---------------------------------------------------------------------------
// Face keys: a material id in the low two bits, four 2-bit AO levels above it.
// ---------------------------------------------------------------------------

pub open spec fn bool_count(b: bool) -> int {
    if b { 1 } else { 0 }
}

/// Ambient occlusion of one face corner: 3 when both edge neighbours are
/// solid, otherwise the number of solid neighbours among the three.
pub open spec fn spec_vertex_ao(side1: bool, side2: bool, corner: bool) -> u8 {
    if side1 && side2 {
        3
    } else {
        (bool_count(side1) + bool_count(side2) + bool_count(corner)) as u8
    }
}

pub fn vertex_ao(side1: bool, side2: bool, corner: bool) -> (ao: u8)
    ensures
        ao == spec_vertex_ao(side1, side2, corner),
        ao <= 3,
{
    if side1 && side2 {
        3
    } else {
        side1 as u8 + side2 as u8 + corner as u8
    }
}

/// Material id of a non-air voxel as stored in a face key.
pub open spec fn spec_material_id(voxel: VoxelType) -> u16 {
    match voxel {
        VoxelType::Grass => 0,
        VoxelType::Snow => 1,
        VoxelType::Sand => 2,
        VoxelType::Air => 3,
    }
}

pub fn material_id(voxel: VoxelType) -> (id: u16)
    requires
        voxel != VoxelType::Air,
    ensures
        id == spec_material_id(voxel),
        id < 3,
{
    match voxel {
        VoxelType::Grass => 0,
        VoxelType::Snow => 1,
        VoxelType::Sand => 2,
        VoxelType::Air => 3,
    }
}

pub open spec fn spec_pack_face_key(voxel: VoxelType, ao_mask: u8) -> u16 {
    spec_material_id(voxel) | ((ao_mask as u16) << 2u16)
}

pub fn pack_face_key(voxel: VoxelType, ao_mask: u8) -> (key: u16)
    requires
        voxel != VoxelType::Air,
    ensures
        key == spec_pack_face_key(voxel, ao_mask),
{
    material_id(voxel) | ((ao_mask as u16) << 2)
}

pub open spec fn spec_unpack_ao(key: u16) -> u8 {
    (key >> 2u16) as u8
}

pub fn unpack_ao(key: u16) -> (ao_mask: u8)
    ensures
        ao_mask == spec_unpack_ao(key),
{
    (key >> 2) as u8
}

/// The 2-bit AO level stored for `corner` (0 to 3) in a face key.
pub open spec fn spec_ao_corner(key: u16, corner: int) -> u8 {
    (spec_unpack_ao(key) >> ((corner * 2) as u8)) & 3u8
}

pub fn unpack_ao_corner(key: u16, corner: usize) -> (ao: u8)
    requires
        corner < 4,
    ensures
        ao == spec_ao_corner(key, corner as int),
        ao <= 3,
{
    let shift: u8 = (corner * 2) as u8;
    let ao = (unpack_ao(key) >> shift) & 0b11;
    assert(ao == (spec_unpack_ao(key) >> shift) & 3u8);
    assert((spec_unpack_ao(key) >> shift) & 3u8 <= 3) by (bit_vector);
    ao
}

pub open spec fn spec_material_of(key: u16) -> u16 {
    key & 3u16
}

pub fn unpack_material(key: u16) -> (id: u16)
    ensures
        id == spec_material_of(key),
        id <= 3,
{
    assert(key & 3u16 <= 3) by (bit_vector);
    key & 0b11
}

pub fn material_of(key: u16) -> (id: u16)
    ensures
        id == spec_material_of(key),
        id <= 3,
{
    assert(key & 3u16 <= 3) by (bit_vector);
    key & 0b11
}

/// The AO byte that holds the four corner levels `ao0` to `ao3`, two bits each.
pub open spec fn spec_ao_mask(ao0: u8, ao1: u8, ao2: u8, ao3: u8) -> u8 {
    ao0 | (ao1 << 2u8) | (ao2 << 4u8) | (ao3 << 6u8)
}

/// Packing a face key and unpacking it gives back the material and the AO levels.
pub proof fn lemma_face_key_round_trip(voxel: VoxelType, ao0: u8, ao1: u8, ao2: u8, ao3: u8)
    requires
        voxel != VoxelType::Air,
        ao0 <= 3,
        ao1 <= 3,
        ao2 <= 3,
        ao3 <= 3,
    ensures
        ({
            let key = spec_pack_face_key(voxel, spec_ao_mask(ao0, ao1, ao2, ao3));
            &&& spec_material_of(key) == spec_material_id(voxel)
            &&& spec_unpack_ao(key) == spec_ao_mask(ao0, ao1, ao2, ao3)
            &&& spec_ao_corner(key, 0) == ao0
            &&& spec_ao_corner(key, 1) == ao1
            &&& spec_ao_corner(key, 2) == ao2
            &&& spec_ao_corner(key, 3) == ao3
        }),
{
    let m = spec_material_id(voxel);
    assert(m < 3);
    let mask = spec_ao_mask(ao0, ao1, ao2, ao3);
    assert((m | ((mask as u16) << 2u16)) & 3u16 == m) by (bit_vector)
        requires m < 3u16;
    assert(((m | ((mask as u16) << 2u16)) >> 2u16) as u8 == mask) by (bit_vector)
        requires m < 3u16;
    assert(((ao0 | (ao1 << 2u8) | (ao2 << 4u8) | (ao3 << 6u8)) >> 0u8) & 3u8 == ao0) by (bit_vector)
        requires ao0 <= 3u8, ao1 <= 3u8, ao2 <= 3u8, ao3 <= 3u8;
    assert(((ao0 | (ao1 << 2u8) | (ao2 << 4u8) | (ao3 << 6u8)) >> 2u8) & 3u8 == ao1) by (bit_vector)
        requires ao0 <= 3u8, ao1 <= 3u8, ao2 <= 3u8, ao3 <= 3u8;
    assert(((ao0 | (ao1 << 2u8) | (ao2 << 4u8) | (ao3 << 6u8)) >> 4u8) & 3u8 == ao2) by (bit_vector)
        requires ao0 <= 3u8, ao1 <= 3u8, ao2 <= 3u8, ao3 <= 3u8;
    assert(((ao0 | (ao1 << 2u8) | (ao2 << 4u8) | (ao3 << 6u8)) >> 6u8) & 3u8 == ao3) by (bit_vector)
        requires ao0 <= 3u8, ao1 <= 3u8, ao2 <= 3u8, ao3 <= 3u8;
}

// ---------------------------------------------------------------------------
// Greedy merging of a 2D grid of visible faces into rectangles.
// ---------------------------------------------------------------------------

/// Which of the four AO corners of a face lies at the top-left, top-right,
/// bottom-right and bottom-left of the row/column plane that merging uses.
#[derive(Clone, Copy)]
pub struct AoCornerMap {
    pub top_left: usize,
    pub top_right: usize,
    pub bottom_right: usize,
    pub bottom_left: usize,
}

impl AoCornerMap {
    pub open spec fn wf(self) -> bool {
        &&& self.top_left < 4
        &&& self.top_right < 4
        &&& self.bottom_right < 4
        &&& self.bottom_left < 4
    }
}

/// A rectangle of faces produced by merging: its first row and column, its
/// extent, and the face keys at its corners (top-left, top-right,
/// bottom-right, bottom-left).
#[derive(Clone, Copy, Debug)]
pub struct MergedQuad {
    pub row: usize,
    pub column: usize,
    pub width: usize,
    pub depth: usize,
    pub corner_keys: [u16; 4],
}

pub open spec fn in_quad(q: MergedQuad, r: int, c: int) -> bool {
    &&& q.row <= r < q.row + q.depth
    &&& q.column <= c < q.column + q.width
}

/// Some quad of `qs` contains cell `(r, c)`.
pub open spec fn covered(qs: Seq<MergedQuad>, r: int, c: int) -> bool {
    exists|i: int| 0 <= i < qs.len() && #[trigger] in_quad(qs[i], r, c)
}

pub open spec fn same_material_rect<const D1: usize, const D2: usize>(
    keys: [[u16; D2]; D1],
    row: int,
    col: int,
    width: int,
    depth: int,
) -> bool {
    forall|r: int, c: int|
        row <= r < row + depth && col <= c < col + width ==> #[trigger] spec_material_of(
            keys[r][c],
        ) == spec_material_of(keys[row][col])
}

pub open spec fn uniform_ao_key(key: u16, map: AoCornerMap, expected: u8) -> bool {
    &&& spec_ao_corner(key, map.top_left as int) == expected
    &&& spec_ao_corner(key, map.top_right as int) == expected
    &&& spec_ao_corner(key, map.bottom_right as int) == expected
    &&& spec_ao_corner(key, map.bottom_left as int) == expected
}

/// Every face of the rectangle has all four corner AO levels equal to the
/// top-left level of the rectangle's first face.
pub open spec fn uniform_ao_rect<const D1: usize, const D2: usize>(
    keys: [[u16; D2]; D1],
    map: AoCornerMap,
    row: int,
    col: int,
    width: int,
    depth: int,
) -> bool {
    forall|r: int, c: int|
        row <= r < row + depth && col <= c < col + width ==> #[trigger] uniform_ao_key(
            keys[r][c],
            map,
            spec_ao_corner(keys[row][col], map.top_left as int),
        )
}

/// A merged quad is a rectangle of faces set in `m0`, of one material, whose
/// faces share one AO level unless the quad is a single face, and whose
/// corner keys are the keys at its corners.
pub open spec fn merged_quad_valid<const D1: usize, const D2: usize>(
    keys: [[u16; D2]; D1],
    map: AoCornerMap,
    m0: Seq<u32>,
    q: MergedQuad,
) -> bool {
    &&& 1 <= q.width
    &&& 1 <= q.depth
    &&& q.row + q.depth <= D1
    &&& q.column + q.width <= D2
    &&& forall|r: int, c: int| #[trigger] in_quad(q, r, c) ==> bit_set(m0[r], c)
    &&& same_material_rect(keys, q.row as int, q.column as int, q.width as int, q.depth as int)
    &&& (uniform_ao_rect(keys, map, q.row as int, q.column as int, q.width as int, q.depth as int)
        || (q.width == 1 && q.depth == 1))
    &&& q.corner_keys[0] == keys[q.row as int][q.column as int]
    &&& q.corner_keys[1] == keys[q.row as int][q.column + q.width - 1]
    &&& q.corner_keys[2] == keys[q.row + q.depth - 1][q.column + q.width - 1]
    &&& q.corner_keys[3] == keys[q.row + q.depth - 1][q.column as int]
}

/// No face lies in two quads.
pub open spec fn quads_disjoint(qs: Seq<MergedQuad>) -> bool {
    forall|i: int, j: int, r: int, c: int|
        0 <= i < j < qs.len() && #[trigger] in_quad(qs[i], r, c) ==> !#[trigger] in_quad(
            qs[j],
            r,
            c,
        )
}

/// The quads tile the set bits of the row masks `m0`: every set bit lies in
/// exactly one quad, and every quad is valid.
#[verifier::opaque]
pub open spec fn quads_tile_masks<const D1: usize, const D2: usize>(
    keys: [[u16; D2]; D1],
    map: AoCornerMap,
    m0: Seq<u32>,
    qs: Seq<MergedQuad>,
) -> bool {
    &&& forall|r: int, c: int| 0 <= r < D1 && #[trigger] bit_set(m0[r], c) ==> covered(qs, r, c)
    &&& quads_disjoint(qs)
    &&& forall|i: int| 0 <= i < qs.len() ==> merged_quad_valid(keys, map, m0, #[trigger] qs[i])
}

fn same_material<const D1: usize, const D2: usize>(
    face_keys: &[[u16; D2]; D1],
    row: usize,
    col0: usize,
    width: usize,
    depth: usize,
) -> (same: bool)
    requires
        row + depth <= D1,
        col0 + width <= D2,
        1 <= width,
        1 <= depth,
    ensures
        same == same_material_rect(*face_keys, row as int, col0 as int, width as int, depth as int),
{
    let anchor = material_of(face_keys[row][col0]);
    let mut r = row;
    while r < row + depth
        invariant
            row + depth <= D1,
            col0 + width <= D2,
            row <= r <= row + depth,
            anchor == spec_material_of(face_keys[row as int][col0 as int]),
            forall|rr: int, c: int|
                row <= rr < r && col0 <= c < col0 + width ==> #[trigger] spec_material_of(
                    face_keys[rr][c],
                ) == anchor,
        decreases row + depth - r,
    {
        let mut c = col0;
        while c < col0 + width
            invariant
                row + depth <= D1,
                col0 + width <= D2,
                row <= r < row + depth,
                col0 <= c <= col0 + width,
                anchor == spec_material_of(face_keys[row as int][col0 as int]),
                forall|rr: int, cc: int|
                    row <= rr < r && col0 <= cc < col0 + width ==> #[trigger] spec_material_of(
                        face_keys[rr][cc],
                    ) == anchor,
                forall|cc: int|
                    col0 <= cc < c ==> #[trigger] spec_material_of(face_keys[r as int][cc])
                        == anchor,
            decreases col0 + width - c,
        {
            if material_of(face_keys[r][c]) != anchor {
                return false;
            }
            c += 1;
        }
        r += 1;
    }
    true
}

fn has_uniform_ao<const D1: usize, const D2: usize>(
    face_keys: &[[u16; D2]; D1],
    ao_map: AoCornerMap,
    row: usize,
    col0: usize,
    width: usize,
    depth: usize,
) -> (uniform: bool)
    requires
        ao_map.wf(),
        row + depth <= D1,
        col0 + width <= D2,
        1 <= width,
        1 <= depth,
    ensures
        uniform == uniform_ao_rect(
            *face_keys,
            ao_map,
            row as int,
            col0 as int,
            width as int,
            depth as int,
        ),
{
    let expected = unpack_ao_corner(face_keys[row][col0], ao_map.top_left);
    let mut r = row;
    while r < row + depth
        invariant
            ao_map.wf(),
            row + depth <= D1,
            col0 + width <= D2,
            row <= r <= row + depth,
            expected == spec_ao_corner(face_keys[row as int][col0 as int], ao_map.top_left as int),
            forall|rr: int, c: int|
                row <= rr < r && col0 <= c < col0 + width ==> #[trigger] uniform_ao_key(
                    face_keys[rr][c],
                    ao_map,
                    expected,
                ),
        decreases row + depth - r,
    {
        let mut c = col0;
        while c < col0 + width
            invariant
                ao_map.wf(),
                row + depth <= D1,
                col0 + width <= D2,
                row <= r < row + depth,
                col0 <= c <= col0 + width,
                expected == spec_ao_corner(
                    face_keys[row as int][col0 as int],
                    ao_map.top_left as int,
                ),
                forall|rr: int, cc: int|
                    row <= rr < r && col0 <= cc < col0 + width ==> #[trigger] uniform_ao_key(
                        face_keys[rr][cc],
                        ao_map,
                        expected,
                    ),
                forall|cc: int|
                    col0 <= cc < c ==> #[trigger] uniform_ao_key(
                        face_keys[r as int][cc],
                        ao_map,
                        expected,
                    ),
            decreases col0 + width - c,
        {
            let key = face_keys[r][c];
            if unpack_ao_corner(key, ao_map.top_left) != expected {
                assert(!uniform_ao_key(face_keys[r as int][c as int], ao_map, expected));
                return false;
            }
            if unpack_ao_corner(key, ao_map.top_right) != expected {
                assert(!uniform_ao_key(face_keys[r as int][c as int], ao_map, expected));
                return false;
            }
            if unpack_ao_corner(key, ao_map.bottom_right) != expected {
                assert(!uniform_ao_key(face_keys[r as int][c as int], ao_map, expected));
                return false;
            }
            if unpack_ao_corner(key, ao_map.bottom_left) != expected {
                assert(!uniform_ao_key(face_keys[r as int][c as int], ao_map, expected));
                return false;
            }
            c += 1;
        }
        r += 1;
    }
    true
}

/// Cell `(r, c)` is set in `m0` and lies in none of the quads `placed`.
pub open spec fn available(m0: Seq<u32>, placed: Seq<MergedQuad>, r: int, c: int) -> bool {
    &&& 0 <= r < m0.len()
    &&& bit_set(m0[r], c)
    &&& !covered(placed, r, c)
}

/// Growing the quad one column further is not allowed.
pub open spec fn width_stops<const D1: usize, const D2: usize>(
    keys: [[u16; D2]; D1],
    map: AoCornerMap,
    m0: Seq<u32>,
    placed: Seq<MergedQuad>,
    q: MergedQuad,
) -> bool {
    ||| q.column + q.width == D2
    ||| !available(m0, placed, q.row as int, q.column + q.width)
    ||| !same_material_rect(keys, q.row as int, q.column as int, q.width + 1, 1)
    ||| !uniform_ao_rect(keys, map, q.row as int, q.column as int, q.width + 1, 1)
}

/// Growing the quad one row further is not allowed.
pub open spec fn depth_stops<const D1: usize, const D2: usize>(
    keys: [[u16; D2]; D1],
    map: AoCornerMap,
    m0: Seq<u32>,
    placed: Seq<MergedQuad>,
    q: MergedQuad,
) -> bool {
    ||| q.row + q.depth == D1
    ||| exists|c: int|
        q.column <= c < q.column + q.width && !#[trigger] available(
            m0,
            placed,
            q.row + q.depth,
            c,
        )
    ||| !same_material_rect(keys, q.row as int, q.column as int, q.width as int, q.depth + 1)
    ||| !uniform_ao_rect(keys, map, q.row as int, q.column as int, q.width as int, q.depth + 1)
}

/// `q` is the quad that the greedy scan places once the quads `placed` are
/// placed: it starts at the first available cell in row-major order; a
/// first face whose own corners differ in AO stays a single face; otherwise
/// the quad is as wide as it can grow, then as deep as it can grow.
pub open spec fn greedy_next<const D1: usize, const D2: usize>(
    keys: [[u16; D2]; D1],
    map: AoCornerMap,
    m0: Seq<u32>,
    placed: Seq<MergedQuad>,
    q: MergedQuad,
) -> bool {
    let anchor_uniform = uniform_ao_rect(keys, map, q.row as int, q.column as int, 1, 1);
    &&& available(m0, placed, q.row as int, q.column as int)
    &&& forall|r: int, c: int|
        (r < q.row || (r == q.row && c < q.column)) ==> !#[trigger] available(m0, placed, r, c)
    &&& !anchor_uniform ==> q.width == 1 && q.depth == 1
    &&& anchor_uniform ==> width_stops(keys, map, m0, placed, q)
    &&& anchor_uniform ==> depth_stops(keys, map, m0, placed, q)
}

/// Each quad is the greedy choice after the quads before it.
#[verifier::opaque]
pub open spec fn quads_greedy<const D1: usize, const D2: usize>(
    keys: [[u16; D2]; D1],
    map: AoCornerMap,
    m0: Seq<u32>,
    qs: Seq<MergedQuad>,
) -> bool {
    forall|i: int| 0 <= i < qs.len() ==> #[trigger] greedy_next(keys, map, m0, qs.take(i), qs[i])
}

proof fn lemma_covered_push(qs: Seq<MergedQuad>, q: MergedQuad, r: int, c: int)
    ensures
        covered(qs.push(q), r, c) == (covered(qs, r, c) || in_quad(q, r, c)),
{
    let qs2 = qs.push(q);
    if covered(qs2, r, c) {
        let i = choose|i: int| 0 <= i < qs2.len() && #[trigger] in_quad(qs2[i], r, c);
        if i < qs.len() {
            assert(qs2[i] == qs[i]);
            assert(in_quad(qs[i], r, c));
        }
    }
    if covered(qs, r, c) {
        let i = choose|i: int| 0 <= i < qs.len() && #[trigger] in_quad(qs[i], r, c);
        assert(qs2[i] == qs[i]);
        assert(in_quad(qs2[i], r, c));
    }
    if in_quad(q, r, c) {
        assert(qs2[qs.len() as int] == q);
        assert(in_quad(qs2[qs.len() as int], r, c));
    }
}

/// Greedily merges the set bits of `masks` (one row per mask, one column per
/// bit) into rectangles of equal material and, for rectangles of more than
/// one face, equal AO. Rows are scanned top to bottom; in each row the lowest
/// set bit starts a rectangle, which grows first along the row and then down
/// the rows. The bits of every rectangle are cleared from `masks`.
fn greedy_merge_rows<const D1: usize, const D2: usize>(
    masks: &mut [u32],
    face_keys: &[[u16; D2]; D1],
    ao_map: AoCornerMap,
) -> (quads: Vec<MergedQuad>)
    requires
        old(masks)@.len() == D1,
        D2 <= 32,
        ao_map.wf(),
        forall|r: int, c: int| 0 <= r < D1 && #[trigger] bit_set(old(masks)@[r], c) ==> c < D2,
    ensures
        final(masks)@.len() == D1,
        forall|r: int| 0 <= r < D1 ==> final(masks)@[r] == 0,
        quads_tile_masks(*face_keys, ao_map, old(masks)@, quads@),
        quads_greedy(*face_keys, ao_map, old(masks)@, quads@),
        quads.len() <= D1 * 32,
{
    reveal(quads_tile_masks);
    reveal(quads_greedy);
    let ghost m0 = masks@;
    let mut quads: Vec<MergedQuad> = Vec::new();
    let mut row: usize = 0;
    while row < masks.len()
        invariant
            masks@.len() == D1,
            D2 <= 32,
            ao_map.wf(),
            m0.len() == D1,
            forall|r: int, c: int| 0 <= r < D1 && #[trigger] bit_set(m0[r], c) ==> c < D2,
            row <= D1,
            forall|r: int| 0 <= r < row ==> masks@[r] == 0,
            forall|r: int, c: int|
                0 <= r < D1 ==> (#[trigger] bit_set(masks@[r], c) == (bit_set(m0[r], c)
                    && !covered(quads@, r, c))),
            forall|i: int|
                0 <= i < quads.len() ==> merged_quad_valid(*face_keys, ao_map, m0, #[trigger] quads@[i]),
            quads_disjoint(quads@),
            quads_greedy(*face_keys, ao_map, m0, quads@),
            quads.len() <= row * 32,
        decreases D1 - row,
    {
        while masks[row] != 0
            invariant
                masks@.len() == D1,
                D2 <= 32,
                ao_map.wf(),
                m0.len() == D1,
                forall|r: int, c: int| 0 <= r < D1 && #[trigger] bit_set(m0[r], c) ==> c < D2,
                row < D1,
                forall|r: int| 0 <= r < row ==> masks@[r] == 0,
                forall|r: int, c: int|
                    0 <= r < D1 ==> (#[trigger] bit_set(masks@[r], c) == (bit_set(m0[r], c)
                        && !covered(quads@, r, c))),
                forall|i: int|
                    0 <= i < quads.len() ==> merged_quad_valid(
                        *face_keys,
                        ao_map,
                        m0,
                        #[trigger] quads@[i],
                    ),
                quads_disjoint(quads@),
                quads_greedy(*face_keys, ao_map, m0, quads@),
                quads.len() <= row * 32 + u32_trailing_zeros(masks@[row as int]),
            decreases masks@[row as int],
        {
            proof {
                reveal(quads_greedy);
                axiom_u32_trailing_zeros(masks@[row as int]);
            }
            let column_start = masks[row].trailing_zeros() as usize;
            assert(bit_set(masks@[row as int], column_start as int));
            assert forall|c: int| 0 <= c < column_start implies !bit_set(
                masks@[row as int],
                c,
            ) by {
                let j = c as u32;
                assert((masks@[row as int] >> j) & 1u32 == 0u32);
            }
            assert(bit_set(m0[row as int], column_start as int));
            let mut width: usize = 1;
            let anchor_uniform = has_uniform_ao(face_keys, ao_map, row, column_start, 1, 1);
            if anchor_uniform {
                while column_start + width < D2
                    invariant
                        masks@.len() == D1,
                        D2 <= 32,
                        ao_map.wf(),
                        row < D1,
                        1 <= width,
                        column_start + width <= D2,
                        forall|c: int|
                            column_start <= c < column_start + width ==> #[trigger] bit_set(
                                masks@[row as int],
                                c,
                            ),
                        same_material_rect(
                            *face_keys,
                            row as int,
                            column_start as int,
                            width as int,
                            1,
                        ),
                        uniform_ao_rect(
                            *face_keys,
                            ao_map,
                            row as int,
                            column_start as int,
                            width as int,
                            1,
                        ),
                    ensures
                        column_start + width == D2 || !bit_set(
                            masks@[row as int],
                            column_start + width,
                        ) || !same_material_rect(
                            *face_keys,
                            row as int,
                            column_start as int,
                            width + 1,
                            1,
                        ) || !uniform_ao_rect(
                            *face_keys,
                            ao_map,
                            row as int,
                            column_start as int,
                            width + 1,
                            1,
                        ),
                    decreases D2 - column_start - width,
                {
                    let next_bit = 1u32 << ((column_start + width) as u32);
                    proof {
                        lemma_single_bit_test(masks@[row as int], (column_start + width) as u32);
                    }
                    if masks[row] & next_bit == 0 {
                        break;
                    }
                    let new_width = width + 1;
                    if !same_material(face_keys, row, column_start, new_width, 1) {
                        break;
                    }
                    if !has_uniform_ao(face_keys, ao_map, row, column_start, new_width, 1) {
                        break;
                    }
                    width = new_width;
                }
            }
            let width_mask: u32 = if width == 32 {
                u32::MAX
            } else {
                let w32 = width as u32;
                assert(1u32 << w32 >= 1u32) by (bit_vector)
                    requires w32 < 32u32;
                ((1u32 << w32) - 1) << (column_start as u32)
            };
            assert(width_mask == span_mask(column_start as u32, width as u32));
            let mut depth: usize = 1;
            if anchor_uniform {
                while row + depth < D1
                    invariant
                        masks@.len() == D1,
                        D2 <= 32,
                        ao_map.wf(),
                        row < D1,
                        1 <= width,
                        column_start + width <= D2,
                        width_mask == span_mask(column_start as u32, width as u32),
                        1 <= depth,
                        row + depth <= D1,
                        forall|r: int, c: int|
                            row <= r < row + depth && column_start <= c < column_start + width
                                ==> #[trigger] bit_set(masks@[r], c),
                        same_material_rect(
                            *face_keys,
                            row as int,
                            column_start as int,
                            width as int,
                            depth as int,
                        ),
                        uniform_ao_rect(
                            *face_keys,
                            ao_map,
                            row as int,
                            column_start as int,
                            width as int,
                            depth as int,
                        ),
                    ensures
                        row + depth == D1 || (exists|c: int|
                            column_start <= c < column_start + width && !#[trigger] bit_set(
                                masks@[row + depth],
                                c,
                            )) || !same_material_rect(
                            *face_keys,
                            row as int,
                            column_start as int,
                            width as int,
                            depth + 1,
                        ) || !uniform_ao_rect(
                            *face_keys,
                            ao_map,
                            row as int,
                            column_start as int,
                            width as int,
                            depth + 1,
                        ),
                    decreases D1 - row - depth,
                {
                    let next_row = row + depth;
                    if (masks[next_row] & width_mask) != width_mask {
                        proof {
                            let b = lemma_and_not_full(masks@[next_row as int], width_mask);
                            lemma_span_mask_bit(column_start as u32, width as u32, b);
                            assert(!bit_set(masks@[row + depth], b));
                        }
                        break;
                    }
                    proof {
                        assert forall|c: int|
                            column_start <= c < column_start + width implies #[trigger] bit_set(
                            masks@[next_row as int],
                            c,
                        ) by {
                            lemma_span_mask_bit(column_start as u32, width as u32, c);
                            lemma_and_full_bits(masks@[next_row as int], width_mask, c);
                        }
                    }
                    let new_depth = depth + 1;
                    if !same_material(face_keys, row, column_start, width, new_depth) {
                        break;
                    }
                    if !has_uniform_ao(face_keys, ao_map, row, column_start, width, new_depth) {
                        break;
                    }
                    depth = new_depth;
                }
            }
            let ghost pre = masks@;
            let ghost placed = quads@;
            let mut d: usize = 0;
            while d < depth
                invariant
                    masks@.len() == D1,
                    pre.len() == D1,
                    d <= depth,
                    row + depth <= D1,
                    forall|r: int|
                        0 <= r < D1 ==> #[trigger] masks@[r] == if row <= r < row + d {
                            pre[r] & !width_mask
                        } else {
                            pre[r]
                        },
                decreases depth - d,
            {
                masks[row + d] = masks[row + d] & !width_mask;
                d += 1;
            }
            let quad = MergedQuad {
                row,
                column: column_start,
                width,
                depth,
                corner_keys: [
                    face_keys[row][column_start],
                    face_keys[row][column_start + width - 1],
                    face_keys[row + depth - 1][column_start + width - 1],
                    face_keys[row + depth - 1][column_start],
                ],
            };
            proof {
                assert forall|r: int, c: int| #[trigger] in_quad(quad, r, c) implies bit_set(
                    m0[r],
                    c,
                ) && !covered(quads@, r, c) by {
                    assert(bit_set(pre[r], c));
                }
                assert(merged_quad_valid(*face_keys, ao_map, m0, quad));
                assert(bit_set(pre[row as int], column_start as int));
                assert forall|r: int, c: int|
                    (r < quad.row || (r == quad.row && c < quad.column)) implies !#[trigger] available(
                    m0,
                    placed,
                    r,
                    c,
                ) by {
                    if 0 <= r < D1 {
                        assert(bit_set(pre[r], c) == (bit_set(m0[r], c) && !covered(placed, r, c)));
                        if r < row {
                            assert(pre[r] == 0);
                            lemma_zero_has_no_bits(c);
                        }
                    }
                }
                if uniform_ao_rect(*face_keys, ao_map, row as int, column_start as int, 1, 1) {
                    assert(bit_set(pre[row as int], column_start + width) == available(
                        m0,
                        placed,
                        row as int,
                        column_start + width,
                    ));
                    assert(width_stops(*face_keys, ao_map, m0, placed, quad));
                    if row + depth < D1 && (exists|c: int|
                        column_start <= c < column_start + width && !#[trigger] bit_set(
                            pre[row + depth],
                            c,
                        )) {
                        let c = choose|c: int|
                            column_start <= c < column_start + width && !#[trigger] bit_set(
                                pre[row + depth],
                                c,
                            );
                        assert(bit_set(pre[row + depth], c) == available(m0, placed, row + depth, c));
                        assert(!available(m0, placed, quad.row + quad.depth, c));
                    }
                    assert(depth_stops(*face_keys, ao_map, m0, placed, quad));
                }
                assert(greedy_next(*face_keys, ao_map, m0, placed, quad));
                assert forall|r: int, c: int|
                    0 <= r < D1 implies (#[trigger] bit_set(masks@[r], c) == (bit_set(pre[r], c)
                    && !in_quad(quad, r, c))) by {
                    lemma_and_not_bit(pre[r], width_mask, c);
                    lemma_span_mask_bit(column_start as u32, width as u32, c);
                }
                assert forall|r: int, c: int|
                    0 <= r < D1 implies (#[trigger] bit_set(masks@[r], c) == (bit_set(m0[r], c)
                    && !covered(quads@.push(quad), r, c))) by {
                    lemma_covered_push(quads@, quad, r, c);
                }
                lemma_span_mask_bit(column_start as u32, width as u32, column_start as int);
                lemma_and_not_shrinks(pre[row as int], width_mask, column_start as int);
                let qs2 = quads@.push(quad);
                assert forall|i: int| 0 <= i < qs2.len() implies #[trigger] greedy_next(
                    *face_keys,
                    ao_map,
                    m0,
                    qs2.take(i),
                    qs2[i],
                ) by {
                    if i < quads.len() {
                        assert(qs2.take(i) =~= quads@.take(i));
                        assert(qs2[i] == quads@[i]);
                    } else {
                        assert(qs2.take(i) =~= placed);
                    }
                }
                assert forall|i: int, j: int, r: int, c: int|
                    0 <= i < j < qs2.len() && #[trigger] in_quad(qs2[i], r, c) implies !#[trigger] in_quad(
                    qs2[j],
                    r,
                    c,
                ) by {
                    if j == quads.len() {
                        assert(qs2[i] == quads@[i]);
                        assert(covered(quads@, r, c));
                    } else {
                        assert(qs2[i] == quads@[i]);
                        assert(qs2[j] == quads@[j]);
                    }
                }
            }
            proof {
                let m = masks@[row as int];
                axiom_u32_trailing_zeros(m);
                if m != 0 {
                    let t = u32_trailing_zeros(m);
                    assert((m >> t) & 1u32 == 1u32);
                    assert(bit_set(m, t as int));
                    if t <= column_start {
                        assert(!bit_set(pre[row as int], t as int) || t == column_start);
                    }
                }
            }
            quads.push(quad);
        }
        proof {
            axiom_u32_trailing_zeros(masks@[row as int]);
        }
        row += 1;
    }
    proof {
        assert forall|r: int, c: int|
            0 <= r < D1 && #[trigger] bit_set(m0[r], c) implies covered(quads@, r, c) by {
            assert(masks@[r] == 0);
            lemma_zero_has_no_bits(c);
            assert(!bit_set(masks@[r], c));
        }
    }
    quads
}

// ---------------------------------------------------------------------------
// Face directions and the per-direction geometry of a meshing pass.
// ---------------------------------------------------------------------------

pub const PADDED_VOLUME: usize = PADDED_X * PADDED_Y * PADDED_Z;

/// The six face directions: Right +X, Left -X, Top +Y, Bottom -Y, Front -Z,
/// Back +Z.
#[derive(Clone, Copy, PartialEq, Eq, Debug, Structural)]
pub enum FaceDirection {
    Right,
    Left,
    Top,
    Bottom,
    Front,
    Back,
}

/// Number of slices a pass walks through (along the face normal).
pub open spec fn spec_layer_count(dir: FaceDirection) -> int {
    match dir {
        FaceDirection::Right | FaceDirection::Left => CHUNK_X as int,
        FaceDirection::Top | FaceDirection::Bottom => CHUNK_Y as int,
        FaceDirection::Front | FaceDirection::Back => CHUNK_Z as int,
    }
}

/// Number of rows of the 2D grid of one slice (its other coordinate is the column).
pub open spec fn spec_row_count(dir: FaceDirection) -> int {
    match dir {
        FaceDirection::Top | FaceDirection::Bottom => CHUNK_Z as int,
        _ => CHUNK_Y as int,
    }
}

/// Chunk coordinates `(x, y, z)` of the cell at `layer`, `row`, `col` of a pass:
/// Right/Left slice along x (rows y, columns z), Top/Bottom along y (rows z,
/// columns x), Front/Back along z (rows y, columns x).
pub open spec fn spec_cell_of(dir: FaceDirection, layer: int, row: int, col: int) -> (int, int, int) {
    match dir {
        FaceDirection::Right | FaceDirection::Left => (layer, row, col),
        FaceDirection::Top | FaceDirection::Bottom => (col, layer, row),
        FaceDirection::Front | FaceDirection::Back => (col, row, layer),
    }
}

pub open spec fn spec_normal_of(dir: FaceDirection) -> (int, int, int) {
    match dir {
        FaceDirection::Right => (1, 0, 0),
        FaceDirection::Left => (-1, 0, 0),
        FaceDirection::Top => (0, 1, 0),
        FaceDirection::Bottom => (0, -1, 0),
        FaceDirection::Front => (0, 0, -1),
        FaceDirection::Back => (0, 0, 1),
    }
}

/// The three neighbours (first side, second side, diagonal) that shade AO
/// corner `corner` of a face, as offsets from the face's own voxel.
pub open spec fn spec_ao_probes(dir: FaceDirection, corner: int) -> (
    (int, int, int),
    (int, int, int),
    (int, int, int),
) {
    match dir {
        FaceDirection::Right => if corner == 0 {
            ((1, -1, 0), (1, 0, 1), (1, -1, 1))
        } else if corner == 1 {
            ((1, -1, 0), (1, 0, -1), (1, -1, -1))
        } else if corner == 2 {
            ((1, 1, 0), (1, 0, -1), (1, 1, -1))
        } else {
            ((1, 1, 0), (1, 0, 1), (1, 1, 1))
        },
        FaceDirection::Left => if corner == 0 {
            ((-1, -1, 0), (-1, 0, -1), (-1, -1, -1))
        } else if corner == 1 {
            ((-1, -1, 0), (-1, 0, 1), (-1, -1, 1))
        } else if corner == 2 {
            ((-1, 1, 0), (-1, 0, 1), (-1, 1, 1))
        } else {
            ((-1, 1, 0), (-1, 0, -1), (-1, 1, -1))
        },
        FaceDirection::Top => if corner == 0 {
            ((-1, 1, 0), (0, 1, 1), (-1, 1, 1))
        } else if corner == 1 {
            ((1, 1, 0), (0, 1, 1), (1, 1, 1))
        } else if corner == 2 {
            ((1, 1, 0), (0, 1, -1), (1, 1, -1))
        } else {
            ((-1, 1, 0), (0, 1, -1), (-1, 1, -1))
        },
        FaceDirection::Bottom => if corner == 0 {
            ((-1, -1, 0), (0, -1, -1), (-1, -1, -1))
        } else if corner == 1 {
            ((1, -1, 0), (0, -1, -1), (1, -1, -1))
        } else if corner == 2 {
            ((1, -1, 0), (0, -1, 1), (1, -1, 1))
        } else {
            ((-1, -1, 0), (0, -1, 1), (-1, -1, 1))
        },
        FaceDirection::Front => if corner == 0 {
            ((1, 0, -1), (0, -1, -1), (1, -1, -1))
        } else if corner == 1 {
            ((-1, 0, -1), (0, -1, -1), (-1, -1, -1))
        } else if corner == 2 {
            ((-1, 0, -1), (0, 1, -1), (-1, 1, -1))
        } else {
            ((1, 0, -1), (0, 1, -1), (1, 1, -1))
        },
        FaceDirection::Back => if corner == 0 {
            ((-1, 0, 1), (0, 1, 1), (-1, 1, 1))
        } else if corner == 1 {
            ((1, 0, 1), (0, 1, 1), (1, 1, 1))
        } else if corner == 2 {
            ((1, 0, 1), (0, -1, 1), (1, -1, 1))
        } else {
            ((-1, 0, 1), (0, -1, 1), (-1, -1, 1))
        },
    }
}

pub open spec fn padded_voxel(padded: Seq<VoxelType>, px: int, py: int, pz: int) -> VoxelType {
    padded[spec_padded_index(px, py, pz)]
}

pub open spec fn padded_solid(padded: Seq<VoxelType>, px: int, py: int, pz: int) -> bool {
    padded_voxel(padded, px, py, pz) != VoxelType::Air
}

/// The voxel of the chunk cell at `layer`, `row`, `col` of a pass (chunk
/// coordinates sit one step inside the padded buffer).
#[verifier::opaque]
pub open spec fn cell_voxel(padded: Seq<VoxelType>, dir: FaceDirection, layer: int, row: int, col: int) -> VoxelType {
    let (x, y, z) = spec_cell_of(dir, layer, row, col);
    padded_voxel(padded, x + 1, y + 1, z + 1)
}

/// A cell shows a face toward `dir` when it is not air and its neighbour in
/// that direction is air.
#[verifier::opaque]
pub open spec fn face_visible(padded: Seq<VoxelType>, dir: FaceDirection, layer: int, row: int, col: int) -> bool {
    let (x, y, z) = spec_cell_of(dir, layer, row, col);
    let (nx, ny, nz) = spec_normal_of(dir);
    &&& padded_voxel(padded, x + 1, y + 1, z + 1) != VoxelType::Air
    &&& !padded_solid(padded, x + 1 + nx, y + 1 + ny, z + 1 + nz)
}

/// AO level of corner `corner` of the face of the cell at `layer`, `row`, `col`.
#[verifier::opaque]
pub open spec fn cell_corner_ao(
    padded: Seq<VoxelType>,
    dir: FaceDirection,
    layer: int,
    row: int,
    col: int,
    corner: int,
) -> u8 {
    let (x, y, z) = spec_cell_of(dir, layer, row, col);
    let (s1, s2, d) = spec_ao_probes(dir, corner);
    spec_vertex_ao(
        padded_solid(padded, x + 1 + s1.0, y + 1 + s1.1, z + 1 + s1.2),
        padded_solid(padded, x + 1 + s2.0, y + 1 + s2.1, z + 1 + s2.2),
        padded_solid(padded, x + 1 + d.0, y + 1 + d.1, z + 1 + d.2),
    )
}

/// The face key of a visible face: its material and its four corner AO levels.
#[verifier::opaque]
pub open spec fn cell_face_key(padded: Seq<VoxelType>, dir: FaceDirection, layer: int, row: int, col: int) -> u16 {
    spec_pack_face_key(
        cell_voxel(padded, dir, layer, row, col),
        spec_ao_mask(
            cell_corner_ao(padded, dir, layer, row, col, 0),
            cell_corner_ao(padded, dir, layer, row, col, 1),
            cell_corner_ao(padded, dir, layer, row, col, 2),
            cell_corner_ao(padded, dir, layer, row, col, 3),
        ),
    )
}

fn layer_count(dir: FaceDirection) -> (n: usize)
    ensures
        n == spec_layer_count(dir),
{
    match dir {
        FaceDirection::Right | FaceDirection::Left => CHUNK_X,
        FaceDirection::Top | FaceDirection::Bottom => CHUNK_Y,
        FaceDirection::Front | FaceDirection::Back => CHUNK_Z,
    }
}

fn cell_of(dir: FaceDirection, layer: usize, row: usize, col: usize) -> (xyz: (usize, usize, usize))
    ensures
        (xyz.0 as int, xyz.1 as int, xyz.2 as int) == spec_cell_of(dir, layer as int, row as int, col as int),
{
    match dir {
        FaceDirection::Right | FaceDirection::Left => (layer, row, col),
        FaceDirection::Top | FaceDirection::Bottom => (col, layer, row),
        FaceDirection::Front | FaceDirection::Back => (col, row, layer),
    }
}

/// The face normal, each component shifted up by one so that it is unsigned.
fn normal_shifted(dir: FaceDirection) -> (n: (usize, usize, usize))
    ensures
        n.0 as int - 1 == spec_normal_of(dir).0,
        n.1 as int - 1 == spec_normal_of(dir).1,
        n.2 as int - 1 == spec_normal_of(dir).2,
{
    match dir {
        FaceDirection::Right => (2, 1, 1),
        FaceDirection::Left => (0, 1, 1),
        FaceDirection::Top => (1, 2, 1),
        FaceDirection::Bottom => (1, 0, 1),
        FaceDirection::Front => (1, 1, 0),
        FaceDirection::Back => (1, 1, 2),
    }
}

pub open spec fn shifted_matches(o: (usize, usize, usize), s: (int, int, int)) -> bool {
    &&& o.0 as int - 1 == s.0
    &&& o.1 as int - 1 == s.1
    &&& o.2 as int - 1 == s.2
}

/// The AO probes of `corner`, each component shifted up by one.
fn ao_probes_shifted(dir: FaceDirection, corner: usize) -> (p: (
    (usize, usize, usize),
    (usize, usize, usize),
    (usize, usize, usize),
))
    requires
        corner < 4,
    ensures
        shifted_matches(p.0, spec_ao_probes(dir, corner as int).0),
        shifted_matches(p.1, spec_ao_probes(dir, corner as int).1),
        shifted_matches(p.2, spec_ao_probes(dir, corner as int).2),
        p.0.0 <= 2 && p.0.1 <= 2 && p.0.2 <= 2,
        p.1.0 <= 2 && p.1.1 <= 2 && p.1.2 <= 2,
        p.2.0 <= 2 && p.2.1 <= 2 && p.2.2 <= 2,
{
    reveal(spec_ao_probes);
    match dir {
        FaceDirection::Right => if corner == 0 {
            ((2, 0, 1), (2, 1, 2), (2, 0, 2))
        } else if corner == 1 {
            ((2, 0, 1), (2, 1, 0), (2, 0, 0))
        } else if corner == 2 {
            ((2, 2, 1), (2, 1, 0), (2, 2, 0))
        } else {
            ((2, 2, 1), (2, 1, 2), (2, 2, 2))
        },
        FaceDirection::Left => if corner == 0 {
            ((0, 0, 1), (0, 1, 0), (0, 0, 0))
        } else if corner == 1 {
            ((0, 0, 1), (0, 1, 2), (0, 0, 2))
        } else if corner == 2 {
            ((0, 2, 1), (0, 1, 2), (0, 2, 2))
        } else {
            ((0, 2, 1), (0, 1, 0), (0, 2, 0))
        },
        FaceDirection::Top => if corner == 0 {
            ((0, 2, 1), (1, 2, 2), (0, 2, 2))
        } else if corner == 1 {
            ((2, 2, 1), (1, 2, 2), (2, 2, 2))
        } else if corner == 2 {
            ((2, 2, 1), (1, 2, 0), (2, 2, 0))
        } else {
            ((0, 2, 1), (1, 2, 0), (0, 2, 0))
        },
        FaceDirection::Bottom => if corner == 0 {
            ((0, 0, 1), (1, 0, 0), (0, 0, 0))
        } else if corner == 1 {
            ((2, 0, 1), (1, 0, 0), (2, 0, 0))
        } else if corner == 2 {
            ((2, 0, 1), (1, 0, 2), (2, 0, 2))
        } else {
            ((0, 0, 1), (1, 0, 2), (0, 0, 2))
        },
        FaceDirection::Front => if corner == 0 {
            ((2, 1, 0), (1, 0, 0), (2, 0, 0))
        } else if corner == 1 {
            ((0, 1, 0), (1, 0, 0), (0, 0, 0))
        } else if corner == 2 {
            ((0, 1, 0), (1, 2, 0), (0, 2, 0))
        } else {
            ((2, 1, 0), (1, 2, 0), (2, 2, 0))
        },
        FaceDirection::Back => if corner == 0 {
            ((0, 1, 2), (1, 2, 2), (0, 2, 2))
        } else if corner == 1 {
            ((2, 1, 2), (1, 2, 2), (2, 2, 2))
        } else if corner == 2 {
            ((2, 1, 2), (1, 0, 2), (2, 0, 2))
        } else {
            ((0, 1, 2), (1, 0, 2), (0, 0, 2))
        },
    }
}

fn is_solid(padded: &[VoxelType], x: usize, y: usize, z: usize) -> (solid: bool)
    requires
        spec_padded_index(x as int, y as int, z as int) < padded.len(),
    ensures
        solid == padded_solid(padded@, x as int, y as int, z as int),
{
    padded[padded_index(x, y, z)] != VoxelType::Air
}

proof fn lemma_padded_index_in_bounds(px: int, py: int, pz: int)
    requires
        0 <= px < PADDED_X,
        0 <= py < PADDED_Y,
        0 <= pz < PADDED_Z,
    ensures
        0 <= spec_padded_index(px, py, pz) < PADDED_VOLUME,
        PADDED_VOLUME == 594184,
        PADDED_X * PADDED_Y * PADDED_Z == 594184,
{
    assert(PADDED_X == 34 && PADDED_Y == 514 && PADDED_Z == 34);
    assert(0 <= px * 17476 <= 33 * 17476);
    assert(0 <= pz * 514 <= 33 * 514);
    assert(PADDED_Z * PADDED_Y == 17476) by (nonlinear_arith)
        requires PADDED_Z == 34, PADDED_Y == 514;
    assert(PADDED_VOLUME == 594184) by (nonlinear_arith)
        requires PADDED_VOLUME == PADDED_X * PADDED_Y * PADDED_Z, PADDED_X == 34, PADDED_Z == 34, PADDED_Y == 514;
    assert(spec_padded_index(px, py, pz) == px * 17476 + pz * 514 + py);
}

/// AO level of corner `corner` of the face at chunk cell `(x, y, z)`.
fn corner_ao(
    dir: FaceDirection,
    padded: &[VoxelType],
    layer: usize,
    row: usize,
    col: usize,
    corner: usize,
) -> (ao: u8)
    requires
        padded.len() >= PADDED_VOLUME,
        corner < 4,
        layer < spec_layer_count(dir),
        row < spec_row_count(dir),
        col < 32,
    ensures
        ao == cell_corner_ao(padded@, dir, layer as int, row as int, col as int, corner as int),
        ao <= 3,
{
    reveal(cell_corner_ao);
    let (x, y, z) = cell_of(dir, layer, row, col);
    let (s1, s2, d) = ao_probes_shifted(dir, corner);
    proof {
        lemma_padded_index_in_bounds((x + s1.0) as int, (y + s1.1) as int, (z + s1.2) as int);
        lemma_padded_index_in_bounds((x + s2.0) as int, (y + s2.1) as int, (z + s2.2) as int);
        lemma_padded_index_in_bounds((x + d.0) as int, (y + d.1) as int, (z + d.2) as int);
    }
    vertex_ao(
        is_solid(padded, x + s1.0, y + s1.1, z + s1.2),
        is_solid(padded, x + s2.0, y + s2.1, z + s2.2),
        is_solid(padded, x + d.0, y + d.1, z + d.2),
    )
}

/// Fills one slice of a pass: bit `col` of `masks[row]` is set exactly when
/// the cell shows a face toward `dir`, and `face_keys[row][col]` then holds
/// its face key (0 elsewhere).
fn fill_face_masks<const ROWS: usize>(
    dir: FaceDirection,
    layer: usize,
    padded: &[VoxelType],
    masks: &mut [u32; ROWS],
    face_keys: &mut [[u16; 32]; ROWS],
)
    requires
        ROWS == spec_row_count(dir),
        layer < spec_layer_count(dir),
        padded.len() >= PADDED_VOLUME,
    ensures
        forall|r: int, c: int|
            0 <= r < ROWS ==> (#[trigger] bit_set(final(masks)@[r], c) == (0 <= c < 32
                && face_visible(padded@, dir, layer as int, r, c))),
        forall|r: int, c: int|
            0 <= r < ROWS && 0 <= c < 32 ==> #[trigger] final(face_keys)@[r][c] == if face_visible(
                padded@,
                dir,
                layer as int,
                r,
                c,
            ) {
                cell_face_key(padded@, dir, layer as int, r, c)
            } else {
                0
            },
{
    reveal(face_visible);
    reveal(cell_voxel);
    let mut i: usize = 0;
    while i < ROWS
        invariant
            i <= ROWS,
            forall|r: int, c: int| 0 <= r < i && 0 <= c < 32 ==> #[trigger] face_keys@[r][c] == 0,
        decreases ROWS - i,
    {
        masks[i] = 0;
        face_keys[i] = [0u16; 32];
        assert(forall|c: int| 0 <= c < 32 ==> #[trigger] face_keys@[i as int][c] == 0);
        i += 1;
    }
    let (nx, ny, nz) = normal_shifted(dir);
    let mut row: usize = 0;
    while row < ROWS
        invariant
            ROWS == spec_row_count(dir),
            layer < spec_layer_count(dir),
            padded.len() >= PADDED_VOLUME,
            row <= ROWS,
            nx as int - 1 == spec_normal_of(dir).0,
            ny as int - 1 == spec_normal_of(dir).1,
            nz as int - 1 == spec_normal_of(dir).2,
            forall|r: int, c: int|
                0 <= r < row ==> (#[trigger] bit_set(masks@[r], c) == (0 <= c < 32
                    && face_visible(padded@, dir, layer as int, r, c))),
            forall|r: int, c: int|
                0 <= r < row && 0 <= c < 32 ==> #[trigger] face_keys@[r][c] == if face_visible(
                    padded@,
                    dir,
                    layer as int,
                    r,
                    c,
                ) {
                    cell_face_key(padded@, dir, layer as int, r, c)
                } else {
                    0
                },
            forall|r: int, c: int| row <= r < ROWS && 0 <= c < 32 ==> #[trigger] face_keys@[r][c] == 0,
        decreases ROWS - row,
    {
        let mut row_mask: u32 = 0;
        let mut col: usize = 0;
        assert forall|c: int| !#[trigger] bit_set(row_mask, c) by {
            lemma_zero_has_no_bits(c);
        }
        while col < 32
            invariant
                ROWS == spec_row_count(dir),
                layer < spec_layer_count(dir),
                padded.len() >= PADDED_VOLUME,
                row < ROWS,
                col <= 32,
                nx as int - 1 == spec_normal_of(dir).0,
                ny as int - 1 == spec_normal_of(dir).1,
                nz as int - 1 == spec_normal_of(dir).2,
                forall|c: int|
                    #[trigger] bit_set(row_mask, c) == (0 <= c < col && face_visible(
                        padded@,
                        dir,
                        layer as int,
                        row as int,
                        c,
                    )),
                forall|r: int, c: int|
                    0 <= r < row ==> (#[trigger] bit_set(masks@[r], c) == (0 <= c < 32
                        && face_visible(padded@, dir, layer as int, r, c))),
                forall|r: int, c: int|
                    0 <= r < row && 0 <= c < 32 ==> #[trigger] face_keys@[r][c] == if face_visible(
                        padded@,
                        dir,
                        layer as int,
                        r,
                        c,
                    ) {
                        cell_face_key(padded@, dir, layer as int, r, c)
                    } else {
                        0
                    },
                forall|c: int|
                    0 <= c < col ==> #[trigger] face_keys@[row as int][c] == if face_visible(
                        padded@,
                        dir,
                        layer as int,
                        row as int,
                        c,
                    ) {
                        cell_face_key(padded@, dir, layer as int, row as int, c)
                    } else {
                        0
                    },
                forall|r: int, c: int|
                    row <= r < ROWS && 0 <= c < 32 && !(r == row && c < col)
                        ==> #[trigger] face_keys@[r][c] == 0,
            decreases 32 - col,
        {
            let (x, y, z) = cell_of(dir, layer, row, col);
            proof {
                reveal(face_visible);
                reveal(cell_voxel);
                lemma_padded_index_in_bounds(x + 1, y + 1, z + 1);
                lemma_padded_index_in_bounds(x + nx, y + ny, z + nz);
            }
            let voxel = padded[padded_index(x + 1, y + 1, z + 1)];
            if voxel == VoxelType::Air || is_solid(padded, x + nx, y + ny, z + nz) {
                proof {
                    assert(!face_visible(padded@, dir, layer as int, row as int, col as int));
                    assert forall|c: int|
                        #[trigger] bit_set(row_mask, c) == (0 <= c < col + 1 && face_visible(
                            padded@,
                            dir,
                            layer as int,
                            row as int,
                            c,
                        )) by {}
                }
                col += 1;
                continue;
            }
            let ao0 = corner_ao(dir, padded, layer, row, col, 0);
            let ao1 = corner_ao(dir, padded, layer, row, col, 1);
            let ao2 = corner_ao(dir, padded, layer, row, col, 2);
            let ao3 = corner_ao(dir, padded, layer, row, col, 3);
            let ao_mask = (ao0 << 0u8) | (ao1 << 2u8) | (ao2 << 4u8) | (ao3 << 6u8);
            assert(ao0 << 0u8 == ao0) by (bit_vector);
            assert(ao_mask == spec_ao_mask(ao0, ao1, ao2, ao3));
            let key = pack_face_key(voxel, ao_mask);
            assert(key == cell_face_key(padded@, dir, layer as int, row as int, col as int)) by {
                reveal(cell_face_key);
            }
            face_keys[row][col] = key;
            let old_mask = row_mask;
            row_mask = row_mask | (1u32 << (col as u32));
            proof {
                assert forall|c: int|
                    #[trigger] bit_set(row_mask, c) == (0 <= c < col + 1 && face_visible(
                        padded@,
                        dir,
                        layer as int,
                        row as int,
                        c,
                    )) by {
                    lemma_or_single_bit(old_mask, col as u32, c);
                }
            }
            col += 1;
        }
        masks[row] = row_mask;
        row += 1;
    }
}

// ---------------------------------------------------------------------------
// Quads emitted by a meshing pass.
// ---------------------------------------------------------------------------

/// A merged rectangle of faces in one slice of a pass, with the voxel it shows.
/// Its four vertices, normal and colour follow from these fields.
#[derive(Clone, Copy, Debug)]
pub struct FaceQuad {
    pub direction: FaceDirection,
    pub layer: usize,
    pub row: usize,
    pub column: usize,
    pub width: usize,
    pub depth: usize,
    pub voxel: VoxelType,
}

pub open spec fn face_quad_contains(q: FaceQuad, layer: int, row: int, col: int) -> bool {
    &&& q.layer == layer
    &&& q.row <= row < q.row + q.depth
    &&& q.column <= col < q.column + q.width
}

/// A quad of a pass toward `dir` lies inside the chunk, and every face it
/// covers is visible and shows the quad's voxel.
pub open spec fn face_quad_valid(padded: Seq<VoxelType>, dir: FaceDirection, q: FaceQuad) -> bool {
    &&& q.direction == dir
    &&& 1 <= q.width
    &&& 1 <= q.depth
    &&& q.layer < spec_layer_count(dir)
    &&& q.row + q.depth <= spec_row_count(dir)
    &&& q.column + q.width <= 32
    &&& q.voxel != VoxelType::Air
    &&& forall|r: int, c: int|
        #[trigger] face_quad_contains(q, q.layer as int, r, c) ==> face_visible(
            padded,
            dir,
            q.layer as int,
            r,
            c,
        ) && cell_voxel(padded, dir, q.layer as int, r, c) == q.voxel
}

pub open spec fn face_covered(qs: Seq<FaceQuad>, layer: int, row: int, col: int) -> bool {
    exists|i: int| 0 <= i < qs.len() && #[trigger] face_quad_contains(qs[i], layer, row, col)
}

/// Cell `(l, r, c)` of the pass toward `dir` shows a face that no quad of
/// `placed` covers yet.
pub open spec fn face_available(
    padded: Seq<VoxelType>,
    dir: FaceDirection,
    placed: Seq<FaceQuad>,
    l: int,
    r: int,
    c: int,
) -> bool {
    &&& 0 <= r < spec_row_count(dir)
    &&& 0 <= c < 32
    &&& face_visible(padded, dir, l, r, c)
    &&& !face_covered(placed, l, r, c)
}

/// Every face of the rectangle has the material of its first face.
pub open spec fn faces_same_material(
    padded: Seq<VoxelType>,
    dir: FaceDirection,
    l: int,
    row: int,
    col: int,
    width: int,
    depth: int,
) -> bool {
    forall|r: int, c: int|
        row <= r < row + depth && col <= c < col + width ==> #[trigger] spec_material_of(
            cell_face_key(padded, dir, l, r, c),
        ) == spec_material_of(cell_face_key(padded, dir, l, row, col))
}

/// Every face of the rectangle has all four corner AO levels equal to the
/// level at the top-left corner of its first face.
pub open spec fn faces_uniform_ao(
    padded: Seq<VoxelType>,
    dir: FaceDirection,
    l: int,
    row: int,
    col: int,
    width: int,
    depth: int,
) -> bool {
    let map = spec_ao_corner_map(dir);
    forall|r: int, c: int|
        row <= r < row + depth && col <= c < col + width ==> #[trigger] uniform_ao_key(
            cell_face_key(padded, dir, l, r, c),
            map,
            spec_ao_corner(cell_face_key(padded, dir, l, row, col), map.top_left as int),
        )
}

/// Growing quad `q` by one column is not allowed.
pub open spec fn face_width_stops(padded: Seq<VoxelType>, dir: FaceDirection, placed: Seq<FaceQuad>, q: FaceQuad) -> bool {
    ||| q.column + q.width == 32
    ||| !face_available(padded, dir, placed, q.layer as int, q.row as int, q.column + q.width)
    ||| !faces_same_material(padded, dir, q.layer as int, q.row as int, q.column as int, q.width + 1, 1)
    ||| !faces_uniform_ao(padded, dir, q.layer as int, q.row as int, q.column as int, q.width + 1, 1)
}

/// Growing quad `q` by one row is not allowed.
pub open spec fn face_depth_stops(padded: Seq<VoxelType>, dir: FaceDirection, placed: Seq<FaceQuad>, q: FaceQuad) -> bool {
    ||| q.row + q.depth == spec_row_count(dir)
    ||| exists|c: int|
        q.column <= c < q.column + q.width && !#[trigger] face_available(
            padded,
            dir,
            placed,
            q.layer as int,
            q.row + q.depth,
            c,
        )
    ||| !faces_same_material(padded, dir, q.layer as int, q.row as int, q.column as int, q.width as int, q.depth + 1)
    ||| !faces_uniform_ao(padded, dir, q.layer as int, q.row as int, q.column as int, q.width as int, q.depth + 1)
}

/// `q` is the quad that the greedy scan of a pass emits once the quads
/// `placed` are emitted: it starts at the first uncovered visible face in
/// layer, row, column order; a first face whose own corners differ in AO
/// stays a single face; otherwise all its faces share that first face's AO
/// level and the quad grows as wide as it can, then as deep as it can.
pub open spec fn greedy_next_face(padded: Seq<VoxelType>, dir: FaceDirection, placed: Seq<FaceQuad>, q: FaceQuad) -> bool {
    let anchor_uniform = faces_uniform_ao(padded, dir, q.layer as int, q.row as int, q.column as int, 1, 1);
    &&& face_available(padded, dir, placed, q.layer as int, q.row as int, q.column as int)
    &&& forall|l: int, r: int, c: int|
        0 <= l && (l < q.layer || (l == q.layer && (r < q.row || (r == q.row && c < q.column))))
            ==> !#[trigger] face_available(padded, dir, placed, l, r, c)
    &&& !anchor_uniform ==> q.width == 1 && q.depth == 1
    &&& anchor_uniform ==> faces_uniform_ao(
        padded,
        dir,
        q.layer as int,
        q.row as int,
        q.column as int,
        q.width as int,
        q.depth as int,
    )
    &&& anchor_uniform ==> face_width_stops(padded, dir, placed, q)
    &&& anchor_uniform ==> face_depth_stops(padded, dir, placed, q)
}

/// Each quad is the greedy choice after the quads before it.
#[verifier::opaque]
pub open spec fn faces_greedy(padded: Seq<VoxelType>, dir: FaceDirection, qs: Seq<FaceQuad>) -> bool {
    forall|i: int| 0 <= i < qs.len() ==> #[trigger] greedy_next_face(padded, dir, qs.take(i), qs[i])
}

/// The quads are the greedy tiling of the visible faces of the pass toward
/// `dir`: every visible face lies in exactly one quad, every quad is valid,
/// and each quad is the one the greedy scan emits after those before it.
pub open spec fn face_quads_tile(padded: Seq<VoxelType>, dir: FaceDirection, qs: Seq<FaceQuad>) -> bool {
    &&& forall|l: int, r: int, c: int|
        0 <= l < spec_layer_count(dir) && 0 <= r < spec_row_count(dir) && 0 <= c < 32
            && #[trigger] face_visible(padded, dir, l, r, c) ==> face_covered(qs, l, r, c)
    &&& forall|i: int, j: int, l: int, r: int, c: int|
        0 <= i < j < qs.len() && #[trigger] face_quad_contains(qs[i], l, r, c)
            ==> !#[trigger] face_quad_contains(qs[j], l, r, c)
    &&& forall|i: int| 0 <= i < qs.len() ==> face_quad_valid(padded, dir, #[trigger] qs[i])
    &&& faces_greedy(padded, dir, qs)
}

/// Row and column of corner `k` of a quad: top-left, top-right,
/// bottom-right, bottom-left.
pub open spec fn quad_corner_cell(row: int, col: int, width: int, depth: int, k: int) -> (int, int) {
    if k == 0 {
        (row, col)
    } else if k == 1 {
        (row, col + width - 1)
    } else if k == 2 {
        (row + depth - 1, col + width - 1)
    } else {
        (row + depth - 1, col)
    }
}

/// Vertex `i` of a quad takes its AO from corner `.0` of the quad, AO corner `.1`.
pub open spec fn spec_ao_pick(dir: FaceDirection, i: int) -> (int, int) {
    match dir {
        FaceDirection::Right | FaceDirection::Front => if i == 0 {
            (1, 0)
        } else if i == 1 {
            (0, 1)
        } else if i == 2 {
            (3, 2)
        } else {
            (2, 3)
        },
        FaceDirection::Left | FaceDirection::Bottom => (i, i),
        FaceDirection::Top => (3 - i, i),
        FaceDirection::Back => (i, 3 - i),
    }
}

/// AO level of vertex `i` of quad `q`.
pub open spec fn quad_vertex_ao(padded: Seq<VoxelType>, q: FaceQuad, i: int) -> u8 {
    let (k, corner) = spec_ao_pick(q.direction, i);
    let (r, c) = quad_corner_cell(q.row as int, q.column as int, q.width as int, q.depth as int, k);
    cell_corner_ao(padded, q.direction, q.layer as int, r, c, corner)
}

pub open spec fn quad_ao(padded: Seq<VoxelType>, q: FaceQuad) -> Seq<u8> {
    seq![
        quad_vertex_ao(padded, q, 0),
        quad_vertex_ao(padded, q, 1),
        quad_vertex_ao(padded, q, 2),
        quad_vertex_ao(padded, q, 3),
    ]
}

/// The two triangles of a quad whose vertices start at `base`; the split runs
/// along the diagonal that keeps AO interpolation even.
pub open spec fn quad_indices(padded: Seq<VoxelType>, q: FaceQuad, base: int) -> Seq<u32> {
    let tl = quad_vertex_ao(padded, q, 0) as int;
    let tr = quad_vertex_ao(padded, q, 1) as int;
    let br = quad_vertex_ao(padded, q, 2) as int;
    let bl = quad_vertex_ao(padded, q, 3) as int;
    if tl + br > tr + bl {
        seq![base as u32, (base + 1) as u32, (base + 3) as u32, (base + 1) as u32, (base + 2) as u32, (base + 3) as u32]
    } else {
        seq![base as u32, (base + 1) as u32, (base + 2) as u32, base as u32, (base + 2) as u32, (base + 3) as u32]
    }
}

pub open spec fn quads_ao(padded: Seq<VoxelType>, qs: Seq<FaceQuad>) -> Seq<u8>
    decreases qs.len(),
{
    if qs.len() == 0 {
        Seq::empty()
    } else {
        quads_ao(padded, qs.drop_last()) + quad_ao(padded, qs.last())
    }
}

/// Indices of the quads `qs` whose vertices are numbered from `base` on, four per quad.
pub open spec fn quads_indices(padded: Seq<VoxelType>, qs: Seq<FaceQuad>, base: int) -> Seq<u32>
    decreases qs.len(),
{
    if qs.len() == 0 {
        Seq::empty()
    } else {
        quads_indices(padded, qs.drop_last(), base) + quad_indices(
            padded,
            qs.last(),
            base + 4 * (qs.len() - 1),
        )
    }
}

pub open spec fn to_face_quad(padded: Seq<VoxelType>, dir: FaceDirection, layer: int, mq: MergedQuad) -> FaceQuad {
    FaceQuad {
        direction: dir,
        layer: layer as usize,
        row: mq.row,
        column: mq.column,
        width: mq.width,
        depth: mq.depth,
        voxel: cell_voxel(padded, dir, layer, mq.row as int, mq.column as int),
    }
}

/// Which AO corner of a face toward `dir` lies at each corner of the
/// row/column plane of its pass.
pub open spec fn spec_ao_corner_map(dir: FaceDirection) -> AoCornerMap {
    match dir {
        FaceDirection::Right | FaceDirection::Front => AoCornerMap {
            top_left: 1,
            top_right: 0,
            bottom_right: 3,
            bottom_left: 2,
        },
        FaceDirection::Left | FaceDirection::Bottom => AoCornerMap {
            top_left: 0,
            top_right: 1,
            bottom_right: 2,
            bottom_left: 3,
        },
        FaceDirection::Top | FaceDirection::Back => AoCornerMap {
            top_left: 3,
            top_right: 2,
            bottom_right: 1,
            bottom_left: 0,
        },
    }
}

fn ao_corner_map(dir: FaceDirection) -> (map: AoCornerMap)
    ensures
        map.wf(),
        map == spec_ao_corner_map(dir),
{
    match dir {
        FaceDirection::Right | FaceDirection::Front => AoCornerMap {
            top_left: 1,
            top_right: 0,
            bottom_right: 3,
            bottom_left: 2,
        },
        FaceDirection::Left | FaceDirection::Bottom => AoCornerMap {
            top_left: 0,
            top_right: 1,
            bottom_right: 2,
            bottom_left: 3,
        },
        FaceDirection::Top | FaceDirection::Back => AoCornerMap {
            top_left: 3,
            top_right: 2,
            bottom_right: 1,
            bottom_left: 0,
        },
    }
}

fn ao_pick(dir: FaceDirection, i: usize) -> (pick: (usize, usize))
    requires
        i < 4,
    ensures
        pick.0 as int == spec_ao_pick(dir, i as int).0,
        pick.1 as int == spec_ao_pick(dir, i as int).1,
        pick.0 < 4,
        pick.1 < 4,
{
    match dir {
        FaceDirection::Right | FaceDirection::Front => if i == 0 {
            (1, 0)
        } else if i == 1 {
            (0, 1)
        } else if i == 2 {
            (3, 2)
        } else {
            (2, 3)
        },
        FaceDirection::Left | FaceDirection::Bottom => (i, i),
        FaceDirection::Top => (3 - i, i),
        FaceDirection::Back => (i, 3 - i),
    }
}

/// A visible face's key holds its voxel's material and its corner AO levels.
proof fn lemma_cell_key_parts(padded: Seq<VoxelType>, dir: FaceDirection, l: int, r: int, c: int)
    requires
        face_visible(padded, dir, l, r, c),
    ensures
        spec_material_of(cell_face_key(padded, dir, l, r, c)) == spec_material_id(
            cell_voxel(padded, dir, l, r, c),
        ),
        cell_voxel(padded, dir, l, r, c) != VoxelType::Air,
        spec_ao_corner(cell_face_key(padded, dir, l, r, c), 0) == cell_corner_ao(padded, dir, l, r, c, 0),
        spec_ao_corner(cell_face_key(padded, dir, l, r, c), 1) == cell_corner_ao(padded, dir, l, r, c, 1),
        spec_ao_corner(cell_face_key(padded, dir, l, r, c), 2) == cell_corner_ao(padded, dir, l, r, c, 2),
        spec_ao_corner(cell_face_key(padded, dir, l, r, c), 3) == cell_corner_ao(padded, dir, l, r, c, 3),
{
    reveal(cell_corner_ao);
    reveal(cell_face_key);
    reveal(face_visible);
    reveal(cell_voxel);
    let a0 = cell_corner_ao(padded, dir, l, r, c, 0);
    let a1 = cell_corner_ao(padded, dir, l, r, c, 1);
    let a2 = cell_corner_ao(padded, dir, l, r, c, 2);
    let a3 = cell_corner_ao(padded, dir, l, r, c, 3);
    assert(a0 <= 3 && a1 <= 3 && a2 <= 3 && a3 <= 3);
    lemma_face_key_round_trip(cell_voxel(padded, dir, l, r, c), a0, a1, a2, a3);
}

/// The four corner faces of a merged rectangle are visible and hold their face keys.
pub open spec fn merged_corners_visible(padded: Seq<VoxelType>, dir: FaceDirection, layer: int, mq: MergedQuad) -> bool {
    let r0 = mq.row as int;
    let c0 = mq.column as int;
    let r1 = mq.row + mq.depth - 1;
    let c1 = mq.column + mq.width - 1;
    &&& face_visible(padded, dir, layer, r0, c0)
    &&& face_visible(padded, dir, layer, r0, c1)
    &&& face_visible(padded, dir, layer, r1, c1)
    &&& face_visible(padded, dir, layer, r1, c0)
    &&& mq.corner_keys[0] == cell_face_key(padded, dir, layer, r0, c0)
    &&& mq.corner_keys[1] == cell_face_key(padded, dir, layer, r0, c1)
    &&& mq.corner_keys[2] == cell_face_key(padded, dir, layer, r1, c1)
    &&& mq.corner_keys[3] == cell_face_key(padded, dir, layer, r1, c0)
}

/// Emits the quad of one merged rectangle: the quad itself, the AO level of
/// each of its four vertices, and the indices of its two triangles.
fn emit_quad(
    dir: FaceDirection,
    layer: usize,
    padded: &[VoxelType],
    mq: MergedQuad,
    quads: &mut Vec<FaceQuad>,
    ao: &mut Vec<Ao>,
    indices: &mut Vec<u32>,
    vertex_offset: &mut u32,
)
    requires
        layer < spec_layer_count(dir),
        1 <= mq.width,
        1 <= mq.depth,
        mq.row + mq.depth <= spec_row_count(dir),
        mq.column + mq.width <= 32,
        merged_corners_visible(padded@, dir, layer as int, mq),
        *old(vertex_offset) <= u32::MAX - 4,
    ensures
        final(quads)@ == old(quads)@.push(to_face_quad(padded@, dir, layer as int, mq)),
        final(ao)@ == old(ao)@ + quad_ao(padded@, to_face_quad(padded@, dir, layer as int, mq)),
        final(indices)@ == old(indices)@ + quad_indices(
            padded@,
            to_face_quad(padded@, dir, layer as int, mq),
            *old(vertex_offset) as int,
        ),
        *final(vertex_offset) == *old(vertex_offset) + 4,
{
    let ghost fq = to_face_quad(padded@, dir, layer as int, mq);
    proof {
        assert(quad_corner_cell(mq.row as int, mq.column as int, mq.width as int, mq.depth as int, 0)
            == (mq.row as int, mq.column as int));
        assert(quad_corner_cell(mq.row as int, mq.column as int, mq.width as int, mq.depth as int, 1)
            == (mq.row as int, mq.column + mq.width - 1));
        assert(quad_corner_cell(mq.row as int, mq.column as int, mq.width as int, mq.depth as int, 2)
            == (mq.row + mq.depth - 1, mq.column + mq.width - 1));
        assert(quad_corner_cell(mq.row as int, mq.column as int, mq.width as int, mq.depth as int, 3)
            == (mq.row + mq.depth - 1, mq.column as int));
        lemma_cell_key_parts(padded@, dir, layer as int, mq.row as int, mq.column as int);
        lemma_cell_key_parts(padded@, dir, layer as int, mq.row as int, mq.column + mq.width - 1);
        lemma_cell_key_parts(padded@, dir, layer as int, mq.row + mq.depth - 1, mq.column + mq.width - 1);
        lemma_cell_key_parts(padded@, dir, layer as int, mq.row + mq.depth - 1, mq.column as int);
    }
    let material = unpack_material(mq.corner_keys[0]);
    let voxel = if material == 0 {
        VoxelType::Grass
    } else if material == 1 {
        VoxelType::Snow
    } else {
        VoxelType::Sand
    };
    assert(voxel == fq.voxel);
    let (k0, c0) = ao_pick(dir, 0);
    let (k1, c1) = ao_pick(dir, 1);
    let (k2, c2) = ao_pick(dir, 2);
    let (k3, c3) = ao_pick(dir, 3);
    let ao0 = unpack_ao_corner(mq.corner_keys[k0], c0);
    let ao1 = unpack_ao_corner(mq.corner_keys[k1], c1);
    let ao2 = unpack_ao_corner(mq.corner_keys[k2], c2);
    let ao3 = unpack_ao_corner(mq.corner_keys[k3], c3);
    assert(ao0 == quad_vertex_ao(padded@, fq, 0));
    assert(ao1 == quad_vertex_ao(padded@, fq, 1));
    assert(ao2 == quad_vertex_ao(padded@, fq, 2));
    assert(ao3 == quad_vertex_ao(padded@, fq, 3));
    let base = *vertex_offset;
    quads.push(FaceQuad {
        direction: dir,
        layer,
        row: mq.row,
        column: mq.column,
        width: mq.width,
        depth: mq.depth,
        voxel,
    });
    ao.push(ao0);
    ao.push(ao1);
    ao.push(ao2);
    ao.push(ao3);
    let tl = ao0 as i32;
    let tr = ao1 as i32;
    let br = ao2 as i32;
    let bl = ao3 as i32;
    if tl + br > tr + bl {
        indices.push(base);
        indices.push(base + 1);
        indices.push(base + 3);
        indices.push(base + 1);
        indices.push(base + 2);
        indices.push(base + 3);
    } else {
        indices.push(base);
        indices.push(base + 1);
        indices.push(base + 2);
        indices.push(base);
        indices.push(base + 2);
        indices.push(base + 3);
    }
    *vertex_offset += 4;
    assert(ao@ =~= old(ao)@ + quad_ao(padded@, fq));
    assert(indices@ =~= old(indices)@ + quad_indices(padded@, fq, base as int));
}

proof fn lemma_quads_ao_push(padded: Seq<VoxelType>, qs: Seq<FaceQuad>, q: FaceQuad)
    ensures
        quads_ao(padded, qs.push(q)) == quads_ao(padded, qs) + quad_ao(padded, q),
{
    assert(qs.push(q).drop_last() =~= qs);
}

proof fn lemma_quads_indices_push(padded: Seq<VoxelType>, qs: Seq<FaceQuad>, q: FaceQuad, base: int)
    ensures
        quads_indices(padded, qs.push(q), base) == quads_indices(padded, qs, base) + quad_indices(
            padded,
            q,
            base + 4 * qs.len(),
        ),
{
    assert(qs.push(q).drop_last() =~= qs);
}

/// What a meshing pass toward `dir` leaves behind: the quads it appends tile
/// the visible faces toward `dir`; AO levels and triangle indices of those
/// quads are appended in the same order; four vertices are counted per quad.
pub open spec fn mesh_pass_output(
    padded: Seq<VoxelType>,
    dir: FaceDirection,
    quads_before: Seq<FaceQuad>,
    quads_after: Seq<FaceQuad>,
    ao_before: Seq<u8>,
    ao_after: Seq<u8>,
    indices_before: Seq<u32>,
    indices_after: Seq<u32>,
    offset_before: u32,
    offset_after: u32,
) -> bool {
    let added = quads_after.skip(quads_before.len() as int);
    &&& quads_before.len() <= quads_after.len()
    &&& quads_after.take(quads_before.len() as int) == quads_before
    &&& face_quads_tile(padded, dir, added)
    &&& added.len() <= CHUNK_VOLUME
    &&& ao_after == ao_before + quads_ao(padded, added)
    &&& indices_after == indices_before + quads_indices(padded, added, offset_before as int)
    &&& offset_after == offset_before + 4 * added.len()
}

/// The slice grid after `fill_face_masks`: the set bits are the visible faces
/// and the keys of visible faces are their face keys.
#[verifier::opaque]
pub open spec fn slice_filled<const ROWS: usize>(
    padded: Seq<VoxelType>,
    dir: FaceDirection,
    layer: int,
    m0: Seq<u32>,
    keys: [[u16; 32]; ROWS],
) -> bool {
    &&& m0.len() == ROWS
    &&& forall|r: int, c: int|
        0 <= r < ROWS ==> (#[trigger] bit_set(m0[r], c) == (0 <= c < 32 && face_visible(
            padded,
            dir,
            layer,
            r,
            c,
        )))
    &&& forall|r: int, c: int|
        0 <= r < ROWS && 0 <= c < 32 && face_visible(padded, dir, layer, r, c)
            ==> #[trigger] keys[r][c] == cell_face_key(padded, dir, layer, r, c)
}

/// The quads built from one slice's merged rectangles tile that slice.
proof fn lemma_slice_quads<const ROWS: usize>(
    padded: Seq<VoxelType>,
    dir: FaceDirection,
    layer: int,
    m0: Seq<u32>,
    keys: [[u16; 32]; ROWS],
    map: AoCornerMap,
    merged: Seq<MergedQuad>,
)
    requires
        ROWS == spec_row_count(dir),
        0 <= layer < spec_layer_count(dir),
        slice_filled(padded, dir, layer, m0, keys),
        quads_tile_masks(keys, map, m0, merged),
    ensures
        forall|i: int|
            0 <= i < merged.len() ==> merged_corners_visible(padded, dir, layer, #[trigger] merged[i]),
        slice_merged_facts(padded, dir, layer, merged),
        forall|i: int|
            0 <= i < merged.len() ==> #[trigger] merged[i].row + merged[i].depth <= ROWS
                && merged[i].column + merged[i].width <= 32 && 1 <= merged[i].width && 1
                <= merged[i].depth,
{
    reveal(slice_merged_facts);
    reveal(slice_filled);
    reveal(quads_tile_masks);
    assert forall|i: int| 0 <= i < merged.len() implies merged_corners_visible(
        padded,
        dir,
        layer,
        #[trigger] merged[i],
    ) && face_quad_valid(padded, dir, to_face_quad(padded, dir, layer, merged[i])) by {
        let mq = merged[i];
        assert(merged_quad_valid(keys, map, m0, mq));
        assert(in_quad(mq, mq.row as int, mq.column as int));
        assert(in_quad(mq, mq.row as int, mq.column + mq.width - 1));
        assert(in_quad(mq, mq.row + mq.depth - 1, mq.column + mq.width - 1));
        assert(in_quad(mq, mq.row + mq.depth - 1, mq.column as int));
        assert(bit_set(m0[mq.row as int], mq.column as int));
        assert(bit_set(m0[mq.row as int], mq.column + mq.width - 1));
        assert(bit_set(m0[mq.row + mq.depth - 1], mq.column + mq.width - 1));
        assert(bit_set(m0[mq.row + mq.depth - 1], mq.column as int));
        let fq = to_face_quad(padded, dir, layer, mq);
        lemma_cell_key_parts(padded, dir, layer, mq.row as int, mq.column as int);
        assert forall|r: int, c: int| #[trigger] face_quad_contains(fq, fq.layer as int, r, c) implies face_visible(
            padded,
            dir,
            fq.layer as int,
            r,
            c,
        ) && cell_voxel(padded, dir, fq.layer as int, r, c) == fq.voxel by {
            assert(in_quad(mq, r, c));
            assert(bit_set(m0[r], c));
            lemma_cell_key_parts(padded, dir, layer, r, c);
            assert(spec_material_of(keys[r][c]) == spec_material_of(keys[mq.row as int][mq.column as int]));
        }
    }
    assert forall|r: int, c: int|
        0 <= r < ROWS && 0 <= c < 32 && #[trigger] face_visible(padded, dir, layer, r, c)
            implies exists|i: int| 0 <= i < merged.len() && #[trigger] in_quad(merged[i], r, c) by {
        assert(bit_set(m0[r], c));
        assert(covered(merged, r, c));
    }
}

/// The prefix property of a pass's quads grows by one slice.
#[verifier::opaque]
pub open spec fn tiles_below(padded: Seq<VoxelType>, dir: FaceDirection, added: Seq<FaceQuad>, layer: int) -> bool {
    &&& forall|l: int, r: int, c: int|
        0 <= l < layer && 0 <= r < spec_row_count(dir) && 0 <= c < 32 && #[trigger] face_visible(
            padded,
            dir,
            l,
            r,
            c,
        ) ==> face_covered(added, l, r, c)
    &&& forall|i: int, j: int, l: int, r: int, c: int|
        0 <= i < j < added.len() && #[trigger] face_quad_contains(added[i], l, r, c)
            ==> !#[trigger] face_quad_contains(added[j], l, r, c)
    &&& forall|i: int| 0 <= i < added.len() ==> face_quad_valid(padded, dir, #[trigger] added[i])
    &&& forall|i: int| 0 <= i < added.len() ==> #[trigger] added[i].layer < layer
    &&& faces_greedy(padded, dir, added)
}

pub open spec fn slice_face_quads(
    padded: Seq<VoxelType>,
    dir: FaceDirection,
    layer: int,
    merged: Seq<MergedQuad>,
) -> Seq<FaceQuad> {
    merged.map(|k: int, mq: MergedQuad| to_face_quad(padded, dir, layer, mq))
}

/// What the quads of one slice contribute to a pass, in terms of merged rectangles.
#[verifier::opaque]
pub open spec fn slice_merged_facts(
    padded: Seq<VoxelType>,
    dir: FaceDirection,
    layer: int,
    merged: Seq<MergedQuad>,
) -> bool {
    &&& forall|i: int|
        0 <= i < merged.len() ==> face_quad_valid(
            padded,
            dir,
            #[trigger] to_face_quad(padded, dir, layer, merged[i]),
        )
    &&& forall|r: int, c: int|
        0 <= r < spec_row_count(dir) && 0 <= c < 32 && #[trigger] face_visible(
            padded,
            dir,
            layer,
            r,
            c,
        ) ==> exists|i: int| 0 <= i < merged.len() && #[trigger] in_quad(merged[i], r, c)
    &&& forall|i: int, j: int, r: int, c: int|
        0 <= i < j < merged.len() && #[trigger] in_quad(merged[i], r, c) ==> !#[trigger] in_quad(
            merged[j],
            r,
            c,
        )
}

proof fn lemma_extend_valid(
    padded: Seq<VoxelType>,
    dir: FaceDirection,
    layer: int,
    merged: Seq<MergedQuad>,
    added_before: Seq<FaceQuad>,
)
    requires
        0 <= layer < spec_layer_count(dir),
        slice_merged_facts(padded, dir, layer, merged),
        forall|i: int| 0 <= i < added_before.len() ==> face_quad_valid(padded, dir, #[trigger] added_before[i]),
        forall|i: int| 0 <= i < added_before.len() ==> #[trigger] added_before[i].layer < layer,
    ensures
        ({
            let added = added_before + slice_face_quads(padded, dir, layer, merged);
            &&& forall|i: int| 0 <= i < added.len() ==> face_quad_valid(padded, dir, #[trigger] added[i])
            &&& forall|i: int| 0 <= i < added.len() ==> #[trigger] added[i].layer < layer + 1
        }),
{
    reveal(slice_merged_facts);
    let fqs = slice_face_quads(padded, dir, layer, merged);
    let added = added_before + fqs;
    assert forall|i: int| 0 <= i < added.len() implies face_quad_valid(padded, dir, #[trigger] added[i])
        && added[i].layer < layer + 1 by {
        if i >= added_before.len() {
            assert(added[i] == fqs[i - added_before.len()]);
            assert(fqs[i - added_before.len()] == to_face_quad(padded, dir, layer, merged[i - added_before.len()]));
        } else {
            assert(added[i] == added_before[i]);
        }
    }
}

proof fn lemma_extend_disjoint(
    padded: Seq<VoxelType>,
    dir: FaceDirection,
    layer: int,
    merged: Seq<MergedQuad>,
    added_before: Seq<FaceQuad>,
)
    requires
        0 <= layer < spec_layer_count(dir),
        slice_merged_facts(padded, dir, layer, merged),
        forall|i: int, j: int, l: int, r: int, c: int|
            0 <= i < j < added_before.len() && #[trigger] face_quad_contains(added_before[i], l, r, c)
                ==> !#[trigger] face_quad_contains(added_before[j], l, r, c),
        forall|i: int| 0 <= i < added_before.len() ==> #[trigger] added_before[i].layer < layer,
    ensures
        ({
            let added = added_before + slice_face_quads(padded, dir, layer, merged);
            forall|i: int, j: int, l: int, r: int, c: int|
                0 <= i < j < added.len() && #[trigger] face_quad_contains(added[i], l, r, c)
                    ==> !#[trigger] face_quad_contains(added[j], l, r, c)
        }),
{
    reveal(slice_merged_facts);
    let fqs = slice_face_quads(padded, dir, layer, merged);
    let added = added_before + fqs;
    assert forall|i: int, j2: int, l: int, r: int, c: int|
        0 <= i < j2 < added.len() && #[trigger] face_quad_contains(added[i], l, r, c)
            implies !#[trigger] face_quad_contains(added[j2], l, r, c) by {
        if j2 < added_before.len() {
            assert(added[i] == added_before[i]);
            assert(added[j2] == added_before[j2]);
        } else if i < added_before.len() {
            assert(added[i] == added_before[i]);
            assert(added[j2] == fqs[j2 - added_before.len()]);
            assert(added_before[i].layer < layer);
        } else {
            let a = i - added_before.len();
            let b = j2 - added_before.len();
            assert(added[i] == fqs[a]);
            assert(added[j2] == fqs[b]);
            assert(in_quad(merged[a], r, c));
            assert(face_quad_contains(added[j2], l, r, c) ==> in_quad(merged[b], r, c));
        }
    }
}

proof fn lemma_extend_cover(
    padded: Seq<VoxelType>,
    dir: FaceDirection,
    layer: int,
    merged: Seq<MergedQuad>,
    added_before: Seq<FaceQuad>,
)
    requires
        0 <= layer < spec_layer_count(dir),
        slice_merged_facts(padded, dir, layer, merged),
        forall|l: int, r: int, c: int|
            0 <= l < layer && 0 <= r < spec_row_count(dir) && 0 <= c < 32 && #[trigger] face_visible(
                padded,
                dir,
                l,
                r,
                c,
            ) ==> face_covered(added_before, l, r, c),
    ensures
        ({
            let added = added_before + slice_face_quads(padded, dir, layer, merged);
            forall|l: int, r: int, c: int|
                0 <= l < layer + 1 && 0 <= r < spec_row_count(dir) && 0 <= c < 32
                    && #[trigger] face_visible(padded, dir, l, r, c) ==> face_covered(added, l, r, c)
        }),
{
    reveal(slice_merged_facts);
    let fqs = slice_face_quads(padded, dir, layer, merged);
    let added = added_before + fqs;
    assert forall|l: int, r: int, c: int|
        0 <= l < layer + 1 && 0 <= r < spec_row_count(dir) && 0 <= c < 32 && #[trigger] face_visible(
            padded,
            dir,
            l,
            r,
            c,
        ) implies face_covered(added, l, r, c) by {
        if l < layer {
            let i = choose|i: int|
                0 <= i < added_before.len() && #[trigger] face_quad_contains(added_before[i], l, r, c);
            assert(added[i] == added_before[i]);
            assert(face_quad_contains(added[i], l, r, c));
        } else {
            let i = choose|i: int| 0 <= i < merged.len() && #[trigger] in_quad(merged[i], r, c);
            let k = added_before.len() + i;
            assert(added[k] == fqs[i]);
            assert(face_quad_contains(added[k], l, r, c));
        }
    }
}

/// Quads of earlier layers cover nothing in `layer`, so there the quads of
/// a slice cover exactly what its merged rectangles cover.
proof fn lemma_slice_cover(
    padded: Seq<VoxelType>,
    dir: FaceDirection,
    layer: int,
    before: Seq<FaceQuad>,
    ms: Seq<MergedQuad>,
    r: int,
    c: int,
)
    requires
        0 <= layer < spec_layer_count(dir),
        forall|i: int| 0 <= i < before.len() ==> #[trigger] before[i].layer < layer,
    ensures
        face_covered(before + slice_face_quads(padded, dir, layer, ms), layer, r, c) == covered(ms, r, c),
{
    let fqs = slice_face_quads(padded, dir, layer, ms);
    let all = before + fqs;
    if face_covered(all, layer, r, c) {
        let i = choose|i: int| 0 <= i < all.len() && #[trigger] face_quad_contains(all[i], layer, r, c);
        if i < before.len() {
            assert(all[i] == before[i]);
        } else {
            let j = i - before.len();
            assert(all[i] == fqs[j]);
            assert(in_quad(ms[j], r, c));
        }
    }
    if covered(ms, r, c) {
        let j = choose|j: int| 0 <= j < ms.len() && #[trigger] in_quad(ms[j], r, c);
        let i = before.len() + j;
        assert(all[i] == fqs[j]);
        assert(face_quad_contains(all[i], layer, r, c));
    }
}

/// On a rectangle of visible faces the slice keys are the face keys, so
/// both agree on material and AO uniformity.
proof fn lemma_rect_keys<const ROWS: usize>(
    padded: Seq<VoxelType>,
    dir: FaceDirection,
    layer: int,
    m0: Seq<u32>,
    keys: [[u16; 32]; ROWS],
    row: int,
    col: int,
    width: int,
    depth: int,
)
    requires
        slice_filled(padded, dir, layer, m0, keys),
        0 <= row,
        row + depth <= ROWS,
        0 <= col,
        col + width <= 32,
        1 <= width,
        1 <= depth,
        forall|r: int, c: int|
            row <= r < row + depth && col <= c < col + width ==> #[trigger] face_visible(
                padded,
                dir,
                layer,
                r,
                c,
            ),
    ensures
        faces_same_material(padded, dir, layer, row, col, width, depth) == same_material_rect(
            keys,
            row,
            col,
            width,
            depth,
        ),
        faces_uniform_ao(padded, dir, layer, row, col, width, depth) == uniform_ao_rect(
            keys,
            spec_ao_corner_map(dir),
            row,
            col,
            width,
            depth,
        ),
{
    reveal(slice_filled);
    assert forall|r: int, c: int| row <= r < row + depth && col <= c < col + width implies #[trigger] keys[r][c]
        == cell_face_key(padded, dir, layer, r, c) by {
        assert(face_visible(padded, dir, layer, r, c));
    }
    assert(keys[row][col] == cell_face_key(padded, dir, layer, row, col));
    let map = spec_ao_corner_map(dir);
    if faces_same_material(padded, dir, layer, row, col, width, depth) {
        assert forall|r: int, c: int| row <= r < row + depth && col <= c < col + width implies #[trigger] spec_material_of(
            keys[r][c],
        ) == spec_material_of(keys[row][col]) by {
            assert(spec_material_of(cell_face_key(padded, dir, layer, r, c)) == spec_material_of(
                cell_face_key(padded, dir, layer, row, col),
            ));
        }
    }
    if same_material_rect(keys, row, col, width, depth) {
        assert forall|r: int, c: int| row <= r < row + depth && col <= c < col + width implies #[trigger] spec_material_of(
            cell_face_key(padded, dir, layer, r, c),
        ) == spec_material_of(cell_face_key(padded, dir, layer, row, col)) by {
            assert(spec_material_of(keys[r][c]) == spec_material_of(keys[row][col]));
        }
    }
    if faces_uniform_ao(padded, dir, layer, row, col, width, depth) {
        assert forall|r: int, c: int| row <= r < row + depth && col <= c < col + width implies #[trigger] uniform_ao_key(
            keys[r][c],
            map,
            spec_ao_corner(keys[row][col], map.top_left as int),
        ) by {
            assert(uniform_ao_key(
                cell_face_key(padded, dir, layer, r, c),
                map,
                spec_ao_corner(cell_face_key(padded, dir, layer, row, col), map.top_left as int),
            ));
        }
    }
    if uniform_ao_rect(keys, map, row, col, width, depth) {
        assert forall|r: int, c: int| row <= r < row + depth && col <= c < col + width implies #[trigger] uniform_ao_key(
            cell_face_key(padded, dir, layer, r, c),
            map,
            spec_ao_corner(cell_face_key(padded, dir, layer, row, col), map.top_left as int),
        ) by {
            assert(uniform_ao_key(keys[r][c], map, spec_ao_corner(keys[row][col], map.top_left as int)));
        }
    }
}

/// The quad that a slice's `k`-th merged rectangle becomes is the greedy
/// choice of the pass after the quads of earlier layers and the slice's
/// first `k` rectangles.
proof fn lemma_slice_greedy_quad<const ROWS: usize>(
    padded: Seq<VoxelType>,
    dir: FaceDirection,
    layer: int,
    m0: Seq<u32>,
    keys: [[u16; 32]; ROWS],
    merged: Seq<MergedQuad>,
    before: Seq<FaceQuad>,
    k: int,
)
    requires
        ROWS == spec_row_count(dir),
        0 <= layer < spec_layer_count(dir),
        slice_filled(padded, dir, layer, m0, keys),
        quads_tile_masks(keys, spec_ao_corner_map(dir), m0, merged),
        quads_greedy(keys, spec_ao_corner_map(dir), m0, merged),
        tiles_below(padded, dir, before, layer),
        0 <= k < merged.len(),
    ensures
        greedy_next_face(
            padded,
            dir,
            before + slice_face_quads(padded, dir, layer, merged.take(k)),
            to_face_quad(padded, dir, layer, merged[k]),
        ),
{
    reveal(quads_greedy);
    reveal(quads_tile_masks);
    reveal(tiles_below);
    let map = spec_ao_corner_map(dir);
    let pm = merged.take(k);
    let placed = before + slice_face_quads(padded, dir, layer, pm);
    let mq = merged[k];
    let q = to_face_quad(padded, dir, layer, mq);
    assert(greedy_next(keys, map, m0, pm, mq));
    assert(merged_quad_valid(keys, map, m0, mq));
    assert(m0.len() == ROWS) by {
        reveal(slice_filled);
    }
    assert forall|r: int, c: int| #[trigger] face_available(padded, dir, placed, layer, r, c) == available(
        m0,
        pm,
        r,
        c,
    ) by {
        lemma_slice_cover(padded, dir, layer, before, pm, r, c);
        reveal(slice_filled);
        if 0 <= r < ROWS {
            assert(bit_set(m0[r], c) == (0 <= c < 32 && face_visible(padded, dir, layer, r, c)));
        }
    }
    assert forall|r: int, c: int|
        mq.row <= r < mq.row + mq.depth && mq.column <= c < mq.column + mq.width implies #[trigger] face_visible(
        padded,
        dir,
        layer,
        r,
        c,
    ) by {
        assert(in_quad(mq, r, c));
        reveal(slice_filled);
        assert(bit_set(m0[r], c));
    }
    assert(q.layer == layer && q.row == mq.row && q.column == mq.column && q.width == mq.width && q.depth
        == mq.depth);
    // the first face
    assert(available(m0, pm, mq.row as int, mq.column as int));
    assert(face_available(padded, dir, placed, layer, mq.row as int, mq.column as int));
    // no uncovered visible face comes before it
    assert forall|l: int, r: int, c: int|
        0 <= l && (l < q.layer || (l == q.layer && (r < q.row || (r == q.row && c < q.column)))) implies !#[trigger] face_available(
        padded,
        dir,
        placed,
        l,
        r,
        c,
    ) by {
        if l < layer {
            if face_available(padded, dir, placed, l, r, c) {
                assert(face_covered(before, l, r, c));
                let i = choose|i: int| 0 <= i < before.len() && #[trigger] face_quad_contains(before[i], l, r, c);
                assert(placed[i] == before[i]);
                assert(face_quad_contains(placed[i], l, r, c));
            }
        } else {
            assert(!available(m0, pm, r, c));
            assert(face_available(padded, dir, placed, layer, r, c) == available(m0, pm, r, c));
        }
    }
    // its anchor
    lemma_rect_keys(padded, dir, layer, m0, keys, mq.row as int, mq.column as int, 1, 1);
    let anchor_uniform = faces_uniform_ao(padded, dir, layer, mq.row as int, mq.column as int, 1, 1);
    if anchor_uniform {
        // its faces share the anchor's AO level
        lemma_rect_keys(padded, dir, layer, m0, keys, mq.row as int, mq.column as int, mq.width as int, mq.depth as int);
        // it grows as wide as it can
        assert(width_stops(keys, map, m0, pm, mq));
        if mq.column + mq.width != 32 {
            let c1 = mq.column + mq.width;
            assert(face_available(padded, dir, placed, layer, mq.row as int, c1) == available(m0, pm, mq.row as int, c1));
            if available(m0, pm, mq.row as int, c1) {
                assert forall|r: int, c: int| mq.row <= r < mq.row + 1 && mq.column <= c < mq.column + mq.width + 1 implies #[trigger] face_visible(
                    padded,
                    dir,
                    layer,
                    r,
                    c,
                ) by {
                    if c < c1 {
                        assert(face_visible(padded, dir, layer, r, c));
                    } else {
                        reveal(slice_filled);
                        assert(bit_set(m0[r], c));
                    }
                }
                lemma_rect_keys(padded, dir, layer, m0, keys, mq.row as int, mq.column as int, mq.width + 1, 1);
            }
        }
        assert(face_width_stops(padded, dir, placed, q));
        // then as deep as it can
        assert(depth_stops(keys, map, m0, pm, mq));
        if mq.row + mq.depth != ROWS {
            let r1 = mq.row + mq.depth;
            if exists|c: int| mq.column <= c < mq.column + mq.width && !#[trigger] available(m0, pm, r1, c) {
                let c = choose|c: int| mq.column <= c < mq.column + mq.width && !#[trigger] available(m0, pm, r1, c);
                assert(face_available(padded, dir, placed, layer, r1, c) == available(m0, pm, r1, c));
                assert(!face_available(padded, dir, placed, q.layer as int, q.row + q.depth, c));
            } else {
                assert forall|r: int, c: int| mq.row <= r < mq.row + mq.depth + 1 && mq.column <= c < mq.column + mq.width implies #[trigger] face_visible(
                    padded,
                    dir,
                    layer,
                    r,
                    c,
                ) by {
                    if r < r1 {
                        assert(face_visible(padded, dir, layer, r, c));
                    } else {
                        assert(available(m0, pm, r1, c));
                        reveal(slice_filled);
                        assert(bit_set(m0[r], c));
                    }
                }
                lemma_rect_keys(padded, dir, layer, m0, keys, mq.row as int, mq.column as int, mq.width as int, mq.depth + 1);
            }
        }
        assert(face_depth_stops(padded, dir, placed, q));
    }
}

/// Appending the quads of one slice keeps every quad of the pass the greedy choice.
proof fn lemma_extend_greedy<const ROWS: usize>(
    padded: Seq<VoxelType>,
    dir: FaceDirection,
    layer: int,
    m0: Seq<u32>,
    keys: [[u16; 32]; ROWS],
    merged: Seq<MergedQuad>,
    before: Seq<FaceQuad>,
)
    requires
        ROWS == spec_row_count(dir),
        0 <= layer < spec_layer_count(dir),
        slice_filled(padded, dir, layer, m0, keys),
        quads_tile_masks(keys, spec_ao_corner_map(dir), m0, merged),
        quads_greedy(keys, spec_ao_corner_map(dir), m0, merged),
        tiles_below(padded, dir, before, layer),
    ensures
        faces_greedy(padded, dir, before + slice_face_quads(padded, dir, layer, merged)),
{
    let all = before + slice_face_quads(padded, dir, layer, merged);
    assert(faces_greedy(padded, dir, before)) by {
        reveal(tiles_below);
    }
    reveal(faces_greedy);
    assert forall|i: int| 0 <= i < all.len() implies #[trigger] greedy_next_face(padded, dir, all.take(i), all[i]) by {
        if i < before.len() {
            assert(all.take(i) =~= before.take(i));
            assert(all[i] == before[i]);
            assert(greedy_next_face(padded, dir, before.take(i), before[i]));
        } else {
            let k = i - before.len();
            lemma_slice_greedy_quad(padded, dir, layer, m0, keys, merged, before, k);
            assert(all.take(i) =~= before + slice_face_quads(padded, dir, layer, merged.take(k)));
            assert(all[i] == to_face_quad(padded, dir, layer, merged[k]));
        }
    }
}

/// The quads of the pass so far and of the next slice are a greedy scan, so
/// a counter that fits the pass has room for their vertices.
proof fn lemma_slice_fits<const ROWS: usize>(
    padded: Seq<VoxelType>,
    dir: FaceDirection,
    layer: int,
    m0: Seq<u32>,
    keys: [[u16; 32]; ROWS],
    merged: Seq<MergedQuad>,
    added_before: Seq<FaceQuad>,
    offset: int,
)
    requires
        ROWS == spec_row_count(dir),
        0 <= layer < spec_layer_count(dir),
        slice_merged_facts(padded, dir, layer, merged),
        slice_filled(padded, dir, layer, m0, keys),
        quads_tile_masks(keys, spec_ao_corner_map(dir), m0, merged),
        quads_greedy(keys, spec_ao_corner_map(dir), m0, merged),
        tiles_below(padded, dir, added_before, layer),
        greedy_quads_fit(padded, dir, offset),
    ensures
        offset + 4 * (added_before.len() + merged.len()) <= u32::MAX,
{
    let after = added_before + slice_face_quads(padded, dir, layer, merged);
    lemma_extend_tiling(padded, dir, layer, m0, keys, merged, added_before);
    reveal(tiles_below);
    assert(greedy_prefix(padded, dir, after));
}

proof fn lemma_extend_tiling<const ROWS: usize>(
    padded: Seq<VoxelType>,
    dir: FaceDirection,
    layer: int,
    m0: Seq<u32>,
    keys: [[u16; 32]; ROWS],
    merged: Seq<MergedQuad>,
    added_before: Seq<FaceQuad>,
)
    requires
        ROWS == spec_row_count(dir),
        0 <= layer < spec_layer_count(dir),
        slice_merged_facts(padded, dir, layer, merged),
        slice_filled(padded, dir, layer, m0, keys),
        quads_tile_masks(keys, spec_ao_corner_map(dir), m0, merged),
        quads_greedy(keys, spec_ao_corner_map(dir), m0, merged),
        tiles_below(padded, dir, added_before, layer),
    ensures
        tiles_below(padded, dir, added_before + slice_face_quads(padded, dir, layer, merged), layer + 1),
{
    lemma_extend_greedy(padded, dir, layer, m0, keys, merged, added_before);
    reveal(tiles_below);
    lemma_extend_valid(padded, dir, layer, merged, added_before);
    lemma_extend_disjoint(padded, dir, layer, merged, added_before);
    lemma_extend_cover(padded, dir, layer, merged, added_before);
}

/// The faces of a valid quad all show its voxel, so they share one material.
proof fn lemma_quad_material(padded: Seq<VoxelType>, dir: FaceDirection, q: FaceQuad, r: int, c: int)
    requires
        face_quad_valid(padded, dir, q),
        face_quad_contains(q, q.layer as int, r, c),
    ensures
        spec_material_of(cell_face_key(padded, dir, q.layer as int, r, c)) == spec_material_id(q.voxel),
        face_visible(padded, dir, q.layer as int, r, c),
{
    lemma_cell_key_parts(padded, dir, q.layer as int, r, c);
}

/// A quad that keeps clear of `placed` leaves each of its faces available.
proof fn lemma_quad_cells_available(
    padded: Seq<VoxelType>,
    dir: FaceDirection,
    placed: Seq<FaceQuad>,
    q: FaceQuad,
    r: int,
    c: int,
)
    requires
        face_quad_valid(padded, dir, q),
        forall|l: int, rr: int, cc: int| #[trigger] face_quad_contains(q, l, rr, cc) ==> !face_covered(placed, l, rr, cc),
        face_quad_contains(q, q.layer as int, r, c),
    ensures
        face_available(padded, dir, placed, q.layer as int, r, c),
{
}

/// Two quads that are both the greedy choice after the same quads, and
/// that both keep clear of those quads, are one and the same quad.
proof fn lemma_greedy_next_unique(
    padded: Seq<VoxelType>,
    dir: FaceDirection,
    placed: Seq<FaceQuad>,
    q1: FaceQuad,
    q2: FaceQuad,
)
    requires
        greedy_next_face(padded, dir, placed, q1),
        greedy_next_face(padded, dir, placed, q2),
        face_quad_valid(padded, dir, q1),
        face_quad_valid(padded, dir, q2),
        forall|l: int, r: int, c: int| #[trigger] face_quad_contains(q1, l, r, c) ==> !face_covered(placed, l, r, c),
        forall|l: int, r: int, c: int| #[trigger] face_quad_contains(q2, l, r, c) ==> !face_covered(placed, l, r, c),
    ensures
        q1 == q2,
{
    let l1 = q1.layer as int;
    let r1 = q1.row as int;
    let c1 = q1.column as int;
    let l2 = q2.layer as int;
    let r2 = q2.row as int;
    let c2 = q2.column as int;
    // both start at the first available face
    assert(face_available(padded, dir, placed, l1, r1, c1));
    assert(face_available(padded, dir, placed, l2, r2, c2));
    assert(l1 == l2 && r1 == r2 && c1 == c2);
    let l = l1;
    let r = r1;
    let c = c1;
    let anchor_uniform = faces_uniform_ao(padded, dir, l, r, c, 1, 1);
    if anchor_uniform {
        let map = spec_ao_corner_map(dir);
        let level = spec_ao_corner(cell_face_key(padded, dir, l, r, c), map.top_left as int);
        assert(face_quad_contains(q1, l, r, c));
        lemma_quad_material(padded, dir, q1, r, c);
        assert(face_quad_contains(q2, l, r, c));
        lemma_quad_material(padded, dir, q2, r, c);
        // equal widths: the narrower one could have grown into the wider one
        assert forall|a: FaceQuad, b: FaceQuad|
            (a == q1 && b == q2) || (a == q2 && b == q1) implies !(a.width < b.width) by {
            if a.width < b.width {
                let cw = c + a.width;
                assert(face_quad_contains(b, l, r, cw));
                lemma_quad_cells_available(padded, dir, placed, b, r, cw);
                assert forall|rr: int, cc: int| r <= rr < r + 1 && c <= cc < c + a.width + 1 implies #[trigger] spec_material_of(
                    cell_face_key(padded, dir, l, rr, cc),
                ) == spec_material_of(cell_face_key(padded, dir, l, r, c)) by {
                    assert(face_quad_contains(b, l, rr, cc));
                    lemma_quad_material(padded, dir, b, rr, cc);
                }
                assert forall|rr: int, cc: int| r <= rr < r + 1 && c <= cc < c + a.width + 1 implies #[trigger] uniform_ao_key(
                    cell_face_key(padded, dir, l, rr, cc),
                    map,
                    level,
                ) by {
                    assert(r <= rr < r + b.depth && c <= cc < c + b.width);
                }
                assert(!face_width_stops(padded, dir, placed, a));
            }
        }
        assert(q1.width == q2.width);
        let w = q1.width as int;
        // equal depths: the shallower one could have grown into the deeper one
        assert forall|a: FaceQuad, b: FaceQuad|
            (a == q1 && b == q2) || (a == q2 && b == q1) implies !(a.depth < b.depth) by {
            if a.depth < b.depth {
                let rd = r + a.depth;
                assert forall|cc: int| c <= cc < c + w implies #[trigger] face_available(padded, dir, placed, l, rd, cc) by {
                    assert(face_quad_contains(b, l, rd, cc));
                    lemma_quad_cells_available(padded, dir, placed, b, rd, cc);
                }
                assert forall|rr: int, cc: int| r <= rr < r + a.depth + 1 && c <= cc < c + w implies #[trigger] spec_material_of(
                    cell_face_key(padded, dir, l, rr, cc),
                ) == spec_material_of(cell_face_key(padded, dir, l, r, c)) by {
                    assert(face_quad_contains(b, l, rr, cc));
                    lemma_quad_material(padded, dir, b, rr, cc);
                }
                assert forall|rr: int, cc: int| r <= rr < r + a.depth + 1 && c <= cc < c + w implies #[trigger] uniform_ao_key(
                    cell_face_key(padded, dir, l, rr, cc),
                    map,
                    level,
                ) by {
                    assert(r <= rr < r + b.depth && c <= cc < c + b.width);
                }
                assert(!face_depth_stops(padded, dir, placed, a));
            }
        }
    }
    // the same voxel shows on the first face of both
    assert(face_quad_contains(q1, l, r, c));
    assert(face_quad_contains(q2, l, r, c));
}

/// The quads emitted so far by a greedy scan of the pass toward `dir`: each
/// valid, no two sharing a face, each the greedy choice after those before.
pub open spec fn greedy_prefix(padded: Seq<VoxelType>, dir: FaceDirection, qs: Seq<FaceQuad>) -> bool {
    &&& forall|i: int| 0 <= i < qs.len() ==> face_quad_valid(padded, dir, #[trigger] qs[i])
    &&& forall|i: int, j: int, l: int, r: int, c: int|
        0 <= i < j < qs.len() && #[trigger] face_quad_contains(qs[i], l, r, c)
            ==> !#[trigger] face_quad_contains(qs[j], l, r, c)
    &&& faces_greedy(padded, dir, qs)
}

/// A vertex counter at `offset` can count four vertices for every quad the
/// greedy scan of the pass toward `dir` emits without passing `u32::MAX`.
pub open spec fn greedy_quads_fit(padded: Seq<VoxelType>, dir: FaceDirection, offset: int) -> bool {
    forall|qs: Seq<FaceQuad>| #[trigger] greedy_prefix(padded, dir, qs) ==> offset + 4 * qs.len() <= u32::MAX
}

/// Greedy tilings that agree so far agree on their first `i` quads.
proof fn lemma_greedy_prefix(padded: Seq<VoxelType>, dir: FaceDirection, qs1: Seq<FaceQuad>, qs2: Seq<FaceQuad>, i: int)
    requires
        greedy_prefix(padded, dir, qs1),
        greedy_prefix(padded, dir, qs2),
        0 <= i <= qs1.len(),
        i <= qs2.len(),
    ensures
        qs1.take(i) == qs2.take(i),
    decreases i,
{
    if i > 0 {
        lemma_greedy_prefix(padded, dir, qs1, qs2, i - 1);
        reveal(faces_greedy);
        let placed = qs1.take(i - 1);
        let q1 = qs1[i - 1];
        let q2 = qs2[i - 1];
        assert(greedy_next_face(padded, dir, qs1.take(i - 1), q1));
        assert(greedy_next_face(padded, dir, qs2.take(i - 1), q2));
        assert forall|l: int, r: int, c: int| #[trigger] face_quad_contains(q1, l, r, c) implies !face_covered(placed, l, r, c) by {
            if face_covered(placed, l, r, c) {
                let j = choose|j: int| 0 <= j < placed.len() && #[trigger] face_quad_contains(placed[j], l, r, c);
                assert(face_quad_contains(qs1[j], l, r, c));
            }
        }
        assert forall|l: int, r: int, c: int| #[trigger] face_quad_contains(q2, l, r, c) implies !face_covered(placed, l, r, c) by {
            if face_covered(placed, l, r, c) {
                let j = choose|j: int| 0 <= j < placed.len() && #[trigger] face_quad_contains(placed[j], l, r, c);
                assert(placed[j] == qs2[j]);
                assert(face_quad_contains(qs2[j], l, r, c));
            }
        }
        lemma_greedy_next_unique(padded, dir, placed, q1, q2);
        assert(qs1.take(i) =~= qs1.take(i - 1).push(q1));
        assert(qs2.take(i) =~= qs2.take(i - 1).push(q2));
    }
}

/// A greedy tiling has no quad after all its visible faces are covered:
/// it is never longer than another greedy tiling of the same faces.
proof fn lemma_greedy_no_longer(padded: Seq<VoxelType>, dir: FaceDirection, qs1: Seq<FaceQuad>, qs2: Seq<FaceQuad>)
    requires
        face_quads_tile(padded, dir, qs1),
        greedy_prefix(padded, dir, qs2),
        qs1.len() <= qs2.len(),
    ensures
        qs1.len() == qs2.len(),
{
    if qs1.len() < qs2.len() {
        let n = qs1.len() as int;
        lemma_greedy_prefix(padded, dir, qs1, qs2, n);
        reveal(faces_greedy);
        let q = qs2[n];
        assert(greedy_next_face(padded, dir, qs2.take(n), q));
        assert(qs1.take(n) =~= qs1);
        assert(face_quad_valid(padded, dir, q));
        assert(face_available(padded, dir, qs1, q.layer as int, q.row as int, q.column as int));
    }
}

/// Every prefix of a greedy scan is a prefix of the pass's greedy tiling,
/// so the counter fits all of them exactly when it fits that tiling: the
/// bound on the counter is the point where four vertices per emitted quad
/// would pass `u32::MAX`.
pub proof fn lemma_greedy_quads_fit_exact(padded: Seq<VoxelType>, dir: FaceDirection, tiling: Seq<FaceQuad>, offset: int)
    requires
        face_quads_tile(padded, dir, tiling),
    ensures
        greedy_quads_fit(padded, dir, offset) == (offset + 4 * tiling.len() <= u32::MAX),
{
    assert(greedy_prefix(padded, dir, tiling));
    if offset + 4 * tiling.len() <= u32::MAX {
        assert forall|qs: Seq<FaceQuad>| #[trigger] greedy_prefix(padded, dir, qs) implies offset + 4 * qs.len()
            <= u32::MAX by {
            if qs.len() > tiling.len() {
                lemma_greedy_no_longer(padded, dir, tiling, qs);
            }
        }
    }
}

/// A counter with room for four vertices per cell of the chunk fits every
/// greedy scan.
pub proof fn lemma_greedy_quads_fit_small(padded: Seq<VoxelType>, dir: FaceDirection, offset: int)
    requires
        offset + 4 * CHUNK_VOLUME <= u32::MAX,
    ensures
        greedy_quads_fit(padded, dir, offset),
{
    assert forall|qs: Seq<FaceQuad>| #[trigger] greedy_prefix(padded, dir, qs) implies offset + 4 * qs.len()
        <= u32::MAX by {
        lemma_quads_within_visible(padded, dir, qs);
        lemma_visible_face_count_bound(padded, dir);
    }
}

/// Greedy meshing is deterministic: a pass toward `dir` has exactly one
/// sequence of quads that is a greedy tiling of its visible faces, so the
/// quads of a pass are a function of the padded voxels alone.
pub proof fn lemma_greedy_tiling_unique(padded: Seq<VoxelType>, dir: FaceDirection, qs1: Seq<FaceQuad>, qs2: Seq<FaceQuad>)
    requires
        face_quads_tile(padded, dir, qs1),
        face_quads_tile(padded, dir, qs2),
    ensures
        qs1 == qs2,
{
    if qs1.len() <= qs2.len() {
        lemma_greedy_no_longer(padded, dir, qs1, qs2);
    } else {
        lemma_greedy_no_longer(padded, dir, qs2, qs1);
    }
    lemma_greedy_prefix(padded, dir, qs1, qs2, qs1.len() as int);
    assert(qs1.take(qs1.len() as int) =~= qs1);
    assert(qs2.take(qs2.len() as int) =~= qs2);
}

proof fn lemma_pass_size(dir: FaceDirection)
    ensures
        spec_layer_count(dir) * spec_row_count(dir) * 32 == CHUNK_VOLUME,
{
    lemma_chunk_volume();
    assert(32 * 512 * 32 == 524288int);
    assert(512 * 32 * 32 == 524288int);
}

/// Cell `(l, r, c)` of the pass toward `dir` as one number, layer slowest,
/// then row, then column.
pub open spec fn face_cell_index(dir: FaceDirection, l: int, r: int, c: int) -> int {
    (l * spec_row_count(dir) + r) * 32 + c
}

/// The cells of the pass toward `dir` that show a face, by cell index.
pub open spec fn visible_faces(padded: Seq<VoxelType>, dir: FaceDirection) -> Set<int> {
    set_int_range(0, spec_layer_count(dir) * spec_row_count(dir) * 32).filter(
        |i: int|
            face_visible(
                padded,
                dir,
                i / (spec_row_count(dir) * 32),
                (i / 32) % spec_row_count(dir),
                i % 32,
            ),
    )
}

/// How many faces the pass toward `dir` shows.
pub open spec fn visible_face_count(padded: Seq<VoxelType>, dir: FaceDirection) -> nat {
    visible_faces(padded, dir).len()
}

/// A cell index gives back its layer, row and column.
proof fn lemma_face_cell_index(dir: FaceDirection, l: int, r: int, c: int)
    requires
        0 <= l < spec_layer_count(dir),
        0 <= r < spec_row_count(dir),
        0 <= c < 32,
    ensures
        0 <= face_cell_index(dir, l, r, c) < spec_layer_count(dir) * spec_row_count(dir) * 32,
        face_cell_index(dir, l, r, c) / (spec_row_count(dir) * 32) == l,
        (face_cell_index(dir, l, r, c) / 32) % spec_row_count(dir) == r,
        face_cell_index(dir, l, r, c) % 32 == c,
{
    let rows = spec_row_count(dir);
    let layers = spec_layer_count(dir);
    let i = face_cell_index(dir, l, r, c);
    assert(0 <= l * rows + r && l * rows + r < layers * rows) by (nonlinear_arith)
        requires 0 <= l < layers, 0 <= r < rows;
    assert(0 <= i < layers * rows * 32) by (nonlinear_arith)
        requires i == (l * rows + r) * 32 + c, 0 <= l * rows + r < layers * rows, 0 <= c < 32;
    lemma_fundamental_div_mod_converse(i, 32, l * rows + r, c);
    lemma_fundamental_div_mod_converse(l * rows + r, rows, l, r);
    lemma_div_denominator(i, 32, rows);
    assert(32 * rows == rows * 32) by (nonlinear_arith);
}

/// A pass shows at most one face per cell of the chunk.
pub proof fn lemma_visible_face_count_bound(padded: Seq<VoxelType>, dir: FaceDirection)
    ensures
        visible_faces(padded, dir).finite(),
        visible_face_count(padded, dir) <= CHUNK_VOLUME,
{
    let n = spec_layer_count(dir) * spec_row_count(dir) * 32;
    lemma_pass_size(dir);
    lemma_int_range(0, n);
    set_int_range(0, n).lemma_len_filter(
        |i: int|
            face_visible(
                padded,
                dir,
                i / (spec_row_count(dir) * 32),
                (i / 32) % spec_row_count(dir),
                i % 32,
            ),
    );
}

/// Valid quads that share no face are no more than the faces the pass
/// shows: each one holds its own first face.
proof fn lemma_quads_within_visible(padded: Seq<VoxelType>, dir: FaceDirection, qs: Seq<FaceQuad>)
    requires
        forall|i: int| 0 <= i < qs.len() ==> face_quad_valid(padded, dir, #[trigger] qs[i]),
        forall|i: int, j: int, l: int, r: int, c: int|
            0 <= i < j < qs.len() && #[trigger] face_quad_contains(qs[i], l, r, c)
                ==> !#[trigger] face_quad_contains(qs[j], l, r, c),
    ensures
        qs.len() <= visible_face_count(padded, dir),
{
    let anchors = qs.map_values(
        |q: FaceQuad| face_cell_index(dir, q.layer as int, q.row as int, q.column as int),
    );
    assert forall|i: int, j: int| 0 <= i < j < anchors.len() implies anchors[i] != anchors[j] by {
        let a = qs[i];
        let b = qs[j];
        assert(face_quad_valid(padded, dir, a));
        assert(face_quad_valid(padded, dir, b));
        lemma_face_cell_index(dir, a.layer as int, a.row as int, a.column as int);
        lemma_face_cell_index(dir, b.layer as int, b.row as int, b.column as int);
        if anchors[i] == anchors[j] {
            assert(face_quad_contains(a, a.layer as int, a.row as int, a.column as int));
            assert(face_quad_contains(b, a.layer as int, a.row as int, a.column as int));
        }
    }
    assert forall|k: int| anchors.to_set().contains(k) implies #[trigger] visible_faces(padded, dir).contains(k) by {
        let i = choose|i: int| 0 <= i < anchors.len() && anchors[i] == k;
        let q = qs[i];
        assert(face_quad_valid(padded, dir, q));
        lemma_face_cell_index(dir, q.layer as int, q.row as int, q.column as int);
        assert(face_quad_contains(q, q.layer as int, q.row as int, q.column as int));
    }
    anchors.unique_seq_to_set();
    lemma_visible_face_count_bound(padded, dir);
    lemma_len_subset(anchors.to_set(), visible_faces(padded, dir));
}

/// The key that a slice grid holds for cell `(r, c)` of slice `layer`: the
/// face key of a visible face, zero elsewhere.
pub open spec fn slice_key(padded: Seq<VoxelType>, dir: FaceDirection, layer: int, r: int, c: int) -> u16 {
    if face_visible(padded, dir, layer, r, c) {
        cell_face_key(padded, dir, layer, r, c)
    } else {
        0
    }
}

/// `keys` holds the slice keys of the last slice of the pass toward `dir`.
pub open spec fn last_slice_keys<const ROWS: usize>(
    padded: Seq<VoxelType>,
    dir: FaceDirection,
    keys: [[u16; 32]; ROWS],
) -> bool {
    forall|r: int, c: int|
        0 <= r < ROWS && 0 <= c < 32 ==> #[trigger] keys[r][c] == slice_key(
            padded,
            dir,
            spec_layer_count(dir) - 1,
            r,
            c,
        )
}

/// Meshes all faces toward `dir`, one slice at a time: fill the slice's
/// masks and keys, merge them greedily, emit a quad per rectangle.
fn mesh_faces_binary<const ROWS: usize>(
    dir: FaceDirection,
    padded: &[VoxelType],
    masks: &mut [u32; ROWS],
    face_keys: &mut [[u16; 32]; ROWS],
    quads: &mut Vec<FaceQuad>,
    ao: &mut Vec<Ao>,
    indices: &mut Vec<u32>,
    vertex_offset: &mut u32,
)
    requires
        ROWS == spec_row_count(dir),
        padded.len() >= PADDED_VOLUME,
        greedy_quads_fit(padded@, dir, *old(vertex_offset) as int),
    ensures
        mesh_pass_output(
            padded@,
            dir,
            old(quads)@,
            final(quads)@,
            old(ao)@,
            final(ao)@,
            old(indices)@,
            final(indices)@,
            *old(vertex_offset),
            *final(vertex_offset),
        ),
        forall|r: int| 0 <= r < ROWS ==> #[trigger] final(masks)@[r] == 0,
        last_slice_keys(padded@, dir, *final(face_keys)),
{
    let ghost q0 = quads@;
    let ghost a0 = ao@;
    let ghost i0 = indices@;
    let ghost v0 = *vertex_offset;
    proof {
        lemma_chunk_volume();
        lemma_pass_size(dir);
    }
    let layers = layer_count(dir);
    let map = ao_corner_map(dir);
    let mut layer: usize = 0;
    assert(quads@.skip(q0.len() as int) =~= Seq::<FaceQuad>::empty());
    assert(tiles_below(padded@, dir, quads@.skip(q0.len() as int), 0)) by {
        reveal(tiles_below);
        reveal(faces_greedy);
    }
    while layer < layers
        invariant
            ROWS == spec_row_count(dir),
            layers == spec_layer_count(dir),
            padded.len() >= PADDED_VOLUME,
            map.wf(),
            map == spec_ao_corner_map(dir),
            greedy_quads_fit(padded@, dir, v0 as int),
            CHUNK_VOLUME == 524288,
            layer <= layers,
            q0.len() <= quads@.len(),
            quads@.take(q0.len() as int) == q0,
            tiles_below(padded@, dir, quads@.skip(q0.len() as int), layer as int),
            layers * ROWS * 32 == CHUNK_VOLUME,
            layer > 0 ==> forall|r: int| 0 <= r < ROWS ==> #[trigger] masks@[r] == 0,
            layer > 0 ==> forall|r: int, c: int|
                0 <= r < ROWS && 0 <= c < 32 ==> #[trigger] face_keys[r][c] == slice_key(
                    padded@,
                    dir,
                    layer - 1,
                    r,
                    c,
                ),
            ({
                let added = quads@.skip(q0.len() as int);
                &&& added.len() <= layer * ROWS * 32
                &&& ao@ == a0 + quads_ao(padded@, added)
                &&& indices@ == i0 + quads_indices(padded@, added, v0 as int)
                &&& *vertex_offset == v0 + 4 * added.len()
            }),
        decreases layers - layer,
    {
        fill_face_masks(dir, layer, padded, masks, face_keys);
        let ghost m0 = masks@;
        let ghost keys = *face_keys;
        assert(slice_filled(padded@, dir, layer as int, m0, keys)) by {
            reveal(slice_filled);
        }
        let merged = greedy_merge_rows(masks, face_keys, map);
        proof {
            lemma_slice_quads(padded@, dir, layer as int, m0, keys, map, merged@);
        }
        let ghost ql = quads@;
        let ghost added_before = quads@.skip(q0.len() as int);
        assert(merged.len() <= ROWS * 32);
        assert(added_before.len() + merged.len() <= (layer + 1) * ROWS * 32) by (nonlinear_arith)
            requires
                added_before.len() <= layer * ROWS * 32,
                merged.len() <= ROWS * 32;
        assert((layer + 1) * ROWS * 32 <= CHUNK_VOLUME) by (nonlinear_arith)
            requires
                layer < layers,
                layers * ROWS * 32 == CHUNK_VOLUME;
        proof {
            lemma_slice_fits(padded@, dir, layer as int, m0, keys, merged@, added_before, v0 as int);
        }
        let mut j: usize = 0;
        while j < merged.len()
            invariant
                ROWS == spec_row_count(dir),
                layer < spec_layer_count(dir),
                padded.len() >= PADDED_VOLUME,
                j <= merged.len(),
                q0.len() <= ql.len(),
                ql.take(q0.len() as int) == q0,
                ql.skip(q0.len() as int) == added_before,
                added_before.len() + merged.len() <= CHUNK_VOLUME,
                v0 + 4 * (added_before.len() + merged.len()) <= u32::MAX,
                forall|i: int|
                    0 <= i < merged.len() ==> merged_corners_visible(
                        padded@,
                        dir,
                        layer as int,
                        #[trigger] merged@[i],
                    ),
                forall|i: int|
                    0 <= i < merged.len() ==> #[trigger] merged@[i].row + merged@[i].depth
                        <= ROWS && merged@[i].column + merged@[i].width <= 32 && 1
                        <= merged@[i].width && 1 <= merged@[i].depth,
                quads@ == ql + merged@.take(j as int).map(
                    |k: int, mq: MergedQuad| to_face_quad(padded@, dir, layer as int, mq),
                ),
                ao@ == a0 + quads_ao(padded@, quads@.skip(q0.len() as int)),
                indices@ == i0 + quads_indices(padded@, quads@.skip(q0.len() as int), v0 as int),
                *vertex_offset == v0 + 4 * quads@.skip(q0.len() as int).len(),
            decreases merged.len() - j,
        {
            let mq = merged[j];
            let ghost before = quads@;
            let ghost fq = to_face_quad(padded@, dir, layer as int, mq);
            assert(before.skip(q0.len() as int).len() == added_before.len() + j);
            emit_quad(dir, layer, padded, mq, quads, ao, indices, vertex_offset);
            proof {
                assert(quads@.skip(q0.len() as int) =~= before.skip(q0.len() as int).push(fq));
                lemma_quads_ao_push(padded@, before.skip(q0.len() as int), fq);
                lemma_quads_indices_push(padded@, before.skip(q0.len() as int), fq, v0 as int);
                assert(merged@.take(j + 1) =~= merged@.take(j as int).push(mq));
                assert(quads@ =~= ql + merged@.take(j + 1).map(
                    |k: int, mq: MergedQuad| to_face_quad(padded@, dir, layer as int, mq),
                ));
            }
            j += 1;
        }
        proof {
            assert(merged@.take(merged.len() as int) =~= merged@);
            assert(quads@.take(q0.len() as int) =~= q0);
            let fqs = slice_face_quads(padded@, dir, layer as int, merged@);
            assert(quads@.skip(q0.len() as int) =~= added_before + fqs);
            lemma_extend_tiling(padded@, dir, layer as int, m0, keys, merged@, added_before);
        }
        layer += 1;
    }
    proof {
        reveal(tiles_below);
        let added = quads@.skip(q0.len() as int);
        assert(added.len() <= CHUNK_VOLUME) by (nonlinear_arith)
            requires
                added.len() <= layers * ROWS * 32,
                layers * ROWS * 32 == CHUNK_VOLUME;
    }
}

/// Meshes every face toward +X; see [`mesh_pass_output`].
pub fn mesh_right_faces_binary(
    padded: &[VoxelType],
    masks: &mut [u32; CHUNK_Y],
    face_keys: &mut [[u16; CHUNK_Z]; CHUNK_Y],
    quads: &mut Vec<FaceQuad>,
    ao: &mut Vec<Ao>,
    indices: &mut Vec<u32>,
    vertex_offset: &mut u32,
)
    requires
        padded.len() >= PADDED_VOLUME,
        greedy_quads_fit(padded@, FaceDirection::Right, *old(vertex_offset) as int),
    ensures
        mesh_pass_output(
            padded@,
            FaceDirection::Right,
            old(quads)@,
            final(quads)@,
            old(ao)@,
            final(ao)@,
            old(indices)@,
            final(indices)@,
            *old(vertex_offset),
            *final(vertex_offset),
        ),
        forall|r: int| 0 <= r < CHUNK_Y ==> #[trigger] final(masks)@[r] == 0,
        last_slice_keys(padded@, FaceDirection::Right, *final(face_keys)),
{
    mesh_faces_binary(FaceDirection::Right, padded, masks, face_keys, quads, ao, indices, vertex_offset);
}

/// Meshes every face toward -X; see [`mesh_pass_output`].
pub fn mesh_left_faces_binary(
    padded: &[VoxelType],
    masks: &mut [u32; CHUNK_Y],
    face_keys: &mut [[u16; CHUNK_Z]; CHUNK_Y],
    quads: &mut Vec<FaceQuad>,
    ao: &mut Vec<Ao>,
    indices: &mut Vec<u32>,
    vertex_offset: &mut u32,
)
    requires
        padded.len() >= PADDED_VOLUME,
        greedy_quads_fit(padded@, FaceDirection::Left, *old(vertex_offset) as int),
    ensures
        mesh_pass_output(
            padded@,
            FaceDirection::Left,
            old(quads)@,
            final(quads)@,
            old(ao)@,
            final(ao)@,
            old(indices)@,
            final(indices)@,
            *old(vertex_offset),
            *final(vertex_offset),
        ),
        forall|r: int| 0 <= r < CHUNK_Y ==> #[trigger] final(masks)@[r] == 0,
        last_slice_keys(padded@, FaceDirection::Left, *final(face_keys)),
{
    mesh_faces_binary(FaceDirection::Left, padded, masks, face_keys, quads, ao, indices, vertex_offset);
}

/// Meshes every face toward +Y; see [`mesh_pass_output`].
pub fn mesh_top_faces_binary(
    padded: &[VoxelType],
    masks: &mut [u32; CHUNK_Z],
    face_keys: &mut [[u16; CHUNK_X]; CHUNK_Z],
    quads: &mut Vec<FaceQuad>,
    ao: &mut Vec<Ao>,
    indices: &mut Vec<u32>,
    vertex_offset: &mut u32,
)
    requires
        padded.len() >= PADDED_VOLUME,
        greedy_quads_fit(padded@, FaceDirection::Top, *old(vertex_offset) as int),
    ensures
        mesh_pass_output(
            padded@,
            FaceDirection::Top,
            old(quads)@,
            final(quads)@,
            old(ao)@,
            final(ao)@,
            old(indices)@,
            final(indices)@,
            *old(vertex_offset),
            *final(vertex_offset),
        ),
        forall|r: int| 0 <= r < CHUNK_Z ==> #[trigger] final(masks)@[r] == 0,
        last_slice_keys(padded@, FaceDirection::Top, *final(face_keys)),
{
    mesh_faces_binary(FaceDirection::Top, padded, masks, face_keys, quads, ao, indices, vertex_offset);
}

/// Meshes every face toward -Y; see [`mesh_pass_output`].
pub fn mesh_bottom_faces_binary(
    padded: &[VoxelType],
    masks: &mut [u32; CHUNK_Z],
    face_keys: &mut [[u16; CHUNK_X]; CHUNK_Z],
    quads: &mut Vec<FaceQuad>,
    ao: &mut Vec<Ao>,
    indices: &mut Vec<u32>,
    vertex_offset: &mut u32,
)
    requires
        padded.len() >= PADDED_VOLUME,
        greedy_quads_fit(padded@, FaceDirection::Bottom, *old(vertex_offset) as int),
    ensures
        mesh_pass_output(
            padded@,
            FaceDirection::Bottom,
            old(quads)@,
            final(quads)@,
            old(ao)@,
            final(ao)@,
            old(indices)@,
            final(indices)@,
            *old(vertex_offset),
            *final(vertex_offset),
        ),
        forall|r: int| 0 <= r < CHUNK_Z ==> #[trigger] final(masks)@[r] == 0,
        last_slice_keys(padded@, FaceDirection::Bottom, *final(face_keys)),
{
    mesh_faces_binary(FaceDirection::Bottom, padded, masks, face_keys, quads, ao, indices, vertex_offset);
}

/// Meshes every face toward -Z; see [`mesh_pass_output`].
pub fn mesh_front_faces_binary(
    padded: &[VoxelType],
    masks: &mut [u32; CHUNK_Y],
    face_keys: &mut [[u16; CHUNK_X]; CHUNK_Y],
    quads: &mut Vec<FaceQuad>,
    ao: &mut Vec<Ao>,
    indices: &mut Vec<u32>,
    vertex_offset: &mut u32,
)
    requires
        padded.len() >= PADDED_VOLUME,
        greedy_quads_fit(padded@, FaceDirection::Front, *old(vertex_offset) as int),
    ensures
        mesh_pass_output(
            padded@,
            FaceDirection::Front,
            old(quads)@,
            final(quads)@,
            old(ao)@,
            final(ao)@,
            old(indices)@,
            final(indices)@,
            *old(vertex_offset),
            *final(vertex_offset),
        ),
        forall|r: int| 0 <= r < CHUNK_Y ==> #[trigger] final(masks)@[r] == 0,
        last_slice_keys(padded@, FaceDirection::Front, *final(face_keys)),
{
    mesh_faces_binary(FaceDirection::Front, padded, masks, face_keys, quads, ao, indices, vertex_offset);
}

/// Meshes every face toward +Z; see [`mesh_pass_output`].
pub fn mesh_back_faces_binary(
    padded: &[VoxelType],
    masks: &mut [u32; CHUNK_Y],
    face_keys: &mut [[u16; CHUNK_X]; CHUNK_Y],
    quads: &mut Vec<FaceQuad>,
    ao: &mut Vec<Ao>,
    indices: &mut Vec<u32>,
    vertex_offset: &mut u32,
)
    requires
        padded.len() >= PADDED_VOLUME,
        greedy_quads_fit(padded@, FaceDirection::Back, *old(vertex_offset) as int),
    ensures
        mesh_pass_output(
            padded@,
            FaceDirection::Back,
            old(quads)@,
            final(quads)@,
            old(ao)@,
            final(ao)@,
            old(indices)@,
            final(indices)@,
            *old(vertex_offset),
            *final(vertex_offset),
        ),
        forall|r: int| 0 <= r < CHUNK_Y ==> #[trigger] final(masks)@[r] == 0,
        last_slice_keys(padded@, FaceDirection::Back, *final(face_keys)),
{
    mesh_faces_binary(FaceDirection::Back, padded, masks, face_keys, quads, ao, indices, vertex_offset);
}

// ---------------------------------------------------------------------------
// Meshing a whole padded chunk.
// ---------------------------------------------------------------------------

/// Order of the six passes of `build_mesh_from_scratch`.
pub open spec fn direction_rank(dir: FaceDirection) -> int {
    match dir {
        FaceDirection::Right => 0,
        FaceDirection::Left => 1,
        FaceDirection::Top => 2,
        FaceDirection::Bottom => 3,
        FaceDirection::Front => 4,
        FaceDirection::Back => 5,
    }
}

pub open spec fn toward(dir: FaceDirection) -> spec_fn(FaceQuad) -> bool {
    |q: FaceQuad| q.direction == dir
}

/// The quads of `qs` that face `dir`, in order.
pub open spec fn quads_toward(qs: Seq<FaceQuad>, dir: FaceDirection) -> Seq<FaceQuad> {
    qs.filter(toward(dir))
}

proof fn lemma_quads_ao_concat(padded: Seq<VoxelType>, a: Seq<FaceQuad>, b: Seq<FaceQuad>)
    ensures
        quads_ao(padded, a + b) == quads_ao(padded, a) + quads_ao(padded, b),
    decreases b.len(),
{
    if b.len() == 0 {
        assert(a + b =~= a);
    } else {
        lemma_quads_ao_concat(padded, a, b.drop_last());
        assert((a + b).drop_last() =~= a + b.drop_last());
        assert((a + b).last() == b.last());
    }
}

proof fn lemma_quads_indices_concat(padded: Seq<VoxelType>, a: Seq<FaceQuad>, b: Seq<FaceQuad>, base: int)
    ensures
        quads_indices(padded, a + b, base) == quads_indices(padded, a, base) + quads_indices(
            padded,
            b,
            base + 4 * a.len(),
        ),
    decreases b.len(),
{
    if b.len() == 0 {
        assert(a + b =~= a);
    } else {
        lemma_quads_indices_concat(padded, a, b.drop_last(), base);
        assert((a + b).drop_last() =~= a + b.drop_last());
        assert((a + b).last() == b.last());
    }
}

proof fn lemma_filter_uniform(s: Seq<FaceQuad>, d: FaceDirection, e: FaceDirection)
    requires
        forall|i: int| 0 <= i < s.len() ==> #[trigger] s[i].direction == d,
    ensures
        s.filter(toward(e)) == if d == e {
            s
        } else {
            Seq::<FaceQuad>::empty()
        },
    decreases s.len(),
{
    reveal(Seq::filter);
    if s.len() > 0 {
        lemma_filter_uniform(s.drop_last(), d, e);
        assert(s.drop_last().push(s.last()) =~= s);
    }
}

/// Progress of `build_mesh_from_scratch` after the first `k` passes.
pub open spec fn mesh_progress(
    padded: Seq<VoxelType>,
    quads_before: Seq<FaceQuad>,
    ao_before: Seq<u8>,
    indices_before: Seq<u32>,
    quads: Seq<FaceQuad>,
    ao: Seq<u8>,
    indices: Seq<u32>,
    offset: u32,
    k: int,
) -> bool {
    let added = quads.skip(quads_before.len() as int);
    &&& quads_before.len() <= quads.len()
    &&& quads.take(quads_before.len() as int) == quads_before
    &&& forall|d: FaceDirection|
        direction_rank(d) < k ==> face_quads_tile(padded, d, #[trigger] quads_toward(added, d))
    &&& forall|d: FaceDirection|
        direction_rank(d) >= k ==> #[trigger] quads_toward(added, d) == Seq::<FaceQuad>::empty()
    &&& forall|i: int, j: int|
        0 <= i < j < added.len() ==> direction_rank(#[trigger] added[i].direction) <= direction_rank(
            #[trigger] added[j].direction,
        )
    &&& forall|i: int| 0 <= i < added.len() ==> direction_rank(#[trigger] added[i].direction) < k
    &&& ao == ao_before + quads_ao(padded, added)
    &&& indices == indices_before + quads_indices(padded, added, 0)
    &&& offset == 4 * added.len()
    &&& added.len() <= k * CHUNK_VOLUME
}

#[verifier::rlimit(30)]
proof fn lemma_mesh_progress_step(
    padded: Seq<VoxelType>,
    dir: FaceDirection,
    quads_before: Seq<FaceQuad>,
    ao_before: Seq<u8>,
    indices_before: Seq<u32>,
    quads1: Seq<FaceQuad>,
    ao1: Seq<u8>,
    indices1: Seq<u32>,
    offset1: u32,
    quads2: Seq<FaceQuad>,
    ao2: Seq<u8>,
    indices2: Seq<u32>,
    offset2: u32,
)
    requires
        mesh_progress(
            padded,
            quads_before,
            ao_before,
            indices_before,
            quads1,
            ao1,
            indices1,
            offset1,
            direction_rank(dir),
        ),
        mesh_pass_output(padded, dir, quads1, quads2, ao1, ao2, indices1, indices2, offset1, offset2),
    ensures
        mesh_progress(
            padded,
            quads_before,
            ao_before,
            indices_before,
            quads2,
            ao2,
            indices2,
            offset2,
            direction_rank(dir) + 1,
        ),
{
    let k = direction_rank(dir);
    let b = quads_before.len() as int;
    let a1 = quads1.skip(b);
    let seg = quads2.skip(quads1.len() as int);
    let a2 = quads2.skip(b);
    assert(quads2 =~= quads1 + seg);
    assert(a2 =~= a1 + seg);
    assert(quads2.take(b) =~= quads_before);
    assert forall|i: int| 0 <= i < seg.len() implies #[trigger] seg[i].direction == dir by {
        assert(face_quad_valid(padded, dir, seg[i]));
    }
    assert forall|e: FaceDirection| #[trigger] quads_toward(a2, e) == quads_toward(a1, e) + quads_toward(seg, e) by {
        Seq::filter_distributes_over_add(a1, seg, toward(e));
        lemma_filter_uniform(seg, dir, e);
    }
    assert forall|e: FaceDirection| direction_rank(e) < k + 1 implies face_quads_tile(
        padded,
        e,
        #[trigger] quads_toward(a2, e),
    ) by {
        lemma_filter_uniform(seg, dir, e);
        if e == dir {
            assert(quads_toward(a1, e) == Seq::<FaceQuad>::empty());
            assert(quads_toward(a2, e) =~= seg);
        } else {
            assert(quads_toward(a2, e) =~= quads_toward(a1, e));
        }
    }
    assert forall|e: FaceDirection| direction_rank(e) >= k + 1 implies #[trigger] quads_toward(a2, e)
        == Seq::<FaceQuad>::empty() by {
        lemma_filter_uniform(seg, dir, e);
        assert(quads_toward(a2, e) =~= Seq::<FaceQuad>::empty());
    }
    assert forall|i: int, j: int|
        0 <= i < j < a2.len() implies direction_rank(#[trigger] a2[i].direction) <= direction_rank(
        #[trigger] a2[j].direction,
    ) by {
        if j < a1.len() {
            assert(a2[i] == a1[i]);
            assert(a2[j] == a1[j]);
        } else if i < a1.len() {
            assert(a2[i] == a1[i]);
            assert(a2[j] == seg[j - a1.len()]);
        } else {
            assert(a2[i] == seg[i - a1.len()]);
            assert(a2[j] == seg[j - a1.len()]);
        }
    }
    assert forall|i: int| 0 <= i < a2.len() implies direction_rank(#[trigger] a2[i].direction) < k + 1 by {
        if i < a1.len() {
            assert(a2[i] == a1[i]);
        } else {
            assert(a2[i] == seg[i - a1.len()]);
        }
    }
    lemma_quads_ao_concat(padded, a1, seg);
    lemma_quads_indices_concat(padded, a1, seg, 0);
    assert(ao2 =~= ao_before + quads_ao(padded, a2));
    assert(indices2 =~= indices_before + quads_indices(padded, a2, 0));
    assert(a2.len() == a1.len() + seg.len());
    assert(offset2 == 4 * a2.len());
    assert(a2.len() <= (k + 1) * CHUNK_VOLUME) by (nonlinear_arith)
        requires
            a2.len() == a1.len() + seg.len(),
            a1.len() <= k * CHUNK_VOLUME,
            seg.len() <= CHUNK_VOLUME;
}

/// The mesh data of a chunk: one quad per merged rectangle of faces, four AO
/// levels per quad and six triangle indices per quad. Positions, normals and
/// colours of the vertices follow from the quads.
pub struct ChunkMeshData {
    pub quads: Vec<FaceQuad>,
    pub ao: Vec<Ao>,
    pub indices: Vec<u32>,
}

/// What meshing a chunk yields: after the quads that were already there, the
/// quads of the six passes in pass order, each pass tiling the visible faces
/// of its direction; their AO levels; their indices, numbering vertices from 0.
pub open spec fn chunk_mesh_output(
    padded: Seq<VoxelType>,
    quads_before: Seq<FaceQuad>,
    ao_before: Seq<u8>,
    indices_before: Seq<u32>,
    quads: Seq<FaceQuad>,
    ao: Seq<u8>,
    indices: Seq<u32>,
) -> bool {
    let added = quads.skip(quads_before.len() as int);
    &&& quads_before.len() <= quads.len()
    &&& quads.take(quads_before.len() as int) == quads_before
    &&& forall|d: FaceDirection| face_quads_tile(padded, d, #[trigger] quads_toward(added, d))
    &&& in_pass_order(added)
    &&& ao == ao_before + quads_ao(padded, added)
    &&& indices == indices_before + quads_indices(padded, added, 0)
}

/// Which cells show a face toward each direction, in padded coordinates:
/// the chunk cell `(x, y, z)` sits at `(x + 1, y + 1, z + 1)`; a pass toward
/// +x (Right) or -x (Left) walks layers along x with rows y and columns z, a
/// pass toward +y (Top) or -y (Bottom) walks layers along y with rows z and
/// columns x, and a pass toward -z (Front) or +z (Back) walks layers along z
/// with rows y and columns x. A face shows when its cell is solid and the
/// padded cell one step along the face's outward normal is air.
pub proof fn lemma_face_visible_neighbours(padded: Seq<VoxelType>, l: int, r: int, c: int)
    ensures
        face_visible(padded, FaceDirection::Right, l, r, c) == (padded[spec_padded_index(l + 1, r + 1, c + 1)]
            != VoxelType::Air && padded[spec_padded_index(l + 2, r + 1, c + 1)] == VoxelType::Air),
        face_visible(padded, FaceDirection::Left, l, r, c) == (padded[spec_padded_index(l + 1, r + 1, c + 1)]
            != VoxelType::Air && padded[spec_padded_index(l, r + 1, c + 1)] == VoxelType::Air),
        face_visible(padded, FaceDirection::Top, l, r, c) == (padded[spec_padded_index(c + 1, l + 1, r + 1)]
            != VoxelType::Air && padded[spec_padded_index(c + 1, l + 2, r + 1)] == VoxelType::Air),
        face_visible(padded, FaceDirection::Bottom, l, r, c) == (padded[spec_padded_index(c + 1, l + 1, r + 1)]
            != VoxelType::Air && padded[spec_padded_index(c + 1, l, r + 1)] == VoxelType::Air),
        face_visible(padded, FaceDirection::Front, l, r, c) == (padded[spec_padded_index(c + 1, r + 1, l + 1)]
            != VoxelType::Air && padded[spec_padded_index(c + 1, r + 1, l)] == VoxelType::Air),
        face_visible(padded, FaceDirection::Back, l, r, c) == (padded[spec_padded_index(c + 1, r + 1, l + 1)]
            != VoxelType::Air && padded[spec_padded_index(c + 1, r + 1, l + 2)] == VoxelType::Air),
{
    reveal(face_visible);
}

/// Solidity of three padded cells folded into one AO level.
pub open spec fn shade(padded: Seq<VoxelType>, a: (int, int, int), b: (int, int, int), d: (int, int, int)) -> u8 {
    spec_vertex_ao(padded_solid(padded, a.0, a.1, a.2), padded_solid(padded, b.0, b.1, b.2), padded_solid(padded, d.0, d.1, d.2))
}

/// Where vertex `i` of a quad lies, as signs along the quad's rows and
/// columns (-1 toward the first row or column, +1 toward the last), for the
/// vertex positions a renderer builds: toward +x the vertices run (min y,
/// max z), (min y, min z), (max y, min z), (max y, max z); toward -x (min y,
/// min z), (min y, max z), (max y, max z), (max y, min z); toward +y (min x,
/// max z), (max x, max z), (max x, min z), (min x, min z); toward -y (min x,
/// min z), (max x, min z), (max x, max z), (min x, max z); toward -z (max x,
/// min y), (min x, min y), (min x, max y), (max x, max y); toward +z (min x,
/// min y), (max x, min y), (max x, max y), (min x, max y).
pub open spec fn vertex_side(dir: FaceDirection, i: int) -> (int, int) {
    match dir {
        FaceDirection::Right => if i == 0 { (-1, 1) } else if i == 1 { (-1, -1) } else if i == 2 { (1, -1) } else { (1, 1) },
        FaceDirection::Left => if i == 0 { (-1, -1) } else if i == 1 { (-1, 1) } else if i == 2 { (1, 1) } else { (1, -1) },
        FaceDirection::Top => if i == 0 { (1, -1) } else if i == 1 { (1, 1) } else if i == 2 { (-1, 1) } else { (-1, -1) },
        FaceDirection::Bottom => if i == 0 { (-1, -1) } else if i == 1 { (-1, 1) } else if i == 2 { (1, 1) } else { (1, -1) },
        FaceDirection::Front => if i == 0 { (-1, 1) } else if i == 1 { (-1, -1) } else if i == 2 { (1, -1) } else { (1, 1) },
        FaceDirection::Back => if i == 0 { (-1, -1) } else if i == 1 { (-1, 1) } else if i == 2 { (1, 1) } else { (1, -1) },
    }
}

/// The AO level of vertex `i` of quad `q` read off the geometry: take the
/// quad's face cell at that vertex's corner, step once along the outward
/// normal, and shade by the two cells beside that one toward the vertex
/// (along the row axis and along the column axis) and the cell diagonal to
/// it toward the vertex.
pub open spec fn vertex_ao_from_geometry(padded: Seq<VoxelType>, q: FaceQuad, i: int) -> u8 {
    let (sr, sc) = vertex_side(q.direction, i);
    let r = if sr < 0 { q.row as int } else { q.row + q.depth - 1 };
    let c = if sc < 0 { q.column as int } else { q.column + q.width - 1 };
    let l = q.layer as int;
    match q.direction {
        FaceDirection::Right => shade(padded, (l + 2, r + 1 + sr, c + 1), (l + 2, r + 1, c + 1 + sc), (l + 2, r + 1 + sr, c + 1 + sc)),
        FaceDirection::Left => shade(padded, (l, r + 1 + sr, c + 1), (l, r + 1, c + 1 + sc), (l, r + 1 + sr, c + 1 + sc)),
        FaceDirection::Top => shade(padded, (c + 1, l + 2, r + 1 + sr), (c + 1 + sc, l + 2, r + 1), (c + 1 + sc, l + 2, r + 1 + sr)),
        FaceDirection::Bottom => shade(padded, (c + 1, l, r + 1 + sr), (c + 1 + sc, l, r + 1), (c + 1 + sc, l, r + 1 + sr)),
        FaceDirection::Front => shade(padded, (c + 1, r + 1 + sr, l), (c + 1 + sc, r + 1, l), (c + 1 + sc, r + 1 + sr, l)),
        FaceDirection::Back => shade(padded, (c + 1, r + 1 + sr, l + 2), (c + 1 + sc, r + 1, l + 2), (c + 1 + sc, r + 1 + sr, l + 2)),
    }
}

/// The AO levels of a quad are, vertex by vertex, the levels its geometry gives.
pub proof fn lemma_quad_ao_geometry(padded: Seq<VoxelType>, q: FaceQuad, i: int)
    requires
        0 <= i < 4,
    ensures
        quad_vertex_ao(padded, q, i) == vertex_ao_from_geometry(padded, q, i),
{
    reveal(cell_corner_ao);
}

proof fn lemma_quads_ao_index(padded: Seq<VoxelType>, qs: Seq<FaceQuad>, k: int, i: int)
    requires
        0 <= k < qs.len(),
        0 <= i < 4,
    ensures
        quads_ao(padded, qs).len() == 4 * qs.len(),
        quads_ao(padded, qs)[4 * k + i] == quad_vertex_ao(padded, qs[k], i),
    decreases qs.len(),
{
    let t = qs.drop_last();
    if t.len() > 0 {
        if k < t.len() {
            lemma_quads_ao_index(padded, t, k, i);
        } else {
            lemma_quads_ao_index(padded, t, 0, 0);
        }
    } else {
        assert(quads_ao(padded, t) =~= Seq::<u8>::empty());
    }
}

/// What a pass writes for the AO of each vertex is the level the vertex's
/// geometry gives: the `i`-th AO value appended for the `k`-th new quad
/// shades that quad's vertex `i`.
pub proof fn lemma_pass_vertex_ao(
    padded: Seq<VoxelType>,
    dir: FaceDirection,
    quads_before: Seq<FaceQuad>,
    quads_after: Seq<FaceQuad>,
    ao_before: Seq<u8>,
    ao_after: Seq<u8>,
    indices_before: Seq<u32>,
    indices_after: Seq<u32>,
    offset_before: u32,
    offset_after: u32,
    k: int,
    i: int,
)
    requires
        mesh_pass_output(
            padded,
            dir,
            quads_before,
            quads_after,
            ao_before,
            ao_after,
            indices_before,
            indices_after,
            offset_before,
            offset_after,
        ),
        0 <= k < quads_after.len() - quads_before.len(),
        0 <= i < 4,
    ensures
        ao_after[ao_before.len() + 4 * k + i] == vertex_ao_from_geometry(
            padded,
            quads_after[quads_before.len() + k],
            i,
        ),
{
    let added = quads_after.skip(quads_before.len() as int);
    lemma_quads_ao_index(padded, added, k, i);
    lemma_quad_ao_geometry(padded, added[k], i);
    assert(added[k] == quads_after[quads_before.len() + k]);
}

/// Quads come in pass order: right, left, top, bottom, front, back.
pub open spec fn in_pass_order(qs: Seq<FaceQuad>) -> bool {
    forall|i: int, j: int|
        0 <= i < j < qs.len() ==> direction_rank(#[trigger] qs[i].direction) <= direction_rank(
            #[trigger] qs[j].direction,
        )
}

proof fn lemma_toward_last(s: Seq<FaceQuad>, d: FaceDirection)
    requires
        s.len() > 0,
    ensures
        quads_toward(s, d) == if s.last().direction == d {
            quads_toward(s.drop_last(), d).push(s.last())
        } else {
            quads_toward(s.drop_last(), d)
        },
{
    reveal(Seq::filter);
}

/// A direction holds quads of `s` only if some quad of `s` faces it.
proof fn lemma_toward_witness(s: Seq<FaceQuad>, d: FaceDirection) -> (i: int)
    requires
        quads_toward(s, d).len() > 0,
    ensures
        0 <= i < s.len(),
        s[i].direction == d,
{
    let f = quads_toward(s, d);
    s.lemma_filter_pred(toward(d), 0);
    s.lemma_filter_contains_rev(toward(d), f[0]);
    choose|i: int| 0 <= i < s.len() && s[i] == f[0]
}

proof fn lemma_toward_empty(s: Seq<FaceQuad>, d: FaceDirection)
    requires
        s.len() == 0,
    ensures
        quads_toward(s, d).len() == 0,
{
    reveal(Seq::filter);
}

proof fn lemma_pass_order_drop_last(s: Seq<FaceQuad>)
    requires
        in_pass_order(s),
        s.len() > 0,
    ensures
        in_pass_order(s.drop_last()),
{
    let t = s.drop_last();
    assert forall|i: int, j: int|
        0 <= i < j < t.len() implies direction_rank(#[trigger] t[i].direction) <= direction_rank(
        #[trigger] t[j].direction,
    ) by {
        assert(t[i] == s[i] && t[j] == s[j]);
    }
}

/// The last quad of a sequence in pass order faces the latest direction
/// that any of its quads faces.
proof fn lemma_last_rank(s1: Seq<FaceQuad>, s2: Seq<FaceQuad>)
    requires
        in_pass_order(s2),
        s1.len() > 0,
        s2.len() > 0,
        forall|d: FaceDirection| #[trigger] quads_toward(s1, d) == quads_toward(s2, d),
    ensures
        direction_rank(s1.last().direction) <= direction_rank(s2.last().direction),
{
    let n1 = s1.len() - 1;
    let n2 = s2.len() - 1;
    let d1 = s1[n1].direction;
    s1.lemma_filter_contains(toward(d1), n1);
    assert(quads_toward(s1, d1).contains(s1[n1]));
    assert(quads_toward(s1, d1) == quads_toward(s2, d1));
    assert(quads_toward(s2, d1).len() > 0);
    let i2 = lemma_toward_witness(s2, d1);
    if i2 < n2 {
        assert(direction_rank(s2[i2].direction) <= direction_rank(s2[n2].direction));
    }
}

/// Two sequences of quads in pass order that hold the same quads toward
/// each direction are equal.
proof fn lemma_pass_order_unique(s1: Seq<FaceQuad>, s2: Seq<FaceQuad>)
    requires
        in_pass_order(s1),
        in_pass_order(s2),
        forall|d: FaceDirection| #[trigger] quads_toward(s1, d) == quads_toward(s2, d),
    ensures
        s1 == s2,
    decreases s1.len() + s2.len(),
{
    if s1.len() == 0 && s2.len() == 0 {
        assert(s1 =~= s2);
    } else if s1.len() == 0 {
        let d = s2[0].direction;
        s2.lemma_filter_contains(toward(d), 0);
        assert(quads_toward(s2, d).contains(s2[0]));
        lemma_toward_empty(s1, d);
        assert(quads_toward(s1, d) == quads_toward(s2, d));
    } else if s2.len() == 0 {
        let d = s1[0].direction;
        s1.lemma_filter_contains(toward(d), 0);
        assert(quads_toward(s1, d).contains(s1[0]));
        lemma_toward_empty(s2, d);
        assert(quads_toward(s1, d) == quads_toward(s2, d));
    } else {
        lemma_last_rank(s1, s2);
        lemma_last_rank(s2, s1);
        let x1 = s1.last();
        let x2 = s2.last();
        let d1 = x1.direction;
        assert(d1 == x2.direction);
        lemma_toward_last(s1, d1);
        lemma_toward_last(s2, d1);
        assert(x1 == quads_toward(s1, d1).last());
        assert(x2 == quads_toward(s2, d1).last());
        let t1 = s1.drop_last();
        let t2 = s2.drop_last();
        assert forall|d: FaceDirection| #[trigger] quads_toward(t1, d) == quads_toward(t2, d) by {
            lemma_toward_last(s1, d);
            lemma_toward_last(s2, d);
            if d == d1 {
                assert(quads_toward(t1, d) =~= quads_toward(s1, d).drop_last());
                assert(quads_toward(t2, d) =~= quads_toward(s2, d).drop_last());
            }
        }
        lemma_pass_order_drop_last(s1);
        lemma_pass_order_drop_last(s2);
        lemma_pass_order_unique(t1, t2);
        assert(s1 =~= t1.push(x1));
        assert(s2 =~= t2.push(x2));
    }
}

/// The mesh of a chunk is a function of its padded voxels: two results of
/// meshing the same padded grid after the same buffers are equal, quads,
/// AO levels and indices alike.
pub proof fn lemma_chunk_mesh_unique(
    padded: Seq<VoxelType>,
    quads_before: Seq<FaceQuad>,
    ao_before: Seq<u8>,
    indices_before: Seq<u32>,
    quads1: Seq<FaceQuad>,
    ao1: Seq<u8>,
    indices1: Seq<u32>,
    quads2: Seq<FaceQuad>,
    ao2: Seq<u8>,
    indices2: Seq<u32>,
)
    requires
        chunk_mesh_output(padded, quads_before, ao_before, indices_before, quads1, ao1, indices1),
        chunk_mesh_output(padded, quads_before, ao_before, indices_before, quads2, ao2, indices2),
    ensures
        quads1 == quads2,
        ao1 == ao2,
        indices1 == indices2,
{
    let n = quads_before.len() as int;
    let added1 = quads1.skip(n);
    let added2 = quads2.skip(n);
    assert forall|d: FaceDirection| #[trigger] quads_toward(added1, d) == quads_toward(added2, d) by {
        lemma_greedy_tiling_unique(padded, d, quads_toward(added1, d), quads_toward(added2, d));
    }
    lemma_pass_order_unique(added1, added2);
    assert(quads1 =~= quads1.take(n) + added1);
    assert(quads2 =~= quads2.take(n) + added2);
}

/// The direction of the `k`-th pass of a chunk: right, left, top, bottom,
/// front, back.
pub open spec fn pass_direction(k: int) -> FaceDirection {
    if k == 0 {
        FaceDirection::Right
    } else if k == 1 {
        FaceDirection::Left
    } else if k == 2 {
        FaceDirection::Top
    } else if k == 3 {
        FaceDirection::Bottom
    } else if k == 4 {
        FaceDirection::Front
    } else {
        FaceDirection::Back
    }
}

/// The buffers after the first `k` passes run in turn from the buffers at
/// index 0 with a vertex counter starting at 0.
proof fn lemma_passes_progress(
    padded: Seq<VoxelType>,
    quads: Seq<Seq<FaceQuad>>,
    ao: Seq<Seq<u8>>,
    indices: Seq<Seq<u32>>,
    offsets: Seq<u32>,
    k: int,
)
    requires
        0 <= k <= 6,
        quads.len() == 7,
        ao.len() == 7,
        indices.len() == 7,
        offsets.len() == 7,
        offsets[0] == 0,
        forall|j: int|
            0 <= j < 6 ==> #[trigger] mesh_pass_output(
                padded,
                pass_direction(j),
                quads[j],
                quads[j + 1],
                ao[j],
                ao[j + 1],
                indices[j],
                indices[j + 1],
                offsets[j],
                offsets[j + 1],
            ),
    ensures
        mesh_progress(padded, quads[0], ao[0], indices[0], quads[k], ao[k], indices[k], offsets[k], k),
    decreases k,
{
    if k == 0 {
        reveal(Seq::filter);
        let q0 = quads[0];
        assert(q0.skip(q0.len() as int) =~= Seq::<FaceQuad>::empty());
        assert(q0.take(q0.len() as int) =~= q0);
        assert(ao[0] + quads_ao(padded, Seq::<FaceQuad>::empty()) =~= ao[0]);
        assert(indices[0] + quads_indices(padded, Seq::<FaceQuad>::empty(), 0) =~= indices[0]);
    } else {
        lemma_passes_progress(padded, quads, ao, indices, offsets, k - 1);
        let j = k - 1;
        assert(mesh_pass_output(
            padded,
            pass_direction(j),
            quads[j],
            quads[j + 1],
            ao[j],
            ao[j + 1],
            indices[j],
            indices[j + 1],
            offsets[j],
            offsets[j + 1],
        ));
        assert(direction_rank(pass_direction(j)) == j);
        lemma_mesh_progress_step(
            padded,
            pass_direction(j),
            quads[0],
            ao[0],
            indices[0],
            quads[j],
            ao[j],
            indices[j],
            offsets[j],
            quads[k],
            ao[k],
            indices[k],
            offsets[k],
        );
    }
}

/// Meshing a chunk is running its six passes in turn (right, left, top,
/// bottom, front, back) with one vertex counter starting at 0: a chunk mesh
/// made after some buffers is what the passes leave in those buffers.
pub proof fn lemma_mesh_is_six_passes(
    padded: Seq<VoxelType>,
    quads: Seq<Seq<FaceQuad>>,
    ao: Seq<Seq<u8>>,
    indices: Seq<Seq<u32>>,
    offsets: Seq<u32>,
    mesh_quads: Seq<FaceQuad>,
    mesh_ao: Seq<u8>,
    mesh_indices: Seq<u32>,
)
    requires
        quads.len() == 7,
        ao.len() == 7,
        indices.len() == 7,
        offsets.len() == 7,
        offsets[0] == 0,
        forall|j: int|
            0 <= j < 6 ==> #[trigger] mesh_pass_output(
                padded,
                pass_direction(j),
                quads[j],
                quads[j + 1],
                ao[j],
                ao[j + 1],
                indices[j],
                indices[j + 1],
                offsets[j],
                offsets[j + 1],
            ),
        chunk_mesh_output(padded, quads[0], ao[0], indices[0], mesh_quads, mesh_ao, mesh_indices),
    ensures
        chunk_mesh_output(padded, quads[0], ao[0], indices[0], quads[6], ao[6], indices[6]),
        mesh_quads == quads[6],
        mesh_ao == ao[6],
        mesh_indices == indices[6],
{
    lemma_passes_progress(padded, quads, ao, indices, offsets, 6);
    lemma_chunk_mesh_unique(
        padded,
        quads[0],
        ao[0],
        indices[0],
        mesh_quads,
        mesh_ao,
        mesh_indices,
        quads[6],
        ao[6],
        indices[6],
    );
}

const EXPECTED_VERTICES: usize = 8_192;
const EXPECTED_INDICES: usize = 16_384;
const EXPECTED_AO: usize = 8_192;

/// Buffers reused across chunk meshing: the chunk's own voxels, neighbour
/// edges, the padded grid, the mesh output, and the per-slice masks and keys.
pub struct ChunkMeshScratch {
    pub own_flat: Vec<VoxelType>,
    pub neighbors: [Vec<VoxelType>; 4],
    pub padded: Vec<VoxelType>,
    pub quads: Vec<FaceQuad>,
    pub ao: Vec<Ao>,
    pub indices: Vec<u32>,
    pub mask_y: [u32; CHUNK_Y],
    pub mask_z: [u32; CHUNK_Z],
    pub face_keys_y: [[u16; CHUNK_Z]; CHUNK_Y],
    pub face_keys_z: [[u16; CHUNK_X]; CHUNK_Z],
    pub face_keys_x: [[u16; CHUNK_X]; CHUNK_Y],
}

impl ChunkMeshScratch {
    /// The masks and keys of every slice grid are zero.
    pub open spec fn grids_cleared(&self) -> bool {
        &&& forall|i: int| 0 <= i < CHUNK_Y ==> #[trigger] self.mask_y@[i] == 0
        &&& forall|i: int| 0 <= i < CHUNK_Z ==> #[trigger] self.mask_z@[i] == 0
        &&& forall|r: int, c: int|
            0 <= r < CHUNK_Y && 0 <= c < CHUNK_Z ==> #[trigger] self.face_keys_y@[r][c] == 0
        &&& forall|r: int, c: int|
            0 <= r < CHUNK_Z && 0 <= c < CHUNK_X ==> #[trigger] self.face_keys_z@[r][c] == 0
        &&& forall|r: int, c: int|
            0 <= r < CHUNK_Y && 0 <= c < CHUNK_X ==> #[trigger] self.face_keys_x@[r][c] == 0
    }

    pub fn new() -> (scratch: Self)
        ensures
            scratch.own_flat@.len() == 0,
            forall|i: int| 0 <= i < 4 ==> (#[trigger] scratch.neighbors@[i])@.len() == 0,
            scratch.padded@ == Seq::new(PADDED_VOLUME as nat, |i: int| VoxelType::Air),
            scratch.quads@.len() == 0,
            scratch.ao@.len() == 0,
            scratch.indices@.len() == 0,
            scratch.grids_cleared(),
    {
        proof {
            lemma_padded_index_in_bounds(0, 0, 0);
        }
        assert(PADDED_X * PADDED_Y == 17476) by (nonlinear_arith)
            requires PADDED_X == 34, PADDED_Y == 514;
        let volume = PADDED_X * PADDED_Y * PADDED_Z;
        let mut padded: Vec<VoxelType> = Vec::with_capacity(volume);
        let mut i: usize = 0;
        while i < volume
            invariant
                volume == PADDED_VOLUME,
                i <= PADDED_VOLUME,
                padded@ == Seq::new(i as nat, |k: int| VoxelType::Air),
            decreases PADDED_VOLUME - i,
        {
            padded.push(VoxelType::Air);
            i += 1;
            assert(padded@ =~= Seq::new(i as nat, |k: int| VoxelType::Air));
        }
        let scratch = Self {
            own_flat: Vec::with_capacity(CHUNK_VOLUME),
            neighbors: [
                Vec::with_capacity(CHUNK_VOLUME),
                Vec::with_capacity(CHUNK_VOLUME),
                Vec::with_capacity(CHUNK_VOLUME),
                Vec::with_capacity(CHUNK_VOLUME),
            ],
            padded,
            quads: Vec::with_capacity(EXPECTED_VERTICES / 4),
            ao: Vec::with_capacity(EXPECTED_AO),
            indices: Vec::with_capacity(EXPECTED_INDICES),
            mask_y: [0u32; 512],
            mask_z: [0u32; 32],
            face_keys_y: [[0u16; 32]; 512],
            face_keys_z: [[0u16; 32]; 32],
            face_keys_x: [[0u16; 32]; 512],
        };
        scratch
    }

    /// Empties the chunk and neighbour buffers and zeroes every slice grid;
    /// the padded grid and the mesh output stay as they are.
    pub fn clear(&mut self)
        ensures
            final(self).own_flat@.len() == 0,
            forall|i: int| 0 <= i < 4 ==> (#[trigger] final(self).neighbors@[i])@.len() == 0,
            final(self).padded@ == old(self).padded@,
            final(self).quads@ == old(self).quads@,
            final(self).ao@ == old(self).ao@,
            final(self).indices@ == old(self).indices@,
            final(self).grids_cleared(),
    {
        self.own_flat.clear();
        self.neighbors[0].clear();
        self.neighbors[1].clear();
        self.neighbors[2].clear();
        self.neighbors[3].clear();
        self.quads.reserve(EXPECTED_VERTICES / 4);
        self.ao.reserve(EXPECTED_AO);
        self.indices.reserve(EXPECTED_INDICES);
        self.mask_y = [0u32; 512];
        self.mask_z = [0u32; 32];
        self.face_keys_y = [[0u16; 32]; 512];
        self.face_keys_z = [[0u16; 32]; 32];
        self.face_keys_x = [[0u16; 32]; 512];
    }
}

/// Runs the six meshing passes over `scratch.padded` (right, left, top,
/// bottom, front, back) and hands out the quads, AO levels and indices,
/// leaving those three buffers of `scratch` empty.
pub fn build_mesh_from_scratch(scratch: &mut ChunkMeshScratch) -> (data: ChunkMeshData)
    requires
        old(scratch).padded.len() >= PADDED_VOLUME,
    ensures
        chunk_mesh_output(
            old(scratch).padded@,
            old(scratch).quads@,
            old(scratch).ao@,
            old(scratch).indices@,
            data.quads@,
            data.ao@,
            data.indices@,
        ),
        final(scratch).quads@.len() == 0,
        final(scratch).ao@.len() == 0,
        final(scratch).indices@.len() == 0,
        final(scratch).padded@ == old(scratch).padded@,
        final(scratch).own_flat@ == old(scratch).own_flat@,
        final(scratch).neighbors@ == old(scratch).neighbors@,
        forall|r: int| 0 <= r < CHUNK_Y ==> #[trigger] final(scratch).mask_y@[r] == 0,
        forall|r: int| 0 <= r < CHUNK_Z ==> #[trigger] final(scratch).mask_z@[r] == 0,
        last_slice_keys(old(scratch).padded@, FaceDirection::Left, final(scratch).face_keys_y),
        last_slice_keys(old(scratch).padded@, FaceDirection::Bottom, final(scratch).face_keys_z),
        last_slice_keys(old(scratch).padded@, FaceDirection::Back, final(scratch).face_keys_x),
{
    let ghost padded0 = scratch.padded@;
    let ghost q0 = scratch.quads@;
    let ghost a0 = scratch.ao@;
    let ghost i0 = scratch.indices@;
    let mut vertex_offset: u32 = 0;
    proof {
        lemma_chunk_volume();
        reveal(Seq::filter);
        assert(scratch.quads@.skip(q0.len() as int) =~= Seq::<FaceQuad>::empty());
        assert(scratch.quads@.take(q0.len() as int) =~= q0);
        assert(a0 + quads_ao(padded0, Seq::<FaceQuad>::empty()) =~= a0);
        assert(i0 + quads_indices(padded0, Seq::<FaceQuad>::empty(), 0) =~= i0);
        assert(mesh_progress(padded0, q0, a0, i0, scratch.quads@, scratch.ao@, scratch.indices@, vertex_offset, 0));
    }
    let ghost (q1, a1, i1, v1) = (scratch.quads@, scratch.ao@, scratch.indices@, vertex_offset);
    proof {
        lemma_greedy_quads_fit_small(padded0, FaceDirection::Right, vertex_offset as int);
    }
    mesh_right_faces_binary(
        scratch.padded.as_slice(),
        &mut scratch.mask_y,
        &mut scratch.face_keys_y,
        &mut scratch.quads,
        &mut scratch.ao,
        &mut scratch.indices,
        &mut vertex_offset,
    );
    proof {
        lemma_mesh_progress_step(padded0, FaceDirection::Right, q0, a0, i0, q1, a1, i1, v1,
            scratch.quads@, scratch.ao@, scratch.indices@, vertex_offset);
    }
    let ghost (q1, a1, i1, v1) = (scratch.quads@, scratch.ao@, scratch.indices@, vertex_offset);
    proof {
        lemma_greedy_quads_fit_small(padded0, FaceDirection::Left, vertex_offset as int);
    }
    mesh_left_faces_binary(
        scratch.padded.as_slice(),
        &mut scratch.mask_y,
        &mut scratch.face_keys_y,
        &mut scratch.quads,
        &mut scratch.ao,
        &mut scratch.indices,
        &mut vertex_offset,
    );
    proof {
        lemma_mesh_progress_step(padded0, FaceDirection::Left, q0, a0, i0, q1, a1, i1, v1,
            scratch.quads@, scratch.ao@, scratch.indices@, vertex_offset);
    }
    let ghost (q1, a1, i1, v1) = (scratch.quads@, scratch.ao@, scratch.indices@, vertex_offset);
    proof {
        lemma_greedy_quads_fit_small(padded0, FaceDirection::Top, vertex_offset as int);
    }
    mesh_top_faces_binary(
        scratch.padded.as_slice(),
        &mut scratch.mask_z,
        &mut scratch.face_keys_z,
        &mut scratch.quads,
        &mut scratch.ao,
        &mut scratch.indices,
        &mut vertex_offset,
    );
    proof {
        lemma_mesh_progress_step(padded0, FaceDirection::Top, q0, a0, i0, q1, a1, i1, v1,
            scratch.quads@, scratch.ao@, scratch.indices@, vertex_offset);
    }
    let ghost (q1, a1, i1, v1) = (scratch.quads@, scratch.ao@, scratch.indices@, vertex_offset);
    proof {
        lemma_greedy_quads_fit_small(padded0, FaceDirection::Bottom, vertex_offset as int);
    }
    mesh_bottom_faces_binary(
        scratch.padded.as_slice(),
        &mut scratch.mask_z,
        &mut scratch.face_keys_z,
        &mut scratch.quads,
        &mut scratch.ao,
        &mut scratch.indices,
        &mut vertex_offset,
    );
    proof {
        lemma_mesh_progress_step(padded0, FaceDirection::Bottom, q0, a0, i0, q1, a1, i1, v1,
            scratch.quads@, scratch.ao@, scratch.indices@, vertex_offset);
    }
    let ghost (q1, a1, i1, v1) = (scratch.quads@, scratch.ao@, scratch.indices@, vertex_offset);
    proof {
        lemma_greedy_quads_fit_small(padded0, FaceDirection::Front, vertex_offset as int);
    }
    mesh_front_faces_binary(
        scratch.padded.as_slice(),
        &mut scratch.mask_y,
        &mut scratch.face_keys_x,
        &mut scratch.quads,
        &mut scratch.ao,
        &mut scratch.indices,
        &mut vertex_offset,
    );
    proof {
        lemma_mesh_progress_step(padded0, FaceDirection::Front, q0, a0, i0, q1, a1, i1, v1,
            scratch.quads@, scratch.ao@, scratch.indices@, vertex_offset);
    }
    let ghost (q1, a1, i1, v1) = (scratch.quads@, scratch.ao@, scratch.indices@, vertex_offset);
    proof {
        lemma_greedy_quads_fit_small(padded0, FaceDirection::Back, vertex_offset as int);
    }
    mesh_back_faces_binary(
        scratch.padded.as_slice(),
        &mut scratch.mask_y,
        &mut scratch.face_keys_x,
        &mut scratch.quads,
        &mut scratch.ao,
        &mut scratch.indices,
        &mut vertex_offset,
    );
    proof {
        lemma_mesh_progress_step(padded0, FaceDirection::Back, q0, a0, i0, q1, a1, i1, v1,
            scratch.quads@, scratch.ao@, scratch.indices@, vertex_offset);
    }
    let mut quads: Vec<FaceQuad> = Vec::new();
    let mut ao: Vec<Ao> = Vec::new();
    let mut indices: Vec<u32> = Vec::new();
    std::mem::swap(&mut quads, &mut scratch.quads);
    std::mem::swap(&mut ao, &mut scratch.ao);
    std::mem::swap(&mut indices, &mut scratch.indices);
    ChunkMeshData { quads, ao, indices }
}

} // verus!
