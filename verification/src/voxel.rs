use vstd::prelude::*;
use vstd::arithmetic::div_mod::{lemma_fundamental_div_mod, lemma_div_denominator};

verus! {

pub const CHUNK_X: usize = 32;
pub const CHUNK_Y: usize = 256;
pub const CHUNK_Z: usize = 32;
pub const CHUNK_VOLUME: usize = CHUNK_X * CHUNK_Y * CHUNK_Z;

#[derive(Clone, Copy, PartialEq, Eq, Debug, Structural)]
pub enum VoxelType {
    Air,
    Grass,
}

/// A run of equal voxels: the voxel and how many times it repeats.
#[derive(Clone, Copy, Debug)]
pub struct Run {
    pub value: VoxelType,
    pub length: u16,
}

// ---------------------------------------------------------------------------
// Run-length model.
// ---------------------------------------------------------------------------

/// The maximal runs of equal voxels of `s`, in order, with their lengths.
pub open spec fn runs_of(s: Seq<VoxelType>) -> Seq<(VoxelType, nat)>
    decreases s.len(),
{
    if s.len() == 0 {
        Seq::empty()
    } else {
        let r = runs_of(s.drop_last());
        if r.len() > 0 && r.last().0 == s.last() {
            r.update(r.len() - 1, (s.last(), r.last().1 + 1))
        } else {
            r.push((s.last(), 1))
        }
    }
}

/// The voxels that the runs `r` stand for.
pub open spec fn expand_runs(r: Seq<(VoxelType, nat)>) -> Seq<VoxelType>
    decreases r.len(),
{
    if r.len() == 0 {
        Seq::empty()
    } else {
        expand_runs(r.drop_last()) + Seq::new(r.last().1, |i: int| r.last().0)
    }
}

pub open spec fn run_model(run: Run) -> (VoxelType, nat) {
    (run.value, run.length as nat)
}

pub open spec fn runs_view(runs: Seq<Run>) -> Seq<(VoxelType, nat)> {
    runs.map_values(|run: Run| run_model(run))
}

/// A run whose length is stored in 16 bits: lengths wrap past `u16::MAX`.
pub open spec fn stored_run(p: (VoxelType, nat)) -> Run {
    Run { value: p.0, length: p.1 as u16 }
}

/// Every run of `s` is at most `u16::MAX` long.
pub open spec fn runs_fit(s: Seq<VoxelType>) -> bool {
    forall|k: int| 0 <= k < runs_of(s).len() ==> #[trigger] runs_of(s)[k].1 <= u16::MAX
}

proof fn lemma_runs_of_last(s: Seq<VoxelType>)
    requires
        s.len() > 0,
    ensures
        runs_of(s).len() > 0,
        runs_of(s).last().0 == s.last(),
{
}

/// Appending a run of equal voxels after a change of value adds one run.
proof fn lemma_runs_of_segment(s: Seq<VoxelType>, start: int, i: int)
    requires
        0 <= start < i <= s.len(),
        forall|k: int| start <= k < i ==> #[trigger] s[k] == s[start],
        start == 0 || s[start - 1] != s[start],
    ensures
        runs_of(s.take(i)) == runs_of(s.take(start)).push((s[start], (i - start) as nat)),
    decreases i - start,
{
    let t = s.take(i);
    assert(t.drop_last() =~= s.take(i - 1));
    if i == start + 1 {
        if start > 0 {
            assert(s.take(start).last() == s[start - 1]);
            lemma_runs_of_last(s.take(start));
        }
    } else {
        lemma_runs_of_segment(s, start, i - 1);
        assert(t.last() == s[i - 1]);
    }
}

/// The runs of a sequence stand for exactly that sequence.
pub proof fn lemma_expand_runs_of(s: Seq<VoxelType>)
    ensures
        expand_runs(runs_of(s)) == s,
    decreases s.len(),
{
    if s.len() > 0 {
        let r = runs_of(s.drop_last());
        lemma_expand_runs_of(s.drop_last());
        if r.len() > 0 && r.last().0 == s.last() {
            let r2 = r.update(r.len() - 1, (s.last(), r.last().1 + 1));
            assert(r2.drop_last() =~= r.drop_last());
            assert(expand_runs(r) == expand_runs(r.drop_last()) + Seq::new(r.last().1, |i: int| r.last().0));
            assert(r2.last() == (s.last(), r.last().1 + 1));
            assert(Seq::new(r2.last().1, |i: int| r2.last().0) =~= Seq::new(r.last().1, |i: int| r.last().0).push(s.last()));
            assert(expand_runs(r2) == expand_runs(r2.drop_last()) + Seq::new(r2.last().1, |i: int| r2.last().0));
            assert(s =~= s.drop_last().push(s.last()));
            assert(expand_runs(r2) =~= expand_runs(r).push(s.last()));
            assert(expand_runs(r2) =~= s);
        } else {
            let r2 = r.push((s.last(), 1));
            assert(r2.drop_last() =~= r);
            assert(expand_runs(r2) =~= s);
        }
    }
}

/// The runs of a sequence are maximal: none is empty and no two neighbours
/// hold the same voxel. With `lemma_expand_runs_of`, this pins them down.
pub proof fn lemma_runs_of_maximal(s: Seq<VoxelType>)
    ensures
        forall|k: int| 0 <= k < runs_of(s).len() ==> #[trigger] runs_of(s)[k].1 > 0,
        forall|k: int| 0 <= k < runs_of(s).len() - 1 ==> #[trigger] runs_of(s)[k].0 != runs_of(s)[k + 1].0,
    decreases s.len(),
{
    if s.len() > 0 {
        lemma_runs_of_maximal(s.drop_last());
        let r = runs_of(s.drop_last());
        let r2 = runs_of(s);
        if r.len() > 0 && r.last().0 == s.last() {
            assert forall|k: int| 0 <= k < r2.len() - 1 implies #[trigger] r2[k].0 != r2[k + 1].0 by {
                assert(r2[k].0 == r[k].0 && r2[k + 1].0 == r[k + 1].0);
            }
        } else {
            assert forall|k: int| 0 <= k < r2.len() - 1 implies #[trigger] r2[k].0 != r2[k + 1].0 by {
                if k < r.len() - 1 {
                    assert(r2[k] == r[k] && r2[k + 1] == r[k + 1]);
                }
            }
        }
    }
}

proof fn lemma_runs_view_take_push(runs: Seq<Run>, k: int)
    requires
        0 <= k < runs.len(),
    ensures
        runs_view(runs.take(k + 1)) == runs_view(runs.take(k)).push(run_model(runs[k])),
        expand_runs(runs_view(runs.take(k + 1))) == expand_runs(runs_view(runs.take(k))) + Seq::new(
            runs[k].length as nat,
            |i: int| runs[k].value,
        ),
{
    assert(runs_view(runs.take(k + 1)) =~= runs_view(runs.take(k)).push(run_model(runs[k])));
    assert(runs_view(runs.take(k + 1)).drop_last() =~= runs_view(runs.take(k)));
}

/// Splits `flat` into runs of equal voxels, in order; each run's length is
/// stored in 16 bits.
pub fn compress_to_runs(flat: &[VoxelType]) -> (runs: Vec<Run>)
    ensures
        runs@ == runs_of(flat@).map_values(|p: (VoxelType, nat)| stored_run(p)),
{
    let mut runs: Vec<Run> = Vec::new();
    if flat.len() == 0 {
        assert(flat@ =~= Seq::<VoxelType>::empty());
        assert(runs@ =~= runs_of(flat@).map_values(|p: (VoxelType, nat)| stored_run(p)));
        return runs;
    }
    let mut start: usize = 0;
    let mut i: usize = 1;
    assert(flat@.take(0) =~= Seq::<VoxelType>::empty());
    assert(runs@ =~= runs_of(flat@.take(0)).map_values(|p: (VoxelType, nat)| stored_run(p)));
    while i < flat.len()
        invariant
            0 <= start < i <= flat.len(),
            forall|k: int| start <= k < i ==> #[trigger] flat@[k] == flat@[start as int],
            start == 0 || flat@[start - 1] != flat@[start as int],
            runs@ == runs_of(flat@.take(start as int)).map_values(|p: (VoxelType, nat)| stored_run(p)),
        decreases flat.len() - i,
    {
        if flat[i] != flat[start] {
            proof {
                lemma_runs_of_segment(flat@, start as int, i as int);
            }
            runs.push(Run { value: flat[start], length: (i - start) as u16 });
            assert(runs@ =~= runs_of(flat@.take(i as int)).map_values(|p: (VoxelType, nat)| stored_run(p)));
            start = i;
        }
        i += 1;
    }
    proof {
        lemma_runs_of_segment(flat@, start as int, flat.len() as int);
        assert(flat@.take(flat.len() as int) =~= flat@);
    }
    runs.push(Run { value: flat[start], length: (flat.len() - start) as u16 });
    assert(runs@ =~= runs_of(flat@).map_values(|p: (VoxelType, nat)| stored_run(p)));
    runs
}

/// Expands runs back into voxels.
fn expand(runs: &Vec<Run>) -> (flat: Vec<VoxelType>)
    ensures
        flat@ == expand_runs(runs_view(runs@)),
{
    let mut flat: Vec<VoxelType> = Vec::new();
    let mut k: usize = 0;
    assert(runs_view(runs@.take(0)) =~= Seq::<(VoxelType, nat)>::empty());
    while k < runs.len()
        invariant
            k <= runs.len(),
            flat@ == expand_runs(runs_view(runs@.take(k as int))),
        decreases runs.len() - k,
    {
        let run = runs[k];
        let ghost before = flat@;
        let mut j: u16 = 0;
        while j < run.length
            invariant
                j <= run.length,
                flat@ == before + Seq::new(j as nat, |i: int| run.value),
            decreases run.length - j,
        {
            flat.push(run.value);
            j += 1;
            assert(flat@ =~= before + Seq::new(j as nat, |i: int| run.value));
        }
        proof {
            lemma_runs_view_take_push(runs@, k as int);
        }
        k += 1;
    }
    assert(runs@.take(runs.len() as int) =~= runs@);
    flat
}

/// The voxels of the first `k` runs are a prefix of the voxels of all runs.
proof fn lemma_expand_prefix_of(runs: Seq<Run>, k: int)
    requires
        0 <= k <= runs.len(),
    ensures
        expand_runs(runs_view(runs.take(k))).len() <= expand_runs(runs_view(runs)).len(),
        expand_runs(runs_view(runs)).take(expand_runs(runs_view(runs.take(k))).len() as int)
            == expand_runs(runs_view(runs.take(k))),
    decreases runs.len() - k,
{
    if k == runs.len() {
        assert(runs.take(k) =~= runs);
        assert(expand_runs(runs_view(runs)).take(expand_runs(runs_view(runs)).len() as int)
            =~= expand_runs(runs_view(runs)));
    } else {
        lemma_expand_prefix_of(runs, k + 1);
        lemma_runs_view_take_push(runs, k);
        let p = expand_runs(runs_view(runs.take(k)));
        let q = expand_runs(runs_view(runs.take(k + 1)));
        let e = expand_runs(runs_view(runs));
        assert(e.take(p.len() as int) =~= q.take(p.len() as int));
        assert(q.take(p.len() as int) =~= p);
    }
}

/// Run `k` stands for the voxels right after those of the runs before it.
proof fn lemma_expand_prefix(runs: Seq<Run>, k: int)
    requires
        0 <= k < runs.len(),
    ensures
        ({
            let e = expand_runs(runs_view(runs));
            let start = expand_runs(runs_view(runs.take(k))).len() as int;
            &&& start + runs[k].length <= e.len()
            &&& forall|i: int| start <= i < start + runs[k].length ==> #[trigger] e[i] == runs[k].value
            &&& expand_runs(runs_view(runs.take(k + 1))) == e.take(start + runs[k].length)
        }),
{
    lemma_expand_prefix_of(runs, k + 1);
    lemma_runs_view_take_push(runs, k);
    let e = expand_runs(runs_view(runs));
    let p = expand_runs(runs_view(runs.take(k)));
    let q = expand_runs(runs_view(runs.take(k + 1)));
    assert forall|i: int| p.len() <= i < p.len() + runs[k].length implies #[trigger] e[i] == runs[k].value by {
        assert(e[i] == e.take(q.len() as int)[i]);
        assert(q[i] == Seq::new(runs[k].length as nat, |j: int| runs[k].value)[i - p.len()]);
    }
}

/// Decompressing what was compressed gives the voxels back, as long as no
/// run is longer than `u16::MAX`.
pub proof fn lemma_compress_round_trip(flat: Seq<VoxelType>)
    requires
        runs_fit(flat),
    ensures
        expand_runs(runs_view(runs_of(flat).map_values(|p: (VoxelType, nat)| stored_run(p)))) == flat,
{
    let stored = runs_of(flat).map_values(|p: (VoxelType, nat)| stored_run(p));
    assert(runs_view(stored) =~= runs_of(flat));
    lemma_expand_runs_of(flat);
}

// ---------------------------------------------------------------------------
// A run-length encoded chunk.
// ---------------------------------------------------------------------------

/// Number of equal voxels in a row that end at position `i` of `s`.
pub open spec fn equal_run_ending(s: Seq<VoxelType>, i: int) -> nat
    decreases i,
{
    if i > 0 && s[i - 1] == s[i] {
        equal_run_ending(s, i - 1) + 1
    } else {
        1
    }
}

proof fn lemma_equal_run_ending_prefix(s: Seq<VoxelType>, n: int, i: int)
    requires
        0 <= i < n <= s.len(),
    ensures
        equal_run_ending(s.take(n), i) == equal_run_ending(s, i),
    decreases i,
{
    if i > 0 {
        lemma_equal_run_ending_prefix(s, n, i - 1);
    }
}

/// No run of `s` is longer than the longest stretch of equal voxels.
proof fn lemma_runs_bounded(s: Seq<VoxelType>, bound: nat)
    requires
        forall|i: int| 0 <= i < s.len() ==> #[trigger] equal_run_ending(s, i) <= bound,
    ensures
        forall|k: int| 0 <= k < runs_of(s).len() ==> #[trigger] runs_of(s)[k].1 <= bound,
        s.len() > 0 ==> runs_of(s).last().1 == equal_run_ending(s, s.len() - 1),
    decreases s.len(),
{
    if s.len() > 0 {
        let t = s.drop_last();
        assert(t =~= s.take(s.len() - 1));
        assert forall|i: int| 0 <= i < t.len() implies #[trigger] equal_run_ending(t, i) <= bound by {
            lemma_equal_run_ending_prefix(s, s.len() - 1, i);
            assert(equal_run_ending(s, i) <= bound);
        }
        lemma_runs_bounded(t, bound);
        if t.len() > 0 {
            lemma_equal_run_ending_prefix(s, s.len() - 1, t.len() - 1);
            lemma_runs_of_last(t);
        }
        assert(equal_run_ending(s, s.len() - 1) <= bound);
    }
}

/// The voxel that `Chunk::generate` puts at height `y`: grass below 64, air above.
pub open spec fn generated_voxel(y: int) -> VoxelType {
    if y < 64 {
        VoxelType::Grass
    } else {
        VoxelType::Air
    }
}

/// Index in a flat chunk buffer of `(x, y, z)` (x slowest, then z, then y).
pub open spec fn flat_index(x: int, y: int, z: int) -> int {
    x * (CHUNK_Z * CHUNK_Y) + z * CHUNK_Y + y
}

proof fn lemma_generated_stretches(s: Seq<VoxelType>, i: int)
    requires
        forall|k: int| 0 <= k < s.len() ==> #[trigger] s[k] == generated_voxel(k % 256),
        0 <= i < s.len(),
    ensures
        equal_run_ending(s, i) <= if i % 256 < 64 {
            i % 256 + 1
        } else {
            i % 256 - 63
        },
    decreases i,
{
    if i > 0 {
        lemma_generated_stretches(s, i - 1);
        if i % 256 != 0 {
            assert((i - 1) % 256 == i % 256 - 1);
        } else {
            assert((i - 1) % 256 == 255);
        }
    }
}

/// A chunk stored as runs of equal voxels; the runs always stand for
/// exactly `CHUNK_VOLUME` voxels.
pub struct Chunk {
    runs: Vec<Run>,
}

impl View for Chunk {
    type V = Seq<VoxelType>;

    closed spec fn view(&self) -> Seq<VoxelType> {
        expand_runs(runs_view(self.runs@))
    }
}

impl Chunk {
    #[verifier::type_invariant]
    spec fn wf(self) -> bool {
        expand_runs(runs_view(self.runs@)).len() == CHUNK_VOLUME
    }

    /// A flat terrain: every column grass up to height 64, air above, stored as runs.
    pub fn generate() -> (chunk: Self)
        ensures
            chunk@.len() == CHUNK_VOLUME,
            forall|x: int, y: int, z: int|
                0 <= x < CHUNK_X && 0 <= y < CHUNK_Y && 0 <= z < CHUNK_Z ==> #[trigger] chunk@[flat_index(
                    x,
                    y,
                    z,
                )] == generated_voxel(y),
    {
        assert(CHUNK_VOLUME == 262144) by (nonlinear_arith)
            requires CHUNK_VOLUME == CHUNK_X * CHUNK_Y * CHUNK_Z, CHUNK_X == 32, CHUNK_Y == 256, CHUNK_Z == 32;
        let mut flat: Vec<VoxelType> = Vec::with_capacity(CHUNK_VOLUME);
        let mut x: usize = 0;
        while x < CHUNK_X
            invariant
                x <= CHUNK_X,
                flat@.len() == x * 8192,
                forall|k: int| 0 <= k < flat@.len() ==> #[trigger] flat@[k] == generated_voxel(k % 256),
            decreases CHUNK_X - x,
        {
            let mut z: usize = 0;
            while z < CHUNK_Z
                invariant
                    x < CHUNK_X,
                    z <= CHUNK_Z,
                    flat@.len() == x * 8192 + z * 256,
                    forall|k: int| 0 <= k < flat@.len() ==> #[trigger] flat@[k] == generated_voxel(k % 256),
                decreases CHUNK_Z - z,
            {
                let mut y: usize = 0;
                let ghost base = flat@.len();
                assert(base % 256 == 0);
                while y < CHUNK_Y
                    invariant
                        x < CHUNK_X,
                        z < CHUNK_Z,
                        y <= CHUNK_Y,
                        base == x * 8192 + z * 256,
                        base % 256 == 0,
                        flat@.len() == base + y,
                        forall|k: int| 0 <= k < flat@.len() ==> #[trigger] flat@[k] == generated_voxel(k % 256),
                    decreases CHUNK_Y - y,
                {
                    let voxel = if y < 64 {
                        VoxelType::Grass
                    } else {
                        VoxelType::Air
                    };
                    assert((base + y) % 256 == y);
                    flat.push(voxel);
                    y += 1;
                }
                z += 1;
            }
            x += 1;
        }
        proof {
            assert forall|i: int| 0 <= i < flat@.len() implies #[trigger] equal_run_ending(flat@, i) <= 192 by {
                lemma_generated_stretches(flat@, i);
            }
            lemma_runs_bounded(flat@, 192);
            lemma_compress_round_trip(flat@);
        }
        let runs = compress_to_runs(flat.as_slice());
        let chunk = Self { runs };
        assert forall|x: int, y: int, z: int|
            0 <= x < CHUNK_X && 0 <= y < CHUNK_Y && 0 <= z < CHUNK_Z implies #[trigger] chunk@[flat_index(
            x,
            y,
            z,
        )] == generated_voxel(y) by {
            assert(flat_index(x, y, z) % 256 == y);
        }
        chunk
    }

    /// The runs that the chunk is stored as, in order; the chunk's voxels
    /// are their expansion.
    pub fn runs(&self) -> (runs: &[Run])
        ensures
            expand_runs(runs_view(runs@)) == self@,
    {
        self.runs.as_slice()
    }

    /// The chunk's voxels, expanded from its runs.
    pub fn decompress(&self) -> (flat: Vec<VoxelType>)
        ensures
            flat@ == self@,
            flat@.len() == CHUNK_VOLUME,
    {
        proof {
            use_type_invariant(self);
        }
        expand(&self.runs)
    }

    /// The voxel at chunk coordinates `(x, y, z)` of a flat chunk buffer.
    pub fn get_voxel(flat: &[VoxelType], x: usize, y: usize, z: usize) -> (voxel: VoxelType)
        requires
            flat_index(x as int, y as int, z as int) < flat.len(),
        ensures
            voxel == flat@[flat_index(x as int, y as int, z as int)],
    {
        let index = x * (CHUNK_Z * CHUNK_Y) + z * CHUNK_Y + y;
        flat[index]
    }
}

// ---------------------------------------------------------------------------
// Face culling of a run-length chunk.
// ---------------------------------------------------------------------------

/// A neighbour position shows a face when it is outside the chunk or air.
pub open spec fn spec_is_transparent(flat: Seq<VoxelType>, x: int, y: int, z: int) -> bool {
    if x < 0 || x >= CHUNK_X || y < 0 || y >= CHUNK_Y || z < 0 || z >= CHUNK_Z {
        true
    } else {
        flat[flat_index(x, y, z)] == VoxelType::Air
    }
}

/// Whether the position `(x, y, z)` is air or lies outside the chunk.
pub fn is_transparent(flat: &[VoxelType], x: i32, y: i32, z: i32) -> (transparent: bool)
    requires
        0 <= x < CHUNK_X && 0 <= y < CHUNK_Y && 0 <= z < CHUNK_Z ==> flat_index(x as int, y as int, z as int)
            < flat.len(),
    ensures
        transparent == spec_is_transparent(flat@, x as int, y as int, z as int),
{
    if x < 0 || x >= CHUNK_X as i32 || y < 0 || y >= CHUNK_Y as i32 || z < 0 || z >= CHUNK_Z as i32 {
        return true;
    }
    Chunk::get_voxel(flat, x as usize, y as usize, z as usize) == VoxelType::Air
}

/// One visible face of a voxel: the voxel's position, which of the six
/// directions it faces (+x, -x, +y, -y, +z, -z), and the voxel.
#[derive(Clone, Copy, Debug)]
pub struct VoxelFace {
    pub x: usize,
    pub y: usize,
    pub z: usize,
    pub face: usize,
    pub value: VoxelType,
}

/// The faces of a chunk and the indices of their triangles, four vertices
/// per face.
pub struct ChunkFaces {
    pub faces: Vec<VoxelFace>,
    pub indices: Vec<u32>,
}

pub open spec fn direction_offset(d: int) -> (int, int, int) {
    if d == 0 {
        (1, 0, 0)
    } else if d == 1 {
        (-1, 0, 0)
    } else if d == 2 {
        (0, 1, 0)
    } else if d == 3 {
        (0, -1, 0)
    } else if d == 4 {
        (0, 0, 1)
    } else {
        (0, 0, -1)
    }
}

/// Chunk coordinates of position `i` of a flat chunk buffer.
pub open spec fn index_coords(i: int) -> (int, int, int) {
    (i / (CHUNK_Y * CHUNK_Z) as int, i % (CHUNK_Y as int), (i / (CHUNK_Y as int)) % (CHUNK_Z as int))
}

pub open spec fn face_shows(flat: Seq<VoxelType>, i: int, d: int) -> bool {
    let (x, y, z) = index_coords(i);
    let (dx, dy, dz) = direction_offset(d);
    spec_is_transparent(flat, x + dx, y + dy, z + dz)
}

pub open spec fn face_at(flat: Seq<VoxelType>, i: int, d: int) -> VoxelFace {
    let (x, y, z) = index_coords(i);
    VoxelFace { x: x as usize, y: y as usize, z: z as usize, face: d as usize, value: flat[i] }
}

/// The visible faces of voxel `i` among the first `d` directions.
pub open spec fn voxel_faces_upto(flat: Seq<VoxelType>, i: int, d: int) -> Seq<VoxelFace>
    decreases d,
{
    if d <= 0 {
        Seq::empty()
    } else {
        voxel_faces_upto(flat, i, d - 1) + if face_shows(flat, i, d - 1) {
            seq![face_at(flat, i, d - 1)]
        } else {
            Seq::empty()
        }
    }
}

/// The visible faces of voxel `i`: none for air.
pub open spec fn voxel_faces(flat: Seq<VoxelType>, i: int) -> Seq<VoxelFace> {
    if flat[i] == VoxelType::Air {
        Seq::empty()
    } else {
        voxel_faces_upto(flat, i, 6)
    }
}

/// The visible faces of the first `n` voxels, voxel by voxel.
pub open spec fn chunk_faces_upto(flat: Seq<VoxelType>, n: int) -> Seq<VoxelFace>
    decreases n,
{
    if n <= 0 {
        Seq::empty()
    } else {
        chunk_faces_upto(flat, n - 1) + voxel_faces(flat, n - 1)
    }
}

pub open spec fn face_triangle(t: int) -> int {
    if t == 0 {
        0
    } else if t == 1 {
        1
    } else if t == 2 {
        2
    } else if t == 3 {
        0
    } else if t == 4 {
        2
    } else {
        3
    }
}

/// Six indices per face: face `f` has vertices `4f .. 4f + 3` and the
/// triangles (0, 1, 2) and (0, 2, 3) of them.
pub open spec fn face_indices_ok(indices: Seq<u32>, face_count: int) -> bool {
    &&& indices.len() == 6 * face_count
    &&& forall|f: int, t: int|
        0 <= f < face_count && 0 <= t < 6 ==> #[trigger] indices[6 * f + t] == 4 * f + face_triangle(t)
}

proof fn lemma_voxel_faces_upto_len(flat: Seq<VoxelType>, i: int, d: int)
    requires
        0 <= d,
    ensures
        voxel_faces_upto(flat, i, d).len() <= d,
    decreases d,
{
    if d > 0 {
        lemma_voxel_faces_upto_len(flat, i, d - 1);
    }
}

proof fn lemma_chunk_faces_len(flat: Seq<VoxelType>, n: int)
    requires
        0 <= n,
    ensures
        chunk_faces_upto(flat, n).len() <= 6 * n,
    decreases n,
{
    if n > 0 {
        lemma_chunk_faces_len(flat, n - 1);
        lemma_voxel_faces_upto_len(flat, n - 1, 6);
    }
}

proof fn lemma_air_adds_no_faces(flat: Seq<VoxelType>, start: int, n: int)
    requires
        0 <= start <= n <= flat.len(),
        forall|k: int| start <= k < n ==> #[trigger] flat[k] == VoxelType::Air,
    ensures
        chunk_faces_upto(flat, n) == chunk_faces_upto(flat, start),
    decreases n - start,
{
    if n > start {
        lemma_air_adds_no_faces(flat, start, n - 1);
        assert(chunk_faces_upto(flat, n) =~= chunk_faces_upto(flat, n - 1));
    }
}

fn direction(d: usize) -> (o: (i32, i32, i32))
    requires
        d < 6,
    ensures
        (o.0 as int, o.1 as int, o.2 as int) == direction_offset(d as int),
{
    if d == 0 {
        (1, 0, 0)
    } else if d == 1 {
        (-1, 0, 0)
    } else if d == 2 {
        (0, 1, 0)
    } else if d == 3 {
        (0, -1, 0)
    } else if d == 4 {
        (0, 0, 1)
    } else {
        (0, 0, -1)
    }
}

/// A voxel index gives back coordinates inside the chunk that index it.
proof fn lemma_index_coords(i: int)
    requires
        0 <= i < CHUNK_VOLUME,
    ensures
        0 <= index_coords(i).0 < CHUNK_X,
        0 <= index_coords(i).1 < CHUNK_Y,
        0 <= index_coords(i).2 < CHUNK_Z,
        flat_index(index_coords(i).0, index_coords(i).1, index_coords(i).2) == i,
{
    assert(CHUNK_VOLUME == 262144) by (nonlinear_arith)
        requires CHUNK_VOLUME == CHUNK_X * CHUNK_Y * CHUNK_Z, CHUNK_X == 32, CHUNK_Y == 256, CHUNK_Z == 32;
    assert(CHUNK_Y * CHUNK_Z == 8192) by (nonlinear_arith)
        requires CHUNK_Y == 256, CHUNK_Z == 32;
    assert(CHUNK_Z * CHUNK_Y == 8192) by (nonlinear_arith)
        requires CHUNK_Y == 256, CHUNK_Z == 32;
    let q = i / 256;
    lemma_fundamental_div_mod(i, 256);
    lemma_fundamental_div_mod(q, 32);
    lemma_div_denominator(i, 256, 32);
    assert(0 <= q < 1024) by (nonlinear_arith)
        requires 0 <= i < 262144, q == i / 256;
    assert(0 <= i / 8192 < 32) by (nonlinear_arith)
        requires 0 <= i < 262144;
}

/// A face is on the chunk's voxel, faces one of the six directions, and
/// shows toward that direction.
spec fn faces_outward(flat: Seq<VoxelType>, f: VoxelFace) -> bool {
    &&& f.x < CHUNK_X && f.y < CHUNK_Y && f.z < CHUNK_Z && f.face < 6
    &&& f.value != VoxelType::Air
    &&& f.value == flat[flat_index(f.x as int, f.y as int, f.z as int)]
    &&& f.face == 0 ==> spec_is_transparent(flat, f.x + 1, f.y as int, f.z as int)
    &&& f.face == 1 ==> spec_is_transparent(flat, f.x - 1, f.y as int, f.z as int)
    &&& f.face == 2 ==> spec_is_transparent(flat, f.x as int, f.y + 1, f.z as int)
    &&& f.face == 3 ==> spec_is_transparent(flat, f.x as int, f.y - 1, f.z as int)
    &&& f.face == 4 ==> spec_is_transparent(flat, f.x as int, f.y as int, f.z + 1)
    &&& f.face == 5 ==> spec_is_transparent(flat, f.x as int, f.y as int, f.z - 1)
}

proof fn lemma_voxel_faces_outward(flat: Seq<VoxelType>, i: int, d: int)
    requires
        flat.len() == CHUNK_VOLUME,
        0 <= i < CHUNK_VOLUME,
        flat[i] != VoxelType::Air,
        0 <= d <= 6,
    ensures
        forall|j: int| 0 <= j < voxel_faces_upto(flat, i, d).len() ==> #[trigger] faces_outward(
            flat,
            voxel_faces_upto(flat, i, d)[j],
        ),
    decreases d,
{
    if d > 0 {
        lemma_voxel_faces_outward(flat, i, d - 1);
        lemma_index_coords(i);
        let prev = voxel_faces_upto(flat, i, d - 1);
        let all = voxel_faces_upto(flat, i, d);
        assert forall|j: int| 0 <= j < all.len() implies #[trigger] faces_outward(flat, all[j]) by {
            if j < prev.len() {
                assert(all[j] == prev[j]);
            } else {
                assert(all[j] == face_at(flat, i, d - 1));
            }
        }
    }
}

proof fn lemma_chunk_faces_outward(flat: Seq<VoxelType>, n: int)
    requires
        flat.len() == CHUNK_VOLUME,
        0 <= n <= CHUNK_VOLUME,
    ensures
        forall|j: int| 0 <= j < chunk_faces_upto(flat, n).len() ==> #[trigger] faces_outward(
            flat,
            chunk_faces_upto(flat, n)[j],
        ),
    decreases n,
{
    if n > 0 {
        lemma_chunk_faces_outward(flat, n - 1);
        let prev = chunk_faces_upto(flat, n - 1);
        let own = voxel_faces(flat, n - 1);
        let all = chunk_faces_upto(flat, n);
        if flat[n - 1] != VoxelType::Air {
            lemma_voxel_faces_outward(flat, n - 1, 6);
        }
        assert forall|j: int| 0 <= j < all.len() implies #[trigger] faces_outward(flat, all[j]) by {
            if j < prev.len() {
                assert(all[j] == prev[j]);
            } else {
                assert(all[j] == own[j - prev.len()]);
            }
        }
    }
}

/// Every face that face culling keeps lies on a solid voxel of the chunk
/// and faces a neighbour that is air or outside the chunk: face 0 looks
/// toward +x, 1 toward -x, 2 toward +y, 3 toward -y, 4 toward +z and 5
/// toward -z.
pub proof fn lemma_mesh_faces_point_outward(flat: Seq<VoxelType>, f: VoxelFace)
    requires
        flat.len() == CHUNK_VOLUME,
        chunk_faces_upto(flat, CHUNK_VOLUME as int).contains(f),
    ensures
        f.x < CHUNK_X && f.y < CHUNK_Y && f.z < CHUNK_Z && f.face < 6,
        f.value != VoxelType::Air,
        f.value == flat[flat_index(f.x as int, f.y as int, f.z as int)],
        f.face == 0 ==> spec_is_transparent(flat, f.x + 1, f.y as int, f.z as int),
        f.face == 1 ==> spec_is_transparent(flat, f.x - 1, f.y as int, f.z as int),
        f.face == 2 ==> spec_is_transparent(flat, f.x as int, f.y + 1, f.z as int),
        f.face == 3 ==> spec_is_transparent(flat, f.x as int, f.y - 1, f.z as int),
        f.face == 4 ==> spec_is_transparent(flat, f.x as int, f.y as int, f.z + 1),
        f.face == 5 ==> spec_is_transparent(flat, f.x as int, f.y as int, f.z - 1),
{
    lemma_chunk_faces_outward(flat, CHUNK_VOLUME as int);
    let j = choose|j: int| 0 <= j < chunk_faces_upto(flat, CHUNK_VOLUME as int).len()
        && chunk_faces_upto(flat, CHUNK_VOLUME as int)[j] == f;
    assert(faces_outward(flat, chunk_faces_upto(flat, CHUNK_VOLUME as int)[j]));
}

/// Culls the faces of a run-length chunk: every face of a non-air voxel
/// whose neighbour is air or outside the chunk, voxel by voxel and in the
/// order +x, -x, +y, -y, +z, -z, with two triangles per face.
pub fn create_chunk_mesh(chunk: &Chunk) -> (mesh: ChunkFaces)
    ensures
        mesh.faces@ == chunk_faces_upto(chunk@, CHUNK_VOLUME as int),
        face_indices_ok(mesh.indices@, mesh.faces@.len() as int),
{
    proof {
        use_type_invariant(chunk);
    }
    assert(CHUNK_VOLUME == 262144) by (nonlinear_arith)
        requires CHUNK_VOLUME == CHUNK_X * CHUNK_Y * CHUNK_Z, CHUNK_X == 32, CHUNK_Y == 256, CHUNK_Z == 32;
    let voxels = chunk.decompress();
    let ghost flat = voxels@;
    let mut faces: Vec<VoxelFace> = Vec::new();
    let mut indices: Vec<u32> = Vec::new();
    let mut vertex_offset: u32 = 0;
    let face_tris: [u32; 6] = [0, 1, 2, 0, 2, 3];
    let mut current_idx: usize = 0;
    let mut k: usize = 0;
    assert(runs_view(chunk.runs@.take(0)) =~= Seq::<(VoxelType, nat)>::empty());
    while k < chunk.runs.len()
        invariant
            CHUNK_VOLUME == 262144,
            flat == chunk@,
            flat.len() == CHUNK_VOLUME,
            voxels@ == flat,
            face_tris@ == seq![0u32, 1, 2, 0, 2, 3],
            k <= chunk.runs@.len(),
            flat == expand_runs(runs_view(chunk.runs@)),
            current_idx == expand_runs(runs_view(chunk.runs@.take(k as int))).len(),
            expand_runs(runs_view(chunk.runs@.take(k as int))) == flat.take(current_idx as int),
            faces@ == chunk_faces_upto(flat, current_idx as int),
            faces@.len() <= 6 * current_idx,
            face_indices_ok(indices@, faces@.len() as int),
            vertex_offset == 4 * faces@.len(),
        decreases chunk.runs.len() - k,
    {
        let run = chunk.runs[k];
        let ghost start = current_idx as int;
        proof {
            lemma_runs_view_take_push(chunk.runs@, k as int);
            lemma_expand_prefix(chunk.runs@, k as int);
        }
        if run.value == VoxelType::Air {
            proof {
                lemma_air_adds_no_faces(flat, start, start + run.length);
            }
            current_idx += run.length as usize;
            k += 1;
            continue;
        }
        let mut j: u16 = 0;
        while j < run.length
            invariant
                CHUNK_VOLUME == 262144,
                flat.len() == CHUNK_VOLUME,
                voxels@ == flat,
                face_tris@ == seq![0u32, 1, 2, 0, 2, 3],
                start + run.length <= flat.len(),
                forall|i: int| start <= i < start + run.length ==> #[trigger] flat[i] == run.value,
                run.value != VoxelType::Air,
                j <= run.length,
                current_idx == start + j,
                faces@ == chunk_faces_upto(flat, current_idx as int),
                faces@.len() <= 6 * current_idx,
                face_indices_ok(indices@, faces@.len() as int),
                vertex_offset == 4 * faces@.len(),
            decreases run.length - j,
        {
            let y = current_idx % CHUNK_Y;
            let z = (current_idx / CHUNK_Y) % CHUNK_Z;
            let x = current_idx / (CHUNK_Y * CHUNK_Z);
            assert(x < 32) by (nonlinear_arith)
                requires x == current_idx / 8192, current_idx < 262144;
            let ghost before = faces@;
            let mut d: usize = 0;
            while d < 6
                invariant
                    CHUNK_VOLUME == 262144,
                    flat.len() == CHUNK_VOLUME,
                    voxels@ == flat,
                    face_tris@ == seq![0u32, 1, 2, 0, 2, 3],
                    current_idx < CHUNK_VOLUME,
                    (x as int, y as int, z as int) == index_coords(current_idx as int),
                    x < 32,
                    y < 256,
                    z < 32,
                    d <= 6,
                    before == chunk_faces_upto(flat, current_idx as int),
                    before.len() <= 6 * current_idx,
                    faces@ == before + voxel_faces_upto(flat, current_idx as int, d as int),
                    face_indices_ok(indices@, faces@.len() as int),
                    vertex_offset == 4 * faces@.len(),
                decreases 6 - d,
            {
                proof {
                    lemma_voxel_faces_upto_len(flat, current_idx as int, d as int);
                }
                let (dx, dy, dz) = direction(d);
                if is_transparent(voxels.as_slice(), x as i32 + dx, y as i32 + dy, z as i32 + dz) {
                    let base = vertex_offset;
                    let ghost f = faces@.len() as int;
                    faces.push(VoxelFace { x, y, z, face: d, value: voxels[current_idx] });
                    let mut t: usize = 0;
                    while t < 6
                        invariant
                            face_tris@ == seq![0u32, 1, 2, 0, 2, 3],
                            base == 4 * f,
                            f < 6 * 262144,
                            t <= 6,
                            indices@.len() == 6 * f + t,
                            forall|g: int, tt: int|
                                0 <= g < f && 0 <= tt < 6 ==> #[trigger] indices@[6 * g + tt] == 4 * g
                                    + face_triangle(tt),
                            forall|tt: int|
                                0 <= tt < t ==> #[trigger] indices@[6 * f + tt] == 4 * f + face_triangle(tt),
                        decreases 6 - t,
                    {
                        indices.push(base + face_tris[t]);
                        t += 1;
                    }
                    vertex_offset += 4;
                    proof {
                        assert forall|g: int, tt: int|
                            0 <= g < f + 1 && 0 <= tt < 6 implies #[trigger] indices@[6 * g + tt] == 4 * g
                                + face_triangle(tt) by {
                            if g == f {
                                assert(indices@[6 * f + tt] == 4 * f + face_triangle(tt));
                            }
                        }
                    }
                }
                assert(faces@ =~= before + voxel_faces_upto(flat, current_idx as int, d + 1));
                d += 1;
            }
            proof {
                lemma_voxel_faces_upto_len(flat, current_idx as int, 6);
                assert(chunk_faces_upto(flat, current_idx + 1) =~= before + voxel_faces(flat, current_idx as int));
            }
            current_idx += 1;
            j += 1;
        }
        k += 1;
    }
    proof {
        assert(chunk.runs@.take(chunk.runs@.len() as int) =~= chunk.runs@);
    }
    ChunkFaces { faces, indices }
}

} // verus!
