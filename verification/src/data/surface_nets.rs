//! Surface extraction in the surface-nets style, on integers.
//!
//! The voxels of one octree level are decoded into a flat grid. Every cell
//! of that grid, a cube between eight neighbouring grid points, whose
//! corners are neither all air nor all material gets one vertex at its
//! centre. Every grid edge that joins an air corner with a material corner
//! gets a quad between the vertices of the four cells around it, wound so
//! that it faces the air.
//!
//! Positions are in half voxels, so that cell centres are whole numbers;
//! normals are unnormalised sums of corner differences; each vertex carries
//! the material id that dominates its cell. Scaling to world units,
//! normalising and colouring are left to the caller.

use vstd::prelude::*;
use crate::chunk::chunk_manager::ChunkManager;
use crate::chunk::lemma_floor_div_fits;
use crate::chunk::pos_key;
use crate::chunk::pos_local;
use crate::data::voxel_octree::OctreeView;
use crate::data::voxel_octree::VoxelMode;
use crate::data::voxel_octree::VoxelOctree;
use crate::data::voxel_octree::lemma_lod_offset_bounds;
use crate::data::voxel_octree::level_start;
use crate::data::voxel_octree::lod_offset;
use crate::utils::MAX_DEPTH;
use crate::utils::get_size;
use crate::utils::edge_len;
use crate::utils::floor_div;
use crate::utils::grid_index;
use crate::utils::grid_x;
use crate::utils::grid_y;
use crate::utils::grid_z;
use crate::utils::in_grid;
use crate::utils::in_world;
use crate::utils::lemma_scaled_in_range;
use crate::utils::lemma_edge_len;
use crate::utils::lemma_floor_div_block;
use crate::utils::lemma_grid_coords;
use crate::utils::lemma_grid_index;

verus! {

/// The value at the grid point `(x, y, z)` of a grid of edge `n`.
pub open spec fn at(grid: Seq<u8>, n: int, x: int, y: int, z: int) -> u8 {
    grid[grid_index(n, x, y, z)]
}

/// 1 where the grid point holds a material, 0 where it holds air.
pub open spec fn solid(grid: Seq<u8>, n: int, x: int, y: int, z: int) -> int {
    if at(grid, n, x, y, z) != 0 {
        1
    } else {
        0
    }
}

/// The values at the eight corners of the cell `(x, y, z)`. Corner `c` lies
/// at the offset `(c / 4, (c / 2) % 2, c % 2)` from the cell's grid point.
pub open spec fn corner_values(grid: Seq<u8>, n: int, x: int, y: int, z: int) -> Seq<u8> {
    seq![
        at(grid, n, x, y, z),
        at(grid, n, x, y, z + 1),
        at(grid, n, x, y + 1, z),
        at(grid, n, x, y + 1, z + 1),
        at(grid, n, x + 1, y, z),
        at(grid, n, x + 1, y, z + 1),
        at(grid, n, x + 1, y + 1, z),
        at(grid, n, x + 1, y + 1, z + 1),
    ]
}

/// 1 where corner `c` holds a material, 0 where it holds air.
pub open spec fn filled(corners: Seq<u8>, c: int) -> int {
    if corners[c] != 0 {
        1
    } else {
        0
    }
}

/// The number of corners that hold a material.
pub open spec fn filled_count(corners: Seq<u8>) -> int {
    filled(corners, 0) + filled(corners, 1) + filled(corners, 2) + filled(corners, 3) + filled(corners, 4)
        + filled(corners, 5) + filled(corners, 6) + filled(corners, 7)
}

/// `(x, y, z)` names a cell of a grid of edge `n`: all eight corners are
/// grid points.
pub open spec fn has_cell(n: int, x: int, y: int, z: int) -> bool {
    0 <= x < n - 1 && 0 <= y < n - 1 && 0 <= z < n - 1
}

/// The cell `(x, y, z)` straddles the surface: some of its corners are air
/// and some hold a material.
pub open spec fn is_surface(grid: Seq<u8>, n: int, x: int, y: int, z: int) -> bool {
    has_cell(n, x, y, z) && 0 < filled_count(corner_values(grid, n, x, y, z)) < 8
}

/// The grid point with row-major index `i` names a cell that straddles the
/// surface.
pub open spec fn surface_at(grid: Seq<u8>, n: int, i: int) -> bool {
    is_surface(grid, n, grid_x(n, i), grid_y(n, i), grid_z(n, i))
}

/// The number of surface cells among the first `k` grid points: the place,
/// among the vertices, of the vertex of a surface cell with index `k`.
pub open spec fn rank(grid: Seq<u8>, n: int, k: int) -> int
    decreases k,
{
    if k <= 0 {
        0
    } else {
        rank(grid, n, k - 1) + if surface_at(grid, n, k - 1) {
            1int
        } else {
            0int
        }
    }
}

/// The centre of the cell `(x, y, z)` of the grid at level of detail
/// `lod`, in half voxels.
pub open spec fn vertex_position(lod: nat, x: int, y: int, z: int) -> [u32; 3] {
    [
        ((2 * x + 1) * edge_len(lod)) as u32,
        ((2 * y + 1) * edge_len(lod)) as u32,
        ((2 * z + 1) * edge_len(lod)) as u32,
    ]
}

/// The direction in which a cell's material thins out: on each axis, the
/// number of filled corners on the low side less that on the high side.
pub open spec fn corner_normal(corners: Seq<u8>) -> [i32; 3] {
    [
        (filled(corners, 0) + filled(corners, 1) + filled(corners, 2) + filled(corners, 3) - filled(corners, 4)
            - filled(corners, 5) - filled(corners, 6) - filled(corners, 7)) as i32,
        (filled(corners, 0) + filled(corners, 1) + filled(corners, 4) + filled(corners, 5) - filled(corners, 2)
            - filled(corners, 3) - filled(corners, 6) - filled(corners, 7)) as i32,
        (filled(corners, 0) + filled(corners, 2) + filled(corners, 4) + filled(corners, 6) - filled(corners, 1)
            - filled(corners, 3) - filled(corners, 5) - filled(corners, 7)) as i32,
    ]
}

/// 1 where corner `c` holds the value `value`, else 0.
pub open spec fn holds(corners: Seq<u8>, c: int, value: u8) -> int {
    if corners[c] == value {
        1
    } else {
        0
    }
}

/// The number of corners that hold the value `value`.
pub open spec fn occurrences(corners: Seq<u8>, value: u8) -> int {
    holds(corners, 0, value) + holds(corners, 1, value) + holds(corners, 2, value) + holds(corners, 3, value)
        + holds(corners, 4, value) + holds(corners, 5, value) + holds(corners, 6, value) + holds(
        corners,
        7,
        value,
    )
}

/// Material `a` is to be preferred to `b`: it is a material, and `b` is air,
/// or occurs at fewer corners, or at as many and has the lower id.
pub open spec fn beats(corners: Seq<u8>, a: u8, b: u8) -> bool {
    a != 0 && (b == 0 || occurrences(corners, a) > occurrences(corners, b) || (occurrences(corners, a)
        == occurrences(corners, b) && a > b))
}

/// The preferred material among the first `k` corners, or 0 if they are all
/// air.
pub open spec fn dominant_upto(corners: Seq<u8>, k: int) -> u8
    decreases k,
{
    if k <= 0 {
        0
    } else {
        let best = dominant_upto(corners, k - 1);
        if beats(corners, corners[k - 1], best) {
            corners[k - 1]
        } else {
            best
        }
    }
}

/// The material that dominates a cell: the one found at most corners, the
/// highest id among those that tie; 0 if all corners are air.
pub open spec fn dominant(corners: Seq<u8>) -> u8 {
    dominant_upto(corners, 8)
}

/// The dominant material is held by some corner, and no other material of
/// the cell occurs more often, or as often with a higher id.
pub proof fn lemma_dominant(corners: Seq<u8>)
    requires
        corners.len() == 8,
    ensures
        dominant(corners) == 0 <==> filled_count(corners) == 0,
        dominant(corners) != 0 ==> exists|c: int| 0 <= c < 8 && corners[c] == dominant(corners),
        forall|c: int|
            0 <= c < 8 && #[trigger] corners[c] != 0 ==> (occurrences(corners, corners[c]) < occurrences(
                corners,
                dominant(corners),
            ) || (occurrences(corners, corners[c]) == occurrences(corners, dominant(corners)) && corners[c]
                <= dominant(corners))),
{
    lemma_dominant_upto(corners, 8);
    let m = dominant(corners);
    if m != 0 {
        let c = choose|c: int| 0 <= c < 8 && corners[c] == m;
        assert(corners[c] == m);
    }
}

/// The statement of [`lemma_dominant`] for the first `k` corners.
proof fn lemma_dominant_upto(corners: Seq<u8>, k: int)
    requires
        corners.len() == 8,
        0 <= k <= 8,
    ensures
        dominant_upto(corners, k) == 0 <==> (forall|c: int| 0 <= c < k ==> corners[c] == 0),
        dominant_upto(corners, k) != 0 ==> exists|c: int| 0 <= c < k && corners[c] == dominant_upto(corners, k),
        forall|c: int|
            0 <= c < k && #[trigger] corners[c] != 0 ==> (occurrences(corners, corners[c]) < occurrences(
                corners,
                dominant_upto(corners, k),
            ) || (occurrences(corners, corners[c]) == occurrences(corners, dominant_upto(corners, k))
                && corners[c] <= dominant_upto(corners, k))),
    decreases k,
{
    if k > 0 {
        lemma_dominant_upto(corners, k - 1);
        let best = dominant_upto(corners, k - 1);
        let now = dominant_upto(corners, k);
        if best != 0 {
            let c = choose|c: int| 0 <= c < k - 1 && corners[c] == best;
            assert(corners[c] == best);
        }
        if now != 0 && now == corners[k - 1] {
            assert(corners[k - 1] == now);
        }
    }
}

/// One vertex record of the position cache: for a surface cell, the place
/// of its vertex in the mesh and the vertex's position.
#[derive(Clone, Copy, Debug)]
pub struct GridPosition {
    /// The place of the cell's vertex among the vertices of the mesh.
    pub index: u32,
    /// The vertex's position in half voxels; nothing for a cell without
    /// vertex.
    pub pos: Option<[u32; 3]>,
}

impl Default for GridPosition {
    /// The record of a cell without vertex.
    fn default() -> (record: GridPosition)
        ensures
            record.index == u32::MAX,
            record.pos.is_none(),
    {
        GridPosition { index: u32::MAX, pos: None }
    }
}

/// The mesh of one chunk.
#[derive(Debug)]
pub struct MeshData {
    /// One position per vertex, in half voxels from the chunk's first
    /// grid point.
    pub positions: Vec<[u32; 3]>,
    /// One normal per vertex, not normalised.
    pub normals: Vec<[i32; 3]>,
    /// One material id per vertex.
    pub materials: Vec<u8>,
    /// Places in `positions`, three to a triangle.
    pub indices: Vec<u32>,
    /// The level of detail at which the mesh was extracted.
    pub lod: u8,
}

/// What a mesh holds, as plain values.
pub struct MeshView {
    pub positions: Seq<[u32; 3]>,
    pub normals: Seq<[i32; 3]>,
    pub materials: Seq<u8>,
    pub indices: Seq<u32>,
    pub lod: u8,
}

impl View for MeshData {
    type V = MeshView;

    open spec fn view(&self) -> MeshView {
        MeshView {
            positions: self.positions@,
            normals: self.normals@,
            materials: self.materials@,
            indices: self.indices@,
            lod: self.lod,
        }
    }
}

impl MeshView {
    /// The buffers fit together: one normal and one material per position,
    /// whole triangles, and every index names a vertex.
    pub open spec fn wf(self) -> bool {
        &&& self.normals.len() == self.positions.len()
        &&& self.materials.len() == self.positions.len()
        &&& self.indices.len() % 3 == 0
        &&& forall|t: int| 0 <= t < self.indices.len() ==> (#[trigger] self.indices[t]) < self.positions.len()
    }

    /// The mesh has no vertex and no triangle.
    pub open spec fn is_empty(self) -> bool {
        self.positions.len() == 0 && self.normals.len() == 0 && self.materials.len() == 0 && self.indices.len()
            == 0
    }
}

impl MeshData {
    /// A mesh without vertices, for a chunk that shows no surface.
    pub fn empty(lod: u8) -> (mesh: MeshData)
        ensures
            mesh@.is_empty(),
            mesh@.wf(),
            mesh.lod == lod,
    {
        MeshData { positions: Vec::new(), normals: Vec::new(), materials: Vec::new(), indices: Vec::new(), lod }
    }
}

/// The number of corners, among the eight given, that hold a material.
fn count_filled(corners: &[u8; 8]) -> (count: u8)
    ensures
        count == filled_count(corners@),
{
    let mut count: u8 = 0;
    let mut c: usize = 0;
    while c < 8
        invariant
            c <= 8,
            count <= c,
            count == (if c > 0 { filled(corners@, 0) } else { 0 }) + (if c > 1 { filled(corners@, 1) } else { 0 })
                + (if c > 2 { filled(corners@, 2) } else { 0 }) + (if c > 3 { filled(corners@, 3) } else { 0 })
                + (if c > 4 { filled(corners@, 4) } else { 0 }) + (if c > 5 { filled(corners@, 5) } else { 0 })
                + (if c > 6 { filled(corners@, 6) } else { 0 }) + (if c > 7 { filled(corners@, 7) } else { 0 }),
        decreases 8 - c,
    {
        if corners[c] != 0 {
            count = count + 1;
        }
        c = c + 1;
    }
    count
}

/// The number of corners, among the eight given, that hold `value`.
fn count_occurrences(corners: &[u8; 8], value: u8) -> (count: u8)
    ensures
        count == occurrences(corners@, value),
        count <= 8,
{
    let mut count: u8 = 0;
    let mut c: usize = 0;
    while c < 8
        invariant
            c <= 8,
            count <= c,
            count == (if c > 0 { holds(corners@, 0, value) } else { 0 }) + (if c > 1 { holds(corners@, 1, value) } else { 0 })
                + (if c > 2 { holds(corners@, 2, value) } else { 0 }) + (if c > 3 { holds(corners@, 3, value) } else { 0 })
                + (if c > 4 { holds(corners@, 4, value) } else { 0 }) + (if c > 5 { holds(corners@, 5, value) } else { 0 })
                + (if c > 6 { holds(corners@, 6, value) } else { 0 }) + (if c > 7 { holds(corners@, 7, value) } else { 0 }),
        decreases 8 - c,
    {
        if corners[c] == value {
            count = count + 1;
        }
        c = c + 1;
    }
    count
}

/// The material that dominates the eight corners.
pub fn dominant_material(corners: &[u8; 8]) -> (material: u8)
    ensures
        material == dominant(corners@),
{
    let mut best: u8 = 0;
    let mut best_count: u8 = 0;
    let mut c: usize = 0;
    while c < 8
        invariant
            c <= 8,
            best == dominant_upto(corners@, c as int),
            best != 0 ==> best_count == occurrences(corners@, best),
        decreases 8 - c,
    {
        let value: u8 = corners[c];
        let count: u8 = count_occurrences(corners, value);
        if value != 0 && (best == 0 || count > best_count || (count == best_count && value > best)) {
            best = value;
            best_count = count;
        }
        c = c + 1;
    }
    best
}

/// 1 for a material, 0 for air.
fn fill_of(value: u8) -> (filled: i32)
    ensures
        filled == (if value != 0 { 1i32 } else { 0i32 }),
{
    if value != 0 {
        1
    } else {
        0
    }
}

/// The direction in which the material of the eight corners thins out.
pub fn normal_of(corners: &[u8; 8]) -> (normal: [i32; 3])
    ensures
        normal == corner_normal(corners@),
{
    let f0: i32 = fill_of(corners[0]);
    let f1: i32 = fill_of(corners[1]);
    let f2: i32 = fill_of(corners[2]);
    let f3: i32 = fill_of(corners[3]);
    let f4: i32 = fill_of(corners[4]);
    let f5: i32 = fill_of(corners[5]);
    let f6: i32 = fill_of(corners[6]);
    let f7: i32 = fill_of(corners[7]);
    let normal: [i32; 3] = [
        f0 + f1 + f2 + f3 - f4 - f5 - f6 - f7,
        f0 + f1 + f4 + f5 - f2 - f3 - f6 - f7,
        f0 + f2 + f4 + f6 - f1 - f3 - f5 - f7,
    ];
    assert(normal =~= corner_normal(corners@));
    normal
}

/// The working buffers of surface extraction: the decoded grid of one
/// octree level and, for each of its cells, the vertex record. Kept by the
/// caller between extractions so that the buffers are not allocated anew.
#[derive(Debug)]
pub struct VoxelReuse {
    /// The decoded grid in row-major order.
    pub voxels: Vec<u8>,
    /// One vertex record per grid point.
    pub grid_pos: Vec<GridPosition>,
    /// The edge of the decoded grid.
    pub size: u32,
}

impl VoxelReuse {
    /// Both buffers hold one entry per grid point.
    pub open spec fn wf(&self) -> bool {
        &&& 1 <= self.size <= 1024
        &&& self.voxels.len() == self.size * self.size * self.size
        &&& self.grid_pos.len() == self.size * self.size * self.size
    }

    /// Buffers for the voxel level of an octree of the given depth, all
    /// air.
    pub fn new(depth: u32) -> (reuse: VoxelReuse)
        requires
            depth <= MAX_DEPTH,
        ensures
            reuse.wf(),
            reuse.size == edge_len(depth as nat),
            reuse.voxels@ == Seq::new(reuse.voxels.len() as nat, |i: int| 0u8),
    {
        VoxelReuse::new_1(get_size(depth as u8))
    }

    /// Buffers for a grid of edge `size`, all air.
    pub fn new_1(size: u32) -> (reuse: VoxelReuse)
        requires
            1 <= size <= 1024,
        ensures
            reuse.wf(),
            reuse.size == size,
            reuse.voxels@ == Seq::new(reuse.voxels.len() as nat, |i: int| 0u8),
    {
        proof {
            assert(size * size <= 1_048_576 && size * size * size <= 1_073_741_824) by (nonlinear_arith)
                requires
                    1 <= size <= 1024,
            ;
        }
        let count: usize = (size * size * size) as usize;
        let voxels: Vec<u8> = vec![0u8; count];
        let grid_pos: Vec<GridPosition> = vec![GridPosition::default(); count];
        let reuse = VoxelReuse { voxels, grid_pos, size };
        assert(reuse.voxels@ =~= Seq::new(reuse.voxels.len() as nat, |i: int| 0u8));
        reuse
    }

    /// Whether both buffers hold one entry per grid point: what a caller
    /// that has filled the buffers itself has to make sure of before it
    /// extracts a surface from them.
    pub fn is_valid(&self) -> (valid: bool)
        ensures
            valid == self.wf(),
    {
        if self.size < 1 || self.size > 1024 {
            return false;
        }
        proof {
            let size = self.size;
            assert(size * size <= 1_048_576 && size * size * size <= 1_073_741_824) by (nonlinear_arith)
                requires
                    1 <= size <= 1024,
            ;
        }
        let count: usize = (self.size * self.size * self.size) as usize;
        self.voxels.len() == count && self.grid_pos.len() == count
    }

    /// Sets the buffers up for a grid of edge `size` and empties the grid.
    fn reset(&mut self, size: u32)
        requires
            1 <= size <= 1024,
        ensures
            final(self).size == size,
            final(self).voxels.len() == 0,
            final(self).grid_pos.len() == size * size * size,
    {
        proof {
            assert(size * size <= 1_048_576 && size * size * size <= 1_073_741_824) by (nonlinear_arith)
                requires
                    1 <= size <= 1024,
            ;
        }
        let count: usize = (size * size * size) as usize;
        self.size = size;
        self.voxels.clear();
        if self.grid_pos.len() != count {
            self.grid_pos = vec![GridPosition::default(); count];
        }
    }
}

/// Copies level `lod` of the octree into the grid of `reuse`.
pub fn decode(octree: &VoxelOctree, lod: u8, reuse: &mut VoxelReuse)
    requires
        octree.wf(),
        lod <= octree.depth,
    ensures
        final(reuse).wf(),
        final(reuse).size == octree@.side(lod as nat),
        final(reuse).voxels@ == octree@.level(lod as nat),
{
    let (offset, side) = level_start(octree.depth, lod);
    proof {
        lemma_edge_len((octree.depth - lod) as nat);
        lemma_lod_offset_bounds(octree.depth as nat, lod as nat);
        assert(side * side <= 1_048_576 && side * side * side <= 1_073_741_824) by (nonlinear_arith)
            requires
                1 <= side <= 1024,
        ;
    }
    let count: usize = (side * side * side) as usize;
    reuse.reset(side);
    let mut i: usize = 0;
    while i < count
        invariant
            i <= count,
            octree.wf(),
            lod <= octree.depth,
            1 <= side <= 1024,
            count == side * side * side,
            offset == lod_offset(octree.depth as nat, lod as nat),
            offset + count == lod_offset(octree.depth as nat, lod as nat + 1),
            offset + count <= octree.data.len(),
            reuse.size == side,
            reuse.grid_pos.len() == count,
            reuse.voxels.len() == i,
            reuse.voxels@ == octree@.nodes.subrange(offset as int, offset + i),
        decreases count - i,
    {
        let ghost before = reuse.voxels@;
        reuse.voxels.push(octree.data[offset + i]);
        proof {
            assert(reuse.voxels@ =~= octree@.nodes.subrange(offset as int, offset + i + 1));
        }
        i = i + 1;
    }
}

/// The grid point `(x, y, z)` of a decoded level holds the octree's node
/// `(x, y, z)` of that level.
pub proof fn lemma_level_grid(octree: OctreeView, lod: nat, x: int, y: int, z: int)
    requires
        octree.wf(),
        lod <= octree.depth,
        in_grid(octree.side(lod), x, y, z),
    ensures
        octree.level(lod).len() == octree.side(lod) * octree.side(lod) * octree.side(lod),
        at(octree.level(lod), octree.side(lod), x, y, z) == octree.node(lod, x, y, z),
{
    lemma_lod_offset_bounds(octree.depth, lod);
    lemma_grid_index(octree.side(lod), x, y, z);
}

/// The unit step along an axis: 0 for x, 1 for y, 2 for z.
pub open spec fn axis_unit(axis: int) -> (int, int, int) {
    if axis == 0 {
        (1, 0, 0)
    } else if axis == 1 {
        (0, 1, 0)
    } else {
        (0, 0, 1)
    }
}

/// The grid edge that leaves `(x, y, z)` along `axis` joins air with a
/// material, and four cells lie around it.
pub open spec fn crossing(grid: Seq<u8>, n: int, x: int, y: int, z: int, axis: int) -> bool {
    let a = axis_unit(axis);
    let u = axis_unit((axis + 1) % 3);
    let v = axis_unit((axis + 2) % 3);
    &&& x - u.0 - v.0 >= 0
    &&& y - u.1 - v.1 >= 0
    &&& z - u.2 - v.2 >= 0
    &&& solid(grid, n, x, y, z) != solid(grid, n, x + a.0, y + a.1, z + a.2)
}

/// The two triangles across the grid edge that leaves the cell `(x, y, z)`
/// along `axis`, or nothing where that edge does not cross the surface or
/// lies on the low border of the grid. The triangles join the vertices of
/// the four cells around the edge and face the air.
pub open spec fn quad(grid: Seq<u8>, n: int, x: int, y: int, z: int, axis: int) -> Seq<u32> {
    let u = axis_unit((axis + 1) % 3);
    let v = axis_unit((axis + 2) % 3);
    if crossing(grid, n, x, y, z, axis) {
        let i0 = rank(grid, n, grid_index(n, x, y, z)) as u32;
        let i1 = rank(grid, n, grid_index(n, x - u.0, y - u.1, z - u.2)) as u32;
        let i2 = rank(grid, n, grid_index(n, x - u.0 - v.0, y - u.1 - v.1, z - u.2 - v.2)) as u32;
        let i3 = rank(grid, n, grid_index(n, x - v.0, y - v.1, z - v.2)) as u32;
        if solid(grid, n, x, y, z) == 1 {
            seq![i0, i1, i2, i0, i2, i3]
        } else {
            seq![i0, i2, i1, i0, i3, i2]
        }
    } else {
        Seq::empty()
    }
}

/// The triangles that the cell `(x, y, z)` adds to the mesh.
pub open spec fn cell_indices(grid: Seq<u8>, n: int, x: int, y: int, z: int) -> Seq<u32> {
    quad(grid, n, x, y, z, 0) + quad(grid, n, x, y, z, 1) + quad(grid, n, x, y, z, 2)
}

/// The mesh of the cells among the first `k` grid points, in row-major
/// order: each surface cell adds its vertex and its triangles.
pub open spec fn mesh_upto(grid: Seq<u8>, n: int, lod: u8, k: int) -> MeshView
    decreases k,
{
    if k <= 0 {
        MeshView {
            positions: Seq::empty(),
            normals: Seq::empty(),
            materials: Seq::empty(),
            indices: Seq::empty(),
            lod,
        }
    } else {
        let before = mesh_upto(grid, n, lod, k - 1);
        let x = grid_x(n, k - 1);
        let y = grid_y(n, k - 1);
        let z = grid_z(n, k - 1);
        if surface_at(grid, n, k - 1) {
            MeshView {
                positions: before.positions.push(vertex_position(lod as nat, x, y, z)),
                normals: before.normals.push(corner_normal(corner_values(grid, n, x, y, z))),
                materials: before.materials.push(dominant(corner_values(grid, n, x, y, z))),
                indices: before.indices + cell_indices(grid, n, x, y, z),
                lod,
            }
        } else {
            before
        }
    }
}

/// The mesh of a decoded grid of edge `n` at level of detail `lod`.
pub open spec fn surface_mesh(grid: Seq<u8>, n: int, lod: u8) -> MeshView {
    mesh_upto(grid, n, lod, n * n * n)
}

/// The number of surface cells never shrinks as more grid points are
/// counted, and never exceeds the number of points counted.
pub proof fn lemma_rank_monotone(grid: Seq<u8>, n: int, j: int, k: int)
    requires
        0 <= j <= k,
    ensures
        0 <= rank(grid, n, j) <= rank(grid, n, k),
        rank(grid, n, k) <= k,
        rank(grid, n, k) - rank(grid, n, j) <= k - j,
    decreases k,
{
    if j < k {
        lemma_rank_monotone(grid, n, j, k - 1);
    } else if k > 0 {
        lemma_rank_monotone(grid, n, 0, k - 1);
        lemma_rank_monotone(grid, n, k - 1, k - 1);
    }
}

/// The vertex of a surface cell counted among the first `k` grid points is
/// one of the first `rank(k)` vertices.
pub proof fn lemma_rank_of_surface(grid: Seq<u8>, n: int, j: int, k: int)
    requires
        0 <= j < k,
        surface_at(grid, n, j),
    ensures
        0 <= rank(grid, n, j) < rank(grid, n, k),
{
    lemma_rank_monotone(grid, n, j + 1, k);
    lemma_rank_monotone(grid, n, 0, j);
}

/// The four cells around a crossing edge all straddle the surface.
pub proof fn lemma_crossing_cells(grid: Seq<u8>, n: int, x: int, y: int, z: int, axis: int)
    requires
        has_cell(n, x, y, z),
        0 <= axis < 3,
        crossing(grid, n, x, y, z, axis),
    ensures
        is_surface(grid, n, x, y, z),
        is_surface(
            grid,
            n,
            x - axis_unit((axis + 1) % 3).0,
            y - axis_unit((axis + 1) % 3).1,
            z - axis_unit((axis + 1) % 3).2,
        ),
        is_surface(
            grid,
            n,
            x - axis_unit((axis + 1) % 3).0 - axis_unit((axis + 2) % 3).0,
            y - axis_unit((axis + 1) % 3).1 - axis_unit((axis + 2) % 3).1,
            z - axis_unit((axis + 1) % 3).2 - axis_unit((axis + 2) % 3).2,
        ),
        is_surface(
            grid,
            n,
            x - axis_unit((axis + 2) % 3).0,
            y - axis_unit((axis + 2) % 3).1,
            z - axis_unit((axis + 2) % 3).2,
        ),
{
    if axis == 0 {
        lemma_corner_pair(grid, n, x, y, z, 0, 4);
        lemma_corner_pair(grid, n, x, y - 1, z, 2, 6);
        lemma_corner_pair(grid, n, x, y - 1, z - 1, 3, 7);
        lemma_corner_pair(grid, n, x, y, z - 1, 1, 5);
    } else if axis == 1 {
        lemma_corner_pair(grid, n, x, y, z, 0, 2);
        lemma_corner_pair(grid, n, x, y, z - 1, 1, 3);
        lemma_corner_pair(grid, n, x - 1, y, z - 1, 5, 7);
        lemma_corner_pair(grid, n, x - 1, y, z, 4, 6);
    } else {
        lemma_corner_pair(grid, n, x, y, z, 0, 1);
        lemma_corner_pair(grid, n, x - 1, y, z, 4, 5);
        lemma_corner_pair(grid, n, x - 1, y - 1, z, 6, 7);
        lemma_corner_pair(grid, n, x, y - 1, z, 2, 3);
    }
}

/// A cell with one corner in air and another in a material has between
/// one and seven filled corners.
proof fn lemma_corner_pair(grid: Seq<u8>, n: int, x: int, y: int, z: int, c1: int, c2: int)
    requires
        0 <= c1 < 8,
        0 <= c2 < 8,
        filled(corner_values(grid, n, x, y, z), c1) != filled(corner_values(grid, n, x, y, z), c2),
    ensures
        0 < filled_count(corner_values(grid, n, x, y, z)) < 8,
{
}

/// A step from one grid point to another moves the row-major index by
/// `n * n` per step in x, `n` per step in y and 1 per step in z.
pub proof fn lemma_grid_step(n: int, x: int, y: int, z: int, dx: int, dy: int, dz: int)
    ensures
        grid_index(n, x + dx, y + dy, z + dz) == grid_index(n, x, y, z) + dx * (n * n) + dy * n + dz,
{
    assert(((x + dx) * n + (y + dy)) * n + (z + dz) == (x * n + y) * n + z + dx * (n * n) + dy * n + dz)
        by (nonlinear_arith);
}

/// The values at the eight corners of the cell `(x, y, z)`, whose grid
/// point has the row-major index `i`.
fn read_corners(voxels: &Vec<u8>, n: u32, i: u32, x: u32, y: u32, z: u32) -> (corners: [u8; 8])
    requires
        1 <= n <= 1024,
        voxels.len() == n * n * n,
        has_cell(n as int, x as int, y as int, z as int),
        i == grid_index(n as int, x as int, y as int, z as int),
    ensures
        corners@ == corner_values(voxels@, n as int, x as int, y as int, z as int),
{
    proof {
        assert(n * n <= 1_048_576 && n * n * n <= 1_073_741_824) by (nonlinear_arith)
            requires
                1 <= n <= 1024,
        ;
        lemma_grid_index(n as int, x + 1, y + 1, z + 1);
        lemma_grid_step(n as int, x as int, y as int, z as int, 0, 0, 1);
        lemma_grid_step(n as int, x as int, y as int, z as int, 0, 1, 0);
        lemma_grid_step(n as int, x as int, y as int, z as int, 0, 1, 1);
        lemma_grid_step(n as int, x as int, y as int, z as int, 1, 0, 0);
        lemma_grid_step(n as int, x as int, y as int, z as int, 1, 0, 1);
        lemma_grid_step(n as int, x as int, y as int, z as int, 1, 1, 0);
        lemma_grid_step(n as int, x as int, y as int, z as int, 1, 1, 1);
    }
    let area: u32 = n * n;
    let base: usize = i as usize;
    let row: usize = n as usize;
    let slab: usize = area as usize;
    let corners: [u8; 8] = [
        voxels[base],
        voxels[base + 1],
        voxels[base + row],
        voxels[base + row + 1],
        voxels[base + slab],
        voxels[base + slab + 1],
        voxels[base + slab + row],
        voxels[base + slab + row + 1],
    ];
    assert(corners@ =~= corner_values(voxels@, n as int, x as int, y as int, z as int));
    corners
}

/// Every vertex record of a surface cell among the first `k` grid points
/// holds the place of that cell's vertex.
pub open spec fn records_upto(grid: Seq<u8>, n: int, records: Seq<GridPosition>, k: int) -> bool {
    forall|j: int| 0 <= j < k && surface_at(grid, n, j) ==> (#[trigger] records[j]).index == rank(grid, n, j)
}

/// By how much the row-major index grows with a step along `axis`.
pub open spec fn axis_stride(n: int, axis: int) -> int {
    if axis == 0 {
        n * n
    } else if axis == 1 {
        n
    } else {
        1
    }
}

/// The two triangles across the grid edge between the grid points with the
/// indices `i` and `next`, where `j1`, `j2` and `j3` are the indices of the
/// other three cells around the edge; nothing where the edge does not
/// cross the surface.
pub open spec fn quad_between(grid: Seq<u8>, n: int, i: int, next: int, j1: int, j2: int, j3: int) -> Seq<u32> {
    if (grid[i] != 0) != (grid[next] != 0) {
        let i0 = rank(grid, n, i) as u32;
        let i1 = rank(grid, n, j1) as u32;
        let i2 = rank(grid, n, j2) as u32;
        let i3 = rank(grid, n, j3) as u32;
        if grid[i] != 0 {
            seq![i0, i1, i2, i0, i2, i3]
        } else {
            seq![i0, i2, i1, i0, i3, i2]
        }
    } else {
        Seq::empty()
    }
}

/// What [`lemma_quad_indices`] states of the cell `(x, y, z)` and `axis`.
pub open spec fn quad_by_indices(grid: Seq<u8>, n: int, x: int, y: int, z: int, axis: int) -> bool {
    let i = grid_index(n, x, y, z);
    let next = i + axis_stride(n, axis);
    let su = axis_stride(n, (axis + 1) % 3);
    let sv = axis_stride(n, (axis + 2) % 3);
    let low = if axis == 0 {
        y == 0 || z == 0
    } else if axis == 1 {
        z == 0 || x == 0
    } else {
        x == 0 || y == 0
    };
    &&& 0 <= i < next < n * n * n
    &&& low ==> quad(grid, n, x, y, z, axis) == Seq::<u32>::empty()
    &&& !low ==> {
        &&& 0 <= i - su - sv
        &&& su > 0
        &&& sv > 0
        &&& quad(grid, n, x, y, z, axis) == quad_between(grid, n, i, next, i - su, i - su - sv, i - sv)
        &&& (grid[i] != 0) != (grid[next] != 0) ==> {
            &&& surface_at(grid, n, i)
            &&& surface_at(grid, n, i - su)
            &&& surface_at(grid, n, i - su - sv)
            &&& surface_at(grid, n, i - sv)
        }
    }
}

/// The triangles of a cell along an axis, stated over row-major indices:
/// the cells around the edge lie one stride back along each of the other
/// two axes, and all of them straddle the surface where the edge crosses
/// it. A cell on the low border of the grid has no triangles.
pub proof fn lemma_quad_indices(grid: Seq<u8>, n: int, x: int, y: int, z: int, axis: int)
    requires
        n >= 1,
        has_cell(n, x, y, z),
        0 <= axis < 3,
    ensures
        quad_by_indices(grid, n, x, y, z, axis),
{
    if axis == 0 {
        lemma_quad_indices_x(grid, n, x, y, z);
    } else if axis == 1 {
        lemma_quad_indices_y(grid, n, x, y, z);
    } else {
        lemma_quad_indices_z(grid, n, x, y, z);
    }
}

/// [`lemma_quad_indices`] along x.
proof fn lemma_quad_indices_x(grid: Seq<u8>, n: int, x: int, y: int, z: int)
    requires
        n >= 1,
        has_cell(n, x, y, z),
    ensures
        quad_by_indices(grid, n, x, y, z, 0),
{
    lemma_grid_index(n, x, y, z);
    assert(n * n > 0) by (nonlinear_arith)
        requires
            n >= 1,
    ;
    lemma_neighbour(n, x, y, z, 1, 0, 0);
    if !(y == 0 || z == 0) {
        lemma_neighbour(n, x, y, z, 0, -1, 0);
        lemma_neighbour(n, x, y, z, 0, -1, -1);
        lemma_neighbour(n, x, y, z, 0, 0, -1);
        lemma_quad_around(grid, n, (x, y, z), (1, 0, 0), (0, 1, 0), (0, 0, 1), 0);
    }
}

/// [`lemma_quad_indices`] along y.
proof fn lemma_quad_indices_y(grid: Seq<u8>, n: int, x: int, y: int, z: int)
    requires
        n >= 1,
        has_cell(n, x, y, z),
    ensures
        quad_by_indices(grid, n, x, y, z, 1),
{
    lemma_grid_index(n, x, y, z);
    assert(n * n > 0) by (nonlinear_arith)
        requires
            n >= 1,
    ;
    lemma_neighbour(n, x, y, z, 0, 1, 0);
    if !(z == 0 || x == 0) {
        lemma_neighbour(n, x, y, z, 0, 0, -1);
        lemma_neighbour(n, x, y, z, -1, 0, -1);
        lemma_neighbour(n, x, y, z, -1, 0, 0);
        lemma_quad_around(grid, n, (x, y, z), (0, 1, 0), (0, 0, 1), (1, 0, 0), 1);
    }
}

/// [`lemma_quad_indices`] along z.
proof fn lemma_quad_indices_z(grid: Seq<u8>, n: int, x: int, y: int, z: int)
    requires
        n >= 1,
        has_cell(n, x, y, z),
    ensures
        quad_by_indices(grid, n, x, y, z, 2),
{
    lemma_grid_index(n, x, y, z);
    assert(n * n > 0) by (nonlinear_arith)
        requires
            n >= 1,
    ;
    lemma_neighbour(n, x, y, z, 0, 0, 1);
    if !(x == 0 || y == 0) {
        lemma_neighbour(n, x, y, z, -1, 0, 0);
        lemma_neighbour(n, x, y, z, -1, -1, 0);
        lemma_neighbour(n, x, y, z, 0, -1, 0);
        lemma_quad_around(grid, n, (x, y, z), (0, 0, 1), (1, 0, 0), (0, 1, 0), 2);
    }
}

/// The triangles of the cell `p` along `axis`, whose unit step is `a`,
/// with `u` and `v` the unit steps of the two axes that follow: they are
/// the triangles between the cells at `p`, `p - u`, `p - u - v` and
/// `p - v`, and all four cells straddle the surface where the edge from
/// `p` to `p + a` crosses it.
proof fn lemma_quad_around(
    grid: Seq<u8>,
    n: int,
    p: (int, int, int),
    a: (int, int, int),
    u: (int, int, int),
    v: (int, int, int),
    axis: int,
)
    requires
        has_cell(n, p.0, p.1, p.2),
        0 <= axis < 3,
        a == axis_unit(axis),
        u == axis_unit((axis + 1) % 3),
        v == axis_unit((axis + 2) % 3),
        p.0 - u.0 - v.0 >= 0,
        p.1 - u.1 - v.1 >= 0,
        p.2 - u.2 - v.2 >= 0,
    ensures
        quad(grid, n, p.0, p.1, p.2, axis) == quad_between(
            grid,
            n,
            grid_index(n, p.0, p.1, p.2),
            grid_index(n, p.0 + a.0, p.1 + a.1, p.2 + a.2),
            grid_index(n, p.0 - u.0, p.1 - u.1, p.2 - u.2),
            grid_index(n, p.0 - u.0 - v.0, p.1 - u.1 - v.1, p.2 - u.2 - v.2),
            grid_index(n, p.0 - v.0, p.1 - v.1, p.2 - v.2),
        ),
        (grid[grid_index(n, p.0, p.1, p.2)] != 0) != (grid[grid_index(n, p.0 + a.0, p.1 + a.1, p.2 + a.2)] != 0) ==> {
            &&& surface_at(grid, n, grid_index(n, p.0, p.1, p.2))
            &&& surface_at(grid, n, grid_index(n, p.0 - u.0, p.1 - u.1, p.2 - u.2))
            &&& surface_at(grid, n, grid_index(n, p.0 - u.0 - v.0, p.1 - u.1 - v.1, p.2 - u.2 - v.2))
            &&& surface_at(grid, n, grid_index(n, p.0 - v.0, p.1 - v.1, p.2 - v.2))
        },
{
    if crossing(grid, n, p.0, p.1, p.2, axis) {
        lemma_crossing_cells(grid, n, p.0, p.1, p.2, axis);
        lemma_cell_at(grid, n, p.0, p.1, p.2);
        lemma_cell_at(grid, n, p.0 - u.0, p.1 - u.1, p.2 - u.2);
        lemma_cell_at(grid, n, p.0 - u.0 - v.0, p.1 - u.1 - v.1, p.2 - u.2 - v.2);
        lemma_cell_at(grid, n, p.0 - v.0, p.1 - v.1, p.2 - v.2);
    }
}

/// The grid point one step away from `(x, y, z)` on each axis has the
/// row-major index that lies `n * n` further per step in x, `n` per step
/// in y and 1 per step in z, and that index lies in the grid.
proof fn lemma_neighbour(n: int, x: int, y: int, z: int, dx: int, dy: int, dz: int)
    requires
        in_grid(n, x, y, z),
        in_grid(n, x + dx, y + dy, z + dz),
    ensures
        grid_index(n, x + dx, y + dy, z + dz) == grid_index(n, x, y, z) + dx * (n * n) + dy * n + dz,
        0 <= grid_index(n, x + dx, y + dy, z + dz) < n * n * n,
{
    lemma_grid_step(n, x, y, z, dx, dy, dz);
    lemma_grid_index(n, x + dx, y + dy, z + dz);
}

/// Whether the grid point with the row-major index of `(x, y, z)` names a
/// surface cell is whether the cell `(x, y, z)` straddles the surface.
proof fn lemma_cell_at(grid: Seq<u8>, n: int, x: int, y: int, z: int)
    requires
        in_grid(n, x, y, z),
    ensures
        surface_at(grid, n, grid_index(n, x, y, z)) == is_surface(grid, n, x, y, z),
        0 <= grid_index(n, x, y, z) < n * n * n,
{
    lemma_grid_index(n, x, y, z);
}

/// Appends the two triangles across the grid edge that leaves the cell
/// `(x, y, z)` along `axis`, if that edge crosses the surface.
fn push_quad(indices: &mut Vec<u32>, reuse: &VoxelReuse, i: u32, x: u32, y: u32, z: u32, axis: u8)
    requires
        reuse.wf(),
        axis < 3,
        has_cell(reuse.size as int, x as int, y as int, z as int),
        i == grid_index(reuse.size as int, x as int, y as int, z as int),
        records_upto(reuse.voxels@, reuse.size as int, reuse.grid_pos@, i + 1),
    ensures
        final(indices)@ == old(indices)@ + quad(
            reuse.voxels@,
            reuse.size as int,
            x as int,
            y as int,
            z as int,
            axis as int,
        ),
        forall|t: int|
            0 <= t < quad(reuse.voxels@, reuse.size as int, x as int, y as int, z as int, axis as int).len() ==> (
            #[trigger] quad(reuse.voxels@, reuse.size as int, x as int, y as int, z as int, axis as int)[t]) < rank(
                reuse.voxels@,
                reuse.size as int,
                i + 1,
            ),
{
    let n: u32 = reuse.size;
    proof {
        assert(n * n <= 1_048_576 && n * n * n <= 1_073_741_824) by (nonlinear_arith)
            requires
                1 <= n <= 1024,
        ;
        lemma_quad_indices(reuse.voxels@, n as int, x as int, y as int, z as int, axis as int);
    }
    let area: u32 = n * n;
    let low: bool = if axis == 0 {
        y == 0 || z == 0
    } else if axis == 1 {
        z == 0 || x == 0
    } else {
        x == 0 || y == 0
    };
    if low {
        assert(indices@ + Seq::<u32>::empty() =~= indices@);
        return ;
    }
    let along: u32 = if axis == 0 {
        area
    } else if axis == 1 {
        n
    } else {
        1
    };
    let step_u: u32 = if axis == 0 {
        n
    } else if axis == 1 {
        1
    } else {
        area
    };
    let step_v: u32 = if axis == 0 {
        1
    } else if axis == 1 {
        area
    } else {
        n
    };
    push_quad_between(indices, reuse, i, i + along, i - step_u, i - step_u - step_v, i - step_v);
}

/// Appends the two triangles across the grid edge from the grid point with
/// index `i` to the one with index `next`, if that edge crosses the
/// surface. `j1`, `j2` and `j3` are the indices of the other three cells
/// around the edge.
fn push_quad_between(indices: &mut Vec<u32>, reuse: &VoxelReuse, i: u32, next: u32, j1: u32, j2: u32, j3: u32)
    requires
        reuse.voxels.len() == reuse.grid_pos.len(),
        i < next < reuse.voxels.len(),
        j1 < i,
        j2 < i,
        j3 < i,
        records_upto(reuse.voxels@, reuse.size as int, reuse.grid_pos@, i + 1),
        (reuse.voxels[i as int] != 0) != (reuse.voxels[next as int] != 0) ==> {
            &&& surface_at(reuse.voxels@, reuse.size as int, i as int)
            &&& surface_at(reuse.voxels@, reuse.size as int, j1 as int)
            &&& surface_at(reuse.voxels@, reuse.size as int, j2 as int)
            &&& surface_at(reuse.voxels@, reuse.size as int, j3 as int)
        },
    ensures
        final(indices)@ == old(indices)@ + quad_between(
            reuse.voxels@,
            reuse.size as int,
            i as int,
            next as int,
            j1 as int,
            j2 as int,
            j3 as int,
        ),
        forall|t: int|
            0 <= t < quad_between(
                reuse.voxels@,
                reuse.size as int,
                i as int,
                next as int,
                j1 as int,
                j2 as int,
                j3 as int,
            ).len() ==> (#[trigger] quad_between(
                reuse.voxels@,
                reuse.size as int,
                i as int,
                next as int,
                j1 as int,
                j2 as int,
                j3 as int,
            )[t]) < rank(reuse.voxels@, reuse.size as int, i + 1),
{
    let ghost grid = reuse.voxels@;
    let ghost n = reuse.size as int;
    let here: bool = reuse.voxels[i as usize] != 0;
    let there: bool = reuse.voxels[next as usize] != 0;
    if here == there {
        assert(indices@ + Seq::<u32>::empty() =~= indices@);
        return ;
    }
    proof {
        lemma_rank_of_surface(grid, n, i as int, i + 1);
        lemma_rank_of_surface(grid, n, j1 as int, i + 1);
        lemma_rank_of_surface(grid, n, j2 as int, i + 1);
        lemma_rank_of_surface(grid, n, j3 as int, i + 1);
        lemma_rank_monotone(grid, n, 0, i + 1);
    }
    let i0: u32 = reuse.grid_pos[i as usize].index;
    let i1: u32 = reuse.grid_pos[j1 as usize].index;
    let i2: u32 = reuse.grid_pos[j2 as usize].index;
    let i3: u32 = reuse.grid_pos[j3 as usize].index;
    let ghost before = indices@;
    if here {
        indices.push(i0);
        indices.push(i1);
        indices.push(i2);
        indices.push(i0);
        indices.push(i2);
        indices.push(i3);
        assert(indices@ =~= before + seq![i0, i1, i2, i0, i2, i3]);
    } else {
        indices.push(i0);
        indices.push(i2);
        indices.push(i1);
        indices.push(i0);
        indices.push(i3);
        indices.push(i2);
        assert(indices@ =~= before + seq![i0, i2, i1, i0, i3, i2]);
    }
}

/// The mesh of the cells among the first `k` grid points has one vertex
/// per surface cell, and its buffers fit together.
pub proof fn lemma_mesh_upto(grid: Seq<u8>, n: int, lod: u8, k: int)
    requires
        k >= 0,
    ensures
        mesh_upto(grid, n, lod, k).positions.len() == rank(grid, n, k),
        mesh_upto(grid, n, lod, k).normals.len() == rank(grid, n, k),
        mesh_upto(grid, n, lod, k).materials.len() == rank(grid, n, k),
        mesh_upto(grid, n, lod, k).lod == lod,
    decreases k,
{
    if k > 0 {
        lemma_mesh_upto(grid, n, lod, k - 1);
    }
}

/// The vertex of a surface cell.
struct CellVertex {
    /// The cell centre in half voxels.
    position: [u32; 3],
    /// The direction in which the cell's material thins out.
    normal: [i32; 3],
    /// The material that dominates the cell.
    material: u8,
}

/// The vertex of the cell at the grid point `(x, y, z)`, whose row-major
/// index is `i`, or nothing where that grid point names no cell or the
/// cell does not straddle the surface.
fn cell_vertex(voxels: &Vec<u8>, n: u32, lod: u8, i: u32, x: u32, y: u32, z: u32) -> (vertex: Option<CellVertex>)
    requires
        1 <= n <= 1024,
        lod <= MAX_DEPTH,
        voxels.len() == n * n * n,
        in_grid(n as int, x as int, y as int, z as int),
        i == grid_index(n as int, x as int, y as int, z as int),
    ensures
        vertex.is_some() == is_surface(voxels@, n as int, x as int, y as int, z as int),
        vertex.is_some() ==> {
            &&& vertex.unwrap().position == vertex_position(lod as nat, x as int, y as int, z as int)
            &&& vertex.unwrap().normal == corner_normal(
                corner_values(voxels@, n as int, x as int, y as int, z as int),
            )
            &&& vertex.unwrap().material == dominant(corner_values(voxels@, n as int, x as int, y as int, z as int))
        },
{
    if !(x + 1 < n && y + 1 < n && z + 1 < n) {
        return None;
    }
    let corners: [u8; 8] = read_corners(voxels, n, i, x, y, z);
    let filled: u8 = count_filled(&corners);
    if filled == 0 || filled == 8 {
        return None;
    }
    let scale: u32 = get_size(lod);
    proof {
        assert((2 * x + 1) * scale <= 2_097_152 && (2 * y + 1) * scale <= 2_097_152 && (2 * z + 1) * scale
            <= 2_097_152) by (nonlinear_arith)
            requires
                x < 1024,
                y < 1024,
                z < 1024,
                scale <= 1024,
        ;
    }
    let position: [u32; 3] = [(2 * x + 1) * scale, (2 * y + 1) * scale, (2 * z + 1) * scale];
    assert(position =~= vertex_position(lod as nat, x as int, y as int, z as int));
    Some(CellVertex { position, normal: normal_of(&corners), material: dominant_material(&corners) })
}

/// Every vertex record of a surface cell among the first `k` grid points
/// holds the position of that cell's vertex.
pub open spec fn positions_upto(grid: Seq<u8>, n: int, lod: u8, records: Seq<GridPosition>, k: int) -> bool {
    forall|j: int|
        0 <= j < k && surface_at(grid, n, j) ==> (#[trigger] records[j]).pos == Some(
            vertex_position(lod as nat, grid_x(n, j), grid_y(n, j), grid_z(n, j)),
        )
}

/// Appends the triangles of the surface cell `(x, y, z)`, whose row-major
/// index is `i`.
fn push_cell_quads(indices: &mut Vec<u32>, reuse: &VoxelReuse, i: u32, x: u32, y: u32, z: u32)
    requires
        reuse.wf(),
        has_cell(reuse.size as int, x as int, y as int, z as int),
        i == grid_index(reuse.size as int, x as int, y as int, z as int),
        records_upto(reuse.voxels@, reuse.size as int, reuse.grid_pos@, i + 1),
        old(indices).len() % 3 == 0,
        forall|t: int|
            0 <= t < old(indices).len() ==> (#[trigger] old(indices)[t]) < rank(
                reuse.voxels@,
                reuse.size as int,
                i + 1,
            ),
    ensures
        final(indices)@ == old(indices)@ + cell_indices(
            reuse.voxels@,
            reuse.size as int,
            x as int,
            y as int,
            z as int,
        ),
        final(indices).len() % 3 == 0,
        forall|t: int|
            0 <= t < final(indices).len() ==> (#[trigger] final(indices)[t]) < rank(
                reuse.voxels@,
                reuse.size as int,
                i + 1,
            ),
{
    let ghost grid = reuse.voxels@;
    let ghost n = reuse.size as int;
    let ghost before = indices@;
    let ghost q0 = quad(grid, n, x as int, y as int, z as int, 0);
    let ghost q1 = quad(grid, n, x as int, y as int, z as int, 1);
    let ghost q2 = quad(grid, n, x as int, y as int, z as int, 2);
    push_quad(indices, reuse, i, x, y, z, 0);
    push_quad(indices, reuse, i, x, y, z, 1);
    push_quad(indices, reuse, i, x, y, z, 2);
    proof {
        lemma_quad_len(grid, n, x as int, y as int, z as int, 0);
        lemma_quad_len(grid, n, x as int, y as int, z as int, 1);
        lemma_quad_len(grid, n, x as int, y as int, z as int, 2);
        assert(indices@ =~= before + (q0 + q1 + q2));
        assert forall|t: int| 0 <= t < indices.len() implies (#[trigger] indices[t]) < rank(grid, n, i + 1) by {
            if t < before.len() {
                assert(indices[t] == before[t]);
            } else if t < before.len() + q0.len() {
                assert(indices[t] == q0[t - before.len()]);
            } else if t < before.len() + q0.len() + q1.len() {
                assert(indices[t] == q1[t - before.len() - q0.len()]);
            } else {
                assert(indices[t] == q2[t - before.len() - q0.len() - q1.len()]);
            }
        }
    }
}

/// A quad is two triangles or nothing.
pub proof fn lemma_quad_len(grid: Seq<u8>, n: int, x: int, y: int, z: int, axis: int)
    ensures
        quad(grid, n, x, y, z, axis).len() == 6 || quad(grid, n, x, y, z, axis).len() == 0,
{
}

/// Extracts the surface of the grid that `reuse` holds, decoded at level
/// of detail `lod`. The vertex record of every surface cell is left in
/// `reuse`.
pub fn get_surface_nets(reuse: &mut VoxelReuse, lod: u8) -> (mesh: MeshData)
    requires
        old(reuse).wf(),
        lod <= MAX_DEPTH,
    ensures
        final(reuse).wf(),
        final(reuse).size == old(reuse).size,
        final(reuse).voxels@ == old(reuse).voxels@,
        records_upto(
            old(reuse).voxels@,
            old(reuse).size as int,
            final(reuse).grid_pos@,
            old(reuse).voxels.len() as int,
        ),
        positions_upto(
            old(reuse).voxels@,
            old(reuse).size as int,
            lod,
            final(reuse).grid_pos@,
            old(reuse).voxels.len() as int,
        ),
        mesh@ == surface_mesh(old(reuse).voxels@, old(reuse).size as int, lod),
        mesh@.wf(),
        mesh.lod == lod,
{
    let n: u32 = reuse.size;
    let ghost grid = reuse.voxels@;
    proof {
        assert(n * n <= 1_048_576 && n * n * n <= 1_073_741_824) by (nonlinear_arith)
            requires
                1 <= n <= 1024,
        ;
    }
    let area: u32 = n * n;
    let count: u32 = area * n;
    let mut positions: Vec<[u32; 3]> = Vec::new();
    let mut normals: Vec<[i32; 3]> = Vec::new();
    let mut materials: Vec<u8> = Vec::new();
    let mut indices: Vec<u32> = Vec::new();
    let mut i: u32 = 0;
    while i < count
        invariant
            i <= count,
            1 <= n <= 1024,
            area == n * n,
            count == n * n * n,
            lod <= MAX_DEPTH,
            reuse.wf(),
            reuse.size == n,
            reuse.voxels@ == grid,
            records_upto(grid, n as int, reuse.grid_pos@, i as int),
            positions_upto(grid, n as int, lod, reuse.grid_pos@, i as int),
            positions@ == mesh_upto(grid, n as int, lod, i as int).positions,
            normals@ == mesh_upto(grid, n as int, lod, i as int).normals,
            materials@ == mesh_upto(grid, n as int, lod, i as int).materials,
            indices@ == mesh_upto(grid, n as int, lod, i as int).indices,
            positions.len() == rank(grid, n as int, i as int),
            indices.len() % 3 == 0,
            forall|t: int| 0 <= t < indices.len() ==> (#[trigger] indices[t]) < rank(grid, n as int, i as int),
        decreases count - i,
    {
        proof {
            lemma_grid_coords(n as int, i as int);
            lemma_rank_monotone(grid, n as int, i as int, i + 1);
            lemma_rank_monotone(grid, n as int, 0, i as int);
        }
        let x: u32 = i / area;
        let y: u32 = (i / n) % n;
        let z: u32 = i % n;
        let ghost records = reuse.grid_pos@;
        match cell_vertex(&reuse.voxels, n, lod, i, x, y, z) {
            Some(vertex) => {
                let index: u32 = positions.len() as u32;
                reuse.grid_pos[i as usize] = GridPosition { index, pos: Some(vertex.position) };
                proof {
                    assert forall|j: int| 0 <= j < i + 1 && surface_at(grid, n as int, j) implies (
                    #[trigger] reuse.grid_pos@[j]).index == rank(grid, n as int, j) by {
                        if j < i {
                            assert(records[j].index == rank(grid, n as int, j));
                        }
                    }
                    assert forall|j: int| 0 <= j < i + 1 && surface_at(grid, n as int, j) implies (
                    #[trigger] reuse.grid_pos@[j]).pos == Some(
                        vertex_position(lod as nat, grid_x(n as int, j), grid_y(n as int, j), grid_z(n as int, j)),
                    ) by {
                        if j < i {
                            assert(records[j].pos == Some(
                                vertex_position(
                                    lod as nat,
                                    grid_x(n as int, j),
                                    grid_y(n as int, j),
                                    grid_z(n as int, j),
                                ),
                            ));
                        }
                    }
                }
                positions.push(vertex.position);
                normals.push(vertex.normal);
                materials.push(vertex.material);
                push_cell_quads(&mut indices, reuse, i, x, y, z);
            },
            None => {
                proof {
                    assert forall|j: int| 0 <= j < i + 1 && surface_at(grid, n as int, j) implies (
                    #[trigger] reuse.grid_pos@[j]).index == rank(grid, n as int, j) by {
                        assert(j < i);
                    }
                    assert forall|j: int| 0 <= j < i + 1 && surface_at(grid, n as int, j) implies (
                    #[trigger] reuse.grid_pos@[j]).pos == Some(
                        vertex_position(lod as nat, grid_x(n as int, j), grid_y(n as int, j), grid_z(n as int, j)),
                    ) by {
                        assert(j < i);
                    }
                }
            },
        }
        i = i + 1;
    }
    proof {
        lemma_mesh_upto(grid, n as int, lod, count as int);
    }
    MeshData { positions, normals, materials, indices, lod }
}

impl VoxelOctree {
    /// The mesh of this octree at level of detail `lod`, from the
    /// octree's own voxels alone: the seam is taken as the octree holds
    /// it. The decoded level is left in `reuse`.
    pub fn compute_mesh(&self, mode: VoxelMode, reuse: &mut VoxelReuse, lod: u8) -> (mesh: MeshData)
        requires
            self.wf(),
            lod <= self.depth,
        ensures
            final(reuse).wf(),
            final(reuse).size == self@.side(lod as nat),
            final(reuse).voxels@ == self@.level(lod as nat),
            records_upto(
                self@.level(lod as nat),
                self@.side(lod as nat),
                final(reuse).grid_pos@,
                self@.level(lod as nat).len() as int,
            ),
            positions_upto(
                self@.level(lod as nat),
                self@.side(lod as nat),
                lod,
                final(reuse).grid_pos@,
                self@.level(lod as nat).len() as int,
            ),
            mesh@ == surface_mesh(self@.level(lod as nat), self@.side(lod as nat), lod),
            mesh@.wf(),
            mesh.lod == lod,
    {
        match mode {
            VoxelMode::SurfaceNets => {
                decode(self, lod, reuse);
                get_surface_nets(reuse, lod)
            },
        }
    }

    /// The mesh of this octree, as the chunk at `key`, at level of detail
    /// `lod`, with the seam read from the chunks that own it: every grid
    /// point past the stride takes its value from the table of `manager`
    /// where the owning chunk is loaded, and from this octree where it is
    /// not.
    pub fn compute_mesh2<F: Fn(i64, i64, i64, i64) -> u8>(
        &self,
        mode: VoxelMode,
        manager: &ChunkManager<F>,
        key: [i64; 3],
        lod: u8,
    ) -> (mesh: MeshData)
        requires
            self.wf(),
            manager.wf(),
            self.depth == manager.depth,
            lod <= self.depth,
            in_world(key),
        ensures
            mesh@ == surface_mesh(stitched_grid(self@, manager, key, lod as nat), self@.side(lod as nat), lod),
            mesh@.wf(),
            mesh.lod == lod,
    {
        match mode {
            VoxelMode::SurfaceNets => {
                proof {
                    lemma_edge_len((self.depth - lod) as nat);
                }
                let (_, side) = level_start(self.depth, lod);
                let mut reuse: VoxelReuse = VoxelReuse::new_1(side);
                get_surface_nets2(self, manager, &mut reuse, key, lod)
            },
        }
    }
}

/// The value of the grid point `(x, y, z)` of the chunk at `key`, decoded
/// at level of detail `lod` with the seam read from the table: the
/// octree's own node where the grid point lies before the stride on every
/// axis, else the voxel that the table holds at the grid point's world
/// coordinate, or the octree's own node where the table holds none.
pub open spec fn stitched_value<F: Fn(i64, i64, i64, i64) -> u8>(
    octree: OctreeView,
    manager: &ChunkManager<F>,
    key: [i64; 3],
    lod: nat,
    x: int,
    y: int,
    z: int,
) -> u8 {
    let own = octree.node(lod, x, y, z);
    let scale = edge_len(lod) as int;
    let stride = manager.stride();
    if x * scale < stride && y * scale < stride && z * scale < stride {
        own
    } else {
        match manager.voxel_at(
            [
                (key[0] * stride + x * scale) as i64,
                (key[1] * stride + y * scale) as i64,
                (key[2] * stride + z * scale) as i64,
            ],
        ) {
            Some(value) => value,
            None => own,
        }
    }
}

/// The grid of the chunk at `key`, decoded at level of detail `lod` with
/// the seam read from the table.
pub open spec fn stitched_grid<F: Fn(i64, i64, i64, i64) -> u8>(
    octree: OctreeView,
    manager: &ChunkManager<F>,
    key: [i64; 3],
    lod: nat,
) -> Seq<u8> {
    let n = octree.side(lod);
    Seq::new(
        (n * n * n) as nat,
        |i: int| stitched_value(octree, manager, key, lod, grid_x(n, i), grid_y(n, i), grid_z(n, i)),
    )
}

/// Decodes level `lod` of the octree into `reuse`, reads the seam from the
/// table of `manager`, and extracts the surface.
pub fn get_surface_nets2<F: Fn(i64, i64, i64, i64) -> u8>(
    octree: &VoxelOctree,
    manager: &ChunkManager<F>,
    reuse: &mut VoxelReuse,
    key: [i64; 3],
    lod: u8,
) -> (mesh: MeshData)
    requires
        octree.wf(),
        manager.wf(),
        octree.depth == manager.depth,
        lod <= octree.depth,
        in_world(key),
    ensures
        final(reuse).wf(),
        final(reuse).size == octree@.side(lod as nat),
        final(reuse).voxels@ == stitched_grid(octree@, manager, key, lod as nat),
        mesh@ == surface_mesh(stitched_grid(octree@, manager, key, lod as nat), octree@.side(lod as nat), lod),
        mesh@.wf(),
        mesh.lod == lod,
{
    decode(octree, lod, reuse);
    let n: u32 = reuse.size;
    let scale: u32 = get_size(lod);
    let stride: u32 = manager.seamless_size();
    let ghost own = reuse.voxels@;
    let ghost target = stitched_grid(octree@, manager, key, lod as nat);
    proof {
        lemma_edge_len(octree.depth as nat);
        lemma_edge_len((octree.depth - lod) as nat);
        lemma_scaled_in_range(key[0] as int, stride as int);
        lemma_scaled_in_range(key[1] as int, stride as int);
        lemma_scaled_in_range(key[2] as int, stride as int);
        assert(n * n <= 1_048_576 && n * n * n <= 1_073_741_824) by (nonlinear_arith)
            requires
                1 <= n <= 1024,
        ;
    }
    let start_x: i64 = key[0] * (stride as i64);
    let start_y: i64 = key[1] * (stride as i64);
    let start_z: i64 = key[2] * (stride as i64);
    let area: u32 = n * n;
    let count: u32 = area * n;
    let mut i: u32 = 0;
    while i < count
        invariant
            i <= count,
            1 <= n <= 1024,
            1 <= scale <= 1024,
            scale == edge_len(lod as nat),
            area == n * n,
            count == n * n * n,
            octree.wf(),
            manager.wf(),
            lod <= octree.depth,
            n == octree@.side(lod as nat),
            stride == manager.stride(),
            start_x == key[0] * stride,
            start_y == key[1] * stride,
            start_z == key[2] * stride,
            -1_125_899_906_842_624 <= start_x <= 1_125_899_906_842_624,
            -1_125_899_906_842_624 <= start_y <= 1_125_899_906_842_624,
            -1_125_899_906_842_624 <= start_z <= 1_125_899_906_842_624,
            reuse.wf(),
            reuse.size == n,
            own == octree@.level(lod as nat),
            target == stitched_grid(octree@, manager, key, lod as nat),
            reuse.voxels.len() == count,
            forall|j: int| 0 <= j < i ==> #[trigger] reuse.voxels[j] == target[j],
            forall|j: int| i <= j < count ==> #[trigger] reuse.voxels[j] == own[j],
        decreases count - i,
    {
        proof {
            lemma_grid_coords(n as int, i as int);
        }
        let x: u32 = i / area;
        let y: u32 = (i / n) % n;
        let z: u32 = i % n;
        proof {
            lemma_level_grid(octree@, lod as nat, x as int, y as int, z as int);
            assert(x * scale <= 1_048_576 && y * scale <= 1_048_576 && z * scale <= 1_048_576) by (nonlinear_arith)
                requires
                    x < 1024,
                    y < 1024,
                    z < 1024,
                    scale <= 1024,
            ;
        }
        let lx: u32 = x * scale;
        let ly: u32 = y * scale;
        let lz: u32 = z * scale;
        if !(lx < stride && ly < stride && lz < stride) {
            let pos: [i64; 3] = [start_x + lx as i64, start_y + ly as i64, start_z + lz as i64];
            match manager.get_voxel_safe(&pos) {
                Some(value) => {
                    reuse.voxels[i as usize] = value;
                },
                None => {},
            }
            proof {
                assert(pos =~= [
                    (key[0] * stride + x * scale) as i64,
                    (key[1] * stride + y * scale) as i64,
                    (key[2] * stride + z * scale) as i64,
                ]);
            }
        }
        i = i + 1;
    }
    proof {
        assert(reuse.voxels@ =~= target);
    }
    get_surface_nets(reuse, lod)
}

/// The vertex of a surface cell stands in the mesh at the cell's rank,
/// with the cell's centre, normal and dominant material.
pub proof fn lemma_mesh_vertex(grid: Seq<u8>, n: int, lod: u8, k: int, j: int)
    requires
        0 <= j < k,
        surface_at(grid, n, j),
    ensures
        0 <= rank(grid, n, j) < mesh_upto(grid, n, lod, k).positions.len(),
        mesh_upto(grid, n, lod, k).positions[rank(grid, n, j)] == vertex_position(
            lod as nat,
            grid_x(n, j),
            grid_y(n, j),
            grid_z(n, j),
        ),
        mesh_upto(grid, n, lod, k).normals[rank(grid, n, j)] == corner_normal(
            corner_values(grid, n, grid_x(n, j), grid_y(n, j), grid_z(n, j)),
        ),
        mesh_upto(grid, n, lod, k).materials[rank(grid, n, j)] == dominant(
            corner_values(grid, n, grid_x(n, j), grid_y(n, j), grid_z(n, j)),
        ),
    decreases k,
{
    lemma_mesh_upto(grid, n, lod, k);
    lemma_mesh_upto(grid, n, lod, k - 1);
    lemma_rank_monotone(grid, n, 0, j);
    if j < k - 1 {
        lemma_mesh_vertex(grid, n, lod, k - 1, j);
        lemma_rank_of_surface(grid, n, j, k - 1);
    }
}

/// The triangles of a mesh only grow in number as more grid points are
/// visited.
pub proof fn lemma_indices_grow(grid: Seq<u8>, n: int, lod: u8, j: int, k: int)
    requires
        0 <= j <= k,
    ensures
        mesh_upto(grid, n, lod, j).indices.len() <= mesh_upto(grid, n, lod, k).indices.len(),
    decreases k - j,
{
    if j < k {
        lemma_indices_grow(grid, n, lod, j, k - 1);
    }
}

/// A surface cell adds its triangles to the mesh.
proof fn lemma_surface_step(grid: Seq<u8>, n: int, lod: u8, i: int)
    requires
        i >= 0,
        surface_at(grid, n, i),
    ensures
        mesh_upto(grid, n, lod, i + 1).indices.len() == mesh_upto(grid, n, lod, i).indices.len() + cell_indices(
            grid,
            n,
            grid_x(n, i),
            grid_y(n, i),
            grid_z(n, i),
        ).len(),
{
}

/// The quad across a crossing edge has two triangles.
proof fn lemma_crossing_quad(grid: Seq<u8>, n: int, x: int, y: int, z: int, axis: int)
    requires
        crossing(grid, n, x, y, z, axis),
    ensures
        quad(grid, n, x, y, z, axis).len() == 6,
{
}

/// A cell has at least the triangles of each of its quads.
proof fn lemma_cell_has_quad(grid: Seq<u8>, n: int, x: int, y: int, z: int, axis: int)
    requires
        0 <= axis < 3,
    ensures
        cell_indices(grid, n, x, y, z).len() >= quad(grid, n, x, y, z, axis).len(),
{
}

/// A grid with a crossing edge off its low border has a mesh with
/// triangles.
pub proof fn lemma_crossing_gives_triangles(grid: Seq<u8>, n: int, lod: u8, x: int, y: int, z: int, axis: int)
    requires
        n >= 1,
        has_cell(n, x, y, z),
        0 <= axis < 3,
        crossing(grid, n, x, y, z, axis),
    ensures
        surface_mesh(grid, n, lod).indices.len() >= 6,
{
    let i = grid_index(n, x, y, z);
    lemma_cell_at(grid, n, x, y, z);
    lemma_grid_index(n, x, y, z);
    lemma_crossing_cells(grid, n, x, y, z, axis);
    lemma_surface_step(grid, n, lod, i);
    lemma_crossing_quad(grid, n, x, y, z, axis);
    lemma_cell_has_quad(grid, n, x, y, z, axis);
    lemma_indices_grow(grid, n, lod, 0, i);
    lemma_indices_grow(grid, n, lod, i + 1, n * n * n);
}

/// The world, as a function from world voxel to material.
pub type World = spec_fn([i64; 3]) -> u8;

/// Every voxel of the octree, taken as the chunk at `key`, holds what the
/// world holds at the voxel's world coordinate.
pub open spec fn agrees_with(octree: OctreeView, key: [i64; 3], stride: int, world: World) -> bool {
    forall|x: int, y: int, z: int|
        in_grid(octree.size as int, x, y, z) ==> #[trigger] octree.voxel(x, y, z) == world(
            [(key[0] * stride + x) as i64, (key[1] * stride + y) as i64, (key[2] * stride + z) as i64],
        )
}

/// The values that the world holds at the eight corners of the cell whose
/// lowest corner is the world voxel `(x, y, z)`.
pub open spec fn world_corners(world: World, x: int, y: int, z: int) -> Seq<u8> {
    seq![
        world([x as i64, y as i64, z as i64]),
        world([x as i64, y as i64, (z + 1) as i64]),
        world([x as i64, (y + 1) as i64, z as i64]),
        world([x as i64, (y + 1) as i64, (z + 1) as i64]),
        world([(x + 1) as i64, y as i64, z as i64]),
        world([(x + 1) as i64, y as i64, (z + 1) as i64]),
        world([(x + 1) as i64, (y + 1) as i64, z as i64]),
        world([(x + 1) as i64, (y + 1) as i64, (z + 1) as i64]),
    ]
}

/// A chunk whose voxels agree with the world sees, at each of its cells,
/// the corners that the world has there.
pub proof fn lemma_corners_from_world(octree: OctreeView, key: [i64; 3], stride: int, world: World, x: int, y: int, z: int)
    requires
        octree.wf(),
        in_world(key),
        0 <= stride <= 1024,
        agrees_with(octree, key, stride, world),
        has_cell(octree.size as int, x, y, z),
    ensures
        corner_values(octree.level(0), octree.size as int, x, y, z) == world_corners(
            world,
            key[0] * stride + x,
            key[1] * stride + y,
            key[2] * stride + z,
        ),
{
    let n = octree.size as int;
    lemma_scaled_in_range(key[0] as int, stride);
    lemma_scaled_in_range(key[1] as int, stride);
    lemma_scaled_in_range(key[2] as int, stride);
    lemma_edge_len(octree.depth);
    assert forall|dx: int, dy: int, dz: int| 0 <= dx <= 1 && 0 <= dy <= 1 && 0 <= dz <= 1 implies #[trigger] at(
        octree.level(0),
        n,
        x + dx,
        y + dy,
        z + dz,
    ) == world(
        [(key[0] * stride + x + dx) as i64, (key[1] * stride + y + dy) as i64, (key[2] * stride + z + dz) as i64],
    ) by {
        lemma_level_grid(octree, 0, x + dx, y + dy, z + dz);
        assert(octree.node(0, x + dx, y + dy, z + dz) == octree.voxel(x + dx, y + dy, z + dz));
    }
    assert(at(octree.level(0), n, x, y, z) == at(octree.level(0), n, x + 0, y + 0, z + 0));
    assert(at(octree.level(0), n, x, y, z + 1) == at(octree.level(0), n, x + 0, y + 0, z + 1));
    assert(at(octree.level(0), n, x, y + 1, z) == at(octree.level(0), n, x + 0, y + 1, z + 0));
    assert(at(octree.level(0), n, x, y + 1, z + 1) == at(octree.level(0), n, x + 0, y + 1, z + 1));
    assert(at(octree.level(0), n, x + 1, y, z) == at(octree.level(0), n, x + 1, y + 0, z + 0));
    assert(at(octree.level(0), n, x + 1, y, z + 1) == at(octree.level(0), n, x + 1, y + 0, z + 1));
    assert(at(octree.level(0), n, x + 1, y + 1, z) == at(octree.level(0), n, x + 1, y + 1, z + 0));
    assert(corner_values(octree.level(0), n, x, y, z) =~= world_corners(
        world,
        key[0] * stride + x,
        key[1] * stride + y,
        key[2] * stride + z,
    ));
}

/// Extraction is free of seams: where two chunks whose voxels agree with
/// one world both have the cell of a world voxel, the surface extracted
/// from each chunk's own voxels, seam included, treats that cell alike. Either both meshes have a
/// vertex for it or neither has; and the two vertices have one position in
/// the world, one normal and one material, which are those that the world
/// itself has at that cell. Positions are in half voxels, so a chunk's
/// vertex lies in the world at twice the chunk's start plus the vertex's
/// position.
pub proof fn lemma_seam_free(
    a: OctreeView,
    key_a: [i64; 3],
    b: OctreeView,
    key_b: [i64; 3],
    stride: int,
    world: World,
    cell: (int, int, int),
)
    requires
        a.wf(),
        b.wf(),
        a.depth == b.depth,
        in_world(key_a),
        in_world(key_b),
        0 <= stride <= 1024,
        agrees_with(a, key_a, stride, world),
        agrees_with(b, key_b, stride, world),
        has_cell(a.size as int, cell.0 - key_a[0] * stride, cell.1 - key_a[1] * stride, cell.2 - key_a[2] * stride),
        has_cell(b.size as int, cell.0 - key_b[0] * stride, cell.1 - key_b[1] * stride, cell.2 - key_b[2] * stride),
    ensures
        ({
            let n = a.size as int;
            let ia = grid_index(n, cell.0 - key_a[0] * stride, cell.1 - key_a[1] * stride, cell.2 - key_a[2] * stride);
            let ib = grid_index(n, cell.0 - key_b[0] * stride, cell.1 - key_b[1] * stride, cell.2 - key_b[2] * stride);
            let mesh_a = surface_mesh(a.level(0), n, 0);
            let mesh_b = surface_mesh(b.level(0), n, 0);
            let ra = rank(a.level(0), n, ia);
            let rb = rank(b.level(0), n, ib);
            let corners = world_corners(world, cell.0, cell.1, cell.2);
            &&& surface_at(a.level(0), n, ia) == (0 < filled_count(corners) < 8)
            &&& surface_at(b.level(0), n, ib) == (0 < filled_count(corners) < 8)
            &&& 0 < filled_count(corners) < 8 ==> {
                &&& 0 <= ra < mesh_a.positions.len()
                &&& 0 <= rb < mesh_b.positions.len()
                &&& 2 * key_a[0] * stride + mesh_a.positions[ra][0] == 2 * cell.0 + 1
                &&& 2 * key_a[1] * stride + mesh_a.positions[ra][1] == 2 * cell.1 + 1
                &&& 2 * key_a[2] * stride + mesh_a.positions[ra][2] == 2 * cell.2 + 1
                &&& 2 * key_b[0] * stride + mesh_b.positions[rb][0] == 2 * cell.0 + 1
                &&& 2 * key_b[1] * stride + mesh_b.positions[rb][1] == 2 * cell.1 + 1
                &&& 2 * key_b[2] * stride + mesh_b.positions[rb][2] == 2 * cell.2 + 1
                &&& mesh_a.normals[ra] == corner_normal(corners)
                &&& mesh_b.normals[rb] == corner_normal(corners)
                &&& mesh_a.materials[ra] == dominant(corners)
                &&& mesh_b.materials[rb] == dominant(corners)
            }
        }),
{
    lemma_vertex_from_world(a, key_a, stride, world, cell);
    lemma_vertex_from_world(b, key_b, stride, world, cell);
}

/// The part of [`lemma_seam_free`] that speaks of one chunk: its mesh has
/// a vertex for a cell exactly where the world's corners are mixed there,
/// and that vertex is the world's.
pub proof fn lemma_vertex_from_world(a: OctreeView, key: [i64; 3], stride: int, world: World, cell: (int, int, int))
    requires
        a.wf(),
        in_world(key),
        0 <= stride <= 1024,
        agrees_with(a, key, stride, world),
        has_cell(a.size as int, cell.0 - key[0] * stride, cell.1 - key[1] * stride, cell.2 - key[2] * stride),
    ensures
        ({
            let n = a.size as int;
            let i = grid_index(n, cell.0 - key[0] * stride, cell.1 - key[1] * stride, cell.2 - key[2] * stride);
            let mesh = surface_mesh(a.level(0), n, 0);
            let r = rank(a.level(0), n, i);
            let corners = world_corners(world, cell.0, cell.1, cell.2);
            &&& surface_at(a.level(0), n, i) == (0 < filled_count(corners) < 8)
            &&& 0 < filled_count(corners) < 8 ==> {
                &&& 0 <= r < mesh.positions.len()
                &&& 2 * key[0] * stride + mesh.positions[r][0] == 2 * cell.0 + 1
                &&& 2 * key[1] * stride + mesh.positions[r][1] == 2 * cell.1 + 1
                &&& 2 * key[2] * stride + mesh.positions[r][2] == 2 * cell.2 + 1
                &&& mesh.normals[r] == corner_normal(corners)
                &&& mesh.materials[r] == dominant(corners)
            }
        }),
{
    let n = a.size as int;
    let x = cell.0 - key[0] * stride;
    let y = cell.1 - key[1] * stride;
    let z = cell.2 - key[2] * stride;
    let i = grid_index(n, x, y, z);
    let grid = a.level(0);
    let corners = world_corners(world, cell.0, cell.1, cell.2);
    lemma_edge_len(a.depth);
    lemma_edge_len(0);
    lemma_grid_index(n, x, y, z);
    lemma_corners_from_world(a, key, stride, world, x, y, z);
    assert(world_corners(world, key[0] * stride + x, key[1] * stride + y, key[2] * stride + z) == corners);
    assert(surface_at(grid, n, i) == is_surface(grid, n, x, y, z));
    if 0 < filled_count(corners) < 8 {
        lemma_mesh_vertex(grid, n, 0, n * n * n, i);
        assert(2 * key[0] * stride == 2 * (key[0] * stride)) by (nonlinear_arith);
        assert(2 * key[1] * stride == 2 * (key[1] * stride)) by (nonlinear_arith);
        assert(2 * key[2] * stride == 2 * (key[2] * stride)) by (nonlinear_arith);
    }
}

/// Where the octree and every chunk of the table agree with one world,
/// reading the seam from the table changes nothing: at full detail the
/// stitched grid is the octree's own grid, and so the two ways of meshing
/// give one mesh.
pub proof fn lemma_stitched_is_own<F: Fn(i64, i64, i64, i64) -> u8>(
    octree: OctreeView,
    manager: &ChunkManager<F>,
    key: [i64; 3],
    world: World,
)
    requires
        octree.wf(),
        manager.wf(),
        octree.depth == manager.depth,
        in_world(key),
        agrees_with(octree, key, manager.stride(), world),
        forall|k: [i64; 3]| #[trigger]
            manager@.contains_key(k) ==> agrees_with(manager@[k].octree, k, manager.stride(), world),
    ensures
        stitched_grid(octree, manager, key, 0) == octree.level(0),
{
    let n = octree.side(0);
    let stride = manager.stride();
    let stitched = stitched_grid(octree, manager, key, 0);
    let own = octree.level(0);
    lemma_edge_len(octree.depth);
    lemma_edge_len(0);
    lemma_lod_offset_bounds(octree.depth, 0);
    lemma_scaled_in_range(key[0] as int, stride);
    lemma_scaled_in_range(key[1] as int, stride);
    lemma_scaled_in_range(key[2] as int, stride);
    assert forall|i: int| 0 <= i < n * n * n implies stitched[i] == own[i] by {
        let x = grid_x(n, i);
        let y = grid_y(n, i);
        let z = grid_z(n, i);
        lemma_grid_coords(n, i);
        lemma_level_grid(octree, 0, x, y, z);
        let p = [(key[0] * stride + x * 1) as i64, (key[1] * stride + y * 1) as i64, (key[2] * stride + z * 1) as i64];
        assert(octree.node(0, x, y, z) == octree.voxel(x, y, z));
        assert(p =~= [(key[0] * stride + x) as i64, (key[1] * stride + y) as i64, (key[2] * stride + z) as i64]);
        assert(octree.voxel(x, y, z) == world(p));
        let owner = pos_key(p, stride);
        if manager@.contains_key(owner) {
            let local = pos_local(p, stride);
            lemma_floor_div_block(p[0] as int, stride, floor_div(p[0] as int, stride));
            lemma_floor_div_block(p[1] as int, stride, floor_div(p[1] as int, stride));
            lemma_floor_div_block(p[2] as int, stride, floor_div(p[2] as int, stride));
            lemma_floor_div_fits(p[0] as int, stride);
            lemma_floor_div_fits(p[1] as int, stride);
            lemma_floor_div_fits(p[2] as int, stride);
            let there = manager@[owner].octree;
            assert(in_grid(there.size as int, local[0] as int, local[1] as int, local[2] as int));
            assert([
                (owner[0] * stride + local[0]) as i64,
                (owner[1] * stride + local[1]) as i64,
                (owner[2] * stride + local[2]) as i64,
            ] =~= p);
            assert(there.voxel(local[0] as int, local[1] as int, local[2] as int) == world(p));
        }
    }
    assert(stitched =~= own);
}

/// The cells whose vertices the triangles across a grid edge join, in the
/// order in which [`quad`] lists them.
pub open spec fn quad_cells(grid: Seq<u8>, n: int, x: int, y: int, z: int, axis: int) -> Seq<(int, int, int)> {
    let u = axis_unit((axis + 1) % 3);
    let v = axis_unit((axis + 2) % 3);
    let c0 = (x, y, z);
    let c1 = (x - u.0, y - u.1, z - u.2);
    let c2 = (x - u.0 - v.0, y - u.1 - v.1, z - u.2 - v.2);
    let c3 = (x - v.0, y - v.1, z - v.2);
    if crossing(grid, n, x, y, z, axis) {
        if solid(grid, n, x, y, z) == 1 {
            seq![c0, c1, c2, c0, c2, c3]
        } else {
            seq![c0, c2, c1, c0, c3, c2]
        }
    } else {
        Seq::empty()
    }
}

/// The centre of a cell of the grid at level of detail `lod`, in half
/// voxels.
pub open spec fn cell_centre(lod: nat, cell: (int, int, int)) -> (int, int, int) {
    ((2 * cell.0 + 1) * edge_len(lod), (2 * cell.1 + 1) * edge_len(lod), (2 * cell.2 + 1) * edge_len(lod))
}

/// The normal of the triangle `a`, `b`, `c`, by the right-hand rule, with
/// twice the triangle's area as its length.
pub open spec fn triangle_normal(a: (int, int, int), b: (int, int, int), c: (int, int, int)) -> (int, int, int) {
    let u = (b.0 - a.0, b.1 - a.1, b.2 - a.2);
    let v = (c.0 - a.0, c.1 - a.1, c.2 - a.2);
    (u.1 * v.2 - u.2 * v.1, u.2 * v.0 - u.0 * v.2, u.0 * v.1 - u.1 * v.0)
}

/// The triangles across a grid edge join the vertices of the cells that
/// [`quad_cells`] lists, in that order.
pub proof fn lemma_quad_joins_cells(grid: Seq<u8>, n: int, x: int, y: int, z: int, axis: int)
    ensures
        quad(grid, n, x, y, z, axis).len() == quad_cells(grid, n, x, y, z, axis).len(),
        crossing(grid, n, x, y, z, axis) ==> quad_cells(grid, n, x, y, z, axis).len() == 6,
        forall|k: int|
            0 <= k < quad_cells(grid, n, x, y, z, axis).len() ==> #[trigger] quad(grid, n, x, y, z, axis)[k]
                == cell_rank(grid, n, quad_cells(grid, n, x, y, z, axis)[k]),
{
    let ranks = quad(grid, n, x, y, z, axis);
    let cells = quad_cells(grid, n, x, y, z, axis);
    if crossing(grid, n, x, y, z, axis) {
        let u = axis_unit((axis + 1) % 3);
        let v = axis_unit((axis + 2) % 3);
        let c0 = (x, y, z);
        let c1 = (x - u.0, y - u.1, z - u.2);
        let c2 = (x - u.0 - v.0, y - u.1 - v.1, z - u.2 - v.2);
        let c3 = (x - v.0, y - v.1, z - v.2);
        if solid(grid, n, x, y, z) == 1 {
            assert(cells =~= seq![c0, c1, c2, c0, c2, c3]);
            assert(ranks =~= seq![
                cell_rank(grid, n, c0),
                cell_rank(grid, n, c1),
                cell_rank(grid, n, c2),
                cell_rank(grid, n, c0),
                cell_rank(grid, n, c2),
                cell_rank(grid, n, c3),
            ]);
        } else {
            assert(cells =~= seq![c0, c2, c1, c0, c3, c2]);
            assert(ranks =~= seq![
                cell_rank(grid, n, c0),
                cell_rank(grid, n, c2),
                cell_rank(grid, n, c1),
                cell_rank(grid, n, c0),
                cell_rank(grid, n, c3),
                cell_rank(grid, n, c2),
            ]);
        }
    } else {
        assert(cells.len() == 0);
    }
}

/// The place of the vertex of a surface cell among the vertices.
pub open spec fn cell_rank(grid: Seq<u8>, n: int, cell: (int, int, int)) -> u32 {
    rank(grid, n, grid_index(n, cell.0, cell.1, cell.2)) as u32
}

/// `k` with the sign of `sign`.
pub open spec fn signed(k: int, sign: int) -> int {
    if sign > 0 {
        k
    } else if sign < 0 {
        -k
    } else {
        0
    }
}

/// The normal that the triangles across a crossing edge are to have: along
/// the edge, away from the grid point that holds the material, with twice
/// the area of a triangle between cell centres as its length.
pub open spec fn facing(grid: Seq<u8>, n: int, lod: nat, x: int, y: int, z: int, axis: int) -> (int, int, int) {
    let area = 4 * ((edge_len(lod) as int) * (edge_len(lod) as int));
    let towards = if solid(grid, n, x, y, z) == 1 {
        1int
    } else {
        -1int
    };
    if axis == 0 {
        (signed(area, towards), 0, 0)
    } else if axis == 1 {
        (0, signed(area, towards), 0)
    } else {
        (0, 0, signed(area, towards))
    }
}

/// The triangles across a crossing edge face the air: the normal of each
/// of the two points along the edge, away from the grid point that holds
/// the material.
pub proof fn lemma_triangles_face_air(grid: Seq<u8>, n: int, lod: nat, x: int, y: int, z: int, axis: int)
    requires
        0 <= axis < 3,
        crossing(grid, n, x, y, z, axis),
    ensures
        quad_cells(grid, n, x, y, z, axis).len() == 6,
        triangle_normal(
            cell_centre(lod, quad_cells(grid, n, x, y, z, axis)[0]),
            cell_centre(lod, quad_cells(grid, n, x, y, z, axis)[1]),
            cell_centre(lod, quad_cells(grid, n, x, y, z, axis)[2]),
        ) == facing(grid, n, lod, x, y, z, axis),
        triangle_normal(
            cell_centre(lod, quad_cells(grid, n, x, y, z, axis)[3]),
            cell_centre(lod, quad_cells(grid, n, x, y, z, axis)[4]),
            cell_centre(lod, quad_cells(grid, n, x, y, z, axis)[5]),
        ) == facing(grid, n, lod, x, y, z, axis),
{
    let p = (x, y, z);
    let cells = quad_cells(grid, n, x, y, z, axis);
    let material = solid(grid, n, x, y, z) == 1;
    if axis == 0 {
        if material {
            lemma_triangle_between(lod, p, cells[0], cells[1], cells[2], (0, -1, 0), (0, -1, -1), (1, 0, 0));
            lemma_triangle_between(lod, p, cells[3], cells[4], cells[5], (0, -1, -1), (0, 0, -1), (1, 0, 0));
        } else {
            lemma_triangle_between(lod, p, cells[0], cells[1], cells[2], (0, -1, -1), (0, -1, 0), (-1, 0, 0));
            lemma_triangle_between(lod, p, cells[3], cells[4], cells[5], (0, 0, -1), (0, -1, -1), (-1, 0, 0));
        }
    } else if axis == 1 {
        if material {
            lemma_triangle_between(lod, p, cells[0], cells[1], cells[2], (0, 0, -1), (-1, 0, -1), (0, 1, 0));
            lemma_triangle_between(lod, p, cells[3], cells[4], cells[5], (-1, 0, -1), (-1, 0, 0), (0, 1, 0));
        } else {
            lemma_triangle_between(lod, p, cells[0], cells[1], cells[2], (-1, 0, -1), (0, 0, -1), (0, -1, 0));
            lemma_triangle_between(lod, p, cells[3], cells[4], cells[5], (-1, 0, 0), (-1, 0, -1), (0, -1, 0));
        }
    } else {
        if material {
            lemma_triangle_between(lod, p, cells[0], cells[1], cells[2], (-1, 0, 0), (-1, -1, 0), (0, 0, 1));
            lemma_triangle_between(lod, p, cells[3], cells[4], cells[5], (-1, -1, 0), (0, -1, 0), (0, 0, 1));
        } else {
            lemma_triangle_between(lod, p, cells[0], cells[1], cells[2], (-1, -1, 0), (-1, 0, 0), (0, 0, -1));
            lemma_triangle_between(lod, p, cells[3], cells[4], cells[5], (0, -1, 0), (-1, -1, 0), (0, 0, -1));
        }
    }
}

/// 1 if both steps go down, else 0: the product of two steps of zero or
/// one cell down.
pub open spec fn both_down(d: int, e: int) -> int {
    if d == -1 && e == -1 {
        1
    } else {
        0
    }
}

/// The triangle between the centres of the cell `p` and of the cells
/// `du` and `dv` from it has a normal of the length of `facing` along
/// `unit`, the cross product of the two steps.
proof fn lemma_triangle_between(
    lod: nat,
    p: (int, int, int),
    a: (int, int, int),
    b: (int, int, int),
    c: (int, int, int),
    du: (int, int, int),
    dv: (int, int, int),
    unit: (int, int, int),
)
    requires
        a == p,
        b == (p.0 + du.0, p.1 + du.1, p.2 + du.2),
        c == (p.0 + dv.0, p.1 + dv.1, p.2 + dv.2),
        -1 <= du.0 <= 0,
        -1 <= du.1 <= 0,
        -1 <= du.2 <= 0,
        -1 <= dv.0 <= 0,
        -1 <= dv.1 <= 0,
        -1 <= dv.2 <= 0,
        unit.0 == both_down(du.1, dv.2) - both_down(du.2, dv.1),
        unit.1 == both_down(du.2, dv.0) - both_down(du.0, dv.2),
        unit.2 == both_down(du.0, dv.1) - both_down(du.1, dv.0),
    ensures
        triangle_normal(cell_centre(lod, a), cell_centre(lod, b), cell_centre(lod, c)) == (
            signed(4 * ((edge_len(lod) as int) * (edge_len(lod) as int)), unit.0),
            signed(4 * ((edge_len(lod) as int) * (edge_len(lod) as int)), unit.1),
            signed(4 * ((edge_len(lod) as int) * (edge_len(lod) as int)), unit.2),
        ),
{
    let s = edge_len(lod) as int;
    let t = s * s;
    lemma_normal_of_corner(s, p, du, dv);
    assert(cell_centre(lod, a) == ((2 * p.0 + 1) * s, (2 * p.1 + 1) * s, (2 * p.2 + 1) * s));
    assert(cell_centre(lod, b) == (
        (2 * (p.0 + du.0) + 1) * s,
        (2 * (p.1 + du.1) + 1) * s,
        (2 * (p.2 + du.2) + 1) * s,
    ));
    assert(cell_centre(lod, c) == (
        (2 * (p.0 + dv.0) + 1) * s,
        (2 * (p.1 + dv.1) + 1) * s,
        (2 * (p.2 + dv.2) + 1) * s,
    ));
    lemma_scaled_unit(t, du.1, dv.2, du.2, dv.1, unit.0);
    lemma_scaled_unit(t, du.2, dv.0, du.0, dv.2, unit.1);
    lemma_scaled_unit(t, du.0, dv.1, du.1, dv.0, unit.2);
}

/// One component of a cross product of two steps, scaled.
proof fn lemma_scaled_unit(t: int, a: int, b: int, c: int, d: int, unit: int)
    requires
        -1 <= a <= 0,
        -1 <= b <= 0,
        -1 <= c <= 0,
        -1 <= d <= 0,
        unit == both_down(a, b) - both_down(c, d),
    ensures
        4 * (a * b - c * d) * t == signed(4 * t, unit),
{
    lemma_both_down(a, b);
    lemma_both_down(c, d);
    let u = a * b - c * d;
    assert(u == unit);
    if unit == 1 {
        assert(4 * u * t == 4 * t) by (nonlinear_arith)
            requires
                u == 1,
        ;
    } else if unit == -1 {
        assert(4 * u * t == -(4 * t)) by (nonlinear_arith)
            requires
                u == -1,
        ;
    } else {
        assert(4 * u * t == 0) by (nonlinear_arith)
            requires
                u == 0,
        ;
    }
}

/// The product of two steps of zero or one cell down.
proof fn lemma_both_down(d: int, e: int)
    requires
        -1 <= d <= 0,
        -1 <= e <= 0,
    ensures
        d * e == both_down(d, e),
{
    if d == 0 {
        assert(0 * e == 0);
    } else if e == 0 {
        assert(d * 0 == 0);
    } else {
        assert((-1) * (-1) == 1int);
    }
}

/// The normal of the triangle between the centres of the cell `a` and of
/// the cells that lie `du` and `dv` from it, each zero or one cell down on
/// each axis: four times the cross product of the two steps, times the
/// square of the cell edge `s`.
proof fn lemma_normal_of_corner(s: int, a: (int, int, int), du: (int, int, int), dv: (int, int, int))
    requires
        -1 <= du.0 <= 0,
        -1 <= du.1 <= 0,
        -1 <= du.2 <= 0,
        -1 <= dv.0 <= 0,
        -1 <= dv.1 <= 0,
        -1 <= dv.2 <= 0,
    ensures
        triangle_normal(
            ((2 * a.0 + 1) * s, (2 * a.1 + 1) * s, (2 * a.2 + 1) * s),
            ((2 * (a.0 + du.0) + 1) * s, (2 * (a.1 + du.1) + 1) * s, (2 * (a.2 + du.2) + 1) * s),
            ((2 * (a.0 + dv.0) + 1) * s, (2 * (a.1 + dv.1) + 1) * s, (2 * (a.2 + dv.2) + 1) * s),
        ) == (
            4 * (du.1 * dv.2 - du.2 * dv.1) * (s * s),
            4 * (du.2 * dv.0 - du.0 * dv.2) * (s * s),
            4 * (du.0 * dv.1 - du.1 * dv.0) * (s * s),
        ),
{
    let t = s * s;
    lemma_centre_step(s, a.0, du.0);
    lemma_centre_step(s, a.1, du.1);
    lemma_centre_step(s, a.2, du.2);
    lemma_centre_step(s, a.0, dv.0);
    lemma_centre_step(s, a.1, dv.1);
    lemma_centre_step(s, a.2, dv.2);
    lemma_step_product(s, du.1, dv.2);
    lemma_step_product(s, du.2, dv.1);
    lemma_step_product(s, du.2, dv.0);
    lemma_step_product(s, du.0, dv.2);
    lemma_step_product(s, du.0, dv.1);
    lemma_step_product(s, du.1, dv.0);
    assert(4 * (du.1 * dv.2 - du.2 * dv.1) * t == 4 * (du.1 * dv.2) * t - 4 * (du.2 * dv.1) * t) by (nonlinear_arith);
    assert(4 * (du.2 * dv.0 - du.0 * dv.2) * t == 4 * (du.2 * dv.0) * t - 4 * (du.0 * dv.2) * t) by (nonlinear_arith);
    assert(4 * (du.0 * dv.1 - du.1 * dv.0) * t == 4 * (du.0 * dv.1) * t - 4 * (du.1 * dv.0) * t) by (nonlinear_arith);
}

/// The centres of two cells `d` apart lie `2 * d` cell edges apart.
proof fn lemma_centre_step(s: int, c: int, d: int)
    ensures
        (2 * (c + d) + 1) * s - (2 * c + 1) * s == 2 * d * s,
{
    assert((2 * (c + d) + 1) * s - (2 * c + 1) * s == 2 * d * s) by (nonlinear_arith);
}

/// The product of two steps between cell centres.
proof fn lemma_step_product(s: int, d: int, e: int)
    requires
        -1 <= d <= 0,
        -1 <= e <= 0,
    ensures
        (2 * d * s) * (2 * e * s) == 4 * (d * e) * (s * s),
{
    if d == 0 {
        assert((2 * 0 * s) * (2 * e * s) == 4 * (0 * e) * (s * s)) by (nonlinear_arith);
    } else if e == 0 {
        assert((2 * d * s) * (2 * 0 * s) == 4 * (d * 0) * (s * s)) by (nonlinear_arith);
    } else {
        assert((2 * (-1) * s) * (2 * (-1) * s) == 4 * ((-1) * (-1)) * (s * s)) by (nonlinear_arith);
    }
}

} // verus!
