//! Chunks and the table that owns them.
//!
//! A [`ChunkManager`] maps chunk keys to chunks, fills missing chunks from
//! its density function, and reads and writes single voxels by world
//! coordinate. Chunks overlap by the seam: a chunk's edge is longer than the
//! stride between chunks, so the last voxels of one chunk repeat the first
//! voxels of the next.

use vstd::prelude::*;
use crate::chunk::adjacent_keys;
use crate::chunk::adjacent_keys_seq;
use crate::chunk::chebyshev;
use crate::chunk::get_chunk_coords;
use crate::chunk::lemma_floor_div_fits;
use crate::chunk::pos_key;
use crate::chunk::voxel_pos_to_key;
use crate::chunk::pos_local;
use crate::data::surface_nets::MeshData;
use crate::data::surface_nets::MeshView;
use crate::data::surface_nets::corner_normal;
use crate::data::surface_nets::dominant;
use crate::data::surface_nets::filled_count;
use crate::data::surface_nets::has_cell;
use crate::data::surface_nets::lemma_seam_free;
use crate::data::surface_nets::rank;
use crate::data::surface_nets::surface_at;
use crate::data::surface_nets::world_corners;
use crate::data::surface_nets::World;
use crate::data::surface_nets::agrees_with;
use crate::data::surface_nets::axis_unit;
use crate::data::surface_nets::crossing;
use crate::data::surface_nets::lemma_crossing_gives_triangles;
use crate::data::surface_nets::lemma_level_grid;
use crate::data::surface_nets::VoxelReuse;
use crate::data::surface_nets::surface_mesh;
use crate::data::voxel_octree::OctreeView;
use crate::data::voxel_octree::VoxelMode;
use crate::data::voxel_octree::ParentValueType;
use crate::data::voxel_octree::VoxelOctree;
use crate::data::voxel_octree::lemma_listing_fills_grid;
use crate::data::voxel_octree::lemma_voxel_of_voxels;
use crate::data::voxel_octree::valid_entry;
use crate::utils::MAX_DEPTH;
use crate::utils::WORLD_LIMIT;
use crate::utils::cell_count;
use crate::utils::edge_len;
use crate::utils::floor_div;
use crate::utils::get_size;
use crate::utils::grid_index;
use crate::utils::grid_x;
use crate::utils::grid_y;
use crate::utils::grid_z;
use crate::utils::in_grid;
use crate::utils::in_world;
use crate::utils::lemma_edge_len;
use crate::utils::lemma_floor_div_block;
use crate::utils::lemma_grid_coords;
use crate::utils::lemma_grid_index;
use crate::utils::lemma_scaled_in_range;

verus! {

/// The height below which the density function is asked to place ground.
pub const GROUND_LEVEL: i64 = 5;

/// The number of voxels by which neighbouring chunks overlap.
pub const SEAM_WIDTH: u32 = 2;

/// What a chunk's interior holds, decided once when the chunk is generated.
#[derive(Clone, Copy, Debug, PartialEq, Eq, Structural)]
pub enum ChunkMode {
    /// Not classified. Generation never leaves a chunk in this mode; it is
    /// for a chunk that a caller builds by hand and has not classified.
    Unclassified,
    /// Air and material both occur in the interior: the chunk has a surface
    /// to mesh.
    Loaded,
    /// The chunk is not in the table.
    Unloaded,
    /// The interior is all air or all material, or the chunk is too small
    /// to have an interior: the chunk has no surface.
    Air,
    /// The chunk lies inside solid ground.
    Inner,
}

/// Where the library runs.
#[derive(Clone, Copy, Debug, PartialEq, Eq, Structural)]
pub enum Deployment {
    Production,
    Development,
}

/// One cubic block of the world.
#[derive(Debug)]
pub struct Chunk {
    /// The chunk's position in the grid of chunks.
    pub key: [i64; 3],
    /// The level of detail at which the chunk is to be meshed.
    pub lod: usize,
    /// The chunk's voxels.
    pub octree: VoxelOctree,
    /// What the chunk's interior holds.
    pub mode: ChunkMode,
    /// True until a voxel of the chunk is edited: such a chunk can be
    /// generated again at any time.
    pub is_default: bool,
}

/// What a chunk holds, as plain values.
pub struct ChunkView {
    pub key: [i64; 3],
    pub lod: usize,
    pub octree: OctreeView,
    pub mode: ChunkMode,
    pub is_default: bool,
}

impl View for Chunk {
    type V = ChunkView;

    open spec fn view(&self) -> ChunkView {
        ChunkView {
            key: self.key,
            lod: self.lod,
            octree: self.octree@,
            mode: self.mode,
            is_default: self.is_default,
        }
    }
}

impl Clone for Chunk {
    fn clone(&self) -> (other: Self)
        ensures
            other@ == self@,
    {
        Chunk {
            key: self.key,
            lod: self.lod,
            octree: self.octree.clone(),
            mode: self.mode,
            is_default: self.is_default,
        }
    }
}

impl Default for Chunk {
    /// An all-air chunk of depth 4 at the origin, not in any table.
    fn default() -> (chunk: Chunk)
        ensures
            chunk@.key == [0i64, 0i64, 0i64],
            chunk@.lod == 4,
            chunk@.mode == ChunkMode::Unloaded,
            chunk@.is_default,
            chunk@.octree.wf(),
            chunk@.octree.depth == 4,
            chunk@.octree.policy == ParentValueType::Lod,
            chunk@.octree.voxels() == Seq::new(cell_count(4), |i: int| 0u8),
    {
        Chunk {
            key: [0, 0, 0],
            lod: 4,
            octree: VoxelOctree::new(0, 4),
            mode: ChunkMode::Unloaded,
            is_default: true,
        }
    }
}

impl Chunk {
    /// An all-air chunk of the given depth at `key`, not in any table.
    pub fn new(key: [i64; 3], depth: u8) -> (chunk: Chunk)
        requires
            depth <= MAX_DEPTH,
        ensures
            chunk@.key == key,
            chunk@.lod == 4,
            chunk@.mode == ChunkMode::Unloaded,
            chunk@.is_default,
            chunk@.octree.wf(),
            chunk@.octree.depth == depth,
            chunk@.octree.policy == ParentValueType::Lod,
            chunk@.octree.voxels() == Seq::new(cell_count(depth as nat), |i: int| 0u8),
    {
        Chunk {
            key,
            lod: 4,
            octree: VoxelOctree::new(0, depth),
            mode: ChunkMode::Unloaded,
            is_default: true,
        }
    }
}

impl Chunk {
    /// The mesh of the chunk at level of detail `lod`, from the chunk's own
    /// voxels. A chunk classified as `Air` has no surface to show: its mesh
    /// is empty, and nothing is extracted.
    pub fn compute_mesh(&self, mode: VoxelMode, reuse: &mut VoxelReuse, lod: u8) -> (mesh: MeshData)
        requires
            self@.octree.wf(),
            lod <= self.octree.depth,
        ensures
            mesh@ == shown_mesh(self@, lod),
            self.mode == ChunkMode::Air ==> mesh@.is_empty(),
            self.mode == ChunkMode::Air ==> final(reuse).size == old(reuse).size,
            self.mode == ChunkMode::Air ==> final(reuse).voxels@ == old(reuse).voxels@,
            self.mode == ChunkMode::Air ==> final(reuse).grid_pos@ == old(reuse).grid_pos@,
            self.mode != ChunkMode::Air ==> final(reuse).voxels@ == self@.octree.level(lod as nat),
            self.mode != ChunkMode::Air ==> final(reuse).wf() && mesh@ == surface_mesh(
                self@.octree.level(lod as nat),
                self@.octree.side(lod as nat),
                lod,
            ),
            mesh@.wf(),
            mesh.lod == lod,
    {
        match self.mode {
            ChunkMode::Air => {
                let mesh: MeshData = MeshData::empty(lod);
                proof {
                    assert(mesh@.positions =~= Seq::<[u32; 3]>::empty());
                    assert(mesh@.normals =~= Seq::<[i32; 3]>::empty());
                    assert(mesh@.materials =~= Seq::<u8>::empty());
                    assert(mesh@.indices =~= Seq::<u32>::empty());
                }
                mesh
            },
            _ => self.octree.compute_mesh(mode, reuse, lod),
        }
    }
}

/// The mesh that a chunk shows at level of detail `lod`: nothing for a
/// chunk classified as `Air`, which is not extracted, and for every other
/// chunk the surface of its own voxels.
pub open spec fn shown_mesh(chunk: ChunkView, lod: u8) -> MeshView {
    if chunk.mode == ChunkMode::Air {
        MeshView {
            positions: Seq::empty(),
            normals: Seq::empty(),
            materials: Seq::empty(),
            indices: Seq::empty(),
            lod,
        }
    } else {
        surface_mesh(chunk.octree.level(lod as nat), chunk.octree.side(lod as nat), lod)
    }
}

/// The voxel `(x, y, z)` lies strictly inside a chunk of edge `size`, off
/// the outermost layer that neighbouring chunks share.
pub open spec fn is_interior(size: int, x: int, y: int, z: int) -> bool {
    1 <= x < size - 1 && 1 <= y < size - 1 && 1 <= z < size - 1
}

/// Some interior voxel is air.
pub open spec fn interior_has_air(octree: OctreeView) -> bool {
    exists|x: int, y: int, z: int| is_interior(octree.size as int, x, y, z) && octree.voxel(x, y, z) == 0
}

/// Some interior voxel holds a material.
pub open spec fn interior_has_material(octree: OctreeView) -> bool {
    exists|x: int, y: int, z: int| is_interior(octree.size as int, x, y, z) && octree.voxel(x, y, z) != 0
}

/// The classification of a chunk with the given voxels: `Loaded` where the
/// interior holds both air and material, `Air` in every other case. An
/// interior without voxels holds no material, so it counts as air.
pub open spec fn fill_mode(octree: OctreeView) -> ChunkMode {
    if interior_has_air(octree) && interior_has_material(octree) {
        ChunkMode::Loaded
    } else {
        ChunkMode::Air
    }
}

/// The voxel `(cx, cy, cz)` comes before `(x, y, z)` in row-major order.
pub open spec fn comes_before(cx: int, cy: int, cz: int, x: int, y: int, z: int) -> bool {
    cx < x || (cx == x && (cy < y || (cy == y && cz < z)))
}

/// Some interior voxel before `(x, y, z)` is air (`air`), or holds a
/// material (`!air`).
pub open spec fn found_before(octree: OctreeView, air: bool, x: int, y: int, z: int) -> bool {
    exists|cx: int, cy: int, cz: int|
        is_interior(octree.size as int, cx, cy, cz) && comes_before(cx, cy, cz, x, y, z) && (#[trigger] octree.voxel(
            cx,
            cy,
            cz,
        ) == 0) == air
}

/// What is found before the voxel after `(x, y, z)` is what was found
/// before `(x, y, z)`, and `(x, y, z)` itself.
proof fn lemma_found_step(octree: OctreeView, air: bool, x: int, y: int, z: int)
    requires
        is_interior(octree.size as int, x, y, z),
    ensures
        found_before(octree, air, x, y, z + 1) <==> (found_before(octree, air, x, y, z) || (octree.voxel(x, y, z)
            == 0) == air),
{
    if found_before(octree, air, x, y, z + 1) {
        let (cx, cy, cz) = choose|cx: int, cy: int, cz: int|
            is_interior(octree.size as int, cx, cy, cz) && comes_before(cx, cy, cz, x, y, z + 1) && (
            #[trigger] octree.voxel(cx, cy, cz) == 0) == air;
        if !(cx == x && cy == y && cz == z) {
            assert(comes_before(cx, cy, cz, x, y, z));
        }
    }
    if found_before(octree, air, x, y, z) {
        let (cx, cy, cz) = choose|cx: int, cy: int, cz: int|
            is_interior(octree.size as int, cx, cy, cz) && comes_before(cx, cy, cz, x, y, z) && (
            #[trigger] octree.voxel(cx, cy, cz) == 0) == air;
        assert(comes_before(cx, cy, cz, x, y, z + 1));
    }
    if (octree.voxel(x, y, z) == 0) == air {
        assert(comes_before(x, y, z, x, y, z + 1));
    }
}

/// Moving the scan from `(x1, y1, z1)` to `(x2, y2, z2)` finds the same
/// where no interior voxel lies between the two.
proof fn lemma_found_skip(octree: OctreeView, air: bool, x1: int, y1: int, z1: int, x2: int, y2: int, z2: int)
    requires
        forall|cx: int, cy: int, cz: int|
            is_interior(octree.size as int, cx, cy, cz) ==> (comes_before(cx, cy, cz, x1, y1, z1) <==> comes_before(
                cx,
                cy,
                cz,
                x2,
                y2,
                z2,
            )),
    ensures
        found_before(octree, air, x1, y1, z1) <==> found_before(octree, air, x2, y2, z2),
{
    if found_before(octree, air, x1, y1, z1) {
        let (cx, cy, cz) = choose|cx: int, cy: int, cz: int|
            is_interior(octree.size as int, cx, cy, cz) && comes_before(cx, cy, cz, x1, y1, z1) && (
            #[trigger] octree.voxel(cx, cy, cz) == 0) == air;
        assert(comes_before(cx, cy, cz, x2, y2, z2));
    }
    if found_before(octree, air, x2, y2, z2) {
        let (cx, cy, cz) = choose|cx: int, cy: int, cz: int|
            is_interior(octree.size as int, cx, cy, cz) && comes_before(cx, cy, cz, x2, y2, z2) && (
            #[trigger] octree.voxel(cx, cy, cz) == 0) == air;
        assert(comes_before(cx, cy, cz, x1, y1, z1));
    }
}

/// Classifies a chunk by its interior: `Loaded` where air and material both
/// occur there, `Air` where they do not, which includes the chunk that is
/// too small to have an interior.
pub fn classify(octree: &VoxelOctree) -> (mode: ChunkMode)
    requires
        octree.wf(),
    ensures
        mode == fill_mode(octree@),
{
    let size: u32 = octree.size;
    let mut has_air: bool = false;
    let mut has_material: bool = false;
    let ghost view = octree@;
    proof {
        lemma_edge_len(octree.depth as nat);
    }
    if size < 3 {
        return ChunkMode::Air;
    }
    let mut x: u32 = 1;
    while x < size - 1
        invariant
            octree.wf(),
            view == octree@,
            size == octree.size,
            3 <= size <= 1024,
            1 <= x <= size - 1,
            has_air <==> found_before(view, true, x as int, 1, 1),
            has_material <==> found_before(view, false, x as int, 1, 1),
        decreases size - x,
    {
        let mut y: u32 = 1;
        while y < size - 1
            invariant
                octree.wf(),
                view == octree@,
                size == octree.size,
                3 <= size <= 1024,
                1 <= x < size - 1,
                1 <= y <= size - 1,
                has_air <==> found_before(view, true, x as int, y as int, 1),
                has_material <==> found_before(view, false, x as int, y as int, 1),
            decreases size - y,
        {
            let mut z: u32 = 1;
            while z < size - 1
                invariant
                    octree.wf(),
                    view == octree@,
                    size == octree.size,
                    3 <= size <= 1024,
                    1 <= x < size - 1,
                    1 <= y < size - 1,
                    1 <= z <= size - 1,
                    has_air <==> found_before(view, true, x as int, y as int, z as int),
                    has_material <==> found_before(view, false, x as int, y as int, z as int),
                decreases size - z,
            {
                let voxel: u8 = octree.get_voxel(x, y, z);
                proof {
                    lemma_found_step(view, true, x as int, y as int, z as int);
                    lemma_found_step(view, false, x as int, y as int, z as int);
                }
                if voxel == 0 {
                    has_air = true;
                } else {
                    has_material = true;
                }
                z = z + 1;
            }
            proof {
                lemma_found_skip(view, true, x as int, y as int, z as int, x as int, y + 1, 1);
                lemma_found_skip(view, false, x as int, y as int, z as int, x as int, y + 1, 1);
            }
            y = y + 1;
        }
        proof {
            lemma_found_skip(view, true, x as int, y as int, 1, x + 1, 1, 1);
            lemma_found_skip(view, false, x as int, y as int, 1, x + 1, 1, 1);
        }
        x = x + 1;
    }
    proof {
        assert(has_air <==> interior_has_air(view)) by {
            if interior_has_air(view) {
                let (cx, cy, cz) = choose|cx: int, cy: int, cz: int|
                    is_interior(view.size as int, cx, cy, cz) && view.voxel(cx, cy, cz) == 0;
                assert(comes_before(cx, cy, cz, x as int, 1, 1));
            }
        }
        assert(has_material <==> interior_has_material(view)) by {
            if interior_has_material(view) {
                let (cx, cy, cz) = choose|cx: int, cy: int, cz: int|
                    is_interior(view.size as int, cx, cy, cz) && view.voxel(cx, cy, cz) != 0;
                assert(comes_before(cx, cy, cz, x as int, 1, 1));
            }
        }
    }
    if has_air && has_material {
        ChunkMode::Loaded
    } else {
        ChunkMode::Air
    }
}

/// The chunk `chunk` is what generation yields at `key`: an octree of the
/// given depth whose every voxel is a value that the density function `f`
/// returns for that voxel's world coordinate and the ground level, with the
/// classification of those voxels, marked as default.
pub open spec fn generated<F: Fn(i64, i64, i64, i64) -> u8>(
    f: F,
    key: [i64; 3],
    depth: nat,
    lod: usize,
    stride: int,
    chunk: ChunkView,
) -> bool {
    &&& chunk.key == key
    &&& chunk.lod == lod
    &&& chunk.is_default
    &&& chunk.octree.wf()
    &&& chunk.octree.depth == depth
    &&& chunk.octree.policy == ParentValueType::Lod
    &&& chunk.mode == fill_mode(chunk.octree)
    &&& forall|x: int, y: int, z: int|
        in_grid(chunk.octree.size as int, x, y, z) ==> call_ensures(
            f,
            (
                (key[0] * stride + x) as i64,
                (key[1] * stride + y) as i64,
                (key[2] * stride + z) as i64,
                GROUND_LEVEL,
            ),
            #[trigger] chunk.octree.voxel(x, y, z),
        )
}

/// Every key within `range` of `key` lies inside the usable world.
pub open spec fn in_reach(key: [i64; 3], range: int) -> bool {
    &&& -WORLD_LIMIT + range <= key[0] <= WORLD_LIMIT - range
    &&& -WORLD_LIMIT + range <= key[1] <= WORLD_LIMIT - range
    &&& -WORLD_LIMIT + range <= key[2] <= WORLD_LIMIT - range
}

/// The density function accepts every coordinate.
pub open spec fn total<F: Fn(i64, i64, i64, i64) -> u8>(f: F) -> bool {
    forall|x: i64, y: i64, z: i64, ground: i64| call_requires(f, (x, y, z, ground))
}

/// A chunk whose interior is all material, or all air, is classified as
/// `Air`: it has no surface. A chunk without interior voxels is such a
/// chunk.
pub proof fn lemma_uniform_interior(octree: OctreeView)
    requires
        (forall|x: int, y: int, z: int|
            is_interior(octree.size as int, x, y, z) ==> #[trigger] octree.voxel(x, y, z) != 0) || (forall|
            x: int,
            y: int,
            z: int,
        | is_interior(octree.size as int, x, y, z) ==> #[trigger] octree.voxel(x, y, z) == 0),
    ensures
        fill_mode(octree) == ChunkMode::Air,
{
    if interior_has_air(octree) && interior_has_material(octree) {
        let (ax, ay, az) = choose|x: int, y: int, z: int|
            is_interior(octree.size as int, x, y, z) && octree.voxel(x, y, z) == 0;
        let (mx, my, mz) = choose|x: int, y: int, z: int|
            is_interior(octree.size as int, x, y, z) && octree.voxel(x, y, z) != 0;
        assert(octree.voxel(ax, ay, az) == 0);
        assert(octree.voxel(mx, my, mz) != 0);
    }
}

/// A chunk with an air voxel and a material voxel in its interior is
/// classified as `Loaded`: it has a surface to mesh.
pub proof fn lemma_mixed_interior(octree: OctreeView, air: (int, int, int), material: (int, int, int))
    requires
        is_interior(octree.size as int, air.0, air.1, air.2),
        is_interior(octree.size as int, material.0, material.1, material.2),
        octree.voxel(air.0, air.1, air.2) == 0,
        octree.voxel(material.0, material.1, material.2) != 0,
    ensures
        fill_mode(octree) == ChunkMode::Loaded,
{
}

/// Between two places on a line on which a property differs there is a
/// step at which it changes.
proof fn lemma_change_between(holds: spec_fn(int) -> bool, lo: int, hi: int)
    requires
        lo <= hi,
        holds(lo) != holds(hi),
    ensures
        exists|i: int| lo <= i < hi && holds(i) != #[trigger] holds(i + 1),
    decreases hi - lo,
{
    if holds(lo) != holds(lo + 1) {
        assert(lo < hi);
    } else {
        lemma_change_between(holds, lo + 1, hi);
    }
}

/// Where the voxels at two interior places of one line along `axis`
/// differ in being air, an edge between two interior voxels on that line
/// crosses the surface, and so the mesh has triangles.
proof fn lemma_line_has_triangles(octree: OctreeView, p: (int, int, int), axis: int, other: int)
    requires
        octree.wf(),
        0 <= axis < 3,
        is_interior(octree.size as int, p.0, p.1, p.2),
        1 <= other < octree.size - 1,
        (octree.voxel(p.0, p.1, p.2) == 0) != (if axis == 0 {
            octree.voxel(other, p.1, p.2) == 0
        } else if axis == 1 {
            octree.voxel(p.0, other, p.2) == 0
        } else {
            octree.voxel(p.0, p.1, other) == 0
        }),
    ensures
        surface_mesh(octree.level(0), octree.size as int, 0).indices.len() >= 6,
{
    let n = octree.size as int;
    let grid = octree.level(0);
    let here = if axis == 0 {
        p.0
    } else if axis == 1 {
        p.1
    } else {
        p.2
    };
    let holds = |i: int|
        if axis == 0 {
            octree.voxel(i, p.1, p.2) == 0
        } else if axis == 1 {
            octree.voxel(p.0, i, p.2) == 0
        } else {
            octree.voxel(p.0, p.1, i) == 0
        };
    let lo = if here <= other {
        here
    } else {
        other
    };
    let hi = if here <= other {
        other
    } else {
        here
    };
    assert(holds(here) != holds(other));
    lemma_change_between(holds, lo, hi);
    let i = choose|i: int| lo <= i < hi && holds(i) != #[trigger] holds(i + 1);
    let q = if axis == 0 {
        (i, p.1, p.2)
    } else if axis == 1 {
        (p.0, i, p.2)
    } else {
        (p.0, p.1, i)
    };
    let a = axis_unit(axis);
    lemma_edge_len(octree.depth);
    lemma_level_grid(octree, 0, q.0, q.1, q.2);
    lemma_level_grid(octree, 0, q.0 + a.0, q.1 + a.1, q.2 + a.2);
    assert(octree.node(0, q.0, q.1, q.2) == octree.voxel(q.0, q.1, q.2));
    assert(octree.node(0, q.0 + a.0, q.1 + a.1, q.2 + a.2) == octree.voxel(q.0 + a.0, q.1 + a.1, q.2 + a.2));
    assert(crossing(grid, n, q.0, q.1, q.2, axis));
    lemma_crossing_gives_triangles(grid, n, 0, q.0, q.1, q.2, axis);
}

/// A chunk classified as `Loaded` has a surface to show: its mesh at full
/// detail holds at least one quad.
pub proof fn lemma_loaded_has_triangles(octree: OctreeView)
    requires
        octree.wf(),
        fill_mode(octree) == ChunkMode::Loaded,
    ensures
        surface_mesh(octree.level(0), octree.size as int, 0).indices.len() >= 6,
{
    let n = octree.size as int;
    let (ax, ay, az) = choose|x: int, y: int, z: int| is_interior(n, x, y, z) && octree.voxel(x, y, z) == 0;
    let (mx, my, mz) = choose|x: int, y: int, z: int| is_interior(n, x, y, z) && octree.voxel(x, y, z) != 0;
    // From the air voxel to the material voxel, one axis at a time.
    if (octree.voxel(ax, ay, az) == 0) != (octree.voxel(mx, ay, az) == 0) {
        lemma_line_has_triangles(octree, (ax, ay, az), 0, mx);
    } else if (octree.voxel(mx, ay, az) == 0) != (octree.voxel(mx, my, az) == 0) {
        lemma_line_has_triangles(octree, (mx, ay, az), 1, my);
    } else {
        lemma_line_has_triangles(octree, (mx, my, az), 2, mz);
    }
}

/// A chunk generated from a density function that gives material for
/// every voxel of the chunk's interior is classified as `Air`; so is one
/// whose interior the density function leaves all air.
pub proof fn lemma_generated_uniform<F: Fn(i64, i64, i64, i64) -> u8>(
    f: F,
    key: [i64; 3],
    depth: nat,
    lod: usize,
    stride: int,
    chunk: ChunkView,
    solid: bool,
)
    requires
        depth <= MAX_DEPTH,
        generated(f, key, depth, lod, stride, chunk),
        forall|x: int, y: int, z: int, v: u8|
            is_interior(chunk.octree.size as int, x, y, z) && #[trigger] call_ensures(
                f,
                ((key[0] * stride + x) as i64, (key[1] * stride + y) as i64, (key[2] * stride + z) as i64, GROUND_LEVEL),
                v,
            ) ==> (v != 0) == solid,
    ensures
        chunk.mode == ChunkMode::Air,
{
    assert forall|x: int, y: int, z: int| is_interior(chunk.octree.size as int, x, y, z) implies (
    #[trigger] chunk.octree.voxel(x, y, z) != 0) == solid by {
        assert(in_grid(chunk.octree.size as int, x, y, z));
    }
    lemma_uniform_interior(chunk.octree);
}

/// The meshes that two chunks show are free of seams, where both chunks
/// are extracted: for two chunks, neither classified as `Air`, whose
/// voxels agree with one world, and a cell that both have, either both
/// meshes have a vertex for the cell or neither has, and the two vertices
/// are the one that the world has there. A chunk classified as `Air` shows
/// nothing, also where its seam layer holds a surface; so the premise on
/// the two modes cannot be dropped.
pub proof fn lemma_shown_seam_free(
    a: ChunkView,
    key_a: [i64; 3],
    b: ChunkView,
    key_b: [i64; 3],
    stride: int,
    world: World,
    cell: (int, int, int),
)
    requires
        a.mode != ChunkMode::Air,
        b.mode != ChunkMode::Air,
        a.octree.wf(),
        b.octree.wf(),
        a.octree.depth == b.octree.depth,
        in_world(key_a),
        in_world(key_b),
        0 <= stride <= 1024,
        agrees_with(a.octree, key_a, stride, world),
        agrees_with(b.octree, key_b, stride, world),
        has_cell(
            a.octree.size as int,
            cell.0 - key_a[0] * stride,
            cell.1 - key_a[1] * stride,
            cell.2 - key_a[2] * stride,
        ),
        has_cell(
            b.octree.size as int,
            cell.0 - key_b[0] * stride,
            cell.1 - key_b[1] * stride,
            cell.2 - key_b[2] * stride,
        ),
    ensures
        ({
            let n = a.octree.size as int;
            let ia = grid_index(n, cell.0 - key_a[0] * stride, cell.1 - key_a[1] * stride, cell.2 - key_a[2] * stride);
            let ib = grid_index(n, cell.0 - key_b[0] * stride, cell.1 - key_b[1] * stride, cell.2 - key_b[2] * stride);
            let mesh_a = shown_mesh(a, 0);
            let mesh_b = shown_mesh(b, 0);
            let ra = rank(a.octree.level(0), n, ia);
            let rb = rank(b.octree.level(0), n, ib);
            let corners = world_corners(world, cell.0, cell.1, cell.2);
            &&& surface_at(a.octree.level(0), n, ia) == (0 < filled_count(corners) < 8)
            &&& surface_at(b.octree.level(0), n, ib) == (0 < filled_count(corners) < 8)
            &&& 0 < filled_count(corners) < 8 ==> {
                &&& 0 <= ra < mesh_a.positions.len()
                &&& 0 <= rb < mesh_b.positions.len()
                &&& 2 * key_a[0] * stride + mesh_a.positions[ra][0] == 2 * cell.0 + 1
                &&& 2 * key_a[1] * stride + mesh_a.positions[ra][1] == 2 * cell.1 + 1
                &&& 2 * key_a[2] * stride + mesh_a.positions[ra][2] == 2 * cell.2 + 1
                &&& 2 * key_b[0] * stride + mesh_b.positions[rb][0] == 2 * cell.0 + 1
                &&& 2 * key_b[1] * stride + mesh_b.positions[rb][1] == 2 * cell.1 + 1
                &&& 2 * key_b[2] * stride + mesh_b.positions[rb][2] == 2 * cell.2 + 1
                &&& mesh_a.normals[ra] == corner_normal(corners)
                &&& mesh_b.normals[rb] == corner_normal(corners)
                &&& mesh_a.materials[ra] == dominant(corners)
                &&& mesh_b.materials[rb] == dominant(corners)
            }
        }),
{
    lemma_edge_len(a.octree.depth);
    lemma_seam_free(a.octree, key_a, b.octree, key_b, stride, world, cell);
}

/// A chunk generated from a density function that always gives what the
/// world holds agrees with the world in every voxel, seam included.
pub proof fn lemma_generated_agrees<F: Fn(i64, i64, i64, i64) -> u8>(
    f: F,
    key: [i64; 3],
    depth: nat,
    lod: usize,
    stride: int,
    chunk: ChunkView,
    world: World,
)
    requires
        generated(f, key, depth, lod, stride, chunk),
        forall|x: i64, y: i64, z: i64, v: u8| #[trigger]
            call_ensures(f, (x, y, z, GROUND_LEVEL), v) ==> v == world([x, y, z]),
    ensures
        agrees_with(chunk.octree, key, stride, world),
{
    assert forall|x: int, y: int, z: int| in_grid(chunk.octree.size as int, x, y, z) implies #[trigger] chunk.octree.voxel(
        x,
        y,
        z,
    ) == world([(key[0] * stride + x) as i64, (key[1] * stride + y) as i64, (key[2] * stride + z) as i64]) by {
        let wx = (key[0] * stride + x) as i64;
        let wy = (key[1] * stride + y) as i64;
        let wz = (key[2] * stride + z) as i64;
        assert(call_ensures(f, (wx, wy, wz, GROUND_LEVEL), chunk.octree.voxel(x, y, z)));
        assert([wx, wy, wz] =~= [
            (key[0] * stride + x) as i64,
            (key[1] * stride + y) as i64,
            (key[2] * stride + z) as i64,
        ]);
    }
}

/// The chunk `after` is the chunk `before` with the voxel `(x, y, z)` set to
/// `value`: the other voxels, the key, the level of detail and the
/// classification are kept, and the chunk no longer counts as default.
pub open spec fn edited(before: ChunkView, after: ChunkView, x: int, y: int, z: int, value: u8) -> bool {
    &&& after.key == before.key
    &&& after.lod == before.lod
    &&& after.mode == before.mode
    &&& !after.is_default
    &&& after.octree.wf()
    &&& after.octree.depth == before.octree.depth
    &&& after.octree.policy == before.octree.policy
    &&& after.octree.voxels() == before.octree.voxels().update(
        grid_index(before.octree.size as int, x, y, z),
        value,
    )
}

/// The chunk `after` is what an edit of the voxel `(x, y, z)` leaves at
/// `key`: the chunk that the table `before` held there, edited; or, where
/// it held none, a freshly generated chunk, edited.
pub open spec fn edit_of<F: Fn(i64, i64, i64, i64) -> u8>(
    f: F,
    depth: nat,
    stride: int,
    before: Map<[i64; 3], ChunkView>,
    key: [i64; 3],
    after: ChunkView,
    x: int,
    y: int,
    z: int,
    value: u8,
) -> bool {
    if before.contains_key(key) {
        edited(before[key], after, x, y, z, value)
    } else {
        exists|base: ChunkView| generated(f, key, depth, 0, stride, base) && #[trigger] edited(base, after, x, y, z, value)
    }
}

/// An edit of one world voxel changes no other loaded voxel: where the
/// table `after` is the table `before` with the chunk that owns `pos`
/// edited at `pos`, every other world voxel that `before` had loaded reads
/// in `after` as it did in `before`.
pub proof fn lemma_edit_keeps_other_voxels(
    before: Map<[i64; 3], ChunkView>,
    after: Map<[i64; 3], ChunkView>,
    stride: int,
    pos: [i64; 3],
    other: [i64; 3],
    value: u8,
)
    requires
        stride > 0,
        other != pos,
        before.contains_key(pos_key(other, stride)),
        before[pos_key(other, stride)].octree.wf(),
        stride <= before[pos_key(other, stride)].octree.size,
        after.contains_key(pos_key(pos, stride)),
        after == before.insert(pos_key(pos, stride), after[pos_key(pos, stride)]),
        before.contains_key(pos_key(pos, stride)) ==> edited(
            before[pos_key(pos, stride)],
            after[pos_key(pos, stride)],
            pos_local(pos, stride)[0] as int,
            pos_local(pos, stride)[1] as int,
            pos_local(pos, stride)[2] as int,
            value,
        ),
    ensures
        after.contains_key(pos_key(other, stride)),
        after[pos_key(other, stride)].octree.voxel(
            pos_local(other, stride)[0] as int,
            pos_local(other, stride)[1] as int,
            pos_local(other, stride)[2] as int,
        ) == before[pos_key(other, stride)].octree.voxel(
            pos_local(other, stride)[0] as int,
            pos_local(other, stride)[1] as int,
            pos_local(other, stride)[2] as int,
        ),
{
    let key = pos_key(pos, stride);
    let there = pos_key(other, stride);
    if there == key {
        let old_octree = before[key].octree;
        let new_octree = after[key].octree;
        let a = pos_local(pos, stride);
        let b = pos_local(other, stride);
        let size = old_octree.size as int;
        lemma_edge_len(old_octree.depth);
        lemma_floor_div_block(pos[0] as int, stride, floor_div(pos[0] as int, stride));
        lemma_floor_div_block(pos[1] as int, stride, floor_div(pos[1] as int, stride));
        lemma_floor_div_block(pos[2] as int, stride, floor_div(pos[2] as int, stride));
        lemma_floor_div_block(other[0] as int, stride, floor_div(other[0] as int, stride));
        lemma_floor_div_block(other[1] as int, stride, floor_div(other[1] as int, stride));
        lemma_floor_div_block(other[2] as int, stride, floor_div(other[2] as int, stride));
        lemma_floor_div_fits(pos[0] as int, stride);
        lemma_floor_div_fits(pos[1] as int, stride);
        lemma_floor_div_fits(pos[2] as int, stride);
        lemma_floor_div_fits(other[0] as int, stride);
        lemma_floor_div_fits(other[1] as int, stride);
        lemma_floor_div_fits(other[2] as int, stride);
        assert(key[0] == there[0] && key[1] == there[1] && key[2] == there[2]);
        if a[0] == b[0] && a[1] == b[1] && a[2] == b[2] {
            assert(other =~= pos);
        }
        lemma_voxel_of_voxels(old_octree, b[0] as int, b[1] as int, b[2] as int);
        lemma_voxel_of_voxels(new_octree, b[0] as int, b[1] as int, b[2] as int);
        lemma_grid_index(size, a[0] as int, a[1] as int, a[2] as int);
        lemma_grid_index(size, b[0] as int, b[1] as int, b[2] as int);
    }
}

/// What streaming the chunks at `keys` does to a table: `after` is `before`
/// with a freshly generated chunk under each of the keys that `before`
/// lacked, every chunk that was loaded is untouched, and `result` lists the
/// chunks of `after` under `keys`, in order.
pub open spec fn streamed<F: Fn(i64, i64, i64, i64) -> u8>(
    f: F,
    depth: nat,
    stride: int,
    before: Map<[i64; 3], ChunkView>,
    after: Map<[i64; 3], ChunkView>,
    keys: Seq<[i64; 3]>,
    result: Seq<ChunkView>,
) -> bool {
    &&& result.len() == keys.len()
    &&& forall|i: int|
        0 <= i < keys.len() ==> after.contains_key(#[trigger] keys[i]) && result[i] == after[keys[i]]
    &&& forall|key: [i64; 3]| #[trigger]
        after.contains_key(key) <==> before.contains_key(key) || keys.contains(key)
    &&& forall|key: [i64; 3]| #[trigger] before.contains_key(key) ==> after[key] == before[key]
    &&& forall|key: [i64; 3]|
        !before.contains_key(key) && #[trigger] keys.contains(key) ==> generated(
            f,
            key,
            depth,
            0,
            stride,
            after[key],
        )
}

/// Streaming the same keys a second time changes nothing and returns the
/// same chunks: after the first pass every key is loaded, and a loaded
/// chunk is never generated again.
pub proof fn lemma_streaming_is_idempotent<F: Fn(i64, i64, i64, i64) -> u8>(
    f: F,
    depth: nat,
    stride: int,
    start: Map<[i64; 3], ChunkView>,
    first: Map<[i64; 3], ChunkView>,
    second: Map<[i64; 3], ChunkView>,
    keys: Seq<[i64; 3]>,
    first_result: Seq<ChunkView>,
    second_result: Seq<ChunkView>,
)
    requires
        streamed(f, depth, stride, start, first, keys, first_result),
        streamed(f, depth, stride, first, second, keys, second_result),
    ensures
        second == first,
        second_result == first_result,
{
    assert forall|key: [i64; 3]| second.contains_key(key) <==> first.contains_key(key) by {
        if keys.contains(key) {
            let i = choose|i: int| 0 <= i < keys.len() && keys[i] == key;
            assert(first.contains_key(keys[i]));
        }
    }
    assert(second =~= first);
    assert forall|i: int| 0 <= i < keys.len() implies second_result[i] == first_result[i] by {
        assert(first.contains_key(keys[i]));
    }
    assert(second_result =~= first_result);
}

/// The chunks of a manager by key, kept in a hash map of the hashbrown
/// crate. What the map holds is named by [`table_contents`]; the methods
/// below state what each call does to it.
#[verifier::external_body]
pub struct ChunkTable {
    map: hashbrown::HashMap<[i64; 3], Chunk>,
}

/// The chunks that a table holds, by key.
pub uninterp spec fn table_contents(table: ChunkTable) -> Map<[i64; 3], ChunkView>;

/// A table without chunks.
pub open spec fn empty_table() -> Map<[i64; 3], ChunkView> {
    Map::empty()
}

impl ChunkTable {
    /// `hashbrown::HashMap::new`: the new map holds nothing.
    #[verifier::external_body]
    pub(crate) fn new() -> (table: ChunkTable)
        ensures
            table_contents(table) == empty_table(),
    {
        ChunkTable { map: hashbrown::HashMap::new() }
    }

    /// `hashbrown::HashMap::get`: the chunk stored under `key`, if there is
    /// one.
    #[verifier::external_body]
    pub(crate) fn get(&self, key: &[i64; 3]) -> (found: Option<&Chunk>)
        ensures
            found.is_some() == table_contents(*self).contains_key(*key),
            found.is_some() ==> found.unwrap()@ == table_contents(*self)[*key],
    {
        self.map.get(key)
    }

    /// `hashbrown::HashMap::insert`: afterwards `key` maps to `chunk`,
    /// whether or not it was present, and no other key has changed.
    #[verifier::external_body]
    pub(crate) fn insert(&mut self, key: [i64; 3], chunk: Chunk)
        ensures
            table_contents(*final(self)) == table_contents(*old(self)).insert(key, chunk@),
    {
        self.map.insert(key, chunk);
    }

    /// `hashbrown::HashMap::remove`: afterwards `key` is absent, and no
    /// other key has changed.
    #[verifier::external_body]
    pub(crate) fn remove(&mut self, key: &[i64; 3])
        ensures
            table_contents(*final(self)) == table_contents(*old(self)).remove(*key),
    {
        self.map.remove(key);
    }

    /// `hashbrown::HashMap::get_mut`: a mutable reference to the chunk
    /// stored under `key`, if there is one. What the caller leaves in it is
    /// what the table then holds under `key`; nothing else changes.
    #[verifier::external_body]
    pub(crate) fn get_mut(&mut self, key: &[i64; 3]) -> (found: Option<&mut Chunk>)
        ensures
            found.is_some() == table_contents(*old(self)).contains_key(*key),
            found.is_some() ==> (*found.unwrap())@ == table_contents(*old(self))[*key],
            found.is_some() ==> table_contents(*final(self)) == table_contents(*old(self)).insert(
                *key,
                (*final(found.unwrap()))@,
            ),
            found.is_none() ==> table_contents(*final(self)) == table_contents(*old(self)),
    {
        self.map.get_mut(key)
    }

    /// `hashbrown::HashMap::len`: the number of keys.
    #[verifier::external_body]
    pub(crate) fn len(&self) -> (count: usize)
        ensures
            count == table_contents(*self).dom().len(),
    {
        self.map.len()
    }
}

/// The sparse set of loaded chunks, with the density function that fills
/// in the missing ones.
pub struct ChunkManager<F> {
    /// The loaded chunks by key.
    pub chunks: ChunkTable,
    /// Every chunk's octree has this depth.
    pub depth: u32,
    /// The edge of a chunk in voxels: `2^depth`.
    pub chunk_size: u32,
    /// The seam width: by how many voxels neighbouring chunks overlap.
    pub offset: u32,
    /// The default streaming radius, in chunks.
    pub range: u8,
    /// Gives the material of a world voxel from its coordinate and the
    /// ground level.
    pub density: F,
}

impl<F: Fn(i64, i64, i64, i64) -> u8> View for ChunkManager<F> {
    type V = Map<[i64; 3], ChunkView>;

    open spec fn view(&self) -> Map<[i64; 3], ChunkView> {
        table_contents(self.chunks)
    }
}

impl<F: Fn(i64, i64, i64, i64) -> u8> ChunkManager<F> {
    /// The distance, in voxels, between the starts of neighbouring chunks.
    pub open spec fn stride(&self) -> int {
        self.chunk_size - self.offset
    }

    /// The settings are consistent and every chunk in the table has a
    /// well-formed octree of the manager's depth.
    pub open spec fn wf(&self) -> bool {
        &&& self.depth <= MAX_DEPTH
        &&& self.chunk_size == edge_len(self.depth as nat)
        &&& 2 * self.offset <= self.chunk_size
        &&& self.offset < self.chunk_size
        &&& self.offset == 0 || self.offset + 2 <= self.chunk_size
        &&& total(self.density)
        &&& self@.dom().finite()
        &&& forall|key: [i64; 3]| #[trigger]
            self@.contains_key(key) ==> self@[key].octree.wf() && self@[key].octree.depth == self.depth
    }

    /// The settings of `other` are those of `self`.
    pub open spec fn same_settings(&self, other: &Self) -> bool {
        &&& other.depth == self.depth
        &&& other.chunk_size == self.chunk_size
        &&& other.offset == self.offset
        &&& other.range == self.range
        &&& other.density == self.density
    }

    /// Every chunk of the table carries the key that it is stored under.
    /// A new manager has this, and every operation keeps it but
    /// [`Self::set_chunk`] with a chunk of another key and what a caller
    /// writes through [`Self::get_chunk_mut`].
    pub open spec fn keyed(&self) -> bool {
        forall|key: [i64; 3]| #[trigger] self@.contains_key(key) ==> self@[key].key == key
    }

    /// The material of the world voxel `pos`, read from the chunk that owns
    /// it, or nothing where that chunk is not loaded.
    pub open spec fn voxel_at(&self, pos: [i64; 3]) -> Option<u8> {
        let key = pos_key(pos, self.stride());
        let local = pos_local(pos, self.stride());
        if self@.contains_key(key) {
            Some(self@[key].octree.voxel(local[0] as int, local[1] as int, local[2] as int))
        } else {
            None
        }
    }

    /// A manager without chunks, for octrees of the given depth, with a
    /// seam of [`SEAM_WIDTH`] voxels.
    pub fn new(depth: u32, range: u8, density: F) -> (manager: Self)
        requires
            2 <= depth <= MAX_DEPTH,
            total(density),
        ensures
            manager.wf(),
            manager.keyed(),
            manager@ == empty_table(),
            manager.depth == depth,
            manager.offset == SEAM_WIDTH,
            manager.range == range,
            manager.density == density,
    {
        let chunk_size: u32 = get_size(depth as u8);
        proof {
            lemma_edge_len(depth as nat);
            lemma_edge_len((depth - 1) as nat);
            lemma_edge_len((depth - 2) as nat);
        }
        ChunkManager { chunks: ChunkTable::new(), depth, chunk_size, offset: SEAM_WIDTH, range, density }
    }

    /// A manager without chunks for octrees of the given depth, streaming
    /// one chunk around the viewer.
    pub fn new_1(depth: u32, density: F) -> (manager: Self)
        requires
            2 <= depth <= MAX_DEPTH,
            total(density),
        ensures
            manager.wf(),
            manager.keyed(),
            manager@ == empty_table(),
            manager.depth == depth,
            manager.offset == SEAM_WIDTH,
            manager.range == 1,
            manager.density == density,
    {
        Self::new(depth, 1, density)
    }

    /// The distance, in voxels, between the starts of neighbouring chunks:
    /// the chunk edge less the seam.
    pub fn seamless_size(&self) -> (stride: u32)
        requires
            self.offset <= self.chunk_size,
        ensures
            stride == self.stride(),
    {
        self.chunk_size - self.offset
    }

    /// Generates the chunk at `key`: asks the density function `f` for every
    /// voxel of a cube of edge `2^depth` that starts at `key * seamless_size`,
    /// builds the octree from the answers and classifies it.
    pub fn new_chunk(
        key: &[i64; 3],
        depth: u8,
        lod: usize,
        seamless_size: u32,
        f: &F,
    ) -> (chunk: Chunk)
        requires
            depth <= MAX_DEPTH,
            in_world(*key),
            seamless_size <= 1024,
            total(*f),
        ensures
            generated(*f, *key, depth as nat, lod, seamless_size as int, chunk@),
            chunk.mode == ChunkMode::Loaded || chunk.mode == ChunkMode::Air,
    {
        let size: u32 = get_size(depth);
        proof {
            lemma_edge_len(depth as nat);
            lemma_scaled_in_range(key[0] as int, seamless_size as int);
            lemma_scaled_in_range(key[1] as int, seamless_size as int);
            lemma_scaled_in_range(key[2] as int, seamless_size as int);
            assert(size * size <= 1_048_576 && size * size * size <= 1_073_741_824) by (nonlinear_arith)
                requires
                    1 <= size <= 1024,
            ;
        }
        let start_x: i64 = key[0] * (seamless_size as i64);
        let start_y: i64 = key[1] * (seamless_size as i64);
        let start_z: i64 = key[2] * (seamless_size as i64);
        let area: u32 = size * size;
        let count: u32 = area * size;
        let mut data: Vec<[u32; 4]> = Vec::new();
        let mut i: u32 = 0;
        while i < count
            invariant
                i <= count,
                count == size * size * size,
                area == size * size,
                1 <= size <= 1024,
                size == edge_len(depth as nat),
                depth <= MAX_DEPTH,
                total(*f),
                start_x == key[0] * seamless_size,
                start_y == key[1] * seamless_size,
                start_z == key[2] * seamless_size,
                -1_125_899_906_842_624 <= start_x <= 1_125_899_906_842_624,
                -1_125_899_906_842_624 <= start_y <= 1_125_899_906_842_624,
                -1_125_899_906_842_624 <= start_z <= 1_125_899_906_842_624,
                data.len() == i,
                forall|j: int|
                    0 <= j < i ==> {
                        &&& (#[trigger] data[j])[0] == grid_x(size as int, j)
                        &&& data[j][1] == grid_y(size as int, j)
                        &&& data[j][2] == grid_z(size as int, j)
                        &&& data[j][3] <= 255
                        &&& call_ensures(
                            *f,
                            (
                                (start_x + grid_x(size as int, j)) as i64,
                                (start_y + grid_y(size as int, j)) as i64,
                                (start_z + grid_z(size as int, j)) as i64,
                                GROUND_LEVEL,
                            ),
                            data[j][3] as u8,
                        )
                    },
            decreases count - i,
        {
            proof {
                lemma_grid_coords(size as int, i as int);
            }
            let octree_x: u32 = i / area;
            let octree_y: u32 = (i / size) % size;
            let octree_z: u32 = i % size;
            let x: i64 = start_x + octree_x as i64;
            let y: i64 = start_y + octree_y as i64;
            let z: i64 = start_z + octree_z as i64;
            let voxel: u8 = f(x, y, z, GROUND_LEVEL);
            data.push([octree_x, octree_y, octree_z, voxel as u32]);
            i = i + 1;
        }
        proof {
            assert forall|j: int| 0 <= j < data.len() implies valid_entry(
                depth as nat,
                #[trigger] data[j],
            ) by {
                lemma_grid_coords(size as int, j);
            }
        }
        let octree: VoxelOctree = VoxelOctree::new_from_3d_array(0, depth, &data, ParentValueType::Lod);
        let mode: ChunkMode = classify(&octree);
        let chunk = Chunk { key: *key, lod, octree, mode, is_default: true };
        proof {
            lemma_listing_fills_grid(0, depth as nat, data@);
            assert forall|x: int, y: int, z: int| in_grid(chunk@.octree.size as int, x, y, z) implies call_ensures(
                *f,
                (
                    (key[0] * seamless_size + x) as i64,
                    (key[1] * seamless_size + y) as i64,
                    (key[2] * seamless_size + z) as i64,
                    GROUND_LEVEL,
                ),
                #[trigger] chunk@.octree.voxel(x, y, z),
            ) by {
                lemma_grid_index(size as int, x, y, z);
                lemma_voxel_of_voxels(chunk@.octree, x, y, z);
                let j = grid_index(size as int, x, y, z);
                assert(data[j][3] as u8 == chunk@.octree.voxel(x, y, z));
            }
        }
        chunk
    }

    /// Writes `voxel` at the world voxel `pos`, in the chunk that owns it.
    /// Where the table does not hold that chunk, it is generated first, so
    /// that the edit lies on top of the terrain. The edited chunk is stored
    /// and a copy of it returned.
    pub fn set_voxel(&mut self, pos: &[i64; 3], voxel: u8) -> (chunk: Chunk)
        requires
            old(self).wf(),
            in_world(*pos),
        ensures
            final(self).wf(),
            old(self).keyed() ==> final(self).keyed(),
            old(self).keyed() ==> chunk@.key == pos_key(*pos, old(self).stride()),
            old(self).same_settings(final(self)),
            final(self)@ == old(self)@.insert(pos_key(*pos, old(self).stride()), chunk@),
            edit_of(
                old(self).density,
                old(self).depth as nat,
                old(self).stride(),
                old(self)@,
                pos_key(*pos, old(self).stride()),
                chunk@,
                pos_local(*pos, old(self).stride())[0] as int,
                pos_local(*pos, old(self).stride())[1] as int,
                pos_local(*pos, old(self).stride())[2] as int,
                voxel,
            ),
            final(self).voxel_at(*pos) == Some(voxel),
    {
        proof {
            lemma_edge_len(self.depth as nat);
        }
        let stride: u32 = self.seamless_size();
        let key: [i64; 3] = voxel_pos_to_key(pos, stride);
        let local: [u32; 3] = get_chunk_coords(pos, stride);
        self.set_voxel_in(&key, local[0], local[1], local[2], voxel)
    }

    /// Writes `voxel` at the voxel `(x, y, z)` of the chunk at `key`. Where
    /// the table does not hold that chunk, it is generated first. The
    /// edited chunk no longer counts as default; it is stored and a copy of
    /// it returned.
    pub fn set_voxel_in(&mut self, key: &[i64; 3], x: u32, y: u32, z: u32, voxel: u8) -> (chunk: Chunk)
        requires
            old(self).wf(),
            in_world(*key),
            x < old(self).chunk_size,
            y < old(self).chunk_size,
            z < old(self).chunk_size,
        ensures
            final(self).wf(),
            old(self).keyed() ==> final(self).keyed(),
            old(self).keyed() ==> chunk@.key == *key,
            old(self).same_settings(final(self)),
            final(self)@ == old(self)@.insert(*key, chunk@),
            edit_of(
                old(self).density,
                old(self).depth as nat,
                old(self).stride(),
                old(self)@,
                *key,
                chunk@,
                x as int,
                y as int,
                z as int,
                voxel,
            ),
            chunk@.octree.voxel(x as int, y as int, z as int) == voxel,
    {
        proof {
            lemma_edge_len(self.depth as nat);
        }
        let stride: u32 = self.seamless_size();
        let mut chunk: Chunk = match self.chunks.get(key) {
            Some(found) => found.clone(),
            None => Self::new_chunk(key, self.depth as u8, 0, stride, &self.density),
        };
        let ghost base = chunk@;
        chunk.octree.set_voxel(x, y, z, voxel);
        chunk.is_default = false;
        self.chunks.insert(*key, chunk.clone());
        proof {
            assert(edited(base, chunk@, x as int, y as int, z as int, voxel));
        }
        chunk
    }

    /// The material of the world voxel `pos`, or 0 where the chunk that
    /// owns it is not loaded.
    pub fn get_voxel(&self, pos: &[i64; 3]) -> (voxel: u8)
        requires
            self.wf(),
        ensures
            voxel == (match self.voxel_at(*pos) {
                Some(value) => value,
                None => 0u8,
            }),
    {
        match self.get_voxel_safe(pos) {
            Some(value) => value,
            None => 0,
        }
    }

    /// The material of the world voxel `pos`. Where the chunk that owns it
    /// is not loaded, that chunk is generated and stored first.
    pub fn get_voxel_mut(&mut self, pos: &[i64; 3]) -> (voxel: u8)
        requires
            old(self).wf(),
            in_world(*pos),
        ensures
            final(self).wf(),
            old(self).keyed() ==> final(self).keyed(),
            old(self).same_settings(final(self)),
            old(self)@.contains_key(pos_key(*pos, old(self).stride())) ==> final(self)@ == old(self)@,
            !old(self)@.contains_key(pos_key(*pos, old(self).stride())) ==> {
                &&& final(self)@.contains_key(pos_key(*pos, old(self).stride()))
                &&& final(self)@ == old(self)@.insert(
                    pos_key(*pos, old(self).stride()),
                    final(self)@[pos_key(*pos, old(self).stride())],
                )
                &&& generated(
                    old(self).density,
                    pos_key(*pos, old(self).stride()),
                    old(self).depth as nat,
                    0,
                    old(self).stride(),
                    final(self)@[pos_key(*pos, old(self).stride())],
                )
            },
            final(self).voxel_at(*pos) == Some(voxel),
    {
        proof {
            lemma_edge_len(self.depth as nat);
        }
        let stride: u32 = self.seamless_size();
        let key: [i64; 3] = voxel_pos_to_key(pos, stride);
        let local: [u32; 3] = get_chunk_coords(pos, stride);
        match self.chunks.get(&key) {
            Some(found) => found.octree.get_voxel(local[0], local[1], local[2]),
            None => {
                let chunk: Chunk = Self::new_chunk(&key, self.depth as u8, 0, stride, &self.density);
                let voxel: u8 = chunk.octree.get_voxel(local[0], local[1], local[2]);
                self.chunks.insert(key, chunk);
                voxel
            },
        }
    }

    /// The material of the world voxel `pos`, or nothing where the chunk
    /// that owns it is not loaded. Never generates a chunk.
    pub fn get_voxel_safe(&self, pos: &[i64; 3]) -> (voxel: Option<u8>)
        requires
            self.wf(),
        ensures
            voxel == self.voxel_at(*pos),
    {
        proof {
            lemma_edge_len(self.depth as nat);
        }
        let stride: u32 = self.seamless_size();
        let local: [u32; 3] = get_chunk_coords(pos, stride);
        match self.get_octree(pos) {
            Some(octree) => Some(octree.get_voxel(local[0], local[1], local[2])),
            None => None,
        }
    }

    /// The octree of the chunk that owns the world voxel `pos`, if that
    /// chunk is loaded.
    fn get_octree(&self, pos: &[i64; 3]) -> (found: Option<&VoxelOctree>)
        requires
            self.wf(),
        ensures
            found.is_some() == self@.contains_key(pos_key(*pos, self.stride())),
            found.is_some() ==> found.unwrap()@ == self@[pos_key(*pos, self.stride())].octree,
    {
        let key: [i64; 3] = voxel_pos_to_key(pos, self.seamless_size());
        match self.get_chunk(&key) {
            Some(chunk) => Some(&chunk.octree),
            None => None,
        }
    }

    /// Generates the chunk at `key` at level of detail 0 and stores it,
    /// replacing what the table held there.
    pub fn new_chunk_mut(&mut self, key: &[i64; 3]) -> (chunk: Chunk)
        requires
            old(self).wf(),
            in_world(*key),
        ensures
            final(self).wf(),
            old(self).keyed() ==> final(self).keyed(),
            old(self).same_settings(final(self)),
            generated(old(self).density, *key, old(self).depth as nat, 0, old(self).stride(), chunk@),
            final(self)@ == old(self)@.insert(*key, chunk@),
    {
        self.new_chunk_mut_1(key, 0)
    }

    /// Generates the chunk at `key` at the given level of detail and stores
    /// it, replacing what the table held there.
    pub fn new_chunk_mut_1(&mut self, key: &[i64; 3], lod: usize) -> (chunk: Chunk)
        requires
            old(self).wf(),
            in_world(*key),
        ensures
            final(self).wf(),
            old(self).keyed() ==> final(self).keyed(),
            old(self).same_settings(final(self)),
            generated(old(self).density, *key, old(self).depth as nat, lod, old(self).stride(), chunk@),
            final(self)@ == old(self)@.insert(*key, chunk@),
    {
        proof {
            lemma_edge_len(self.depth as nat);
        }
        let chunk: Chunk = Self::new_chunk(key, self.depth as u8, lod, self.seamless_size(), &self.density);
        self.chunks.insert(*key, chunk.clone());
        chunk
    }

    /// The classification of the chunk at `key`, or `Unloaded` where the
    /// table holds no chunk there.
    pub fn chunk_mode(&self, key: &[i64; 3]) -> (mode: ChunkMode)
        ensures
            mode == (if self@.contains_key(*key) {
                self@[*key].mode
            } else {
                ChunkMode::Unloaded
            }),
    {
        match self.chunks.get(key) {
            Some(chunk) => chunk.mode,
            None => ChunkMode::Unloaded,
        }
    }

    /// The chunk at `key`, if the table holds one.
    pub fn get_chunk(&self, key: &[i64; 3]) -> (found: Option<&Chunk>)
        ensures
            found.is_some() == self@.contains_key(*key),
            found.is_some() ==> found.unwrap()@ == self@[*key],
    {
        self.chunks.get(key)
    }

    /// A mutable reference to the chunk at `key`, if the table holds one.
    /// What the caller leaves in the chunk is what the table then holds.
    pub fn get_chunk_mut(&mut self, key: &[i64; 3]) -> (found: Option<&mut Chunk>)
        ensures
            old(self).same_settings(final(self)),
            found.is_some() == old(self)@.contains_key(*key),
            found.is_some() ==> (*found.unwrap())@ == old(self)@[*key],
            found.is_some() ==> final(self)@ == old(self)@.insert(*key, (*final(found.unwrap()))@),
            found.is_none() ==> final(self)@ == old(self)@,
    {
        self.chunks.get_mut(key)
    }

    /// Stores a copy of `chunk` at `key`, unless `chunk` is a default chunk
    /// and the table already holds a chunk there: a default chunk never
    /// replaces what is loaded.
    pub fn set_chunk(&mut self, key: &[i64; 3], chunk: &Chunk)
        requires
            old(self).wf(),
            chunk@.octree.wf(),
            chunk@.octree.depth == old(self).depth,
        ensures
            final(self).wf(),
            old(self).keyed() && chunk@.key == *key ==> final(self).keyed(),
            old(self).same_settings(final(self)),
            final(self)@ == (if old(self)@.contains_key(*key) && chunk@.is_default {
                old(self)@
            } else {
                old(self)@.insert(*key, chunk@)
            }),
    {
        let present: bool = self.chunks.get(key).is_some();
        if present {
            if !chunk.is_default {
                self.chunks.insert(*key, chunk.clone());
            }
        } else {
            self.chunks.insert(*key, chunk.clone());
        }
    }

    /// Removes the chunk at `key` if it is still a default chunk; an edited
    /// chunk stays.
    pub fn remove_chunk(&mut self, key: &[i64; 3])
        requires
            old(self).wf(),
        ensures
            final(self).wf(),
            old(self).keyed() ==> final(self).keyed(),
            old(self).same_settings(final(self)),
            final(self)@ == (if old(self)@.contains_key(*key) && old(self)@[*key].is_default {
                old(self)@.remove(*key)
            } else {
                old(self)@
            }),
    {
        let removable: bool = match self.chunks.get(key) {
            Some(chunk) => chunk.is_default,
            None => false,
        };
        if removable {
            self.chunks.remove(key);
        }
    }

    /// The chunks within the manager's range of `key`, `key` included, in
    /// the order of [`adjacent_keys`]. A chunk that the table holds is
    /// returned as it is; a missing one is generated, stored and returned.
    pub fn get_adj_chunks(&mut self, key: [i64; 3]) -> (chunks: Vec<Chunk>)
        requires
            old(self).wf(),
            in_reach(key, old(self).range as int),
        ensures
            final(self).wf(),
            old(self).keyed() ==> final(self).keyed(),
            old(self).keyed() ==> forall|i: int|
                0 <= i < chunks.len() ==> (#[trigger] chunks[i])@.key == adjacent_keys_seq(
                    key,
                    old(self).range as int,
                    true,
                )[i],
            old(self).same_settings(final(self)),
            streamed(
                old(self).density,
                old(self).depth as nat,
                old(self).stride(),
                old(self)@,
                final(self)@,
                adjacent_keys_seq(key, old(self).range as int, true),
                chunks@.map_values(|chunk: Chunk| chunk@),
            ),
    {
        let mut chunks: Vec<Chunk> = Vec::new();
        let keys: Vec<[i64; 3]> = adjacent_keys(&key, self.range as i64, true);
        let ghost before = self@;
        let ghost f = self.density;
        let ghost depth = self.depth as nat;
        let ghost stride_len = self.stride();
        proof {
            lemma_edge_len(self.depth as nat);
            assert(keys@.take(0) =~= Seq::<[i64; 3]>::empty());
            assert(chunks@.map_values(|chunk: Chunk| chunk@) =~= Seq::<ChunkView>::empty());
        }
        let stride: u32 = self.seamless_size();
        let mut i: usize = 0;
        while i < keys.len()
            invariant
                i <= keys.len(),
                self.wf(),
                old(self).keyed() ==> self.keyed(),
                old(self).same_settings(self),
                f == self.density,
                depth == self.depth,
                stride == self.stride(),
                stride <= 1024,
                stride_len == self.stride(),
                before == old(self)@,
                in_reach(key, self.range as int),
                forall|k: [i64; 3]| keys@.contains(k) ==> chebyshev(k, key) <= self.range,
                streamed(
                    f,
                    depth,
                    stride_len,
                    before,
                    self@,
                    keys@.take(i as int),
                    chunks@.map_values(|chunk: Chunk| chunk@),
                ),
            decreases keys.len() - i,
        {
            let ghost mid = self@;
            let ghost done = chunks@.map_values(|chunk: Chunk| chunk@);
            let next: [i64; 3] = keys[i];
            proof {
                assert(keys@.contains(next));
                assert(in_world(next));
                assert(keys@.take(i + 1) =~= keys@.take(i as int).push(next));
            }
            let chunk: Chunk = match self.chunks.get(&next) {
                Some(found) => found.clone(),
                None => {
                    let made: Chunk = Self::new_chunk(&next, self.depth as u8, 0, stride, &self.density);
                    self.chunks.insert(next, made.clone());
                    made
                },
            };
            chunks.push(chunk);
            proof {
                let after = self@;
                let listed = chunks@.map_values(|chunk: Chunk| chunk@);
                let seen = keys@.take(i as int);
                let now = keys@.take(i + 1);
                assert(listed =~= done.push(chunk@));
                assert forall|k: [i64; 3]| now.contains(k) <==> seen.contains(k) || k == next by {
                    if now.contains(k) {
                        let j = choose|j: int| 0 <= j < now.len() && now[j] == k;
                        if j < i {
                            assert(seen[j] == k);
                        }
                    }
                    if seen.contains(k) {
                        let j = choose|j: int| 0 <= j < seen.len() && seen[j] == k;
                        assert(now[j] == k);
                    }
                    assert(now[i as int] == next);
                }
                assert forall|j: int| 0 <= j < now.len() implies after.contains_key(#[trigger] now[j])
                    && listed[j] == after[now[j]] by {
                    if j < i {
                        assert(seen[j] == now[j]);
                        assert(mid.contains_key(seen[j]));
                    }
                }
            }
            i = i + 1;
        }
        proof {
            assert(keys@.take(keys.len() as int) =~= keys@);
        }
        chunks
    }

    /// The number of chunks in the table.
    pub fn len(&self) -> (count: usize)
        ensures
            count == self@.dom().len(),
    {
        self.chunks.len()
    }
}

/// The material that the terrain has at height `y`, where the ground lies
/// at `middle` lowered by `elevation`: 1 below the surface, 0 from the
/// surface up.
pub fn voxel_by_noise(y: i64, middle: i64, elevation: i64) -> (voxel: u8)
    ensures
        voxel == (if y + elevation < middle {
            1u8
        } else {
            0u8
        }),
{
    let height: i128 = (y as i128) + (elevation as i128);
    if height < (middle as i128) {
        1
    } else {
        0
    }
}

} // verus!
