//! The edit and query layer that an application drives: it resolves world
//! voxels to chunks, streams the chunks around a viewer, snaps a ray hit to
//! the nearest voxel, and turns an edit of one voxel or of a whole shape
//! into writes to every chunk that holds one of the voxels.
//!
//! Positions are whole world voxels. Converting from and to world units,
//! casting rays and building colliders belong to the application.

use vstd::prelude::*;
use vstd::arithmetic::power2::lemma2_to64;
use crate::chunk::adjacent_keys;
use crate::chunk::chunk_manager::Chunk;
use crate::chunk::chunk_manager::ChunkManager;
use crate::chunk::chunk_manager::ChunkMode;
use crate::chunk::chunk_manager::ChunkView;
use crate::chunk::chunk_manager::SEAM_WIDTH;
use crate::chunk::chunk_manager::empty_table;
use crate::chunk::chunk_manager::in_reach;
use crate::chunk::chunk_manager::shown_mesh;
use crate::chunk::chunk_manager::streamed;
use crate::chunk::chunk_manager::total;
use crate::chunk::adjacent_keys_seq;
use crate::chunk::chebyshev;
use crate::chunk::chunk_manager::edit_of;
use crate::chunk::chunk_manager::edited;
use crate::chunk::chunk_manager::generated;
use crate::chunk::covers;
use crate::chunk::owner_keys;
use crate::chunk::owner_keys_seq;
use crate::chunk::pos_key;
use crate::chunk::voxel_pos_to_key;
use crate::data::surface_nets::MeshData;
use crate::data::surface_nets::VoxelReuse;
use crate::data::surface_nets::surface_mesh;
use crate::data::voxel_octree::ParentValueType;
use crate::data::voxel_octree::VoxelMode;
use crate::data::voxel_octree::lemma_voxel_of_voxels;
use crate::utils::MAX_DEPTH;
use crate::utils::edge_len;
use crate::utils::lemma_floor_div_block;
use crate::utils::lemma_grid_coords;
use crate::utils::lemma_scaled_in_range;
use crate::utils::WORLD_LIMIT;
use crate::utils::grid_index;
use crate::utils::in_grid;
use crate::utils::in_world;
use crate::utils::key_to_world_coord;
use crate::utils::lemma_edge_len;
use crate::utils::lemma_grid_index;
use crate::utils::lemma_grid_index_injective;

verus! {

/// A preview shows the voxels up to this far below an edit, and up to one
/// less above it, on each axis.
pub const PREVIEW_SIZE: i64 = 3;

/// The largest radius of a cube or sphere edit.
pub const MAX_TOOL_RADIUS: i64 = 1024;

/// The voxel `(x, y, z)` of a preview chunk lies in the cube that shows the
/// world.
pub open spec fn in_preview(x: int, y: int, z: int) -> bool {
    5 <= x < 11 && 5 <= y < 11 && 5 <= z < 11
}

/// The world voxel that the voxel `(x, y, z)` of a preview chunk for an
/// edit at `pos` shows: the middle of the chunk stands for `pos`.
pub open spec fn preview_source(pos: [i64; 3], x: int, y: int, z: int) -> [i64; 3] {
    [(pos[0] + x - 8) as i64, (pos[1] + y - 8) as i64, (pos[2] + z - 8) as i64]
}

/// The world voxel `q` lies within `radius` of `center`.
pub open spec fn in_sphere(q: [i64; 3], center: [i64; 3], radius: int) -> bool {
    (q[0] - center[0]) * (q[0] - center[0]) + (q[1] - center[1]) * (q[1] - center[1]) + (q[2] - center[2]) * (q[2]
        - center[2]) <= radius * radius
}

/// A voxel of the sphere lies in the cube around the sphere.
pub proof fn lemma_sphere_in_cube(q: [i64; 3], center: [i64; 3], radius: int)
    requires
        radius >= 0,
        in_sphere(q, center, radius),
    ensures
        chebyshev(q, center) <= radius,
{
    let dx = q[0] - center[0];
    let dy = q[1] - center[1];
    let dz = q[2] - center[2];
    assert(dx * dx >= 0 && dy * dy >= 0 && dz * dz >= 0) by (nonlinear_arith);
    assert(-radius <= dx <= radius) by (nonlinear_arith)
        requires
            dx * dx <= radius * radius,
            radius >= 0,
    ;
    assert(-radius <= dy <= radius) by (nonlinear_arith)
        requires
            dy * dy <= radius * radius,
            radius >= 0,
    ;
    assert(-radius <= dz <= radius) by (nonlinear_arith)
        requires
            dz * dz <= radius * radius,
            radius >= 0,
    ;
}

/// The lattice points around a ray hit: the eight corners of the lattice
/// cell whose lowest corner is `base`, x slowest and z fastest.
pub open spec fn near_positions(base: [i64; 3]) -> Seq<[i64; 3]> {
    Seq::new(8, |c: int| [(base[0] + c / 4) as i64, (base[1] + (c / 2) % 2) as i64, (base[2] + c % 2) as i64])
}

/// The eight lattice points around a ray hit that lies in the lattice cell
/// whose lowest corner is `base`.
pub fn get_near_positions(base: &[i64; 3]) -> (near: Vec<[i64; 3]>)
    requires
        in_reach(*base, 1),
    ensures
        near@ == near_positions(*base),
{
    let mut near: Vec<[i64; 3]> = Vec::new();
    let mut c: i64 = 0;
    while c < 8
        invariant
            0 <= c <= 8,
            in_reach(*base, 1),
            near.len() == c,
            forall|i: int| 0 <= i < c ==> #[trigger] near[i] == near_positions(*base)[i],
        decreases 8 - c,
    {
        let corner: [i64; 3] = [base[0] + c / 4, base[1] + (c / 2) % 2, base[2] + c % 2];
        assert(corner =~= near_positions(*base)[c as int]);
        near.push(corner);
        c = c + 1;
    }
    assert(near@ =~= near_positions(*base));
    near
}

/// The world voxels of the sphere among the first `i` voxels of the cube
/// around it, in the order of the cube.
pub open spec fn sphere_upto(cube: Seq<[i64; 3]>, center: [i64; 3], radius: int, i: int) -> Seq<[i64; 3]>
    decreases i,
{
    if i <= 0 {
        Seq::empty()
    } else {
        let before = sphere_upto(cube, center, radius, i - 1);
        if in_sphere(cube[i - 1], center, radius) {
            before.push(cube[i - 1])
        } else {
            before
        }
    }
}

/// The world voxels within `radius` of `center`, in row-major order.
pub open spec fn sphere_seq(center: [i64; 3], radius: int) -> Seq<[i64; 3]> {
    sphere_upto(
        adjacent_keys_seq(center, radius, true),
        center,
        radius,
        adjacent_keys_seq(center, radius, true).len() as int,
    )
}

/// `list`, followed by those of the first `j` of `keys` that it lacks, in
/// order.
pub open spec fn merge_upto(list: Seq<[i64; 3]>, keys: Seq<[i64; 3]>, j: int) -> Seq<[i64; 3]>
    decreases j,
{
    if j <= 0 {
        list
    } else {
        let before = merge_upto(list, keys, j - 1);
        if before.contains(keys[j - 1]) {
            before
        } else {
            before.push(keys[j - 1])
        }
    }
}

/// `list`, followed by those of `keys` that it lacks, in order.
pub open spec fn merge_keys(list: Seq<[i64; 3]>, keys: Seq<[i64; 3]>) -> Seq<[i64; 3]> {
    merge_upto(list, keys, keys.len() as int)
}

/// The keys of the chunks that hold one of the first `i` positions, in the
/// order in which the positions first touch them.
pub open spec fn affected_upto(positions: Seq<[i64; 3]>, size: int, stride: int, i: int) -> Seq<[i64; 3]>
    decreases i,
{
    if i <= 0 {
        Seq::empty()
    } else {
        merge_keys(affected_upto(positions, size, stride, i - 1), owner_keys_seq(positions[i - 1], size, stride))
    }
}

/// The keys of the chunks that hold one of `positions`, in the order in
/// which the positions first touch them.
pub open spec fn affected_keys(positions: Seq<[i64; 3]>, size: int, stride: int) -> Seq<[i64; 3]> {
    affected_upto(positions, size, stride, positions.len() as int)
}

/// The world voxels within `radius` of `center`, each once.
pub fn sphere_positions(center: &[i64; 3], radius: i64) -> (positions: Vec<[i64; 3]>)
    requires
        0 <= radius <= MAX_TOOL_RADIUS,
        in_reach(*center, radius as int),
    ensures
        positions@ == sphere_seq(*center, radius as int),
        forall|q: [i64; 3]| positions@.contains(q) <==> in_sphere(q, *center, radius as int),
        positions@.no_duplicates(),
{
    let cube: Vec<[i64; 3]> = adjacent_keys(center, radius, true);
    let mut positions: Vec<[i64; 3]> = Vec::new();
    proof {
        assert(radius * radius <= 1_048_576) by (nonlinear_arith)
            requires
                0 <= radius <= 1024,
        ;
    }
    let limit: i64 = radius * radius;
    let mut i: usize = 0;
    while i < cube.len()
        invariant
            i <= cube.len(),
            0 <= radius <= MAX_TOOL_RADIUS,
            limit == radius * radius,
            in_reach(*center, radius as int),
            forall|k: [i64; 3]| cube@.contains(k) <==> chebyshev(k, *center) <= radius,
            cube@.no_duplicates(),
            cube@ == adjacent_keys_seq(*center, radius as int, true),
            positions@ == sphere_upto(cube@, *center, radius as int, i as int),
            forall|j: int|
                0 <= j < positions.len() ==> exists|t: int| 0 <= t < i && cube[t] == #[trigger] positions[j],
            forall|t: int|
                0 <= t < i && in_sphere(#[trigger] cube[t], *center, radius as int) ==> positions@.contains(cube[t]),
            forall|j: int| 0 <= j < positions.len() ==> in_sphere(#[trigger] positions[j], *center, radius as int),
            positions@.no_duplicates(),
        decreases cube.len() - i,
    {
        let q: [i64; 3] = cube[i];
        let ghost before = positions@;
        proof {
            assert(cube@.contains(q));
            assert(chebyshev(q, *center) <= radius);
        }
        let dx: i64 = q[0] - center[0];
        let dy: i64 = q[1] - center[1];
        let dz: i64 = q[2] - center[2];
        proof {
            assert(-1024 <= dx <= 1024 && -1024 <= dy <= 1024 && -1024 <= dz <= 1024);
            assert(0 <= dx * dx <= 1_048_576 && 0 <= dy * dy <= 1_048_576 && 0 <= dz * dz <= 1_048_576 && radius
                * radius <= 1_048_576) by (nonlinear_arith)
                requires
                    -1024 <= dx <= 1024,
                    -1024 <= dy <= 1024,
                    -1024 <= dz <= 1024,
                    0 <= radius <= 1024,
            ;
        }
        if dx * dx + dy * dy + dz * dz <= limit {
            proof {
                if before.contains(q) {
                    let j = choose|j: int| 0 <= j < before.len() && before[j] == q;
                    let t = choose|t: int| 0 <= t < i && cube[t] == before[j];
                    assert(cube[t] == cube[i as int]);
                }
            }
            positions.push(q);
            proof {
                assert forall|j: int| 0 <= j < positions.len() implies exists|t: int|
                    0 <= t < i + 1 && cube[t] == #[trigger] positions[j] by {
                    if j < before.len() {
                        let t = choose|t: int| 0 <= t < i && cube[t] == before[j];
                        assert(cube[t] == positions[j]);
                    } else {
                        assert(cube[i as int] == positions[j]);
                    }
                }
                assert forall|t: int|
                    0 <= t < i + 1 && in_sphere(#[trigger] cube[t], *center, radius as int) implies positions@.contains(
                    cube[t],
                ) by {
                    lemma_push_contains(before, q, cube[t]);
                }
            }
        }
        i = i + 1;
    }
    proof {
        assert forall|q: [i64; 3]| positions@.contains(q) <==> in_sphere(q, *center, radius as int) by {
            if positions@.contains(q) {
                let j = choose|j: int| 0 <= j < positions.len() && positions[j] == q;
                assert(in_sphere(positions[j], *center, radius as int));
            }
            if in_sphere(q, *center, radius as int) {
                lemma_sphere_in_cube(q, *center, radius as int);
                assert(cube@.contains(q));
                let t = choose|t: int| 0 <= t < cube.len() && cube[t] == q;
                assert(in_sphere(cube[t], *center, radius as int));
                assert(positions@.contains(cube[t]));
            }
        }
    }
    positions
}

/// A lattice point near a ray hit: the world voxel it names, and its
/// distance from the hit as a number that grows with the distance.
#[derive(Clone, Copy, Debug)]
pub struct NearVoxel {
    /// The world voxel.
    pub pos: [i64; 3],
    /// Orders the candidates by their distance from the hit.
    pub distance: u32,
}

/// The world and its edit and query operations.
pub struct BevyVoxelResource<F> {
    /// The loaded chunks.
    pub chunk_manager: ChunkManager<F>,
}

/// The candidate `c` is of the wanted kind in the world of `manager`: its
/// chunk is loaded and its voxel holds a material (`solid`) or air
/// (`!solid`).
pub open spec fn is_match<F: Fn(i64, i64, i64, i64) -> u8>(manager: &ChunkManager<F>, c: NearVoxel, solid: bool) -> bool {
    match manager.voxel_at(c.pos) {
        Some(value) => (value != 0) == solid,
        None => false,
    }
}

/// The candidate at `k` is the nearest of the wanted kind: it is of that
/// kind, every other candidate of that kind is at least as far, and those
/// listed before it are farther.
pub open spec fn is_nearest<F: Fn(i64, i64, i64, i64) -> u8>(
    manager: &ChunkManager<F>,
    candidates: Seq<NearVoxel>,
    solid: bool,
    k: int,
) -> bool {
    &&& 0 <= k < candidates.len()
    &&& is_match(manager, candidates[k], solid)
    &&& forall|j: int|
        0 <= j < candidates.len() && is_match(manager, #[trigger] candidates[j], solid) ==> candidates[k].distance
            <= candidates[j].distance
    &&& forall|j: int|
        0 <= j < k && is_match(manager, #[trigger] candidates[j], solid) ==> candidates[k].distance
            < candidates[j].distance
}

/// The material that a preview shows at the world voxel `q` while the
/// voxel `pos` is being set to `voxel`: `voxel` at `pos` itself, elsewhere
/// what the world holds, and air where nothing is loaded.
pub open spec fn preview_value<F: Fn(i64, i64, i64, i64) -> u8>(
    manager: &ChunkManager<F>,
    pos: [i64; 3],
    voxel: u8,
    q: [i64; 3],
) -> u8 {
    if q == pos {
        voxel
    } else {
        match manager.voxel_at(q) {
            Some(value) => value,
            None => 0u8,
        }
    }
}

impl<F: Fn(i64, i64, i64, i64) -> u8> BevyVoxelResource<F> {
    /// The chunk table is well-formed.
    pub open spec fn wf(&self) -> bool {
        self.chunk_manager.wf()
    }

    /// A world without chunks.
    pub fn new(depth: u32, range: u8, density: F) -> (resource: Self)
        requires
            2 <= depth <= MAX_DEPTH,
            total(density),
        ensures
            resource.wf(),
            resource.chunk_manager.keyed(),
            resource.chunk_manager@ == empty_table(),
            resource.chunk_manager.depth == depth,
            resource.chunk_manager.offset == SEAM_WIDTH,
            resource.chunk_manager.range == range,
            resource.chunk_manager.density == density,
    {
        BevyVoxelResource { chunk_manager: ChunkManager::new(depth, range, density) }
    }

    /// The key of the chunk that owns the world voxel `pos`.
    pub fn get_key(&self, pos: &[i64; 3]) -> (key: [i64; 3])
        requires
            self.wf(),
        ensures
            key == pos_key(*pos, self.chunk_manager.stride()),
    {
        voxel_pos_to_key(pos, self.chunk_manager.seamless_size())
    }

    /// The chunks within the manager's range of `key`, loaded or generated
    /// as needed.
    pub fn load_adj_chunks(&mut self, key: [i64; 3]) -> (chunks: Vec<Chunk>)
        requires
            old(self).wf(),
            in_reach(key, old(self).chunk_manager.range as int),
        ensures
            final(self).wf(),
            old(self).chunk_manager.keyed() ==> final(self).chunk_manager.keyed(),
            old(self).chunk_manager.keyed() ==> forall|i: int|
                0 <= i < chunks.len() ==> (#[trigger] chunks[i])@.key == adjacent_keys_seq(
                    key,
                    old(self).chunk_manager.range as int,
                    true,
                )[i],
            old(self).chunk_manager.same_settings(&final(self).chunk_manager),
            streamed(
                old(self).chunk_manager.density,
                old(self).chunk_manager.depth as nat,
                old(self).chunk_manager.stride(),
                old(self).chunk_manager@,
                final(self).chunk_manager@,
                adjacent_keys_seq(key, old(self).chunk_manager.range as int, true),
                chunks@.map_values(|chunk: Chunk| chunk@),
            ),
    {
        self.chunk_manager.get_adj_chunks(key)
    }

    /// The mesh of `chunk` at full detail, for rendering or collision;
    /// empty for a chunk classified as `Air`.
    pub fn compute_mesh(&self, mode: VoxelMode, chunk: &Chunk) -> (mesh: MeshData)
        requires
            chunk@.octree.wf(),
        ensures
            chunk.mode == ChunkMode::Air ==> mesh@.is_empty(),
            chunk.mode != ChunkMode::Air ==> mesh@ == surface_mesh(
                chunk@.octree.level(0),
                chunk@.octree.side(0),
                0,
            ),
            mesh@ == shown_mesh(chunk@, 0),
            mesh@.wf(),
            mesh.lod == 0,
    {
        let mut reuse: VoxelReuse = VoxelReuse::new_1(1);
        chunk.compute_mesh(mode, &mut reuse, 0)
    }

    /// The world voxel at which the chunk at `key` starts.
    pub fn get_pos(&self, key: [i64; 3]) -> (pos: [i64; 3])
        requires
            self.wf(),
            in_world(key),
        ensures
            pos[0] == key[0] * self.chunk_manager.stride(),
            pos[1] == key[1] * self.chunk_manager.stride(),
            pos[2] == key[2] * self.chunk_manager.stride(),
    {
        proof {
            lemma_edge_len(self.chunk_manager.depth as nat);
        }
        key_to_world_coord(&key, self.chunk_manager.seamless_size())
    }

    /// Among the lattice points around a ray hit, the nearest one whose
    /// voxel holds a material; the one listed first where several are
    /// equally near; nothing where none holds a material.
    pub fn get_hit_voxel_pos(&self, candidates: &Vec<NearVoxel>) -> (nearest: Option<usize>)
        requires
            self.wf(),
        ensures
            nearest.is_some() ==> is_nearest(&self.chunk_manager, candidates@, true, nearest.unwrap() as int),
            nearest.is_none() ==> forall|j: int|
                0 <= j < candidates.len() ==> !is_match(&self.chunk_manager, #[trigger] candidates[j], true),
    {
        self.nearest_voxel(candidates, true)
    }

    /// Among the lattice points around a ray hit, the nearest one whose
    /// voxel is loaded and holds air; the one listed first where several
    /// are equally near; nothing where none does.
    pub fn get_nearest_voxel_air(&self, candidates: &Vec<NearVoxel>) -> (nearest: Option<usize>)
        requires
            self.wf(),
        ensures
            nearest.is_some() ==> is_nearest(&self.chunk_manager, candidates@, false, nearest.unwrap() as int),
            nearest.is_none() ==> forall|j: int|
                0 <= j < candidates.len() ==> !is_match(&self.chunk_manager, #[trigger] candidates[j], false),
    {
        self.nearest_voxel(candidates, false)
    }

    /// The nearest candidate of the wanted kind.
    fn nearest_voxel(&self, candidates: &Vec<NearVoxel>, solid: bool) -> (nearest: Option<usize>)
        requires
            self.wf(),
        ensures
            nearest.is_some() ==> is_nearest(&self.chunk_manager, candidates@, solid, nearest.unwrap() as int),
            nearest.is_none() ==> forall|j: int|
                0 <= j < candidates.len() ==> !is_match(&self.chunk_manager, #[trigger] candidates[j], solid),
    {
        let mut nearest: Option<usize> = None;
        let mut nearest_distance: u32 = 0;
        let mut i: usize = 0;
        while i < candidates.len()
            invariant
                i <= candidates.len(),
                self.wf(),
                nearest.is_some() ==> {
                    &&& nearest.unwrap() < i
                    &&& nearest_distance == candidates[nearest.unwrap() as int].distance
                    &&& is_match(&self.chunk_manager, candidates[nearest.unwrap() as int], solid)
                    &&& forall|j: int|
                        0 <= j < i && is_match(&self.chunk_manager, #[trigger] candidates[j], solid)
                            ==> nearest_distance <= candidates[j].distance
                    &&& forall|j: int|
                        0 <= j < nearest.unwrap() && is_match(&self.chunk_manager, #[trigger] candidates[j], solid)
                            ==> nearest_distance < candidates[j].distance
                },
                nearest.is_none() ==> forall|j: int|
                    0 <= j < i ==> !is_match(&self.chunk_manager, #[trigger] candidates[j], solid),
            decreases candidates.len() - i,
        {
            let candidate: NearVoxel = candidates[i];
            let matches: bool = match self.chunk_manager.get_voxel_safe(&candidate.pos) {
                Some(value) => (value != 0) == solid,
                None => false,
            };
            if matches && (nearest.is_none() || candidate.distance < nearest_distance) {
                nearest = Some(i);
                nearest_distance = candidate.distance;
            }
            i = i + 1;
        }
        nearest
    }

    /// Sets the world voxel `pos` to `voxel` in every chunk that holds it:
    /// in the chunk that owns it and in each neighbour whose seam repeats
    /// it. Returns the keys of those chunks, the owner first; no other
    /// chunk is touched.
    pub fn set_voxel(&mut self, pos: &[i64; 3], voxel: u8) -> (affected: Vec<[i64; 3]>)
        requires
            old(self).wf(),
            in_world(*pos),
        ensures
            final(self).wf(),
            old(self).chunk_manager.keyed() ==> final(self).chunk_manager.keyed(),
            old(self).chunk_manager.same_settings(&final(self).chunk_manager),
            batch_edited(
                old(self).chunk_manager.density,
                old(self).chunk_manager.depth as nat,
                old(self).chunk_manager.chunk_size as int,
                old(self).chunk_manager.stride(),
                old(self).chunk_manager@,
                final(self).chunk_manager@,
                seq![*pos],
                voxel,
            ),
            forall|key: [i64; 3]|
                affected@.contains(key) <==> covers(
                    key,
                    *pos,
                    old(self).chunk_manager.chunk_size as int,
                    old(self).chunk_manager.stride(),
                ),
            affected@ == owner_keys_seq(
                *pos,
                old(self).chunk_manager.chunk_size as int,
                old(self).chunk_manager.stride(),
            ),
            affected@.no_duplicates(),
            1 <= affected.len() <= 8,
            affected[0] == pos_key(*pos, old(self).chunk_manager.stride()),
    {
        let ghost start = self.chunk_manager@;
        let ghost size = self.chunk_manager.chunk_size as int;
        let ghost stride = self.chunk_manager.stride();
        let ghost none = Seq::<[i64; 3]>::empty();
        proof {
            assert forall|key: [i64; 3]| !touched(key, none, size, stride) by {}
            assert(none.push(*pos) =~= seq![*pos]);
        }
        let mut affected: Vec<[i64; 3]> = Vec::new();
        self.write_everywhere(pos, voxel, &mut affected, Ghost(start), Ghost(none));
        proof {
            lemma_edge_len(self.chunk_manager.depth as nat);
            assert forall|key: [i64; 3]| affected@.contains(key) <==> covers(key, *pos, size, stride) by {
                lemma_touched_push(key, none, *pos, size, stride);
            }
            let owner = pos_key(*pos, stride);
            lemma_floor_div_block(pos[0] as int, stride, owner[0] as int);
            lemma_floor_div_block(pos[1] as int, stride, owner[1] as int);
            lemma_floor_div_block(pos[2] as int, stride, owner[2] as int);
        }
        affected
    }

    /// Sets every world voxel of `positions` to `voxel`, each in every
    /// chunk that holds it. Returns the keys of the chunks touched, each
    /// once; no other chunk is touched.
    pub fn set_voxels(&mut self, positions: &Vec<[i64; 3]>, voxel: u8) -> (affected: Vec<[i64; 3]>)
        requires
            old(self).wf(),
            forall|i: int| 0 <= i < positions.len() ==> in_world(#[trigger] positions[i]),
        ensures
            final(self).wf(),
            old(self).chunk_manager.keyed() ==> final(self).chunk_manager.keyed(),
            old(self).chunk_manager.same_settings(&final(self).chunk_manager),
            batch_edited(
                old(self).chunk_manager.density,
                old(self).chunk_manager.depth as nat,
                old(self).chunk_manager.chunk_size as int,
                old(self).chunk_manager.stride(),
                old(self).chunk_manager@,
                final(self).chunk_manager@,
                positions@,
                voxel,
            ),
            affected@ == affected_keys(
                positions@,
                old(self).chunk_manager.chunk_size as int,
                old(self).chunk_manager.stride(),
            ),
            forall|key: [i64; 3]|
                affected@.contains(key) <==> touched(
                    key,
                    positions@,
                    old(self).chunk_manager.chunk_size as int,
                    old(self).chunk_manager.stride(),
                ),
            affected@.no_duplicates(),
    {
        let ghost start = self.chunk_manager@;
        let ghost size = self.chunk_manager.chunk_size as int;
        let ghost stride = self.chunk_manager.stride();
        let mut affected: Vec<[i64; 3]> = Vec::new();
        proof {
            assert forall|key: [i64; 3]| !touched(key, positions@.take(0), size, stride) by {}
        }
        let mut i: usize = 0;
        while i < positions.len()
            invariant
                i <= positions.len(),
                forall|j: int| 0 <= j < positions.len() ==> in_world(#[trigger] positions[j]),
                self.wf(),
                old(self).chunk_manager.keyed() ==> self.chunk_manager.keyed(),
                old(self).chunk_manager.same_settings(&self.chunk_manager),
                start == old(self).chunk_manager@,
                forall|k: [i64; 3]| #[trigger]
                    start.contains_key(k) ==> start[k].octree.wf() && start[k].octree.depth
                        == self.chunk_manager.depth,
                size == self.chunk_manager.chunk_size,
                stride == self.chunk_manager.stride(),
                batch_edited(
                    self.chunk_manager.density,
                    self.chunk_manager.depth as nat,
                    size,
                    stride,
                    start,
                    self.chunk_manager@,
                    positions@.take(i as int),
                    voxel,
                ),
                forall|key: [i64; 3]|
                    affected@.contains(key) <==> touched(key, positions@.take(i as int), size, stride),
                affected@.no_duplicates(),
                affected@ == affected_upto(positions@, size, stride, i as int),
            decreases positions.len() - i,
        {
            let pos: [i64; 3] = positions[i];
            proof {
                assert(positions@.take(i + 1) =~= positions@.take(i as int).push(pos));
            }
            self.write_everywhere(&pos, voxel, &mut affected, Ghost(start), Ghost(positions@.take(i as int)));
            i = i + 1;
        }
        proof {
            assert(positions@.take(positions.len() as int) =~= positions@);
        }
        affected
    }

    /// Writes `voxel` at `pos` in every chunk that holds it, on a table
    /// that the positions `done` have been written to since it was
    /// `start`, and adds the keys of those chunks to `affected`.
    fn write_everywhere(
        &mut self,
        pos: &[i64; 3],
        voxel: u8,
        affected: &mut Vec<[i64; 3]>,
        Ghost(start): Ghost<Map<[i64; 3], ChunkView>>,
        Ghost(done): Ghost<Seq<[i64; 3]>>,
    )
        requires
            old(self).wf(),
            in_world(*pos),
            forall|k: [i64; 3]| #[trigger]
                start.contains_key(k) ==> start[k].octree.wf() && start[k].octree.depth == old(
                    self,
                ).chunk_manager.depth,
            forall|j: int| 0 <= j < done.len() ==> in_world(#[trigger] done[j]),
            batch_edited(
                old(self).chunk_manager.density,
                old(self).chunk_manager.depth as nat,
                old(self).chunk_manager.chunk_size as int,
                old(self).chunk_manager.stride(),
                start,
                old(self).chunk_manager@,
                done,
                voxel,
            ),
            forall|key: [i64; 3]|
                old(affected)@.contains(key) <==> touched(
                    key,
                    done,
                    old(self).chunk_manager.chunk_size as int,
                    old(self).chunk_manager.stride(),
                ),
            old(affected)@.no_duplicates(),
        ensures
            final(self).wf(),
            old(self).chunk_manager.keyed() ==> final(self).chunk_manager.keyed(),
            old(self).chunk_manager.same_settings(&final(self).chunk_manager),
            batch_edited(
                old(self).chunk_manager.density,
                old(self).chunk_manager.depth as nat,
                old(self).chunk_manager.chunk_size as int,
                old(self).chunk_manager.stride(),
                start,
                final(self).chunk_manager@,
                done.push(*pos),
                voxel,
            ),
            forall|key: [i64; 3]|
                final(affected)@.contains(key) <==> touched(
                    key,
                    done.push(*pos),
                    old(self).chunk_manager.chunk_size as int,
                    old(self).chunk_manager.stride(),
                ),
            final(affected)@.no_duplicates(),
            final(affected)@ == merge_keys(
                old(affected)@,
                owner_keys_seq(*pos, old(self).chunk_manager.chunk_size as int, old(self).chunk_manager.stride()),
            ),
            old(affected).len() == 0 ==> final(affected)@ == owner_keys_seq(
                *pos,
                old(self).chunk_manager.chunk_size as int,
                old(self).chunk_manager.stride(),
            ) && final(affected).len() >= 1 && final(affected)[0] == pos_key(
                *pos,
                old(self).chunk_manager.stride(),
            ) && final(affected).len() <= 8,
    {
        proof {
            lemma_edge_len(self.chunk_manager.depth as nat);
        }
        let stride: u32 = self.chunk_manager.seamless_size();
        let keys: Vec<[i64; 3]> = owner_keys(pos, self.chunk_manager.chunk_size, self.chunk_manager.offset);
        let ghost f = self.chunk_manager.density;
        let ghost depth = self.chunk_manager.depth as nat;
        let ghost size = self.chunk_manager.chunk_size as int;
        let ghost step = self.chunk_manager.stride();
        let ghost listed = affected@;
        proof {
            assert(keys@.take(0) =~= Seq::<[i64; 3]>::empty());
            lemma_write_no_key(f, depth, size, step, start, self.chunk_manager@, done, *pos, voxel);
        }
        let mut j: usize = 0;
        while j < keys.len()
            invariant
                j <= keys.len(),
                1 <= keys.len() <= 8,
                size == step || (2 <= step && size <= 2 * step),
                forall|t: int| 0 <= t < done.len() ==> in_world(#[trigger] done[t]),
                self.wf(),
                old(self).chunk_manager.keyed() ==> self.chunk_manager.keyed(),
                old(self).chunk_manager.same_settings(&self.chunk_manager),
                f == self.chunk_manager.density,
                depth == self.chunk_manager.depth,
                size == self.chunk_manager.chunk_size,
                size <= 1024,
                step == self.chunk_manager.stride(),
                stride == step,
                in_world(*pos),
                listed == old(affected)@,
                forall|k: [i64; 3]| #[trigger]
                    start.contains_key(k) ==> start[k].octree.wf() && start[k].octree.depth == depth,
                forall|k: [i64; 3]| keys@.contains(k) <==> covers(k, *pos, size, step),
                keys@.no_duplicates(),
                keys[0] == pos_key(*pos, step),
                forall|i: int| 0 <= i < keys.len() ==> in_world(#[trigger] keys[i]),
                partly_edited(f, depth, size, step, start, self.chunk_manager@, done, *pos, keys@.take(j as int), voxel),
                forall|key: [i64; 3]|
                    affected@.contains(key) <==> listed.contains(key) || keys@.take(j as int).contains(key),
                forall|key: [i64; 3]| listed.contains(key) <==> touched(key, done, size, step),
                affected@.no_duplicates(),
                listed.len() == 0 ==> affected@ == keys@.take(j as int),
                affected@ == merge_upto(listed, keys@, j as int),
                keys@ == owner_keys_seq(*pos, size, step),
            decreases keys.len() - j,
        {
            let key: [i64; 3] = keys[j];
            let ghost mid = self.chunk_manager@;
            let ghost seen = keys@.take(j as int);
            let ghost before_list = affected@;
            proof {
                assert(keys@.contains(key));
                assert(covers(key, *pos, size, step));
                lemma_scaled_in_range(key[0] as int, step);
                lemma_scaled_in_range(key[1] as int, step);
                lemma_scaled_in_range(key[2] as int, step);
                assert(keys@.take(j + 1) =~= seen.push(key));
                if seen.contains(key) {
                    let i = choose|i: int| 0 <= i < seen.len() && seen[i] == key;
                    assert(keys[i] == keys[j as int]);
                }
            }
            let x: u32 = (pos[0] - key[0] * (stride as i64)) as u32;
            let y: u32 = (pos[1] - key[1] * (stride as i64)) as u32;
            let z: u32 = (pos[2] - key[2] * (stride as i64)) as u32;
            let chunk: Chunk = self.chunk_manager.set_voxel_in(&key, x, y, z, voxel);
            if !has_key(affected, &key) {
                affected.push(key);
            }
            proof {
                let now = self.chunk_manager@;
                let next = keys@.take(j + 1);
                assert(next == seen.push(key));
                lemma_write_one_key(f, depth, size, step, start, mid, now, done, *pos, seen, key, chunk@, voxel);
                assert forall|k: [i64; 3]| affected@.contains(k) <==> listed.contains(k) || next.contains(k) by {
                    assert(before_list.contains(k) <==> listed.contains(k) || seen.contains(k));
                    lemma_push_contains(seen, key, k);
                    if before_list.contains(key) {
                        assert(affected@ == before_list);
                    } else {
                        assert(affected@ == before_list.push(key));
                        lemma_push_contains(before_list, key, k);
                    }
                }
                if listed.len() == 0 {
                    assert(!seen.contains(key));
                    assert(before_list == seen);
                    assert(affected@ =~= next);
                }
            }
            j = j + 1;
        }
        proof {
            assert(keys@.take(j as int) =~= keys@);
            let now = self.chunk_manager@;
            let more = done.push(*pos);
            lemma_write_all_keys(f, depth, size, step, start, now, done, *pos, keys@, voxel);
            assert forall|key: [i64; 3]| affected@.contains(key) <==> touched(key, more, size, step) by {
                lemma_touched_push(key, done, *pos, size, step);
                assert(affected@.contains(key) <==> listed.contains(key) || keys@.take(j as int).contains(key));
                assert(keys@.contains(key) <==> covers(key, *pos, size, step));
                assert(listed.contains(key) <==> touched(key, done, size, step));
            }
        }
    }

    /// Sets to `voxel` every world voxel within `radius` of `center` on each
    /// axis: a cube of edge `2 * radius + 1`. Returns the keys of the
    /// chunks touched, each once.
    pub fn set_voxel_cube(&mut self, center: &[i64; 3], radius: i64, voxel: u8) -> (affected: Vec<[i64; 3]>)
        requires
            old(self).wf(),
            0 <= radius <= MAX_TOOL_RADIUS,
            in_reach(*center, radius as int),
        ensures
            final(self).wf(),
            old(self).chunk_manager.keyed() ==> final(self).chunk_manager.keyed(),
            old(self).chunk_manager.same_settings(&final(self).chunk_manager),
            batch_edited(
                old(self).chunk_manager.density,
                old(self).chunk_manager.depth as nat,
                old(self).chunk_manager.chunk_size as int,
                old(self).chunk_manager.stride(),
                old(self).chunk_manager@,
                final(self).chunk_manager@,
                adjacent_keys_seq(*center, radius as int, true),
                voxel,
            ),
            affected@ == affected_keys(
                adjacent_keys_seq(*center, radius as int, true),
                old(self).chunk_manager.chunk_size as int,
                old(self).chunk_manager.stride(),
            ),
            forall|key: [i64; 3]|
                affected@.contains(key) <==> touched(
                    key,
                    adjacent_keys_seq(*center, radius as int, true),
                    old(self).chunk_manager.chunk_size as int,
                    old(self).chunk_manager.stride(),
                ),
            affected@.no_duplicates(),
    {
        let positions: Vec<[i64; 3]> = adjacent_keys(center, radius, true);
        proof {
            assert forall|i: int| 0 <= i < positions.len() implies in_world(#[trigger] positions[i]) by {
                assert(positions@.contains(positions[i]));
            }
        }
        self.set_voxels(&positions, voxel)
    }

    /// Sets to `voxel` every world voxel whose distance from `center` is at
    /// most `radius`. Returns the keys of the chunks touched, each once.
    pub fn set_voxel_sphere(&mut self, center: &[i64; 3], radius: i64, voxel: u8) -> (affected: Vec<[i64; 3]>)
        requires
            old(self).wf(),
            0 <= radius <= MAX_TOOL_RADIUS,
            in_reach(*center, radius as int),
        ensures
            final(self).wf(),
            old(self).chunk_manager.keyed() ==> final(self).chunk_manager.keyed(),
            old(self).chunk_manager.same_settings(&final(self).chunk_manager),
            batch_edited(
                old(self).chunk_manager.density,
                old(self).chunk_manager.depth as nat,
                old(self).chunk_manager.chunk_size as int,
                old(self).chunk_manager.stride(),
                old(self).chunk_manager@,
                final(self).chunk_manager@,
                sphere_seq(*center, radius as int),
                voxel,
            ),
            affected@ == affected_keys(
                sphere_seq(*center, radius as int),
                old(self).chunk_manager.chunk_size as int,
                old(self).chunk_manager.stride(),
            ),
            forall|key: [i64; 3]|
                affected@.contains(key) <==> touched(
                    key,
                    sphere_seq(*center, radius as int),
                    old(self).chunk_manager.chunk_size as int,
                    old(self).chunk_manager.stride(),
                ),
            affected@.no_duplicates(),
    {
        let positions: Vec<[i64; 3]> = sphere_positions(center, radius);
        proof {
            assert forall|i: int| 0 <= i < positions.len() implies in_world(#[trigger] positions[i]) by {
                assert(positions@.contains(positions[i]));
                lemma_sphere_in_cube(positions[i], *center, radius as int);
            }
        }
        self.set_voxels(&positions, voxel)
    }

    /// A chunk that shows an edit before it is made: an all-air default
    /// chunk whose middle holds the cube of voxels around `pos`, as the
    /// world has them loaded, with `voxel` at `pos` itself.
    pub fn get_preview_chunk(&self, pos: &[i64; 3], voxel: u8) -> (chunk: Chunk)
        requires
            self.wf(),
            in_reach(*pos, PREVIEW_SIZE as int),
        ensures
            chunk@.key == [0i64, 0i64, 0i64],
            chunk@.lod == 4,
            chunk@.mode == ChunkMode::Unloaded,
            chunk@.is_default,
            chunk@.octree.wf(),
            chunk@.octree.depth == 4,
            chunk@.octree.policy == ParentValueType::Lod,
            forall|x: int, y: int, z: int|
                in_grid(16, x, y, z) ==> #[trigger] chunk@.octree.voxel(x, y, z) == (if in_preview(x, y, z) {
                    preview_value(&self.chunk_manager, *pos, voxel, preview_source(*pos, x, y, z))
                } else {
                    0u8
                }),
    {
        let mut chunk: Chunk = Chunk::default();
        let mid: i64 = 8;
        let edge: u32 = 6;
        proof {
            lemma_edge_len(4);
            lemma2_to64();
            assert forall|x: int, y: int, z: int| in_grid(16, x, y, z) implies #[trigger] chunk@.octree.voxel(
                x,
                y,
                z,
            ) == 0 by {
                lemma_voxel_of_voxels(chunk@.octree, x, y, z);
            }
        }
        let mut c: u32 = 0;
        while c < 216
            invariant
                c <= 216,
                mid == 8,
                edge == 6,
                self.wf(),
                in_reach(*pos, PREVIEW_SIZE as int),
                chunk@.key == [0i64, 0i64, 0i64],
                chunk@.lod == 4,
                chunk@.mode == ChunkMode::Unloaded,
                chunk@.is_default,
                chunk@.octree.wf(),
                chunk@.octree.depth == 4,
                chunk@.octree.policy == ParentValueType::Lod,
                chunk@.octree.size == 16,
                forall|x: int, y: int, z: int|
                    in_grid(16, x, y, z) ==> #[trigger] chunk@.octree.voxel(x, y, z) == (if in_preview(x, y, z)
                        && grid_index(6, x - 5, y - 5, z - 5) < c {
                        preview_value(&self.chunk_manager, *pos, voxel, preview_source(*pos, x, y, z))
                    } else {
                        0u8
                    }),
            decreases 216 - c,
        {
            proof {
                lemma_grid_coords(6, c as int);
            }
            let dx: u32 = c / 36;
            let dy: u32 = (c / edge) % edge;
            let dz: u32 = c % edge;
            let x: u32 = dx + 5;
            let y: u32 = dy + 5;
            let z: u32 = dz + 5;
            let source: [i64; 3] = [pos[0] + (x as i64 - mid), pos[1] + (y as i64 - mid), pos[2] + (z as i64 - mid)];
            assert(source =~= preview_source(*pos, x as int, y as int, z as int));
            let value: u8 = if source[0] == pos[0] && source[1] == pos[1] && source[2] == pos[2] {
                assert(source =~= *pos);
                voxel
            } else {
                assert(source != *pos);
                self.chunk_manager.get_voxel(&source)
            };
            let ghost before = chunk@.octree;
            chunk.octree.set_voxel(x, y, z, value);
            proof {
                let after = chunk@.octree;
                assert forall|cx: int, cy: int, cz: int| in_grid(16, cx, cy, cz) implies #[trigger] after.voxel(
                    cx,
                    cy,
                    cz,
                ) == (if in_preview(cx, cy, cz) && grid_index(6, cx - 5, cy - 5, cz - 5) < c + 1 {
                    preview_value(&self.chunk_manager, *pos, voxel, preview_source(*pos, cx, cy, cz))
                } else {
                    0u8
                }) by {
                    lemma_voxel_of_voxels(after, cx, cy, cz);
                    lemma_voxel_of_voxels(before, cx, cy, cz);
                    lemma_grid_index(16, cx, cy, cz);
                    lemma_grid_index(16, x as int, y as int, z as int);
                    if cx == x && cy == y && cz == z {
                    } else {
                        if grid_index(16, cx, cy, cz) == grid_index(16, x as int, y as int, z as int) {
                            lemma_grid_index_injective(16, cx, cy, cz, x as int, y as int, z as int);
                        }
                        assert(after.voxel(cx, cy, cz) == before.voxel(cx, cy, cz));
                        if in_preview(cx, cy, cz) {
                            lemma_grid_index(6, cx - 5, cy - 5, cz - 5);
                            if grid_index(6, cx - 5, cy - 5, cz - 5) == c {
                                lemma_grid_index_injective(6, cx - 5, cy - 5, cz - 5, dx as int, dy as int, dz as int);
                            }
                        }
                    }
                }
            }
            c = c + 1;
        }
        proof {
            assert forall|x: int, y: int, z: int| in_preview(x, y, z) implies grid_index(6, x - 5, y - 5, z - 5)
                < 216 by {
                lemma_grid_index(6, x - 5, y - 5, z - 5);
            }
        }
        chunk
    }

    /// Where a preview chunk for an edit at `pos` is to be placed so that
    /// its middle lies on `pos`.
    pub fn get_preview_pos(&self, pos: &[i64; 3]) -> (origin: [i64; 3])
        requires
            in_world(*pos),
        ensures
            origin[0] == pos[0] - self.chunk_manager.chunk_size / 2,
            origin[1] == pos[1] - self.chunk_manager.chunk_size / 2,
            origin[2] == pos[2] - self.chunk_manager.chunk_size / 2,
    {
        let mid: i64 = (self.chunk_manager.chunk_size / 2) as i64;
        [pos[0] - mid, pos[1] - mid, pos[2] - mid]
    }
}

/// The world voxel that the voxel `(x, y, z)` of the chunk at `key`
/// stands for.
pub open spec fn world_of(key: [i64; 3], stride: int, x: int, y: int, z: int) -> [i64; 3] {
    [(key[0] * stride + x) as i64, (key[1] * stride + y) as i64, (key[2] * stride + z) as i64]
}

/// The voxels of `after` are those of `before`, but for the voxels that
/// stand for one of `positions`, which hold `value`. Key, level of detail,
/// classification and shape of the octree are kept.
pub open spec fn voxels_follow(
    before: ChunkView,
    after: ChunkView,
    key: [i64; 3],
    stride: int,
    positions: Seq<[i64; 3]>,
    value: u8,
) -> bool {
    &&& after.key == before.key
    &&& after.lod == before.lod
    &&& after.mode == before.mode
    &&& after.octree.wf()
    &&& before.octree.wf()
    &&& after.octree.depth == before.octree.depth
    &&& after.octree.policy == before.octree.policy
    &&& forall|x: int, y: int, z: int|
        in_grid(after.octree.size as int, x, y, z) ==> #[trigger] after.octree.voxel(x, y, z) == (if positions.contains(
            world_of(key, stride, x, y, z),
        ) {
            value
        } else {
            before.octree.voxel(x, y, z)
        })
}

/// The chunk `after` is the chunk `before` with every voxel that stands for
/// one of `positions` set to `value`, and no longer counts as default.
pub open spec fn edited_many(
    before: ChunkView,
    after: ChunkView,
    key: [i64; 3],
    stride: int,
    positions: Seq<[i64; 3]>,
    value: u8,
) -> bool {
    voxels_follow(before, after, key, stride, positions, value) && !after.is_default
}

/// The chunk at `key` holds one of `positions`.
pub open spec fn touched(key: [i64; 3], positions: Seq<[i64; 3]>, size: int, stride: int) -> bool {
    exists|i: int| 0 <= i < positions.len() && covers(key, #[trigger] positions[i], size, stride)
}

/// The chunk `after` is what an edit of `positions` leaves at `key`: the
/// chunk that the table `before` held there, with those voxels set; or,
/// where it held none, a freshly generated chunk with those voxels set.
pub open spec fn batch_edit_of<F: Fn(i64, i64, i64, i64) -> u8>(
    f: F,
    depth: nat,
    stride: int,
    before: Map<[i64; 3], ChunkView>,
    key: [i64; 3],
    after: ChunkView,
    positions: Seq<[i64; 3]>,
    value: u8,
) -> bool {
    if before.contains_key(key) {
        edited_many(before[key], after, key, stride, positions, value)
    } else {
        exists|base: ChunkView|
            generated(f, key, depth, 0, stride, base) && #[trigger] edited_many(
                base,
                after,
                key,
                stride,
                positions,
                value,
            )
    }
}

/// What setting the voxels at `positions` to `value` does to a table:
/// every chunk that holds one of the positions is loaded afterwards and
/// has exactly those voxels set; every other chunk is as it was.
pub open spec fn batch_edited<F: Fn(i64, i64, i64, i64) -> u8>(
    f: F,
    depth: nat,
    size: int,
    stride: int,
    before: Map<[i64; 3], ChunkView>,
    after: Map<[i64; 3], ChunkView>,
    positions: Seq<[i64; 3]>,
    value: u8,
) -> bool {
    forall|key: [i64; 3]|
        if touched(key, positions, size, stride) {
            #[trigger] after.contains_key(key) && batch_edit_of(
                f,
                depth,
                stride,
                before,
                key,
                after[key],
                positions,
                value,
            )
        } else {
            after.contains_key(key) == before.contains_key(key) && (before.contains_key(key) ==> after[key]
                == before[key])
        }
}

/// A chunk holds exactly the world voxels that its own voxels stand for,
/// each once.
pub proof fn lemma_world_of(key: [i64; 3], size: int, stride: int, x: int, y: int, z: int)
    requires
        in_world(key),
        0 < stride <= size <= 1024,
        in_grid(size, x, y, z),
    ensures
        covers(key, world_of(key, stride, x, y, z), size, stride),
        world_of(key, stride, x, y, z)[0] == key[0] * stride + x,
        world_of(key, stride, x, y, z)[1] == key[1] * stride + y,
        world_of(key, stride, x, y, z)[2] == key[2] * stride + z,
{
    lemma_scaled_in_range(key[0] as int, stride);
    lemma_scaled_in_range(key[1] as int, stride);
    lemma_scaled_in_range(key[2] as int, stride);
}

/// One more edit on a chunk that follows a batch of edits follows the
/// batch with that position added.
pub proof fn lemma_edit_extends(
    before: ChunkView,
    mid: ChunkView,
    after: ChunkView,
    key: [i64; 3],
    stride: int,
    positions: Seq<[i64; 3]>,
    x: int,
    y: int,
    z: int,
    value: u8,
)
    requires
        in_world(key),
        0 < stride <= mid.octree.size,
        voxels_follow(before, mid, key, stride, positions, value),
        edited(mid, after, x, y, z, value),
        in_grid(mid.octree.size as int, x, y, z),
    ensures
        edited_many(before, after, key, stride, positions.push(world_of(key, stride, x, y, z)), value),
{
    let size = mid.octree.size as int;
    let p = world_of(key, stride, x, y, z);
    let more = positions.push(p);
    lemma_edge_len(mid.octree.depth);
    lemma_world_of(key, size, stride, x, y, z);
    lemma_grid_index(size, x, y, z);
    assert forall|cx: int, cy: int, cz: int| in_grid(after.octree.size as int, cx, cy, cz) implies #[trigger] after.octree.voxel(
        cx,
        cy,
        cz,
    ) == (if more.contains(world_of(key, stride, cx, cy, cz)) {
        value
    } else {
        before.octree.voxel(cx, cy, cz)
    }) by {
        let w = world_of(key, stride, cx, cy, cz);
        lemma_world_of(key, size, stride, cx, cy, cz);
        lemma_voxel_of_voxels(after.octree, cx, cy, cz);
        lemma_voxel_of_voxels(mid.octree, cx, cy, cz);
        lemma_grid_index(size, cx, cy, cz);
        assert(more.contains(w) <==> positions.contains(w) || w == p) by {
            if positions.contains(w) {
                let i = choose|i: int| 0 <= i < positions.len() && positions[i] == w;
                assert(more[i] == w);
            }
            if w == p {
                assert(more[positions.len() as int] == w);
            }
            if more.contains(w) {
                let i = choose|i: int| 0 <= i < more.len() && more[i] == w;
                if i < positions.len() {
                    assert(positions[i] == w);
                }
            }
        }
        if cx == x && cy == y && cz == z {
        } else {
            if grid_index(size, cx, cy, cz) == grid_index(size, x, y, z) {
                lemma_grid_index_injective(size, cx, cy, cz, x, y, z);
            }
            if w == p {
                assert(w[0] == p[0] && w[1] == p[1] && w[2] == p[2]);
            }
            assert(mid.octree.voxel(cx, cy, cz) == after.octree.voxel(cx, cy, cz));
        }
    }
}

/// A batch of edits that a chunk follows is still followed when a
/// position is added that the chunk does not hold.
pub proof fn lemma_edit_elsewhere(
    before: ChunkView,
    after: ChunkView,
    key: [i64; 3],
    stride: int,
    positions: Seq<[i64; 3]>,
    p: [i64; 3],
    value: u8,
)
    requires
        in_world(key),
        0 < stride <= after.octree.size,
        voxels_follow(before, after, key, stride, positions, value),
        !covers(key, p, after.octree.size as int, stride),
    ensures
        voxels_follow(before, after, key, stride, positions.push(p), value),
{
    let size = after.octree.size as int;
    let more = positions.push(p);
    lemma_edge_len(after.octree.depth);
    assert forall|cx: int, cy: int, cz: int| in_grid(after.octree.size as int, cx, cy, cz) implies #[trigger] after.octree.voxel(
        cx,
        cy,
        cz,
    ) == (if more.contains(world_of(key, stride, cx, cy, cz)) {
        value
    } else {
        before.octree.voxel(cx, cy, cz)
    }) by {
        let w = world_of(key, stride, cx, cy, cz);
        lemma_world_of(key, size, stride, cx, cy, cz);
        assert(w != p);
        if positions.contains(w) {
            let i = choose|i: int| 0 <= i < positions.len() && positions[i] == w;
            assert(more[i] == w);
        }
        if more.contains(w) {
            let i = choose|i: int| 0 <= i < more.len() && more[i] == w;
            assert(positions[i] == w);
        }
    }
}

/// A chunk that holds none of the positions of a batch follows that batch
/// by staying as it is.
pub proof fn lemma_untouched_follows(
    chunk: ChunkView,
    key: [i64; 3],
    stride: int,
    positions: Seq<[i64; 3]>,
    value: u8,
)
    requires
        in_world(key),
        chunk.octree.wf(),
        0 < stride <= chunk.octree.size,
        !touched(key, positions, chunk.octree.size as int, stride),
    ensures
        voxels_follow(chunk, chunk, key, stride, positions, value),
{
    let size = chunk.octree.size as int;
    lemma_edge_len(chunk.octree.depth);
    assert forall|cx: int, cy: int, cz: int| in_grid(size, cx, cy, cz) implies !positions.contains(
        #[trigger] world_of(key, stride, cx, cy, cz),
    ) by {
        let w = world_of(key, stride, cx, cy, cz);
        lemma_world_of(key, size, stride, cx, cy, cz);
        if positions.contains(w) {
            let i = choose|i: int| 0 <= i < positions.len() && positions[i] == w;
            assert(covers(key, positions[i], size, stride));
        }
    }
}

/// The state of a table while the position `p` is being written after the
/// positions `done`: the chunks at `finished` have `p` written as well,
/// every other chunk is as `done` alone leaves it.
pub open spec fn partly_edited<F: Fn(i64, i64, i64, i64) -> u8>(
    f: F,
    depth: nat,
    size: int,
    stride: int,
    start: Map<[i64; 3], ChunkView>,
    now: Map<[i64; 3], ChunkView>,
    done: Seq<[i64; 3]>,
    p: [i64; 3],
    finished: Seq<[i64; 3]>,
    value: u8,
) -> bool {
    forall|key: [i64; 3]|
        if finished.contains(key) {
            #[trigger] now.contains_key(key) && batch_edit_of(f, depth, stride, start, key, now[key], done.push(p), value)
        } else if touched(key, done, size, stride) {
            now.contains_key(key) && batch_edit_of(f, depth, stride, start, key, now[key], done, value)
        } else {
            now.contains_key(key) == start.contains_key(key) && (start.contains_key(key) ==> now[key] == start[key])
        }
}

/// A sequence with one more element holds what it held, and that element.
proof fn lemma_push_contains(list: Seq<[i64; 3]>, added: [i64; 3], key: [i64; 3])
    ensures
        list.push(added).contains(key) <==> list.contains(key) || key == added,
{
    let more = list.push(added);
    if list.contains(key) {
        let i = choose|i: int| 0 <= i < list.len() && list[i] == key;
        assert(more[i] == key);
    }
    if key == added {
        assert(more[list.len() as int] == key);
    }
    if more.contains(key) {
        let i = choose|i: int| 0 <= i < more.len() && more[i] == key;
        if i < list.len() {
            assert(list[i] == key);
        }
    }
}

/// `list` holds `key`.
fn has_key(list: &Vec<[i64; 3]>, key: &[i64; 3]) -> (found: bool)
    ensures
        found == list@.contains(*key),
{
    let mut i: usize = 0;
    while i < list.len()
        invariant
            i <= list.len(),
            forall|j: int| 0 <= j < i ==> list[j] != *key,
        decreases list.len() - i,
    {
        let other: [i64; 3] = list[i];
        if other[0] == key[0] && other[1] == key[1] && other[2] == key[2] {
            assert(other =~= *key);
            return true;
        }
        assert(other != *key);
        i = i + 1;
    }
    false
}

/// Writing one more voxel of a chunk turns what the table held at `key`
/// after the positions `done` into what it holds after `done` and the
/// position of that voxel.
proof fn lemma_step_at_key<F: Fn(i64, i64, i64, i64) -> u8>(
    f: F,
    depth: nat,
    size: int,
    stride: int,
    start: Map<[i64; 3], ChunkView>,
    mid: Map<[i64; 3], ChunkView>,
    key: [i64; 3],
    after: ChunkView,
    done: Seq<[i64; 3]>,
    p: [i64; 3],
    value: u8,
)
    requires
        in_world(key),
        depth <= MAX_DEPTH,
        size == edge_len(depth),
        0 < stride <= size,
        covers(key, p, size, stride),
        forall|k: [i64; 3]| #[trigger]
            start.contains_key(k) ==> start[k].octree.wf() && start[k].octree.depth == depth,
        if touched(key, done, size, stride) {
            mid.contains_key(key) && batch_edit_of(f, depth, stride, start, key, mid[key], done, value)
        } else {
            mid.contains_key(key) == start.contains_key(key) && (start.contains_key(key) ==> mid[key] == start[key])
        },
        edit_of(f, depth, stride, mid, key, after, p[0] - key[0] * stride, p[1] - key[1] * stride, p[2] - key[2]
            * stride, value),
    ensures
        batch_edit_of(f, depth, stride, start, key, after, done.push(p), value),
{
    let x = p[0] - key[0] * stride;
    let y = p[1] - key[1] * stride;
    let z = p[2] - key[2] * stride;
    lemma_edge_len(depth);
    lemma_world_of(key, size, stride, x, y, z);
    assert(world_of(key, stride, x, y, z) =~= p);
    if touched(key, done, size, stride) {
        if start.contains_key(key) {
            lemma_edit_extends(start[key], mid[key], after, key, stride, done, x, y, z, value);
        } else {
            let base = choose|base: ChunkView|
                generated(f, key, depth, 0, stride, base) && #[trigger] edited_many(
                    base,
                    mid[key],
                    key,
                    stride,
                    done,
                    value,
                );
            lemma_edit_extends(base, mid[key], after, key, stride, done, x, y, z, value);
        }
    } else {
        if start.contains_key(key) {
            lemma_untouched_follows(start[key], key, stride, done, value);
            lemma_edit_extends(start[key], mid[key], after, key, stride, done, x, y, z, value);
        } else {
            let base = choose|base: ChunkView|
                generated(f, key, depth, 0, stride, base) && #[trigger] edited(base, after, x, y, z, value);
            lemma_untouched_follows(base, key, stride, done, value);
            lemma_edit_extends(base, base, after, key, stride, done, x, y, z, value);
        }
    }
}

/// A chunk that does not hold `p` is, after the positions `done` and `p`,
/// what it was after `done`.
proof fn lemma_step_elsewhere<F: Fn(i64, i64, i64, i64) -> u8>(
    f: F,
    depth: nat,
    size: int,
    stride: int,
    start: Map<[i64; 3], ChunkView>,
    key: [i64; 3],
    now: ChunkView,
    done: Seq<[i64; 3]>,
    p: [i64; 3],
    value: u8,
)
    requires
        in_world(key),
        depth <= MAX_DEPTH,
        size == edge_len(depth),
        0 < stride <= size,
        !covers(key, p, size, stride),
        forall|k: [i64; 3]| #[trigger]
            start.contains_key(k) ==> start[k].octree.wf() && start[k].octree.depth == depth,
        batch_edit_of(f, depth, stride, start, key, now, done, value),
    ensures
        batch_edit_of(f, depth, stride, start, key, now, done.push(p), value),
{
    lemma_edge_len(depth);
    if start.contains_key(key) {
        assert(now.octree.size == size);
        lemma_edit_elsewhere(start[key], now, key, stride, done, p, value);
    } else {
        let base = choose|base: ChunkView|
            generated(f, key, depth, 0, stride, base) && #[trigger] edited_many(base, now, key, stride, done, value);
        assert(now.octree.size == size);
        lemma_edit_elsewhere(base, now, key, stride, done, p, value);
        assert(edited_many(base, now, key, stride, done.push(p), value));
    }
}

/// Writing `p` to the chunk at `key` moves the table one key on: from the
/// state in which the chunks at `seen` have `p` written to the state in
/// which the chunk at `key` has it too.
proof fn lemma_write_one_key<F: Fn(i64, i64, i64, i64) -> u8>(
    f: F,
    depth: nat,
    size: int,
    stride: int,
    start: Map<[i64; 3], ChunkView>,
    mid: Map<[i64; 3], ChunkView>,
    now: Map<[i64; 3], ChunkView>,
    done: Seq<[i64; 3]>,
    p: [i64; 3],
    seen: Seq<[i64; 3]>,
    key: [i64; 3],
    after: ChunkView,
    value: u8,
)
    requires
        in_world(key),
        depth <= MAX_DEPTH,
        size == edge_len(depth),
        0 < stride <= size,
        covers(key, p, size, stride),
        !seen.contains(key),
        forall|k: [i64; 3]| #[trigger]
            start.contains_key(k) ==> start[k].octree.wf() && start[k].octree.depth == depth,
        partly_edited(f, depth, size, stride, start, mid, done, p, seen, value),
        now == mid.insert(key, after),
        edit_of(f, depth, stride, mid, key, after, p[0] - key[0] * stride, p[1] - key[1] * stride, p[2] - key[2]
            * stride, value),
    ensures
        partly_edited(f, depth, size, stride, start, now, done, p, seen.push(key), value),
{
    let next = seen.push(key);
    lemma_partly_edited_at(f, depth, size, stride, start, mid, done, p, seen, value, key);
    lemma_step_at_key(f, depth, size, stride, start, mid, key, after, done, p, value);
    assert forall|k: [i64; 3]|
        if next.contains(k) {
            #[trigger] now.contains_key(k) && batch_edit_of(f, depth, stride, start, k, now[k], done.push(p), value)
        } else if touched(k, done, size, stride) {
            now.contains_key(k) && batch_edit_of(f, depth, stride, start, k, now[k], done, value)
        } else {
            now.contains_key(k) == start.contains_key(k) && (start.contains_key(k) ==> now[k] == start[k])
        } by {
        lemma_push_contains(seen, key, k);
        if k != key {
            lemma_partly_edited_at(f, depth, size, stride, start, mid, done, p, seen, value, k);
            assert(now.contains_key(k) == mid.contains_key(k));
            if mid.contains_key(k) {
                assert(now[k] == mid[k]);
            }
        }
    }
}

/// Once `p` is written to every chunk that holds it, the table is what
/// the positions `done` and `p` leave of the table at the start.
proof fn lemma_write_all_keys<F: Fn(i64, i64, i64, i64) -> u8>(
    f: F,
    depth: nat,
    size: int,
    stride: int,
    start: Map<[i64; 3], ChunkView>,
    now: Map<[i64; 3], ChunkView>,
    done: Seq<[i64; 3]>,
    p: [i64; 3],
    keys: Seq<[i64; 3]>,
    value: u8,
)
    requires
        depth <= MAX_DEPTH,
        size == edge_len(depth),
        0 < stride <= size,
        size == stride || (2 <= stride && size <= 2 * stride),
        forall|j: int| 0 <= j < done.len() ==> in_world(#[trigger] done[j]),
        forall|k: [i64; 3]| keys.contains(k) <==> covers(k, p, size, stride),
        forall|k: [i64; 3]| #[trigger]
            start.contains_key(k) ==> start[k].octree.wf() && start[k].octree.depth == depth,
        partly_edited(f, depth, size, stride, start, now, done, p, keys, value),
    ensures
        batch_edited(f, depth, size, stride, start, now, done.push(p), value),
{
    let more = done.push(p);
    lemma_edge_len(depth);
    assert forall|key: [i64; 3]|
        if touched(key, more, size, stride) {
            #[trigger] now.contains_key(key) && batch_edit_of(f, depth, stride, start, key, now[key], more, value)
        } else {
            now.contains_key(key) == start.contains_key(key) && (start.contains_key(key) ==> now[key] == start[key])
        } by {
        lemma_touched_push(key, done, p, size, stride);
        lemma_partly_edited_at(f, depth, size, stride, start, now, done, p, keys, value, key);
        assert(keys.contains(key) <==> covers(key, p, size, stride));
        if !keys.contains(key) && touched(key, done, size, stride) {
            let i = choose|i: int| 0 <= i < done.len() && covers(key, #[trigger] done[i], size, stride);
            lemma_covering_key_in_world(key, done[i], size, stride);
            lemma_step_elsewhere(f, depth, size, stride, start, key, now[key], done, p, value);
        }
    }
}

/// What [`partly_edited`] says of one key.
proof fn lemma_partly_edited_at<F: Fn(i64, i64, i64, i64) -> u8>(
    f: F,
    depth: nat,
    size: int,
    stride: int,
    start: Map<[i64; 3], ChunkView>,
    now: Map<[i64; 3], ChunkView>,
    done: Seq<[i64; 3]>,
    p: [i64; 3],
    finished: Seq<[i64; 3]>,
    value: u8,
    key: [i64; 3],
)
    requires
        partly_edited(f, depth, size, stride, start, now, done, p, finished, value),
    ensures
        if finished.contains(key) {
            now.contains_key(key) && batch_edit_of(f, depth, stride, start, key, now[key], done.push(p), value)
        } else if touched(key, done, size, stride) {
            now.contains_key(key) && batch_edit_of(f, depth, stride, start, key, now[key], done, value)
        } else {
            now.contains_key(key) == start.contains_key(key) && (start.contains_key(key) ==> now[key] == start[key])
        },
{
    assert(now.contains_key(key) || !now.contains_key(key));
}

/// What [`batch_edited`] says of one key.
pub proof fn lemma_batch_edited_at<F: Fn(i64, i64, i64, i64) -> u8>(
    f: F,
    depth: nat,
    size: int,
    stride: int,
    before: Map<[i64; 3], ChunkView>,
    after: Map<[i64; 3], ChunkView>,
    positions: Seq<[i64; 3]>,
    value: u8,
    key: [i64; 3],
)
    requires
        batch_edited(f, depth, size, stride, before, after, positions, value),
    ensures
        if touched(key, positions, size, stride) {
            after.contains_key(key) && batch_edit_of(f, depth, stride, before, key, after[key], positions, value)
        } else {
            after.contains_key(key) == before.contains_key(key) && (before.contains_key(key) ==> after[key]
                == before[key])
        },
{
    assert(after.contains_key(key) || !after.contains_key(key));
}

/// A table on which nothing has been written yet is in the state from
/// which the first chunk is written.
proof fn lemma_write_no_key<F: Fn(i64, i64, i64, i64) -> u8>(
    f: F,
    depth: nat,
    size: int,
    stride: int,
    start: Map<[i64; 3], ChunkView>,
    now: Map<[i64; 3], ChunkView>,
    done: Seq<[i64; 3]>,
    p: [i64; 3],
    value: u8,
)
    requires
        batch_edited(f, depth, size, stride, start, now, done, value),
    ensures
        partly_edited(f, depth, size, stride, start, now, done, p, Seq::<[i64; 3]>::empty(), value),
{
    let none = Seq::<[i64; 3]>::empty();
    assert forall|key: [i64; 3]|
        if none.contains(key) {
            #[trigger] now.contains_key(key) && batch_edit_of(f, depth, stride, start, key, now[key], done.push(p), value)
        } else if touched(key, done, size, stride) {
            now.contains_key(key) && batch_edit_of(f, depth, stride, start, key, now[key], done, value)
        } else {
            now.contains_key(key) == start.contains_key(key) && (start.contains_key(key) ==> now[key] == start[key])
        } by {
        lemma_batch_edited_at(f, depth, size, stride, start, now, done, value, key);
    }
}

/// A chunk holds one of the positions `done` and `p` exactly if it holds
/// one of `done` or holds `p`.
proof fn lemma_touched_push(key: [i64; 3], done: Seq<[i64; 3]>, p: [i64; 3], size: int, stride: int)
    ensures
        touched(key, done.push(p), size, stride) <==> touched(key, done, size, stride) || covers(key, p, size, stride),
{
    let more = done.push(p);
    if touched(key, more, size, stride) {
        let i = choose|i: int| 0 <= i < more.len() && covers(key, #[trigger] more[i], size, stride);
        if i < done.len() {
            assert(covers(key, done[i], size, stride));
        }
    }
    if touched(key, done, size, stride) {
        let i = choose|i: int| 0 <= i < done.len() && covers(key, #[trigger] done[i], size, stride);
        assert(covers(key, more[i], size, stride));
    }
    if covers(key, p, size, stride) {
        assert(covers(key, more[done.len() as int], size, stride));
    }
}

/// A chunk can only hold a position of the world if its key lies in the
/// world.
proof fn lemma_covering_key_in_world(key: [i64; 3], p: [i64; 3], size: int, stride: int)
    requires
        in_world(p),
        0 < stride <= size <= 1024,
        size == stride || (2 <= stride && size <= 2 * stride),
        covers(key, p, size, stride),
    ensures
        in_world(key),
{
    assert forall|i: int| 0 <= i < 3 implies -WORLD_LIMIT <= #[trigger] key[i] <= WORLD_LIMIT by {
        let k = key[i] as int;
        let c = p[i] as int;
        if k > WORLD_LIMIT {
            assert(k * stride > WORLD_LIMIT) by (nonlinear_arith)
                requires
                    k > 1_099_511_627_776,
                    stride >= 1,
            ;
        }
        if k < -WORLD_LIMIT {
            if size == stride {
                assert(k * stride + size <= -WORLD_LIMIT) by (nonlinear_arith)
                    requires
                        k <= -1_099_511_627_777,
                        0 < stride,
                        size == stride,
                ;
            } else {
                assert(k * stride + size <= -WORLD_LIMIT) by (nonlinear_arith)
                    requires
                        k <= -1_099_511_627_777,
                        2 <= stride,
                        size <= 2 * stride,
                ;
            }
        }
    }
}

/// Writing then reading gives back what was written: after a batch of
/// edits every chunk that holds one of the positions is loaded and holds
/// the value at the voxel that stands for that position, whether the chunk
/// owns the position or repeats it in its seam.
pub proof fn lemma_edit_round_trip<F: Fn(i64, i64, i64, i64) -> u8>(
    f: F,
    depth: nat,
    size: int,
    stride: int,
    before: Map<[i64; 3], ChunkView>,
    after: Map<[i64; 3], ChunkView>,
    positions: Seq<[i64; 3]>,
    value: u8,
    i: int,
    key: [i64; 3],
)
    requires
        depth <= MAX_DEPTH,
        size == edge_len(depth),
        0 < stride <= size,
        in_world(key),
        forall|k: [i64; 3]| #[trigger]
            before.contains_key(k) ==> before[k].octree.wf() && before[k].octree.depth == depth,
        batch_edited(f, depth, size, stride, before, after, positions, value),
        0 <= i < positions.len(),
        covers(key, positions[i], size, stride),
    ensures
        after.contains_key(key),
        after[key].octree.voxel(
            positions[i][0] - key[0] * stride,
            positions[i][1] - key[1] * stride,
            positions[i][2] - key[2] * stride,
        ) == value,
{
    let p = positions[i];
    let x = p[0] - key[0] * stride;
    let y = p[1] - key[1] * stride;
    let z = p[2] - key[2] * stride;
    lemma_edge_len(depth);
    lemma_batch_edited_at(f, depth, size, stride, before, after, positions, value, key);
    assert(touched(key, positions, size, stride));
    lemma_world_of(key, size, stride, x, y, z);
    assert(world_of(key, stride, x, y, z) =~= p);
    assert(positions.contains(world_of(key, stride, x, y, z)));
    if before.contains_key(key) {
        assert(after[key].octree.size == size);
    } else {
        let base = choose|base: ChunkView|
            generated(f, key, depth, 0, stride, base) && #[trigger] edited_many(
                base,
                after[key],
                key,
                stride,
                positions,
                value,
            );
        assert(after[key].octree.size == size);
    }
}

} // verus!
