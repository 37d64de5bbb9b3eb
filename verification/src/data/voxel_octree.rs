//! One chunk's voxel storage: a cubic grid of material ids, `2^depth` cells
//! on each edge, kept together with every coarser level of detail.
//!
//! The nodes lie in one flat array, finest level first. Level of detail 0
//! holds the voxels themselves in row-major order; each following level has
//! half the edge of the one before it, and each of its nodes summarises the
//! eight nodes below it according to the octree's [`ParentValueType`]. The
//! last level is the single root.

use vstd::prelude::*;
use crate::utils::MAX_DEPTH;
use crate::utils::cell_count;
use crate::utils::coord_to_index;
use crate::utils::edge_len;
use crate::utils::get_size;
use crate::utils::grid_index;
use crate::utils::grid_x;
use crate::utils::grid_y;
use crate::utils::grid_z;
use crate::utils::in_grid;
use crate::utils::lemma_edge_len;
use crate::utils::lemma_grid_coords;
use crate::utils::lemma_grid_index;
use crate::utils::lemma_grid_index_injective;

verus! {

/// How a node above the voxels summarises the eight nodes below it.
#[derive(Clone, Copy, Debug, PartialEq, Eq, Structural)]
pub enum ParentValueType {
    /// The highest material id among the eight children: a coarse cell is
    /// air only if everything below it is air, and where several materials
    /// meet the highest id wins.
    Lod,
    /// 1 if any child holds a material, else 0: coarse levels record
    /// occupancy only.
    Occupancy,
}

/// The meshing algorithm to run on an octree.
#[derive(Clone, Copy, Debug, PartialEq, Eq, Structural)]
pub enum VoxelMode {
    SurfaceNets,
}

/// The highest value in `s`, or 0 for the empty sequence.
pub open spec fn highest(s: Seq<u8>) -> u8
    decreases s.len(),
{
    if s.len() == 0 {
        0
    } else {
        let rest = highest(s.drop_last());
        if s.last() > rest {
            s.last()
        } else {
            rest
        }
    }
}

/// The highest value of a sequence is one of its values, and none of its
/// values is higher; for the empty sequence it is 0.
pub proof fn lemma_highest(s: Seq<u8>)
    ensures
        forall|i: int| 0 <= i < s.len() ==> #[trigger] s[i] <= highest(s),
        s.len() > 0 ==> exists|i: int| 0 <= i < s.len() && #[trigger] s[i] == highest(s),
        s.len() == 0 ==> highest(s) == 0,
    decreases s.len(),
{
    if s.len() > 0 {
        let rest = s.drop_last();
        lemma_highest(rest);
        assert forall|i: int| 0 <= i < s.len() implies #[trigger] s[i] <= highest(s) by {
            if i < rest.len() {
                assert(rest[i] == s[i]);
            }
        }
        if s.last() > highest(rest) || rest.len() == 0 {
            assert(s[s.len() - 1] == highest(s));
        } else {
            let i = choose|i: int| 0 <= i < rest.len() && #[trigger] rest[i] == highest(rest);
            assert(s[i] == highest(s));
        }
    }
}

/// The value of a parent whose children hold `children`.
pub open spec fn aggregate(policy: ParentValueType, children: Seq<u8>) -> u8 {
    match policy {
        ParentValueType::Lod => highest(children),
        ParentValueType::Occupancy => if highest(children) > 0 {
            1u8
        } else {
            0u8
        },
    }
}

/// Where the nodes of level of detail `lod` start in the flat node array of
/// an octree of the given depth.
pub open spec fn lod_offset(depth: nat, lod: nat) -> nat
    decreases lod,
{
    if lod == 0 {
        0
    } else {
        lod_offset(depth, (lod - 1) as nat) + cell_count((depth - (lod - 1)) as nat)
    }
}

/// The number of nodes, over all levels, of an octree of the given depth.
pub open spec fn node_count(depth: nat) -> nat {
    lod_offset(depth, depth + 1)
}

/// The place of the node `(x, y, z)` of level `lod` in the flat node array.
pub open spec fn node_index(depth: nat, lod: nat, x: int, y: int, z: int) -> int {
    lod_offset(depth, lod) + grid_index(edge_len((depth - lod) as nat) as int, x, y, z)
}

/// A level has eight times the cells of the next coarser one.
pub proof fn lemma_cell_count_step(depth: nat)
    requires
        0 < depth <= MAX_DEPTH,
    ensures
        cell_count(depth) == 8 * cell_count((depth - 1) as nat),
{
    lemma_edge_len(depth);
    let e = edge_len((depth - 1) as nat) as int;
    assert((2 * e) * (2 * e) * (2 * e) == 8 * (e * e * e)) by (nonlinear_arith);
}

/// The levels up to `lod` and eight sevenths of level `lod` itself weigh as
/// much as eight sevenths of the voxel level.
pub proof fn lemma_lod_offset_sum(depth: nat, lod: nat)
    requires
        lod <= depth <= MAX_DEPTH,
    ensures
        7 * lod_offset(depth, lod) + 8 * cell_count((depth - lod) as nat) == 8 * cell_count(depth),
    decreases lod,
{
    if lod > 0 {
        lemma_lod_offset_sum(depth, (lod - 1) as nat);
        lemma_cell_count_step((depth - (lod - 1)) as nat);
    }
}

/// Offsets grow with the level, and every level lies inside the node array.
pub proof fn lemma_lod_offset_bounds(depth: nat, lod: nat)
    requires
        lod <= depth <= MAX_DEPTH,
    ensures
        lod_offset(depth, lod) + cell_count((depth - lod) as nat) == lod_offset(depth, lod + 1),
        lod_offset(depth, lod + 1) <= node_count(depth),
        node_count(depth) <= 2 * cell_count(depth),
        node_count(depth) <= 0x7fff_ffff,
        cell_count(depth) <= node_count(depth),
    decreases depth - lod,
{
    lemma_edge_len(depth);
    if lod < depth {
        lemma_lod_offset_bounds(depth, lod + 1);
    } else {
        lemma_lod_offset_sum(depth, depth);
        lemma_edge_len(0);
        assert(cell_count(0) == 1) by (nonlinear_arith)
            requires
                edge_len(0) == 1,
        ;
    }
    lemma_lod_offset_first(depth);
}

/// The voxel level starts the array and the next level follows it.
pub proof fn lemma_lod_offset_first(depth: nat)
    ensures
        lod_offset(depth, 0) == 0,
        lod_offset(depth, 1) == cell_count(depth),
{
    assert(lod_offset(depth, 1) == lod_offset(depth, 0) + cell_count((depth - 0) as nat));
}

/// A coarser level starts where all finer ones have ended.
pub proof fn lemma_lod_offset_monotone(depth: nat, a: nat, b: nat)
    requires
        a <= b <= depth + 1,
        depth <= MAX_DEPTH,
    ensures
        lod_offset(depth, a) <= lod_offset(depth, b),
    decreases b - a,
{
    if a < b {
        lemma_lod_offset_monotone(depth, a, (b - 1) as nat);
    }
}

/// The index of a node lies in its own level's stretch of the node array.
pub proof fn lemma_node_index(depth: nat, lod: nat, x: int, y: int, z: int)
    requires
        lod <= depth <= MAX_DEPTH,
        in_grid(edge_len((depth - lod) as nat) as int, x, y, z),
    ensures
        lod_offset(depth, lod) <= node_index(depth, lod, x, y, z) < lod_offset(depth, lod + 1),
        node_index(depth, lod, x, y, z) < node_count(depth),
{
    lemma_grid_index(edge_len((depth - lod) as nat) as int, x, y, z);
    lemma_lod_offset_bounds(depth, lod);
}

/// Two nodes share a place in the array only if they are the same node.
pub proof fn lemma_node_index_injective(
    depth: nat,
    lod1: nat,
    x1: int,
    y1: int,
    z1: int,
    lod2: nat,
    x2: int,
    y2: int,
    z2: int,
)
    requires
        lod1 <= depth <= MAX_DEPTH,
        lod2 <= depth,
        in_grid(edge_len((depth - lod1) as nat) as int, x1, y1, z1),
        in_grid(edge_len((depth - lod2) as nat) as int, x2, y2, z2),
        node_index(depth, lod1, x1, y1, z1) == node_index(depth, lod2, x2, y2, z2),
    ensures
        lod1 == lod2 && x1 == x2 && y1 == y2 && z1 == z2,
{
    lemma_node_index(depth, lod1, x1, y1, z1);
    lemma_node_index(depth, lod2, x2, y2, z2);
    if lod1 < lod2 {
        lemma_lod_offset_monotone(depth, lod1 + 1, lod2);
    } else if lod2 < lod1 {
        lemma_lod_offset_monotone(depth, lod2 + 1, lod1);
    } else {
        let e = edge_len((depth - lod1) as nat) as int;
        lemma_grid_index(e, x1, y1, z1);
        lemma_grid_index(e, x2, y2, z2);
    }
}

/// What an octree holds, as plain values.
pub struct OctreeView {
    /// The voxel grid has `2^depth` cells on each edge.
    pub depth: nat,
    /// The edge length in voxels.
    pub size: nat,
    /// How parents summarise their children.
    pub policy: ParentValueType,
    /// All nodes, finest level first.
    pub nodes: Seq<u8>,
}

impl OctreeView {
    /// The edge, in nodes, of the grid at level `lod`.
    pub open spec fn side(self, lod: nat) -> int {
        edge_len((self.depth - lod) as nat) as int
    }

    /// The value held by node `(x, y, z)` of level `lod`.
    pub open spec fn node(self, lod: nat, x: int, y: int, z: int) -> u8 {
        self.nodes[node_index(self.depth, lod, x, y, z)]
    }

    /// The material id of the voxel `(x, y, z)`.
    pub open spec fn voxel(self, x: int, y: int, z: int) -> u8 {
        self.node(0, x, y, z)
    }

    /// The voxel grid in row-major order.
    pub open spec fn voxels(self) -> Seq<u8> {
        self.nodes.take(cell_count(self.depth) as int)
    }

    /// The grid of level `lod` in row-major order.
    pub open spec fn level(self, lod: nat) -> Seq<u8> {
        self.nodes.subrange(lod_offset(self.depth, lod) as int, lod_offset(self.depth, lod + 1) as int)
    }

    /// The value of the `c`-th child of node `(x, y, z)` of level `lod`.
    pub open spec fn child(self, lod: nat, x: int, y: int, z: int, c: int) -> u8 {
        self.node((lod - 1) as nat, 2 * x + c / 4, 2 * y + (c / 2) % 2, 2 * z + c % 2)
    }

    /// The values of the eight children of node `(x, y, z)` of level `lod`.
    pub open spec fn children(self, lod: nat, x: int, y: int, z: int) -> Seq<u8> {
        Seq::new(8, |c: int| self.child(lod, x, y, z, c))
    }

    /// Node `(x, y, z)` of level `lod` agrees with its children.
    pub open spec fn node_ok(self, lod: nat, x: int, y: int, z: int) -> bool {
        self.node(lod, x, y, z) == aggregate(self.policy, self.children(lod, x, y, z))
    }

    /// The node array has the right length and every parent agrees with its
    /// children.
    pub open spec fn wf(self) -> bool {
        &&& self.depth <= MAX_DEPTH
        &&& self.size == edge_len(self.depth)
        &&& self.nodes.len() == node_count(self.depth)
        &&& forall|lod: nat, x: int, y: int, z: int|
            1 <= lod <= self.depth && in_grid(self.side(lod), x, y, z) ==> #[trigger] self.node_ok(
                lod,
                x,
                y,
                z,
            )
    }
}

/// A cubic grid of material ids with its coarser levels of detail.
#[derive(Debug)]
pub struct VoxelOctree {
    /// The grid has `2^depth` voxels on each edge.
    pub depth: u8,
    /// The edge length in voxels.
    pub size: u32,
    /// How parents summarise their children.
    pub parent_value: ParentValueType,
    /// All nodes, finest level first.
    pub data: Vec<u8>,
}

impl View for VoxelOctree {
    type V = OctreeView;

    open spec fn view(&self) -> OctreeView {
        OctreeView {
            depth: self.depth as nat,
            size: self.size as nat,
            policy: self.parent_value,
            nodes: self.data@,
        }
    }
}

impl Clone for VoxelOctree {
    fn clone(&self) -> (other: Self)
        ensures
            other@ == self@,
    {
        VoxelOctree {
            depth: self.depth,
            size: self.size,
            parent_value: self.parent_value,
            data: self.data.clone(),
        }
    }
}

impl VoxelOctree {
    /// The cached edge length is right and every parent agrees with its
    /// children.
    pub open spec fn wf(&self) -> bool {
        self@.wf()
    }

    /// An octree of edge `2^depth` with every voxel set to `default_value`,
    /// summarised by the highest child.
    pub fn new(default_value: u8, depth: u8) -> (octree: Self)
        requires
            depth <= MAX_DEPTH,
        ensures
            octree.wf(),
            octree.depth == depth,
            octree.parent_value == ParentValueType::Lod,
            octree@.voxels() == Seq::new(cell_count(depth as nat), |i: int| default_value),
    {
        let size: u32 = get_size(depth);
        let total: usize = node_total(depth);
        let data: Vec<u8> = vec![default_value; total];
        let octree = VoxelOctree { depth, size, parent_value: ParentValueType::Lod, data };
        proof {
            lemma_lod_offset_bounds(depth as nat, 0);
            assert(octree@.nodes =~= Seq::new(total as nat, |i: int| default_value));
            assert(octree@.voxels() =~= Seq::new(cell_count(depth as nat), |i: int| default_value));
            assert forall|lod: nat, x: int, y: int, z: int|
                1 <= lod <= octree@.depth && in_grid(octree@.side(lod), x, y, z) implies #[trigger] octree@.node_ok(
                lod,
                x,
                y,
                z,
            ) by {
                lemma_node_index(depth as nat, lod, x, y, z);
                let kids = octree@.children(lod, x, y, z);
                assert forall|c: int| 0 <= c < 8 implies #[trigger] kids[c] == default_value by {
                    lemma_child_in_grid(depth as nat, lod, x, y, z, c);
                    lemma_node_index(
                        depth as nat,
                        (lod - 1) as nat,
                        2 * x + c / 4,
                        2 * y + (c / 2) % 2,
                        2 * z + c % 2,
                    );
                }
                lemma_highest_constant(kids, default_value);
            }
        }
        octree
    }

    /// An octree of edge `2^depth` built from a listing of `[x, y, z, value]`
    /// entries: every voxel starts as `default_value`, then each entry in
    /// turn is written to its voxel, and at the end every parent is
    /// summarised from its children under `policy`.
    pub fn new_from_3d_array(
        default_value: u8,
        depth: u8,
        data: &Vec<[u32; 4]>,
        policy: ParentValueType,
    ) -> (octree: Self)
        requires
            depth <= MAX_DEPTH,
            forall|i: int| 0 <= i < data.len() ==> valid_entry(depth as nat, #[trigger] data[i]),
        ensures
            octree.wf(),
            octree.depth == depth,
            octree.parent_value == policy,
            octree@.voxels() == flat_fill(default_value, depth as nat, data@),
    {
        let size: u32 = get_size(depth);
        let total: usize = node_total(depth);
        let nodes: Vec<u8> = vec![default_value; total];
        let mut octree = VoxelOctree { depth, size, parent_value: policy, data: nodes };
        proof {
            lemma_lod_offset_bounds(depth as nat, 0);
            lemma_edge_len(depth as nat);
            assert(data@.take(0) =~= Seq::<[u32; 4]>::empty());
            assert(octree@.voxels() =~= flat_fill(default_value, depth as nat, data@.take(0)));
        }
        let mut j: usize = 0;
        while j < data.len()
            invariant
                j <= data.len(),
                depth <= MAX_DEPTH,
                octree.depth == depth,
                octree.size == size,
                size == edge_len(depth as nat),
                size <= 1024,
                octree.parent_value == policy,
                octree.data.len() == node_count(depth as nat),
                cell_count(depth as nat) <= node_count(depth as nat),
                forall|i: int| 0 <= i < data.len() ==> valid_entry(depth as nat, #[trigger] data[i]),
                octree@.voxels() == flat_fill(default_value, depth as nat, data@.take(j as int)),
            decreases data.len() - j,
        {
            let entry: [u32; 4] = data[j];
            assert(valid_entry(depth as nat, data[j as int]));
            proof {
                lemma_grid_index(size as int, entry[0] as int, entry[1] as int, entry[2] as int);
            }
            let index: usize = coord_to_index(entry[0], entry[1], entry[2], 0, size);
            let ghost before = octree@.voxels();
            octree.data[index] = entry[3] as u8;
            proof {
                assert(data@.take(j + 1).drop_last() =~= data@.take(j as int));
                assert(data@.take(j + 1).last() == entry);
                assert(octree@.voxels() =~= before.update(index as int, entry[3] as u8));
            }
            j = j + 1;
        }
        proof {
            assert(data@.take(data.len() as int) =~= data@);
        }
        octree.summarise_all();
        octree
    }

    /// Recomputes every node above the voxels from its children, finest
    /// level first.
    fn summarise_all(&mut self)
        requires
            old(self).depth <= MAX_DEPTH,
            old(self).size == edge_len(old(self).depth as nat),
            old(self).data.len() == node_count(old(self).depth as nat),
        ensures
            final(self).wf(),
            final(self).depth == old(self).depth,
            final(self).size == old(self).size,
            final(self).parent_value == old(self).parent_value,
            final(self)@.voxels() == old(self)@.voxels(),
    {
        let depth: u8 = self.depth;
        let ghost before = self@;
        let mut lod: u8 = 0;
        let mut side: u32 = self.size;
        let mut offset: usize = 0;
        while lod < depth
            invariant
                lod <= depth <= MAX_DEPTH,
                self.depth == depth,
                self.size == edge_len(depth as nat),
                self.parent_value == before.policy,
                self.data.len() == node_count(depth as nat),
                side == edge_len((depth - lod) as nat),
                offset == lod_offset(depth as nat, lod as nat),
                self@.voxels() == before.voxels(),
                forall|l: nat, cx: int, cy: int, cz: int|
                    1 <= l <= lod && in_grid(self@.side(l), cx, cy, cz) ==> #[trigger] self@.node_ok(
                        l,
                        cx,
                        cy,
                        cz,
                    ),
            decreases depth - lod,
        {
            proof {
                lemma_edge_len((depth - lod) as nat);
                lemma_lod_offset_bounds(depth as nat, lod as nat);
                assert(side * side <= 1_048_576 && side * side * side <= 1_073_741_824) by (nonlinear_arith)
                    requires
                        1 <= side <= 1024,
                ;
            }
            self.summarise_level(lod + 1, offset, side);
            offset = offset + (side * side * side) as usize;
            side = side / 2;
            lod = lod + 1;
        }
    }

    /// Recomputes every node of level `lod` from its children in the level
    /// below, which starts at `child_offset` and has edge `child_side`.
    fn summarise_level(&mut self, lod: u8, child_offset: usize, child_side: u32)
        requires
            1 <= lod <= old(self).depth <= MAX_DEPTH,
            old(self).data.len() == node_count(old(self).depth as nat),
            child_offset == lod_offset(old(self).depth as nat, (lod - 1) as nat),
            child_side == edge_len((old(self).depth - (lod - 1)) as nat),
            forall|l: nat, cx: int, cy: int, cz: int|
                1 <= l < lod && in_grid(old(self)@.side(l), cx, cy, cz) ==> #[trigger] old(self)@.node_ok(
                    l,
                    cx,
                    cy,
                    cz,
                ),
        ensures
            final(self).depth == old(self).depth,
            final(self).size == old(self).size,
            final(self).parent_value == old(self).parent_value,
            final(self).data.len() == old(self).data.len(),
            final(self)@.voxels() == old(self)@.voxels(),
            forall|l: nat, cx: int, cy: int, cz: int|
                1 <= l <= lod && in_grid(final(self)@.side(l), cx, cy, cz) ==> #[trigger] final(self)@.node_ok(
                    l,
                    cx,
                    cy,
                    cz,
                ),
    {
        let depth: u8 = self.depth;
        let ghost before = self@;
        let ghost size = self.size;
        proof {
            lemma_edge_len((depth - lod) as nat);
            lemma_edge_len((depth - (lod - 1)) as nat);
            lemma_lod_offset_bounds(depth as nat, (lod - 1) as nat);
            lemma_lod_offset_bounds(depth as nat, lod as nat);
            lemma_lod_offset_monotone(depth as nat, 1, lod as nat);
            lemma_lod_offset_first(depth as nat);
            assert(child_side * child_side <= 1_048_576 && child_side * child_side * child_side
                <= 1_073_741_824) by (nonlinear_arith)
                requires
                    1 <= child_side <= 1024,
            ;
        }
        let side: u32 = child_side / 2;
        let offset: usize = child_offset + (child_side * child_side * child_side) as usize;
        proof {
            assert(side * side <= 1_048_576 && side * side * side <= 1_073_741_824) by (nonlinear_arith)
                requires
                    1 <= side <= 1024,
            ;
        }
        let area: u32 = side * side;
        let count: u32 = area * side;
        let mut i: u32 = 0;
        while i < count
            invariant
                i <= count,
                count == side * side * side,
                area == side * side,
                1 <= side <= 512,
                1 <= lod <= depth <= MAX_DEPTH,
                self.depth == depth,
                self.size == size,
                before.depth == depth,
                self.parent_value == before.policy,
                self.data.len() == node_count(depth as nat),
                child_offset == lod_offset(depth as nat, (lod - 1) as nat),
                child_side == edge_len((depth - (lod - 1)) as nat),
                side == edge_len((depth - lod) as nat),
                offset == lod_offset(depth as nat, lod as nat),
                offset >= cell_count(depth as nat),
                offset + count <= node_count(depth as nat),
                self@.voxels() == before.voxels(),
                forall|l: nat, cx: int, cy: int, cz: int|
                    1 <= l < lod && in_grid(self@.side(l), cx, cy, cz) ==> #[trigger] self@.node_ok(
                        l,
                        cx,
                        cy,
                        cz,
                    ),
                forall|cx: int, cy: int, cz: int|
                    in_grid(side as int, cx, cy, cz) && grid_index(side as int, cx, cy, cz) < i
                        ==> #[trigger] self@.node_ok(lod as nat, cx, cy, cz),
            decreases count - i,
        {
            let ghost mid = self@;
            proof {
                lemma_grid_coords(side as int, i as int);
            }
            let x: u32 = i / area;
            let y: u32 = (i / side) % side;
            let z: u32 = i % side;
            let summary: u8 = self.summarise(lod, child_offset, child_side, x, y, z);
            self.data[offset + i as usize] = summary;
            proof {
                let after = self@;
                assert(after.voxels() =~= mid.voxels());
                assert(offset + i == node_index(depth as nat, lod as nat, x as int, y as int, z as int));
                assert forall|l: nat, cx: int, cy: int, cz: int|
                    1 <= l <= lod && in_grid(after.side(l), cx, cy, cz) && !(l == lod && cx == x && cy == y
                        && cz == z) && mid.node_ok(l, cx, cy, cz) implies #[trigger] after.node_ok(
                    l,
                    cx,
                    cy,
                    cz,
                ) by {
                    lemma_write_keeps_node_ok(
                        mid,
                        after,
                        lod as nat,
                        x as int,
                        y as int,
                        z as int,
                        summary,
                        l,
                        cx,
                        cy,
                        cz,
                    );
                }
                assert(after.children(lod as nat, x as int, y as int, z as int) =~= mid.children(
                    lod as nat,
                    x as int,
                    y as int,
                    z as int,
                )) by {
                    assert forall|c: int| 0 <= c < 8 implies after.child(
                        lod as nat,
                        x as int,
                        y as int,
                        z as int,
                        c,
                    ) == mid.child(lod as nat, x as int, y as int, z as int, c) by {
                        lemma_child_in_grid(depth as nat, lod as nat, x as int, y as int, z as int, c);
                        lemma_node_index(
                            depth as nat,
                            (lod - 1) as nat,
                            2 * x + c / 4,
                            2 * y + (c / 2) % 2,
                            2 * z + c % 2,
                        );
                    }
                }
                assert(after.node_ok(lod as nat, x as int, y as int, z as int));
                assert forall|cx: int, cy: int, cz: int|
                    in_grid(side as int, cx, cy, cz) && grid_index(side as int, cx, cy, cz) < i + 1
                        implies #[trigger] after.node_ok(lod as nat, cx, cy, cz) by {
                    if grid_index(side as int, cx, cy, cz) == i {
                        lemma_grid_index_injective(side as int, cx, cy, cz, x as int, y as int, z as int);
                    }
                }
            }
            i = i + 1;
        }
        proof {
            assert forall|cx: int, cy: int, cz: int| in_grid(side as int, cx, cy, cz) implies grid_index(
                side as int,
                cx,
                cy,
                cz,
            ) < count by {
                lemma_grid_index(side as int, cx, cy, cz);
            }
        }
    }

    /// The edge length in voxels.
    pub fn get_size(&self) -> (size: u32)
        ensures
            size == self.size,
    {
        self.size
    }

    /// Whether the octree is well-formed: what a caller that has built or
    /// changed an octree by hand has to make sure of before it hands the
    /// octree to the library. Reads every node once.
    pub fn is_valid(&self) -> (valid: bool)
        ensures
            valid == self.wf(),
    {
        if self.depth > MAX_DEPTH {
            return false;
        }
        let depth: u8 = self.depth;
        let size: u32 = get_size(depth);
        if self.size != size {
            return false;
        }
        if self.data.len() != node_total(depth) {
            return false;
        }
        let mut lod: u8 = 0;
        let mut side: u32 = size;
        let mut offset: usize = 0;
        while lod < depth
            invariant
                lod <= depth <= MAX_DEPTH,
                self.depth == depth,
                self.size == edge_len(depth as nat),
                self.data.len() == node_count(depth as nat),
                side == edge_len((depth - lod) as nat),
                offset == lod_offset(depth as nat, lod as nat),
                forall|l: nat, cx: int, cy: int, cz: int|
                    1 <= l <= lod && in_grid(self@.side(l), cx, cy, cz) ==> #[trigger] self@.node_ok(
                        l,
                        cx,
                        cy,
                        cz,
                    ),
            decreases depth - lod,
        {
            proof {
                lemma_edge_len((depth - lod) as nat);
                lemma_lod_offset_bounds(depth as nat, lod as nat);
                assert(side * side <= 1_048_576 && side * side * side <= 1_073_741_824) by (nonlinear_arith)
                    requires
                        1 <= side <= 1024,
                ;
            }
            if !self.level_agrees(lod + 1, offset, side) {
                return false;
            }
            offset = offset + (side * side * side) as usize;
            side = side / 2;
            lod = lod + 1;
        }
        true
    }

    /// Whether every node of level `lod` agrees with its children in the
    /// level below, which starts at `child_offset` and has edge
    /// `child_side`.
    fn level_agrees(&self, lod: u8, child_offset: usize, child_side: u32) -> (agrees: bool)
        requires
            1 <= lod <= self.depth <= MAX_DEPTH,
            self.data.len() == node_count(self.depth as nat),
            child_offset == lod_offset(self.depth as nat, (lod - 1) as nat),
            child_side == edge_len((self.depth - (lod - 1)) as nat),
        ensures
            agrees == (forall|x: int, y: int, z: int|
                in_grid(self@.side(lod as nat), x, y, z) ==> #[trigger] self@.node_ok(lod as nat, x, y, z)),
    {
        let depth: u8 = self.depth;
        proof {
            lemma_edge_len((depth - lod) as nat);
            lemma_edge_len((depth - (lod - 1)) as nat);
            lemma_lod_offset_bounds(depth as nat, (lod - 1) as nat);
            lemma_lod_offset_bounds(depth as nat, lod as nat);
            assert(child_side * child_side <= 1_048_576 && child_side * child_side * child_side
                <= 1_073_741_824) by (nonlinear_arith)
                requires
                    1 <= child_side <= 1024,
            ;
        }
        let side: u32 = child_side / 2;
        let offset: usize = child_offset + (child_side * child_side * child_side) as usize;
        proof {
            assert(side * side <= 1_048_576 && side * side * side <= 1_073_741_824) by (nonlinear_arith)
                requires
                    1 <= side <= 1024,
            ;
        }
        let area: u32 = side * side;
        let count: u32 = area * side;
        let mut i: u32 = 0;
        while i < count
            invariant
                i <= count,
                count == side * side * side,
                area == side * side,
                1 <= side <= 512,
                1 <= lod <= depth <= MAX_DEPTH,
                self.depth == depth,
                self.data.len() == node_count(depth as nat),
                child_offset == lod_offset(depth as nat, (lod - 1) as nat),
                child_side == edge_len((depth - (lod - 1)) as nat),
                side == edge_len((depth - lod) as nat),
                offset == lod_offset(depth as nat, lod as nat),
                offset + count <= node_count(depth as nat),
                forall|cx: int, cy: int, cz: int|
                    in_grid(side as int, cx, cy, cz) && grid_index(side as int, cx, cy, cz) < i
                        ==> #[trigger] self@.node_ok(lod as nat, cx, cy, cz),
            decreases count - i,
        {
            proof {
                lemma_grid_coords(side as int, i as int);
            }
            let x: u32 = i / area;
            let y: u32 = (i / side) % side;
            let z: u32 = i % side;
            let summary: u8 = self.summarise(lod, child_offset, child_side, x, y, z);
            proof {
                assert(offset + i == node_index(depth as nat, lod as nat, x as int, y as int, z as int));
            }
            if self.data[offset + i as usize] != summary {
                proof {
                    assert(in_grid(self@.side(lod as nat), x as int, y as int, z as int));
                    assert(!self@.node_ok(lod as nat, x as int, y as int, z as int));
                }
                return false;
            }
            proof {
                assert(self@.node_ok(lod as nat, x as int, y as int, z as int));
                assert forall|cx: int, cy: int, cz: int|
                    in_grid(side as int, cx, cy, cz) && grid_index(side as int, cx, cy, cz) < i + 1
                        implies #[trigger] self@.node_ok(lod as nat, cx, cy, cz) by {
                    if grid_index(side as int, cx, cy, cz) == i {
                        lemma_grid_index_injective(side as int, cx, cy, cz, x as int, y as int, z as int);
                    }
                }
            }
            i = i + 1;
        }
        proof {
            assert forall|cx: int, cy: int, cz: int| in_grid(side as int, cx, cy, cz) implies grid_index(
                side as int,
                cx,
                cy,
                cz,
            ) < count by {
                lemma_grid_index(side as int, cx, cy, cz);
            }
        }
        true
    }

    /// Whether `(x, y, z)` names a voxel of this octree: what a caller has
    /// to make sure of before it reads or writes the voxel.
    pub fn in_bounds(&self, x: u32, y: u32, z: u32) -> (inside: bool)
        ensures
            inside == in_grid(self.size as int, x as int, y as int, z as int),
    {
        x < self.size && y < self.size && z < self.size
    }

    /// The material id of the voxel `(x, y, z)`.
    pub fn get_voxel(&self, x: u32, y: u32, z: u32) -> (value: u8)
        requires
            self.wf(),
            x < self.size,
            y < self.size,
            z < self.size,
        ensures
            value == self@.voxel(x as int, y as int, z as int),
            value == self@.voxels()[grid_index(self.size as int, x as int, y as int, z as int)],
    {
        proof {
            lemma_edge_len(self.depth as nat);
            lemma_node_index(self.depth as nat, 0, x as int, y as int, z as int);
            lemma_lod_offset_bounds(self.depth as nat, 0);
        }
        let index: usize = coord_to_index(x, y, z, 0, self.size);
        self.data[index]
    }

    /// The value that stands for the block of voxels `(x, y, z)` at level
    /// of detail `lod`: the voxel itself at level 0, a summary of `8^lod`
    /// voxels above it.
    pub fn get_voxel_lod(&self, x: u32, y: u32, z: u32, lod: u8) -> (value: u8)
        requires
            self.wf(),
            lod <= self.depth,
            in_grid(self@.side(lod as nat), x as int, y as int, z as int),
        ensures
            value == self@.node(lod as nat, x as int, y as int, z as int),
    {
        let (offset, side) = level_start(self.depth, lod);
        proof {
            lemma_edge_len((self.depth - lod) as nat);
            lemma_node_index(self.depth as nat, lod as nat, x as int, y as int, z as int);
            lemma_lod_offset_bounds(self.depth as nat, lod as nat);
        }
        let index: usize = offset + coord_to_index(x, y, z, 0, side);
        self.data[index]
    }

    /// Writes `value` to the voxel `(x, y, z)` and brings every node above
    /// it back in line with its children.
    pub fn set_voxel(&mut self, x: u32, y: u32, z: u32, value: u8)
        requires
            old(self).wf(),
            x < old(self).size,
            y < old(self).size,
            z < old(self).size,
        ensures
            final(self).wf(),
            final(self).depth == old(self).depth,
            final(self).size == old(self).size,
            final(self).parent_value == old(self).parent_value,
            final(self)@.voxels() == old(self)@.voxels().update(
                grid_index(old(self).size as int, x as int, y as int, z as int),
                value,
            ),
            final(self)@.voxel(x as int, y as int, z as int) == value,
    {
        let depth: u8 = self.depth;
        let ghost before = self@;
        proof {
            lemma_edge_len(depth as nat);
            lemma_node_index(depth as nat, 0, x as int, y as int, z as int);
            lemma_lod_offset_bounds(depth as nat, 0);
        }
        let leaf: usize = coord_to_index(x, y, z, 0, self.size);
        self.data[leaf] = value;
        proof {
            assert(self@.voxels() =~= before.voxels().update(leaf as int, value));
            assert forall|l: nat, cx: int, cy: int, cz: int|
                1 <= l <= depth && in_grid(self@.side(l), cx, cy, cz) && !(cx == ancestor(x as int, l)
                    && cy == ancestor(y as int, l) && cz == ancestor(z as int, l)) implies #[trigger] self@.node_ok(
                l,
                cx,
                cy,
                cz,
            ) by {
                assert(before.node_ok(l, cx, cy, cz));
                assert(ancestor(x as int, 1) == x as int / 2) by {
                    reveal_with_fuel(ancestor, 2);
                }
                assert(ancestor(y as int, 1) == y as int / 2) by {
                    reveal_with_fuel(ancestor, 2);
                }
                assert(ancestor(z as int, 1) == z as int / 2) by {
                    reveal_with_fuel(ancestor, 2);
                }
                lemma_write_keeps_node_ok(before, self@, 0, x as int, y as int, z as int, value, l, cx, cy, cz);
            }
        }
        let mut lod: u8 = 0;
        let mut side: u32 = self.size;
        let mut offset: usize = 0;
        let mut px: u32 = x;
        let mut py: u32 = y;
        let mut pz: u32 = z;
        while lod < depth
            invariant
                lod <= depth <= MAX_DEPTH,
                self.depth == depth,
                self.size == before.side(0),
                self.parent_value == before.policy,
                before.depth == depth,
                self.data.len() == node_count(depth as nat),
                side == edge_len((depth - lod) as nat),
                offset == lod_offset(depth as nat, lod as nat),
                px == ancestor(x as int, lod as nat),
                py == ancestor(y as int, lod as nat),
                pz == ancestor(z as int, lod as nat),
                in_grid(side as int, px as int, py as int, pz as int),
                leaf < cell_count(depth as nat) <= node_count(depth as nat),
                leaf == node_index(depth as nat, 0, x as int, y as int, z as int),
                self@.voxels() == before.voxels().update(leaf as int, value),
                forall|l: nat, cx: int, cy: int, cz: int|
                    1 <= l <= lod && in_grid(self@.side(l), cx, cy, cz) ==> #[trigger] self@.node_ok(
                        l,
                        cx,
                        cy,
                        cz,
                    ),
                forall|l: nat, cx: int, cy: int, cz: int|
                    lod < l <= depth && in_grid(self@.side(l), cx, cy, cz) && !(cx == ancestor(x as int, l)
                        && cy == ancestor(y as int, l) && cz == ancestor(z as int, l))
                        ==> #[trigger] self@.node_ok(l, cx, cy, cz),
            decreases depth - lod,
        {
            let ghost mid = self@;
            let up: u8 = lod + 1;
            proof {
                lemma_edge_len((depth - lod) as nat);
                lemma_edge_len((depth - up) as nat);
                lemma_lod_offset_bounds(depth as nat, lod as nat);
                lemma_lod_offset_bounds(depth as nat, up as nat);
                lemma_lod_offset_monotone(depth as nat, 1, up as nat);
                lemma_lod_offset_first(depth as nat);
                assert(ancestor(x as int, up as nat) == px / 2);
                assert(ancestor(y as int, up as nat) == py / 2);
                assert(ancestor(z as int, up as nat) == pz / 2);
                assert(side * side <= 1_048_576 && side * side * side <= 1_073_741_824) by (nonlinear_arith)
                    requires
                        1 <= side <= 1024,
                ;
            }
            let qx: u32 = px / 2;
            let qy: u32 = py / 2;
            let qz: u32 = pz / 2;
            let up_side: u32 = side / 2;
            let up_offset: usize = offset + (side * side * side) as usize;
            proof {
                lemma_node_index(depth as nat, up as nat, qx as int, qy as int, qz as int);
            }
            let summary: u8 = self.summarise(up, offset, side, qx, qy, qz);
            let index: usize = up_offset + coord_to_index(qx, qy, qz, 0, up_side);
            self.data[index] = summary;
            proof {
                let after = self@;
                assert(after.voxels() =~= mid.voxels());
                assert forall|l: nat, cx: int, cy: int, cz: int|
                    1 <= l <= depth && in_grid(after.side(l), cx, cy, cz) && !(l == up && cx == qx && cy
                        == qy && cz == qz) && mid.node_ok(l, cx, cy, cz) && !(l == up + 1 && cx == qx as int
                        / 2 && cy == qy as int / 2 && cz == qz as int / 2) implies #[trigger] after.node_ok(
                    l,
                    cx,
                    cy,
                    cz,
                ) by {
                    lemma_write_keeps_node_ok(
                        mid,
                        after,
                        up as nat,
                        qx as int,
                        qy as int,
                        qz as int,
                        summary,
                        l,
                        cx,
                        cy,
                        cz,
                    );
                }
                assert(after.children(up as nat, qx as int, qy as int, qz as int) =~= mid.children(
                    up as nat,
                    qx as int,
                    qy as int,
                    qz as int,
                )) by {
                    assert forall|c: int| 0 <= c < 8 implies after.child(
                        up as nat,
                        qx as int,
                        qy as int,
                        qz as int,
                        c,
                    ) == mid.child(up as nat, qx as int, qy as int, qz as int, c) by {
                        lemma_child_in_grid(depth as nat, up as nat, qx as int, qy as int, qz as int, c);
                        lemma_node_index(
                            depth as nat,
                            lod as nat,
                            2 * qx + c / 4,
                            2 * qy + (c / 2) % 2,
                            2 * qz + c % 2,
                        );
                    }
                }
                assert(after.node_ok(up as nat, qx as int, qy as int, qz as int));
            }
            lod = up;
            side = up_side;
            offset = up_offset;
            px = qx;
            py = qy;
            pz = qz;
        }
        proof {
            assert(self@.voxels()[leaf as int] == value);
        }
    }

    /// The summary, under this octree's policy, of the eight children of
    /// node `(x, y, z)` of level `lod`, read from the level below, which
    /// starts at `child_offset` and has edge `child_side`.
    fn summarise(&self, lod: u8, child_offset: usize, child_side: u32, x: u32, y: u32, z: u32) -> (summary: u8)
        requires
            1 <= lod <= self.depth <= MAX_DEPTH,
            self.data.len() == node_count(self.depth as nat),
            child_offset == lod_offset(self.depth as nat, (lod - 1) as nat),
            child_side == edge_len((self.depth - (lod - 1)) as nat),
            in_grid(self@.side(lod as nat), x as int, y as int, z as int),
        ensures
            summary == aggregate(self.parent_value, self@.children(lod as nat, x as int, y as int, z as int)),
    {
        let ghost kids = self@.children(lod as nat, x as int, y as int, z as int);
        let mut top: u8 = 0;
        let mut c: u32 = 0;
        proof {
            lemma_edge_len((self.depth - lod) as nat);
            lemma_edge_len((self.depth - (lod - 1)) as nat);
            assert(kids.take(0) =~= Seq::<u8>::empty());
        }
        while c < 8
            invariant
                c <= 8,
                1 <= lod <= self.depth <= MAX_DEPTH,
                self.data.len() == node_count(self.depth as nat),
                child_offset == lod_offset(self.depth as nat, (lod - 1) as nat),
                child_side == edge_len((self.depth - (lod - 1)) as nat),
                child_side <= 1024,
                child_side == 2 * self@.side(lod as nat),
                in_grid(self@.side(lod as nat), x as int, y as int, z as int),
                kids == self@.children(lod as nat, x as int, y as int, z as int),
                top == highest(kids.take(c as int)),
            decreases 8 - c,
        {
            let cx: u32 = 2 * x + c / 4;
            let cy: u32 = 2 * y + (c / 2) % 2;
            let cz: u32 = 2 * z + c % 2;
            proof {
                lemma_child_in_grid(self.depth as nat, lod as nat, x as int, y as int, z as int, c as int);
                lemma_node_index(self.depth as nat, (lod - 1) as nat, cx as int, cy as int, cz as int);
            }
            let value: u8 = self.data[child_offset + coord_to_index(cx, cy, cz, 0, child_side)];
            proof {
                assert(value == kids[c as int]);
                assert(kids.take(c + 1).drop_last() =~= kids.take(c as int));
                assert(kids.take(c + 1).last() == value);
            }
            if value > top {
                top = value;
            }
            c = c + 1;
        }
        proof {
            assert(kids.take(8) =~= kids);
        }
        match self.parent_value {
            ParentValueType::Lod => top,
            ParentValueType::Occupancy => if top > 0 {
                1
            } else {
                0
            },
        }
    }
}

/// The voxel `(vx, vy, vz)` lies below the node `(x, y, z)` of level `lod`.
pub open spec fn lies_below(vx: int, vy: int, vz: int, lod: nat, x: int, y: int, z: int) -> bool {
    ancestor(vx, lod) == x && ancestor(vy, lod) == y && ancestor(vz, lod) == z
}

/// Under the `Lod` policy a node holds the highest material id of the
/// voxels below it: none of them is higher, and one of them is as high. So
/// a coarse cell is air exactly if every voxel below it is air.
pub proof fn lemma_lod_is_highest(octree: OctreeView, lod: nat, x: int, y: int, z: int)
    requires
        octree.wf(),
        octree.policy == ParentValueType::Lod,
        lod <= octree.depth,
        in_grid(octree.side(lod), x, y, z),
    ensures
        forall|vx: int, vy: int, vz: int|
            in_grid(octree.size as int, vx, vy, vz) && lies_below(vx, vy, vz, lod, x, y, z) ==> #[trigger] octree.voxel(
                vx,
                vy,
                vz,
            ) <= octree.node(lod, x, y, z),
        exists|vx: int, vy: int, vz: int|
            in_grid(octree.size as int, vx, vy, vz) && lies_below(vx, vy, vz, lod, x, y, z) && #[trigger] octree.voxel(
                vx,
                vy,
                vz,
            ) == octree.node(lod, x, y, z),
    decreases lod,
{
    if lod == 0 {
        assert(lies_below(x, y, z, 0, x, y, z));
        assert(octree.voxel(x, y, z) == octree.node(0, x, y, z));
    } else {
        let down = (lod - 1) as nat;
        let kids = octree.children(lod, x, y, z);
        assert(octree.node_ok(lod, x, y, z));
        lemma_highest(kids);
        lemma_edge_len((octree.depth - lod) as nat);
        lemma_edge_len((octree.depth - down) as nat);
        assert forall|vx: int, vy: int, vz: int|
            in_grid(octree.size as int, vx, vy, vz) && lies_below(
                vx,
                vy,
                vz,
                lod,
                x,
                y,
                z,
            ) implies #[trigger] octree.voxel(vx, vy, vz) <= octree.node(lod, x, y, z) by {
            let cx = ancestor(vx, down);
            let cy = ancestor(vy, down);
            let cz = ancestor(vz, down);
            let c = 4 * (cx - 2 * x) + 2 * (cy - 2 * y) + (cz - 2 * z);
            assert(cx / 2 == x && cy / 2 == y && cz / 2 == z);
            assert(0 <= c < 8);
            assert(2 * x + c / 4 == cx && 2 * y + (c / 2) % 2 == cy && 2 * z + c % 2 == cz);
            lemma_child_in_grid(octree.depth, lod, x, y, z, c);
            lemma_lod_is_highest(octree, down, cx, cy, cz);
            assert(lies_below(vx, vy, vz, down, cx, cy, cz));
            assert(kids[c] == octree.node(down, cx, cy, cz));
        }
        let c = choose|c: int| 0 <= c < kids.len() && #[trigger] kids[c] == highest(kids);
        let cx = 2 * x + c / 4;
        let cy = 2 * y + (c / 2) % 2;
        let cz = 2 * z + c % 2;
        lemma_child_in_grid(octree.depth, lod, x, y, z, c);
        lemma_lod_is_highest(octree, down, cx, cy, cz);
        let (vx, vy, vz) = choose|vx: int, vy: int, vz: int|
            in_grid(octree.size as int, vx, vy, vz) && lies_below(vx, vy, vz, down, cx, cy, cz) && #[trigger] octree.voxel(
                vx,
                vy,
                vz,
            ) == octree.node(down, cx, cy, cz);
        assert(lies_below(vx, vy, vz, lod, x, y, z));
        assert(octree.voxel(vx, vy, vz) == octree.node(lod, x, y, z));
    }
}

/// Under the `Occupancy` policy a node above the voxels holds 1 if some
/// voxel below it holds a material, and 0 if all of them are air.
pub proof fn lemma_occupancy_is_presence(octree: OctreeView, lod: nat, x: int, y: int, z: int)
    requires
        octree.wf(),
        octree.policy == ParentValueType::Occupancy,
        1 <= lod <= octree.depth,
        in_grid(octree.side(lod), x, y, z),
    ensures
        octree.node(lod, x, y, z) == 0 || octree.node(lod, x, y, z) == 1,
        octree.node(lod, x, y, z) == 1 <==> exists|vx: int, vy: int, vz: int|
            in_grid(octree.size as int, vx, vy, vz) && lies_below(vx, vy, vz, lod, x, y, z) && #[trigger] octree.voxel(
                vx,
                vy,
                vz,
            ) != 0,
    decreases lod,
{
    let down = (lod - 1) as nat;
    let kids = octree.children(lod, x, y, z);
    assert(octree.node_ok(lod, x, y, z));
    lemma_highest(kids);
    lemma_edge_len((octree.depth - lod) as nat);
    lemma_edge_len((octree.depth - down) as nat);
    if octree.node(lod, x, y, z) == 1 {
        let c = choose|c: int| 0 <= c < kids.len() && #[trigger] kids[c] == highest(kids);
        let cx = 2 * x + c / 4;
        let cy = 2 * y + (c / 2) % 2;
        let cz = 2 * z + c % 2;
        lemma_child_in_grid(octree.depth, lod, x, y, z, c);
        assert(octree.node(down, cx, cy, cz) != 0);
        if down == 0 {
            assert(ancestor(cx, 0) == cx && ancestor(cy, 0) == cy && ancestor(cz, 0) == cz);
            assert(ancestor(cx, 1) == cx / 2 && ancestor(cy, 1) == cy / 2 && ancestor(cz, 1) == cz / 2);
            assert(lies_below(cx, cy, cz, lod, x, y, z));
            assert(octree.voxel(cx, cy, cz) != 0);
        } else {
            lemma_occupancy_is_presence(octree, down, cx, cy, cz);
            let (vx, vy, vz) = choose|vx: int, vy: int, vz: int|
                in_grid(octree.size as int, vx, vy, vz) && lies_below(vx, vy, vz, down, cx, cy, cz) && #[trigger] octree.voxel(
                    vx,
                    vy,
                    vz,
                ) != 0;
            assert(lies_below(vx, vy, vz, lod, x, y, z));
            assert(octree.voxel(vx, vy, vz) != 0);
        }
    }
    assert forall|vx: int, vy: int, vz: int|
        in_grid(octree.size as int, vx, vy, vz) && lies_below(vx, vy, vz, lod, x, y, z) && #[trigger] octree.voxel(
            vx,
            vy,
            vz,
        ) != 0 implies octree.node(lod, x, y, z) == 1 by {
        let cx = ancestor(vx, down);
        let cy = ancestor(vy, down);
        let cz = ancestor(vz, down);
        let c = 4 * (cx - 2 * x) + 2 * (cy - 2 * y) + (cz - 2 * z);
        assert(cx / 2 == x && cy / 2 == y && cz / 2 == z);
        assert(0 <= c < 8);
        assert(2 * x + c / 4 == cx && 2 * y + (c / 2) % 2 == cy && 2 * z + c % 2 == cz);
        lemma_child_in_grid(octree.depth, lod, x, y, z, c);
        assert(kids[c] == octree.node(down, cx, cy, cz));
        if down == 0 {
            assert(octree.node(down, cx, cy, cz) == octree.voxel(vx, vy, vz));
        } else {
            lemma_occupancy_is_presence(octree, down, cx, cy, cz);
            assert(lies_below(vx, vy, vz, down, cx, cy, cz));
            assert(octree.node(down, cx, cy, cz) == 1);
        }
        assert(kids[c] != 0);
    }
}

/// Two well-formed octrees of one depth and policy with the same voxels
/// hold the same node at every place of every level.
proof fn lemma_levels_determined(a: OctreeView, b: OctreeView, lod: nat, x: int, y: int, z: int)
    requires
        a.wf(),
        b.wf(),
        a.depth == b.depth,
        a.policy == b.policy,
        a.voxels() == b.voxels(),
        lod <= a.depth,
        in_grid(a.side(lod), x, y, z),
    ensures
        a.node(lod, x, y, z) == b.node(lod, x, y, z),
    decreases lod,
{
    if lod == 0 {
        lemma_voxel_of_voxels(a, x, y, z);
        lemma_voxel_of_voxels(b, x, y, z);
    } else {
        assert(a.node_ok(lod, x, y, z));
        assert(b.node_ok(lod, x, y, z));
        assert forall|c: int| 0 <= c < 8 implies a.child(lod, x, y, z, c) == b.child(lod, x, y, z, c) by {
            lemma_child_in_grid(a.depth, lod, x, y, z, c);
            lemma_levels_determined(a, b, (lod - 1) as nat, 2 * x + c / 4, 2 * y + (c / 2) % 2, 2 * z + c % 2);
        }
        assert(a.children(lod, x, y, z) =~= b.children(lod, x, y, z));
    }
}

/// Every place in the node array is the place of a node of some level.
proof fn lemma_index_is_node(depth: nat, i: int, lod: nat)
    requires
        depth <= MAX_DEPTH,
        lod <= depth,
        lod_offset(depth, lod) <= i < node_count(depth),
    ensures
        exists|l: nat, x: int, y: int, z: int|
            l <= depth && in_grid(edge_len((depth - l) as nat) as int, x, y, z) && i == #[trigger] node_index(
                depth,
                l,
                x,
                y,
                z,
            ),
    decreases depth - lod,
{
    lemma_lod_offset_bounds(depth, lod);
    if i < lod_offset(depth, lod + 1) {
        let e = edge_len((depth - lod) as nat) as int;
        let j = i - lod_offset(depth, lod);
        lemma_edge_len((depth - lod) as nat);
        lemma_grid_coords(e, j);
        assert(i == node_index(depth, lod, grid_x(e, j), grid_y(e, j), grid_z(e, j)));
    } else {
        if lod == depth {
            lemma_lod_offset_bounds(depth, depth);
            assert(false);
        }
        lemma_index_is_node(depth, i, lod + 1);
    }
}

/// The nodes above the voxels are a function of the voxels: two
/// well-formed octrees of one depth and policy that hold the same voxels
/// are the same octree. So an octree built in bulk equals the one built
/// by single writes of the same entries under the same policy.
pub proof fn lemma_nodes_determined(a: OctreeView, b: OctreeView)
    requires
        a.wf(),
        b.wf(),
        a.depth == b.depth,
        a.policy == b.policy,
        a.voxels() == b.voxels(),
    ensures
        a == b,
{
    assert forall|i: int| 0 <= i < a.nodes.len() implies a.nodes[i] == b.nodes[i] by {
        lemma_lod_offset_first(a.depth);
        lemma_index_is_node(a.depth, i, 0);
        let (l, x, y, z) = choose|l: nat, x: int, y: int, z: int|
            l <= a.depth && in_grid(edge_len((a.depth - l) as nat) as int, x, y, z) && i == #[trigger] node_index(
                a.depth,
                l,
                x,
                y,
                z,
            );
        lemma_levels_determined(a, b, l, x, y, z);
    }
    assert(a.nodes =~= b.nodes);
}

/// An entry `[x, y, z, value]` names a voxel of an octree of the given depth
/// and holds a material id.
pub open spec fn valid_entry(depth: nat, entry: [u32; 4]) -> bool {
    &&& in_grid(edge_len(depth) as int, entry[0] as int, entry[1] as int, entry[2] as int)
    &&& entry[3] <= 255
}

/// The voxel grid that results from writing the entries, in order, onto a
/// grid that holds `default_value` everywhere.
pub open spec fn flat_fill(default_value: u8, depth: nat, entries: Seq<[u32; 4]>) -> Seq<u8>
    decreases entries.len(),
{
    if entries.len() == 0 {
        Seq::new(cell_count(depth), |i: int| default_value)
    } else {
        let entry = entries.last();
        flat_fill(default_value, depth, entries.drop_last()).update(
            grid_index(edge_len(depth) as int, entry[0] as int, entry[1] as int, entry[2] as int),
            entry[3] as u8,
        )
    }
}

/// A listing that names the cells of the grid in row-major order, from the
/// first cell on, gives each listed voxel its listed value and leaves the
/// rest at the default.
pub proof fn lemma_listing_fills_grid(default_value: u8, depth: nat, entries: Seq<[u32; 4]>)
    requires
        depth <= MAX_DEPTH,
        entries.len() <= cell_count(depth),
        forall|i: int|
            0 <= i < entries.len() ==> {
                &&& (#[trigger] entries[i])[0] == grid_x(edge_len(depth) as int, i)
                &&& entries[i][1] == grid_y(edge_len(depth) as int, i)
                &&& entries[i][2] == grid_z(edge_len(depth) as int, i)
            },
    ensures
        flat_fill(default_value, depth, entries).len() == cell_count(depth),
        forall|i: int|
            0 <= i < entries.len() ==> #[trigger] flat_fill(default_value, depth, entries)[i]
                == entries[i][3] as u8,
        forall|i: int|
            entries.len() <= i < cell_count(depth) ==> #[trigger] flat_fill(default_value, depth, entries)[i]
                == default_value,
    decreases entries.len(),
{
    if entries.len() > 0 {
        let n = entries.len() - 1;
        let rest = entries.drop_last();
        lemma_listing_fills_grid(default_value, depth, rest);
        lemma_edge_len(depth);
        lemma_grid_coords(edge_len(depth) as int, n);
    }
}

/// The voxel `(x, y, z)` stands at its row-major index in the voxel grid.
pub proof fn lemma_voxel_of_voxels(octree: OctreeView, x: int, y: int, z: int)
    requires
        octree.wf(),
        in_grid(octree.size as int, x, y, z),
    ensures
        0 <= grid_index(octree.size as int, x, y, z) < cell_count(octree.depth),
        octree.voxels().len() == cell_count(octree.depth),
        octree.voxel(x, y, z) == octree.voxels()[grid_index(octree.size as int, x, y, z)],
{
    lemma_grid_index(octree.size as int, x, y, z);
    lemma_lod_offset_bounds(octree.depth, 0);
}

/// The coordinate, at level of detail `lod`, of the node above the voxel
/// coordinate `c`.
pub open spec fn ancestor(c: int, lod: nat) -> int
    decreases lod,
{
    if lod == 0 {
        c
    } else {
        ancestor(c, (lod - 1) as nat) / 2
    }
}

/// A write to one node leaves every parent in line with its children,
/// except the node written and the parent above it.
pub proof fn lemma_write_keeps_node_ok(
    a: OctreeView,
    b: OctreeView,
    wl: nat,
    wx: int,
    wy: int,
    wz: int,
    v: u8,
    l: nat,
    x: int,
    y: int,
    z: int,
)
    requires
        a.depth == b.depth,
        a.depth <= MAX_DEPTH,
        a.policy == b.policy,
        a.nodes.len() == node_count(a.depth),
        wl <= a.depth,
        in_grid(a.side(wl), wx, wy, wz),
        b.nodes == a.nodes.update(node_index(a.depth, wl, wx, wy, wz), v),
        1 <= l <= a.depth,
        in_grid(a.side(l), x, y, z),
        a.node_ok(l, x, y, z),
        !(l == wl && x == wx && y == wy && z == wz),
        !(l == wl + 1 && x == wx / 2 && y == wy / 2 && z == wz / 2),
    ensures
        b.node_ok(l, x, y, z),
{
    let w = node_index(a.depth, wl, wx, wy, wz);
    lemma_node_index(a.depth, wl, wx, wy, wz);
    lemma_node_index(a.depth, l, x, y, z);
    if node_index(a.depth, l, x, y, z) == w {
        lemma_node_index_injective(a.depth, l, x, y, z, wl, wx, wy, wz);
    }
    assert(b.node(l, x, y, z) == a.node(l, x, y, z));
    assert forall|c: int| 0 <= c < 8 implies b.child(l, x, y, z, c) == a.child(l, x, y, z, c) by {
        lemma_child_in_grid(a.depth, l, x, y, z, c);
        let cx = 2 * x + c / 4;
        let cy = 2 * y + (c / 2) % 2;
        let cz = 2 * z + c % 2;
        lemma_node_index(a.depth, (l - 1) as nat, cx, cy, cz);
        if node_index(a.depth, (l - 1) as nat, cx, cy, cz) == w {
            lemma_node_index_injective(a.depth, (l - 1) as nat, cx, cy, cz, wl, wx, wy, wz);
        }
    }
    assert(b.children(l, x, y, z) =~= a.children(l, x, y, z));
}

/// The first node of level `lod` in the node array, and the edge of that
/// level's grid.
pub fn level_start(depth: u8, lod: u8) -> (start: (usize, u32))
    requires
        lod <= depth <= MAX_DEPTH,
    ensures
        start.0 == lod_offset(depth as nat, lod as nat),
        start.1 == edge_len((depth - lod) as nat),
{
    let mut offset: usize = 0;
    let mut side: u32 = get_size(depth);
    let mut level: u8 = 0;
    while level < lod
        invariant
            level <= lod <= depth <= MAX_DEPTH,
            side == edge_len((depth - level) as nat),
            offset == lod_offset(depth as nat, level as nat),
        decreases lod - level,
    {
        proof {
            lemma_lod_offset_bounds(depth as nat, level as nat);
            lemma_edge_len((depth - level) as nat);
            assert(side * side <= 1_048_576 && side * side * side <= 1_073_741_824) by (nonlinear_arith)
                requires
                    1 <= side <= 1024,
            ;
        }
        offset = offset + (side * side * side) as usize;
        side = side / 2;
        level = level + 1;
    }
    (offset, side)
}

/// The number of nodes of an octree of the given depth.
fn node_total(depth: u8) -> (total: usize)
    requires
        depth <= MAX_DEPTH,
    ensures
        total == node_count(depth as nat),
{
    let mut total: usize = 0;
    let mut side: u32 = get_size(depth);
    let mut lod: u8 = 0;
    while lod < depth
        invariant
            lod <= depth <= MAX_DEPTH,
            side == edge_len((depth - lod) as nat),
            total == lod_offset(depth as nat, lod as nat),
        decreases depth - lod,
    {
        proof {
            lemma_lod_offset_bounds(depth as nat, lod as nat);
            lemma_edge_len((depth - lod) as nat);
            assert(side * side <= 1_048_576 && side * side * side <= 1_073_741_824) by (nonlinear_arith)
                requires
                    1 <= side <= 1024,
            ;
        }
        total = total + (side * side * side) as usize;
        side = side / 2;
        lod = lod + 1;
    }
    proof {
        lemma_lod_offset_bounds(depth as nat, depth as nat);
        lemma_edge_len(0);
        assert(cell_count(0) == 1) by (nonlinear_arith)
            requires
                edge_len(0) == 1,
        ;
    }
    total + 1
}

/// The children of a node of the grid at level `lod` are nodes of the grid
/// one level finer.
pub proof fn lemma_child_in_grid(depth: nat, lod: nat, x: int, y: int, z: int, c: int)
    requires
        1 <= lod <= depth <= MAX_DEPTH,
        in_grid(edge_len((depth - lod) as nat) as int, x, y, z),
        0 <= c < 8,
    ensures
        in_grid(
            edge_len((depth - (lod - 1)) as nat) as int,
            2 * x + c / 4,
            2 * y + (c / 2) % 2,
            2 * z + c % 2,
        ),
        0 <= c / 4 <= 1,
        0 <= (c / 2) % 2 <= 1,
        0 <= c % 2 <= 1,
{
    lemma_edge_len((depth - (lod - 1)) as nat);
}

/// A sequence that holds one value throughout has that value as its highest.
pub proof fn lemma_highest_constant(s: Seq<u8>, v: u8)
    requires
        s.len() > 0,
        forall|i: int| 0 <= i < s.len() ==> s[i] == v,
    ensures
        highest(s) == v,
    decreases s.len(),
{
    if s.len() > 1 {
        lemma_highest_constant(s.drop_last(), v);
    } else {
        assert(s.drop_last().len() == 0);
        assert(highest(s.drop_last()) == 0);
    }
}

} // verus!
