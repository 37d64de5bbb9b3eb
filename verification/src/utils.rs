//! Integer arithmetic shared by the voxel modules: floor division, the
//! row-major index of a cell in a cubic grid, and the bounds inside which
//! world coordinates are usable.

use vstd::prelude::*;
use vstd::arithmetic::div_mod::lemma_fundamental_div_mod;
use vstd::arithmetic::div_mod::lemma_fundamental_div_mod_converse;
use vstd::arithmetic::div_mod::lemma_mod_bound;
use vstd::arithmetic::power2::pow2;
use vstd::arithmetic::power2::lemma2_to64;
use vstd::arithmetic::power2::lemma_pow2_unfold;

verus! {

/// Largest absolute value that a component of a world-voxel coordinate or of
/// a chunk key may take. Inside this range every product of a key with a
/// chunk stride, plus a chunk edge, fits a signed 64-bit integer.
pub const WORLD_LIMIT: i64 = 1_099_511_627_776;

/// Deepest octree that can be allocated: its node count still fits 32 bits.
pub const MAX_DEPTH: u8 = 10;

/// All three components of `p` lie within the usable world range.
pub open spec fn in_world(p: [i64; 3]) -> bool {
    &&& -WORLD_LIMIT <= p[0] <= WORLD_LIMIT
    &&& -WORLD_LIMIT <= p[1] <= WORLD_LIMIT
    &&& -WORLD_LIMIT <= p[2] <= WORLD_LIMIT
}

/// The quotient of `a` by a positive `d`, rounded towards minus infinity.
pub open spec fn floor_div(a: int, d: int) -> int
    recommends
        d > 0,
{
    a / d
}

/// The remainder that goes with [`floor_div`]: always in `0..d`.
pub open spec fn floor_mod(a: int, d: int) -> int
    recommends
        d > 0,
{
    a % d
}

/// `q` is the floor quotient of `a` by `d` exactly when `a` lies in the
/// `d`-wide block that starts at `q * d`.
pub proof fn lemma_floor_div_block(a: int, d: int, q: int)
    requires
        d > 0,
    ensures
        (q * d <= a < q * d + d) <==> floor_div(a, d) == q,
        floor_mod(a, d) == a - floor_div(a, d) * d,
        0 <= floor_mod(a, d) < d,
{
    lemma_fundamental_div_mod(a, d);
    lemma_mod_bound(a, d);
    assert(d * (a / d) == (a / d) * d) by (nonlinear_arith);
    if q * d <= a < q * d + d {
        lemma_fundamental_div_mod_converse(a, d, q, a - q * d);
    }
}

/// Floor division of a signed value by a positive divisor.
pub fn floor_div_i64(a: i64, d: i64) -> (q: i64)
    requires
        d > 0,
    ensures
        q == floor_div(a as int, d as int),
        q * d <= a < q * d + d,
        a >= 0 ==> 0 <= q <= a,
        a < 0 ==> a <= q < 0,
{
    if a >= 0 {
        let q: i64 = a / d;
        proof {
            lemma_fundamental_div_mod(a as int, d as int);
            lemma_mod_bound(a as int, d as int);
            assert(d * (a as int / d as int) == (a as int / d as int) * d) by (nonlinear_arith);
            assert(0 <= q <= a) by (nonlinear_arith)
                requires
                    q * d <= a,
                    a < q * d + d,
                    d > 0,
                    a >= 0,
            ;
        }
        q
    } else {
        let b: i64 = -(a + 1);
        let t: i64 = b / d;
        proof {
            lemma_fundamental_div_mod(b as int, d as int);
            lemma_mod_bound(b as int, d as int);
            let r = b as int % d as int;
            assert(d * (b as int / d as int) == t * d) by (nonlinear_arith)
                requires
                    t == b as int / d as int,
            ;
            assert(0 <= t <= b) by (nonlinear_arith)
                requires
                    t * d + r == b,
                    0 <= r < d,
                    d > 0,
                    b >= 0,
            ;
            assert((-t - 1) * d + (d - r - 1) == a) by (nonlinear_arith)
                requires
                    t * d + r == b,
                    b == -(a + 1),
            ;
            lemma_fundamental_div_mod_converse(a as int, d as int, -t - 1, d - r - 1);
        }
        -t - 1
    }
}

/// Row-major index of the cell `(x, y, z)` in a cubic grid of edge `d`.
pub open spec fn grid_index(d: int, x: int, y: int, z: int) -> int {
    (x * d + y) * d + z
}

/// `(x, y, z)` names a cell of a cubic grid of edge `d`.
pub open spec fn in_grid(d: int, x: int, y: int, z: int) -> bool {
    0 <= x < d && 0 <= y < d && 0 <= z < d
}

/// The x coordinate of the cell with row-major index `i`.
pub open spec fn grid_x(d: int, i: int) -> int {
    i / (d * d)
}

/// The y coordinate of the cell with row-major index `i`.
pub open spec fn grid_y(d: int, i: int) -> int {
    (i / d) % d
}

/// The z coordinate of the cell with row-major index `i`.
pub open spec fn grid_z(d: int, i: int) -> int {
    i % d
}

/// The index of a cell of the grid lies below the number of cells, and the
/// three coordinates can be read back from it.
pub proof fn lemma_grid_index(d: int, x: int, y: int, z: int)
    requires
        in_grid(d, x, y, z),
    ensures
        0 <= grid_index(d, x, y, z) < d * d * d,
        grid_x(d, grid_index(d, x, y, z)) == x,
        grid_y(d, grid_index(d, x, y, z)) == y,
        grid_z(d, grid_index(d, x, y, z)) == z,
{
    let i = grid_index(d, x, y, z);
    let row = x * d + y;
    assert(0 <= row < d * d) by (nonlinear_arith)
        requires
            row == x * d + y,
            0 <= x < d,
            0 <= y < d,
    ;
    assert(0 <= i < d * d * d) by (nonlinear_arith)
        requires
            i == row * d + z,
            0 <= row < d * d,
            0 <= z < d,
    ;
    lemma_fundamental_div_mod_converse(i, d, row, z);
    lemma_fundamental_div_mod_converse(row, d, x, y);
    assert(i == x * (d * d) + (y * d + z)) by (nonlinear_arith)
        requires
            i == (x * d + y) * d + z,
    ;
    assert(0 <= y * d + z < d * d) by (nonlinear_arith)
        requires
            0 <= y < d,
            0 <= z < d,
    ;
    lemma_fundamental_div_mod_converse(i, d * d, x, y * d + z);
}

/// Every index below the number of cells is the index of the cell whose
/// coordinates are read from it.
pub proof fn lemma_grid_coords(d: int, i: int)
    requires
        d > 0,
        0 <= i < d * d * d,
    ensures
        in_grid(d, grid_x(d, i), grid_y(d, i), grid_z(d, i)),
        grid_index(d, grid_x(d, i), grid_y(d, i), grid_z(d, i)) == i,
{
    let row = i / d;
    let z = i % d;
    lemma_fundamental_div_mod(i, d);
    lemma_mod_bound(i, d);
    assert(d * row == row * d) by (nonlinear_arith);
    assert(0 <= row < d * d) by (nonlinear_arith)
        requires
            i == row * d + z,
            0 <= z < d,
            0 <= i < d * d * d,
            d > 0,
    ;
    let x = row / d;
    let y = row % d;
    lemma_fundamental_div_mod(row, d);
    lemma_mod_bound(row, d);
    assert(d * x == x * d) by (nonlinear_arith);
    assert(0 <= x < d) by (nonlinear_arith)
        requires
            row == x * d + y,
            0 <= y < d,
            0 <= row < d * d,
            d > 0,
    ;
    assert(i == x * (d * d) + (y * d + z)) by (nonlinear_arith)
        requires
            i == (x * d + y) * d + z,
    ;
    assert(0 <= y * d + z < d * d) by (nonlinear_arith)
        requires
            0 <= y < d,
            0 <= z < d,
    ;
    lemma_fundamental_div_mod_converse(i, d * d, x, y * d + z);
}

/// Two cells of the grid share an index only if they are the same cell.
pub proof fn lemma_grid_index_injective(d: int, x1: int, y1: int, z1: int, x2: int, y2: int, z2: int)
    requires
        in_grid(d, x1, y1, z1),
        in_grid(d, x2, y2, z2),
        grid_index(d, x1, y1, z1) == grid_index(d, x2, y2, z2),
    ensures
        x1 == x2 && y1 == y2 && z1 == z2,
{
    lemma_grid_index(d, x1, y1, z1);
    lemma_grid_index(d, x2, y2, z2);
}

/// The edge of a grid of the given depth: two to the power `depth`.
pub open spec fn edge_len(depth: nat) -> nat {
    pow2(depth)
}

/// The number of cells of a grid of the given depth: the cube of its edge.
pub open spec fn cell_count(depth: nat) -> nat {
    edge_len(depth) * edge_len(depth) * edge_len(depth)
}

/// The edge of a grid doubles with each level and stays within 1024 up to
/// the deepest level.
pub proof fn lemma_edge_len(depth: nat)
    requires
        depth <= MAX_DEPTH,
    ensures
        1 <= edge_len(depth) <= 1024,
        depth > 0 ==> edge_len(depth) == 2 * edge_len((depth - 1) as nat),
        depth == 0 ==> edge_len(depth) == 1,
        cell_count(depth) <= 1_073_741_824,
{
    lemma2_to64();
    if depth > 0 {
        lemma_pow2_unfold(depth);
    }
    let e = edge_len(depth) as int;
    assert(e * e * e <= 1_073_741_824) by (nonlinear_arith)
        requires
            1 <= e <= 1024,
    ;
}

/// The edge length, in cells, of a grid of the given depth.
pub fn get_size(depth: u8) -> (size: u32)
    requires
        depth <= MAX_DEPTH,
    ensures
        size == edge_len(depth as nat),
        1 <= size <= 1024,
{
    let mut size: u32 = 1;
    let mut level: u8 = 0;
    proof {
        lemma_edge_len(0);
    }
    while level < depth
        invariant
            level <= depth <= MAX_DEPTH,
            size == edge_len(level as nat),
        decreases depth - level,
    {
        proof {
            lemma_edge_len(level as nat);
            lemma_edge_len((level + 1) as nat);
        }
        size = size * 2;
        level = level + 1;
    }
    proof {
        lemma_edge_len(depth as nat);
    }
    size
}

/// The number of cells in a grid of the given depth.
pub fn get_length(depth: u8) -> (len: usize)
    requires
        depth <= MAX_DEPTH,
    ensures
        len == cell_count(depth as nat),
{
    let size: u32 = get_size(depth);
    proof {
        lemma_edge_len(depth as nat);
        assert(size * size <= 1_048_576) by (nonlinear_arith)
            requires
                1 <= size <= 1024,
        ;
    }
    let area: u32 = size * size;
    let volume: u32 = area * size;
    volume as usize
}

/// The row-major index of the cell `(x, y, z)` in the cubic grid that spans
/// `start..end` on each axis.
pub fn coord_to_index(x: u32, y: u32, z: u32, start: u32, end: u32) -> (index: usize)
    requires
        start <= x < end,
        start <= y < end,
        start <= z < end,
        end - start <= 1024,
    ensures
        index == grid_index(end - start, x - start, y - start, z - start),
        index < (end - start) * (end - start) * (end - start),
{
    let d: u32 = end - start;
    let lx: u32 = x - start;
    let ly: u32 = y - start;
    let lz: u32 = z - start;
    proof {
        lemma_grid_index(d as int, lx as int, ly as int, lz as int);
        assert(lx * d + ly < d * d <= 1_048_576) by (nonlinear_arith)
            requires
                0 <= lx < d,
                0 <= ly < d,
                d <= 1024,
        ;
        assert(d * d * d <= 1_073_741_824) by (nonlinear_arith)
            requires
                0 <= d <= 1024,
        ;
    }
    let row: u32 = lx * d + ly;
    let index: u32 = row * d + lz;
    index as usize
}

/// The world-voxel coordinate at which the chunk at `key` starts.
pub fn key_to_world_coord(key: &[i64; 3], seamless_size: u32) -> (coord: [i64; 3])
    requires
        in_world(*key),
        seamless_size <= 1024,
    ensures
        coord[0] == key[0] * seamless_size,
        coord[1] == key[1] * seamless_size,
        coord[2] == key[2] * seamless_size,
{
    let s: i64 = seamless_size as i64;
    proof {
        lemma_scaled_in_range(key[0] as int, s as int);
        lemma_scaled_in_range(key[1] as int, s as int);
        lemma_scaled_in_range(key[2] as int, s as int);
    }
    [key[0] * s, key[1] * s, key[2] * s]
}

/// A coordinate inside the world range, scaled by a chunk stride, stays far
/// inside the 64-bit range.
pub proof fn lemma_scaled_in_range(k: int, s: int)
    requires
        -WORLD_LIMIT <= k <= WORLD_LIMIT,
        0 <= s <= 1024,
    ensures
        -1_125_899_906_842_624 <= k * s <= 1_125_899_906_842_624,
{
    assert(-1_125_899_906_842_624 <= k * s <= 1_125_899_906_842_624) by (nonlinear_arith)
        requires
            -1_099_511_627_776 <= k <= 1_099_511_627_776,
            0 <= s <= 1024,
    ;
}

} // verus!
