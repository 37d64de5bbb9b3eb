//! Chunk keys: which chunk owns a world voxel, and which chunks surround
//! a given one.
//!
//! Chunks are laid out with a stride that is smaller than their edge, so
//! that neighbours overlap by the seam. A world voxel is owned by the chunk
//! whose key is its coordinate floor-divided by the stride.

pub mod chunk_manager;

use vstd::prelude::*;
use crate::utils::WORLD_LIMIT;
use crate::utils::floor_div;
use crate::utils::floor_div_i64;
use crate::utils::floor_mod;
use crate::utils::grid_index;
use crate::utils::grid_x;
use crate::utils::grid_y;
use crate::utils::grid_z;
use crate::utils::in_world;
use crate::utils::lemma_floor_div_block;
use crate::utils::lemma_grid_coords;
use crate::utils::lemma_grid_index;
use crate::utils::lemma_grid_index_injective;

verus! {

/// The key of the chunk that owns the world voxel `pos`.
pub open spec fn pos_key(pos: [i64; 3], stride: int) -> [i64; 3] {
    [
        floor_div(pos[0] as int, stride) as i64,
        floor_div(pos[1] as int, stride) as i64,
        floor_div(pos[2] as int, stride) as i64,
    ]
}

/// Where the world voxel `pos` lies inside the chunk that owns it.
pub open spec fn pos_local(pos: [i64; 3], stride: int) -> [u32; 3] {
    [
        floor_mod(pos[0] as int, stride) as u32,
        floor_mod(pos[1] as int, stride) as u32,
        floor_mod(pos[2] as int, stride) as u32,
    ]
}

/// The key of the chunk that owns the world voxel `pos`, for chunks laid
/// out with stride `seamless_size`.
pub fn voxel_pos_to_key(pos: &[i64; 3], seamless_size: u32) -> (key: [i64; 3])
    requires
        seamless_size > 0,
    ensures
        key == pos_key(*pos, seamless_size as int),
        key[0] == floor_div(pos[0] as int, seamless_size as int),
        key[1] == floor_div(pos[1] as int, seamless_size as int),
        key[2] == floor_div(pos[2] as int, seamless_size as int),
        in_world(*pos) ==> in_world(key),
{
    let stride: i64 = seamless_size as i64;
    let key: [i64; 3] = [
        floor_div_i64(pos[0], stride),
        floor_div_i64(pos[1], stride),
        floor_div_i64(pos[2], stride),
    ];
    assert(key =~= pos_key(*pos, seamless_size as int));
    key
}

/// Where the world voxel `pos` lies inside the chunk that owns it: its
/// offset from the chunk's first voxel, always below the stride.
pub fn get_chunk_coords(pos: &[i64; 3], seamless_size: u32) -> (local: [u32; 3])
    requires
        seamless_size > 0,
    ensures
        local == pos_local(*pos, seamless_size as int),
        local[0] == pos[0] - pos_key(*pos, seamless_size as int)[0] * seamless_size,
        local[1] == pos[1] - pos_key(*pos, seamless_size as int)[1] * seamless_size,
        local[2] == pos[2] - pos_key(*pos, seamless_size as int)[2] * seamless_size,
        local[0] < seamless_size,
        local[1] < seamless_size,
        local[2] < seamless_size,
{
    let x: u32 = local_coord(pos[0], seamless_size);
    let y: u32 = local_coord(pos[1], seamless_size);
    let z: u32 = local_coord(pos[2], seamless_size);
    let local: [u32; 3] = [x, y, z];
    assert(local =~= pos_local(*pos, seamless_size as int));
    local
}

/// The offset of the coordinate `p` from the start of the stride-wide
/// block that holds it.
fn local_coord(p: i64, seamless_size: u32) -> (r: u32)
    requires
        seamless_size > 0,
    ensures
        r == floor_mod(p as int, seamless_size as int),
        r == p - floor_div(p as int, seamless_size as int) * seamless_size,
        r < seamless_size,
        i64::MIN <= floor_div(p as int, seamless_size as int) <= i64::MAX,
{
    let stride: i64 = seamless_size as i64;
    let q: i64 = floor_div_i64(p, stride);
    proof {
        lemma_floor_div_block(p as int, stride as int, q as int);
    }
    let start: i128 = (q as i128) * (stride as i128);
    let r: i128 = (p as i128) - start;
    r as u32
}

/// Key resolution is a function of the stride-aligned block alone: a
/// position resolves to the key `block` exactly when, on each axis, it lies
/// in the stride-wide block that starts at `block * stride`. Two positions
/// in one block therefore resolve to one key.
pub proof fn lemma_key_of_block(p: [i64; 3], block: [i64; 3], stride: int)
    requires
        stride > 0,
    ensures
        pos_key(p, stride) == block <==> {
            &&& block[0] * stride <= p[0] < block[0] * stride + stride
            &&& block[1] * stride <= p[1] < block[1] * stride + stride
            &&& block[2] * stride <= p[2] < block[2] * stride + stride
        },
{
    lemma_floor_div_block(p[0] as int, stride, block[0] as int);
    lemma_floor_div_block(p[1] as int, stride, block[1] as int);
    lemma_floor_div_block(p[2] as int, stride, block[2] as int);
    lemma_floor_div_fits(p[0] as int, stride);
    lemma_floor_div_fits(p[1] as int, stride);
    lemma_floor_div_fits(p[2] as int, stride);
    let key = pos_key(p, stride);
    if key == block {
        assert(key[0] == block[0] && key[1] == block[1] && key[2] == block[2]);
    }
    if key[0] == block[0] && key[1] == block[1] && key[2] == block[2] {
        assert(key =~= block);
    }
}

/// The floor quotient of a 64-bit value by a positive divisor is a 64-bit
/// value.
pub proof fn lemma_floor_div_fits(a: int, d: int)
    requires
        d > 0,
        i64::MIN <= a <= i64::MAX,
    ensures
        i64::MIN <= floor_div(a, d) <= i64::MAX,
{
    let q = floor_div(a, d);
    lemma_floor_div_block(a, d, q);
    if q > i64::MAX {
        assert(q * d > i64::MAX) by (nonlinear_arith)
            requires
                q > 0x7fff_ffff_ffff_ffff,
                d >= 1,
        ;
    }
    if q < i64::MIN {
        assert(q * d + d <= i64::MIN) by (nonlinear_arith)
            requires
                q <= -0x8000_0000_0000_0000 - 1,
                d >= 1,
        ;
    }
}

/// The number of keys on each edge of the cube of keys within `radius` of
/// a centre.
pub open spec fn cube_edge(radius: int) -> int {
    if radius < 0 {
        0
    } else {
        2 * radius + 1
    }
}

/// The `i`-th key, in row-major order, of the cube of keys within `radius`
/// of `center`.
pub open spec fn cube_key(center: [i64; 3], radius: int, i: int) -> [i64; 3] {
    let d = cube_edge(radius);
    [
        (center[0] - radius + grid_x(d, i)) as i64,
        (center[1] - radius + grid_y(d, i)) as i64,
        (center[2] - radius + grid_z(d, i)) as i64,
    ]
}

/// All keys within `radius` of `center`, in row-major order.
pub open spec fn cube_keys(center: [i64; 3], radius: int) -> Seq<[i64; 3]> {
    let d = cube_edge(radius);
    Seq::new((d * d * d) as nat, |i: int| cube_key(center, radius, i))
}

/// The place of `center` itself among the keys of its cube.
pub open spec fn center_index(radius: int) -> int {
    grid_index(cube_edge(radius), radius, radius, radius)
}

/// The keys around `center`, in the order in which they are listed: the
/// whole cube, or the cube without its centre.
pub open spec fn adjacent_keys_seq(center: [i64; 3], radius: int, include_center: bool) -> Seq<[i64; 3]> {
    if include_center || radius < 0 {
        cube_keys(center, radius)
    } else {
        cube_keys(center, radius).remove(center_index(radius))
    }
}

/// The largest distance, over the three axes, between two keys.
pub open spec fn chebyshev(a: [i64; 3], b: [i64; 3]) -> int {
    let dx = if a[0] >= b[0] { a[0] - b[0] } else { b[0] - a[0] };
    let dy = if a[1] >= b[1] { a[1] - b[1] } else { b[1] - a[1] };
    let dz = if a[2] >= b[2] { a[2] - b[2] } else { b[2] - a[2] };
    if dx >= dy && dx >= dz {
        dx
    } else if dy >= dz {
        dy
    } else {
        dz
    }
}

/// The keys of all chunks within Chebyshev distance `radius` of `center`,
/// with or without `center` itself. A negative radius gives no key.
pub fn adjacent_keys(center: &[i64; 3], radius: i64, include_center: bool) -> (keys: Vec<[i64; 3]>)
    requires
        in_world(*center),
        radius <= WORLD_LIMIT,
    ensures
        keys@ == adjacent_keys_seq(*center, radius as int, include_center),
        forall|k: [i64; 3]|
            keys@.contains(k) <==> (chebyshev(k, *center) <= radius && (include_center || k != *center)),
        keys@.no_duplicates(),
{
    let mut keys: Vec<[i64; 3]> = Vec::new();
    let ghost all = cube_keys(*center, radius as int);
    let ghost d = cube_edge(radius as int);
    let ghost mid = center_index(radius as int);
    proof {
        lemma_adjacent_keys(*center, radius as int, include_center);
    }
    if radius < 0 {
        assert(keys@ =~= all);
        return keys;
    }
    proof {
        lemma_grid_index(d, radius as int, radius as int, radius as int);
        assert(d * d * d >= 0) by (nonlinear_arith)
            requires
                d >= 0,
        ;
    }
    let mut x: i64 = -radius;
    proof {
        assert((x + radius) * d * d == 0) by (nonlinear_arith)
            requires
                x + radius == 0,
        ;
        assert(keys@ =~= partial_keys(all, mid, include_center, 0));
    }
    while x <= radius
        invariant
            0 <= radius <= WORLD_LIMIT,
            in_world(*center),
            -radius <= x <= radius + 1,
            all == cube_keys(*center, radius as int),
            d == cube_edge(radius as int),
            mid == center_index(radius as int),
            0 <= mid < d * d * d,
            0 <= (x + radius) * d * d <= d * d * d,
            keys@ == partial_keys(all, mid, include_center, (x + radius) * d * d),
        decreases radius + 1 - x,
    {
        let mut y: i64 = -radius;
        proof {
            lemma_row_bounds(d, x + radius, 0);
        }
        while y <= radius
            invariant
                0 <= radius <= WORLD_LIMIT,
                in_world(*center),
                -radius <= x <= radius,
                -radius <= y <= radius + 1,
                all == cube_keys(*center, radius as int),
                d == cube_edge(radius as int),
                mid == center_index(radius as int),
                0 <= mid < d * d * d,
                0 <= ((x + radius) * d + (y + radius)) * d <= d * d * d,
                keys@ == partial_keys(all, mid, include_center, ((x + radius) * d + (y + radius)) * d),
            decreases radius + 1 - y,
        {
            let mut z: i64 = -radius;
            while z <= radius
                invariant
                    0 <= radius <= WORLD_LIMIT,
                    in_world(*center),
                    -radius <= x <= radius,
                    -radius <= y <= radius,
                    -radius <= z <= radius + 1,
                    all == cube_keys(*center, radius as int),
                    d == cube_edge(radius as int),
                    mid == center_index(radius as int),
                    0 <= mid < d * d * d,
                    0 <= ((x + radius) * d + (y + radius)) * d + (z + radius) <= d * d * d,
                    keys@ == partial_keys(
                        all,
                        mid,
                        include_center,
                        ((x + radius) * d + (y + radius)) * d + (z + radius),
                    ),
                decreases radius + 1 - z,
            {
                let ghost n = grid_index(d, x + radius, y + radius, z + radius);
                let key: [i64; 3] = [center[0] + x, center[1] + y, center[2] + z];
                proof {
                    lemma_grid_index(d, x + radius, y + radius, z + radius);
                    assert(key =~= all[n]);
                    if n == mid {
                        lemma_grid_index_injective(
                            d,
                            x + radius,
                            y + radius,
                            z + radius,
                            radius as int,
                            radius as int,
                            radius as int,
                        );
                    }
                    assert(all.take(n + 1) =~= all.take(n).push(all[n]));
                }
                if include_center || !(x == 0 && y == 0 && z == 0) {
                    keys.push(key);
                    proof {
                        assert(keys@ =~= partial_keys(all, mid, include_center, n + 1));
                    }
                } else {
                    proof {
                        assert(keys@ =~= partial_keys(all, mid, include_center, n + 1));
                    }
                }
                z = z + 1;
            }
            proof {
                lemma_row_bounds(d, x + radius, y + radius + 1);
                assert(((x + radius) * d + (y + radius)) * d + (radius + 1 + radius) == ((x + radius) * d + (y
                    + radius + 1)) * d) by (nonlinear_arith)
                    requires
                        d == 2 * radius + 1,
                ;
            }
            y = y + 1;
        }
        proof {
            assert(((x + radius) * d + (radius + 1 + radius)) * d == (x + radius + 1) * d * d) by (nonlinear_arith)
                requires
                    d == 2 * radius + 1,
            ;
            assert(0 <= (x + radius + 1) * d * d <= d * d * d) by (nonlinear_arith)
                requires
                    0 <= x + radius + 1 <= d,
                    d >= 0,
            ;
        }
        x = x + 1;
    }
    proof {
        assert((radius + 1 + radius) * d * d == d * d * d) by (nonlinear_arith)
            requires
                d == 2 * radius + 1,
        ;
        assert(all.take(d * d * d) =~= all);
        assert(keys@ =~= adjacent_keys_seq(*center, radius as int, include_center));
    }
    keys
}

/// The keys listed once the first `n` keys of the cube have been visited.
pub open spec fn partial_keys(all: Seq<[i64; 3]>, mid: int, include_center: bool, n: int) -> Seq<[i64; 3]> {
    if include_center || n <= mid {
        all.take(n)
    } else {
        all.take(n).remove(mid)
    }
}

/// The rows of a grid of edge `d` start inside the grid.
proof fn lemma_row_bounds(d: int, x: int, y: int)
    requires
        0 <= x < d,
        0 <= y <= d,
    ensures
        0 <= (x * d + y) * d <= d * d * d,
        x * d * d == (x * d + 0) * d,
{
    assert(0 <= (x * d + y) * d <= d * d * d) by (nonlinear_arith)
        requires
            0 <= x < d,
            0 <= y <= d,
    ;
    assert(x * d * d == (x * d + 0) * d) by (nonlinear_arith);
}

/// The keys around a centre are exactly the keys within the radius, each
/// listed once.
pub proof fn lemma_adjacent_keys(center: [i64; 3], radius: int, include_center: bool)
    requires
        in_world(center),
        radius <= WORLD_LIMIT,
    ensures
        forall|k: [i64; 3]|
            adjacent_keys_seq(center, radius, include_center).contains(k) <==> (chebyshev(k, center) <= radius
                && (include_center || k != center)),
        adjacent_keys_seq(center, radius, include_center).no_duplicates(),
        radius >= 0 ==> adjacent_keys_seq(center, radius, include_center).len() == cube_edge(radius)
            * cube_edge(radius) * cube_edge(radius) - (if include_center {
            0int
        } else {
            1int
        }),
        radius < 0 ==> adjacent_keys_seq(center, radius, include_center).len() == 0,
{
    let d = cube_edge(radius);
    let all = cube_keys(center, radius);
    let keys = adjacent_keys_seq(center, radius, include_center);
    let mid = center_index(radius);
    if radius < 0 {
        assert(all.len() == 0);
        assert forall|k: [i64; 3]| !(chebyshev(k, center) <= radius) by {}
        return ;
    }
    assert(d * d * d >= 0) by (nonlinear_arith)
        requires
            d >= 0,
    ;
    lemma_grid_index(d, radius, radius, radius);
    assert(all[mid] =~= center);
    // Every member of the cube lies within the radius, and the keys differ
    // from index to index.
    assert forall|i: int| 0 <= i < d * d * d implies chebyshev(#[trigger] all[i], center) <= radius by {
        lemma_grid_coords(d, i);
    }
    assert forall|i: int, j: int| 0 <= i < d * d * d && 0 <= j < d * d * d && i != j implies all[i] != all[j] by {
        lemma_grid_coords(d, i);
        lemma_grid_coords(d, j);
        if all[i] == all[j] {
            assert(all[i][0] == all[j][0] && all[i][1] == all[j][1] && all[i][2] == all[j][2]);
            assert(false);
        }
    }
    // Every key within the radius is a member of the cube.
    assert forall|k: [i64; 3]| chebyshev(k, center) <= radius implies all.contains(k) by {
        let x = k[0] - center[0] + radius;
        let y = k[1] - center[1] + radius;
        let z = k[2] - center[2] + radius;
        lemma_grid_index(d, x, y, z);
        let i = grid_index(d, x, y, z);
        assert(all[i] =~= k);
    }
    if include_center {
        assert forall|k: [i64; 3]| keys.contains(k) implies chebyshev(k, center) <= radius by {
            let i = choose|i: int| 0 <= i < keys.len() && keys[i] == k;
            assert(all[i] == k);
        }
    } else {
        assert forall|i: int| 0 <= i < keys.len() implies #[trigger] keys[i] == all[if i < mid {
            i
        } else {
            i + 1
        }] by {}
        assert forall|k: [i64; 3]| keys.contains(k) implies chebyshev(k, center) <= radius && k != center by {
            let i = choose|i: int| 0 <= i < keys.len() && keys[i] == k;
            let j = if i < mid {
                i
            } else {
                i + 1
            };
            assert(keys[i] == all[j]);
            assert(all[j] != all[mid]);
        }
        assert forall|k: [i64; 3]| chebyshev(k, center) <= radius && k != center implies keys.contains(k) by {
            let x = k[0] - center[0] + radius;
            let y = k[1] - center[1] + radius;
            let z = k[2] - center[2] + radius;
            lemma_grid_index(d, x, y, z);
            let j = grid_index(d, x, y, z);
            assert(all[j] =~= k);
            let i = if j < mid {
                j
            } else {
                j - 1
            };
            assert(keys[i] == all[j]);
        }
        assert forall|i: int, j: int| 0 <= i < keys.len() && 0 <= j < keys.len() && i != j implies keys[i]
            != keys[j] by {
            let a = if i < mid {
                i
            } else {
                i + 1
            };
            let b = if j < mid {
                j
            } else {
                j + 1
            };
            assert(keys[i] == all[a]);
            assert(keys[j] == all[b]);
        }
    }
}

/// The chunk at `key` holds the world voxel `pos`, as one of its own
/// voxels or in its seam.
pub open spec fn covers(key: [i64; 3], pos: [i64; 3], size: int, stride: int) -> bool {
    &&& 0 <= pos[0] - key[0] * stride < size
    &&& 0 <= pos[1] - key[1] * stride < size
    &&& 0 <= pos[2] - key[2] * stride < size
}

/// The `c`-th candidate for a chunk that holds a voxel owned by the chunk
/// at `owner`: one step down along x where `c / 4` is 1, along y where
/// `(c / 2) % 2` is 1, along z where `c % 2` is 1.
pub open spec fn neighbour_below(owner: [i64; 3], c: int) -> [i64; 3] {
    [(owner[0] - c / 4) as i64, (owner[1] - (c / 2) % 2) as i64, (owner[2] - c % 2) as i64]
}

/// The first `c` candidates that hold the world voxel `pos`, in order.
pub open spec fn owners_upto(owner: [i64; 3], pos: [i64; 3], size: int, stride: int, c: int) -> Seq<[i64; 3]>
    decreases c,
{
    if c <= 0 {
        Seq::empty()
    } else {
        let before = owners_upto(owner, pos, size, stride, c - 1);
        if covers(neighbour_below(owner, c - 1), pos, size, stride) {
            before.push(neighbour_below(owner, c - 1))
        } else {
            before
        }
    }
}

/// The keys of the chunks that hold the world voxel `pos`, in the order in
/// which they are listed: the owner first, then the neighbours below it,
/// z before y before x.
pub open spec fn owner_keys_seq(pos: [i64; 3], size: int, stride: int) -> Seq<[i64; 3]> {
    owners_upto(pos_key(pos, stride), pos, size, stride, 8)
}

/// Along one axis, a chunk of edge `size` at key component `k` holds the
/// coordinate `p` exactly if it owns it, or lies one step below the owner
/// while `p` is within the seam of its owner's start.
pub proof fn lemma_axis_cover(k: int, p: int, size: int, stride: int)
    requires
        0 < stride <= size,
        2 * (size - stride) <= size,
    ensures
        0 <= p - k * stride < size <==> (k == floor_div(p, stride) || (k == floor_div(p, stride) - 1 && floor_mod(
            p,
            stride,
        ) < size - stride)),
{
    let q = floor_div(p, stride);
    lemma_floor_div_block(p, stride, q);
    assert((q - 1) * stride == q * stride - stride) by (nonlinear_arith);
    if k > q {
        assert(k * stride >= q * stride + stride) by (nonlinear_arith)
            requires
                k >= q + 1,
                stride > 0,
        ;
    }
    if k < q - 1 {
        assert(k * stride <= q * stride - 2 * stride) by (nonlinear_arith)
            requires
                k <= q - 2,
                stride > 0,
        ;
    }
}

/// The keys of all chunks that hold the world voxel `pos`: the chunk that
/// owns it first, then every neighbour whose seam repeats it. There are
/// one to eight of them. Chunks with a seam need a stride of at least two
/// voxels.
pub fn owner_keys(pos: &[i64; 3], chunk_size: u32, offset: u32) -> (keys: Vec<[i64; 3]>)
    requires
        in_world(*pos),
        chunk_size <= 1024,
        offset < chunk_size,
        2 * offset <= chunk_size,
        offset == 0 || offset + 2 <= chunk_size,
    ensures
        keys@ == owner_keys_seq(*pos, chunk_size as int, chunk_size - offset),
        forall|k: [i64; 3]| keys@.contains(k) <==> covers(k, *pos, chunk_size as int, chunk_size - offset),
        keys@.no_duplicates(),
        1 <= keys.len() <= 8,
        keys[0] == pos_key(*pos, chunk_size - offset),
        forall|i: int| 0 <= i < keys.len() ==> in_world(#[trigger] keys[i]),
{
    let stride: u32 = chunk_size - offset;
    let owner: [i64; 3] = voxel_pos_to_key(pos, stride);
    let local: [u32; 3] = get_chunk_coords(pos, stride);
    let low_x: bool = local[0] < offset;
    let low_y: bool = local[1] < offset;
    let low_z: bool = local[2] < offset;
    let ghost size = chunk_size as int;
    let ghost step = stride as int;
    proof {
        lemma_owner_keys(*pos, size, step);
        lemma_axis_cover(owner[0] as int, pos[0] as int, size, step);
        lemma_axis_cover(owner[1] as int, pos[1] as int, size, step);
        lemma_axis_cover(owner[2] as int, pos[2] as int, size, step);
    }
    let mut keys: Vec<[i64; 3]> = Vec::new();
    let mut c: u8 = 0;
    while c < 8
        invariant
            c <= 8,
            in_world(owner),
            owner == pos_key(*pos, step),
            owner[0] == floor_div(pos[0] as int, step),
            owner[1] == floor_div(pos[1] as int, step),
            owner[2] == floor_div(pos[2] as int, step),
            0 < step <= size,
            2 * (size - step) <= size,
            low_x == (floor_mod(pos[0] as int, step) < size - step),
            low_y == (floor_mod(pos[1] as int, step) < size - step),
            low_z == (floor_mod(pos[2] as int, step) < size - step),
            size > step ==> -WORLD_LIMIT < owner[0] && -WORLD_LIMIT < owner[1] && -WORLD_LIMIT < owner[2],
            keys@ == owners_upto(owner, *pos, size, step, c as int),
        decreases 8 - c,
    {
        let dx: i64 = (c / 4) as i64;
        let dy: i64 = ((c / 2) % 2) as i64;
        let dz: i64 = (c % 2) as i64;
        if (dx == 0 || low_x) && (dy == 0 || low_y) && (dz == 0 || low_z) {
            let key: [i64; 3] = [owner[0] - dx, owner[1] - dy, owner[2] - dz];
            proof {
                assert(key =~= neighbour_below(owner, c as int));
                lemma_candidate_covers(owner, *pos, size, step, c as int);
            }
            keys.push(key);
        } else {
            proof {
                lemma_candidate_covers(owner, *pos, size, step, c as int);
            }
        }
        c = c + 1;
    }
    keys
}

/// The `c`-th candidate holds `pos` exactly if, on each axis on which it
/// lies one step below the owner, `pos` lies within the seam of the
/// owner's start.
proof fn lemma_candidate_covers(owner: [i64; 3], pos: [i64; 3], size: int, stride: int, c: int)
    requires
        0 <= c < 8,
        0 < stride <= size,
        2 * (size - stride) <= size,
        in_world(owner),
        owner[0] == floor_div(pos[0] as int, stride),
        owner[1] == floor_div(pos[1] as int, stride),
        owner[2] == floor_div(pos[2] as int, stride),
        size > stride ==> -WORLD_LIMIT < owner[0] && -WORLD_LIMIT < owner[1] && -WORLD_LIMIT < owner[2],
    ensures
        covers(neighbour_below(owner, c), pos, size, stride) <==> {
            &&& c / 4 == 0 || floor_mod(pos[0] as int, stride) < size - stride
            &&& (c / 2) % 2 == 0 || floor_mod(pos[1] as int, stride) < size - stride
            &&& c % 2 == 0 || floor_mod(pos[2] as int, stride) < size - stride
        },
{
    let key = neighbour_below(owner, c);
    lemma_axis_cover(key[0] as int, pos[0] as int, size, stride);
    lemma_axis_cover(key[1] as int, pos[1] as int, size, stride);
    lemma_axis_cover(key[2] as int, pos[2] as int, size, stride);
}

/// The key `k` is one of the first `c` candidates and holds `pos`.
pub open spec fn is_holder(owner: [i64; 3], pos: [i64; 3], size: int, stride: int, c: int, k: [i64; 3]) -> bool {
    exists|d: int| 0 <= d < c && k == #[trigger] neighbour_below(owner, d) && covers(k, pos, size, stride)
}

/// Every key listed among the first `c` candidates is one of them and
/// holds `pos`; every candidate among them that holds `pos` is listed; and
/// none is listed twice.
proof fn lemma_owners_upto(owner: [i64; 3], pos: [i64; 3], size: int, stride: int, c: int)
    requires
        0 <= c <= 8,
        in_world(owner),
    ensures
        owners_upto(owner, pos, size, stride, c).len() <= c,
        forall|i: int|
            0 <= i < owners_upto(owner, pos, size, stride, c).len() ==> is_holder(
                owner,
                pos,
                size,
                stride,
                c,
                #[trigger] owners_upto(owner, pos, size, stride, c)[i],
            ),
        forall|d: int|
            0 <= d < c && covers(#[trigger] neighbour_below(owner, d), pos, size, stride) ==> owners_upto(
                owner,
                pos,
                size,
                stride,
                c,
            ).contains(neighbour_below(owner, d)),
        owners_upto(owner, pos, size, stride, c).no_duplicates(),
        c > 0 && covers(owner, pos, size, stride) ==> owners_upto(owner, pos, size, stride, c).len() >= 1
            && owners_upto(owner, pos, size, stride, c)[0] == owner,
    decreases c,
{
    if c > 0 {
        lemma_owners_upto(owner, pos, size, stride, c - 1);
        let before = owners_upto(owner, pos, size, stride, c - 1);
        let now = owners_upto(owner, pos, size, stride, c);
        let key = neighbour_below(owner, c - 1);
        assert(neighbour_below(owner, 0) =~= owner);
        assert forall|i: int| 0 <= i < before.len() implies is_holder(owner, pos, size, stride, c, #[trigger] before[i]) by {
            assert(is_holder(owner, pos, size, stride, c - 1, before[i]));
            let d = choose|d: int|
                0 <= d < c - 1 && before[i] == #[trigger] neighbour_below(owner, d) && covers(
                    before[i],
                    pos,
                    size,
                    stride,
                );
            assert(before[i] == neighbour_below(owner, d));
        }
        if covers(key, pos, size, stride) {
            assert(now == before.push(key));
            if before.contains(key) {
                let i = choose|i: int| 0 <= i < before.len() && before[i] == key;
                assert(is_holder(owner, pos, size, stride, c - 1, before[i]));
                let d = choose|d: int|
                    0 <= d < c - 1 && before[i] == #[trigger] neighbour_below(owner, d) && covers(
                        before[i],
                        pos,
                        size,
                        stride,
                    );
                lemma_neighbour_below_differs(owner, d, c - 1);
            }
            assert(is_holder(owner, pos, size, stride, c, key)) by {
                assert(key == neighbour_below(owner, c - 1));
            }
            assert forall|i: int| 0 <= i < now.len() implies is_holder(owner, pos, size, stride, c, #[trigger] now[i]) by {
                if i < before.len() {
                    assert(now[i] == before[i]);
                } else {
                    assert(now[i] == key);
                }
            }
            assert forall|d: int|
                0 <= d < c && covers(#[trigger] neighbour_below(owner, d), pos, size, stride) implies now.contains(
                neighbour_below(owner, d),
            ) by {
                if d < c - 1 {
                    let i = choose|i: int| 0 <= i < before.len() && before[i] == neighbour_below(owner, d);
                    assert(now[i] == neighbour_below(owner, d));
                } else {
                    assert(now[before.len() as int] == key);
                }
            }
        } else {
            assert(now == before);
        }
    }
}

/// The chunks that hold a world voxel: the listed keys are exactly the
/// keys of the chunks that hold `pos`, each once, the owner first; there
/// are one to eight of them, and all lie in the world.
pub proof fn lemma_owner_keys(pos: [i64; 3], size: int, stride: int)
    requires
        in_world(pos),
        0 < stride <= size,
        2 * (size - stride) <= size,
        size == stride || stride >= 2,
    ensures
        forall|k: [i64; 3]| owner_keys_seq(pos, size, stride).contains(k) <==> covers(k, pos, size, stride),
        owner_keys_seq(pos, size, stride).no_duplicates(),
        1 <= owner_keys_seq(pos, size, stride).len() <= 8,
        owner_keys_seq(pos, size, stride)[0] == pos_key(pos, stride),
        forall|i: int|
            0 <= i < owner_keys_seq(pos, size, stride).len() ==> in_world(#[trigger] owner_keys_seq(pos, size, stride)[i]),
        in_world(pos_key(pos, stride)),
        size > stride ==> -WORLD_LIMIT < pos_key(pos, stride)[0] && -WORLD_LIMIT < pos_key(pos, stride)[1]
            && -WORLD_LIMIT < pos_key(pos, stride)[2],
{
    let owner = pos_key(pos, stride);
    let keys = owner_keys_seq(pos, size, stride);
    lemma_floor_div_fits(pos[0] as int, stride);
    lemma_floor_div_fits(pos[1] as int, stride);
    lemma_floor_div_fits(pos[2] as int, stride);
    lemma_floor_div_block(pos[0] as int, stride, owner[0] as int);
    lemma_floor_div_block(pos[1] as int, stride, owner[1] as int);
    lemma_floor_div_block(pos[2] as int, stride, owner[2] as int);
    if stride >= 2 {
        lemma_half_in_world(pos[0] as int, stride);
        lemma_half_in_world(pos[1] as int, stride);
        lemma_half_in_world(pos[2] as int, stride);
    }
    lemma_key_in_world(pos[0] as int, stride);
    lemma_key_in_world(pos[1] as int, stride);
    lemma_key_in_world(pos[2] as int, stride);
    assert(in_world(owner));
    lemma_axis_cover(owner[0] as int, pos[0] as int, size, stride);
    lemma_axis_cover(owner[1] as int, pos[1] as int, size, stride);
    lemma_axis_cover(owner[2] as int, pos[2] as int, size, stride);
    assert(covers(owner, pos, size, stride));
    lemma_owners_upto(owner, pos, size, stride, 8);
    assert forall|k: [i64; 3]| keys.contains(k) <==> covers(k, pos, size, stride) by {
        if keys.contains(k) {
            let i = choose|i: int| 0 <= i < keys.len() && keys[i] == k;
            assert(is_holder(owner, pos, size, stride, 8, keys[i]));
        }
        if covers(k, pos, size, stride) {
            lemma_axis_cover(k[0] as int, pos[0] as int, size, stride);
            lemma_axis_cover(k[1] as int, pos[1] as int, size, stride);
            lemma_axis_cover(k[2] as int, pos[2] as int, size, stride);
            let d = (owner[0] - k[0]) * 4 + (owner[1] - k[1]) * 2 + (owner[2] - k[2]);
            assert(neighbour_below(owner, d) =~= k);
        }
    }
    assert forall|i: int| 0 <= i < keys.len() implies in_world(#[trigger] keys[i]) by {
        assert(is_holder(owner, pos, size, stride, 8, keys[i]));
        let d = choose|d: int|
            0 <= d < 8 && keys[i] == #[trigger] neighbour_below(owner, d) && covers(keys[i], pos, size, stride);
        let k = neighbour_below(owner, d);
        lemma_axis_cover(k[0] as int, pos[0] as int, size, stride);
        lemma_axis_cover(k[1] as int, pos[1] as int, size, stride);
        lemma_axis_cover(k[2] as int, pos[2] as int, size, stride);
    }
}

/// The key of a coordinate inside the world lies inside the world.
pub proof fn lemma_key_in_world(p: int, stride: int)
    requires
        -WORLD_LIMIT <= p <= WORLD_LIMIT,
        stride >= 1,
    ensures
        -WORLD_LIMIT <= floor_div(p, stride) <= WORLD_LIMIT,
{
    let q = floor_div(p, stride);
    lemma_floor_div_block(p, stride, q);
    if q < -WORLD_LIMIT {
        assert(q * stride + stride <= -WORLD_LIMIT) by (nonlinear_arith)
            requires
                q <= -1_099_511_627_777,
                stride >= 1,
        ;
    }
    if q > WORLD_LIMIT {
        assert(q * stride > WORLD_LIMIT) by (nonlinear_arith)
            requires
                q > 1_099_511_627_776,
                stride >= 1,
        ;
    }
}

/// With a stride of two or more, the key of a coordinate inside the world
/// lies strictly inside it.
proof fn lemma_half_in_world(p: int, stride: int)
    requires
        -WORLD_LIMIT <= p <= WORLD_LIMIT,
        stride >= 2,
    ensures
        -WORLD_LIMIT < floor_div(p, stride) <= WORLD_LIMIT,
{
    let q = floor_div(p, stride);
    lemma_floor_div_block(p, stride, q);
    if q <= -WORLD_LIMIT {
        assert(q * stride + stride <= -WORLD_LIMIT) by (nonlinear_arith)
            requires
                q <= -1_099_511_627_776,
                stride >= 2,
        ;
    }
    if q > WORLD_LIMIT {
        assert(q * stride > WORLD_LIMIT) by (nonlinear_arith)
            requires
                q > 1_099_511_627_776,
                stride >= 2,
        ;
    }
}

/// Different candidates are different keys.
proof fn lemma_neighbour_below_differs(owner: [i64; 3], c: int, d: int)
    requires
        0 <= c < 8,
        0 <= d < 8,
        c != d,
        -WORLD_LIMIT <= owner[0] <= WORLD_LIMIT,
        -WORLD_LIMIT <= owner[1] <= WORLD_LIMIT,
        -WORLD_LIMIT <= owner[2] <= WORLD_LIMIT,
    ensures
        neighbour_below(owner, c) != neighbour_below(owner, d),
{
    let a = neighbour_below(owner, c);
    let b = neighbour_below(owner, d);
    if a == b {
        assert(a[0] == b[0] && a[1] == b[1] && a[2] == b[2]);
        assert(false);
    }
}

/// A world voxel that lies past the seam on every axis is held by one
/// chunk only, the one that owns it.
pub proof fn lemma_single_owner(pos: [i64; 3], size: int, stride: int)
    requires
        0 < stride <= size,
        2 * (size - stride) <= size,
        floor_mod(pos[0] as int, stride) >= size - stride,
        floor_mod(pos[1] as int, stride) >= size - stride,
        floor_mod(pos[2] as int, stride) >= size - stride,
    ensures
        forall|key: [i64; 3]| covers(key, pos, size, stride) <==> key == pos_key(pos, stride),
{
    let owner = pos_key(pos, stride);
    lemma_floor_div_fits(pos[0] as int, stride);
    lemma_floor_div_fits(pos[1] as int, stride);
    lemma_floor_div_fits(pos[2] as int, stride);
    assert forall|key: [i64; 3]| covers(key, pos, size, stride) <==> key == owner by {
        lemma_axis_cover(key[0] as int, pos[0] as int, size, stride);
        lemma_axis_cover(key[1] as int, pos[1] as int, size, stride);
        lemma_axis_cover(key[2] as int, pos[2] as int, size, stride);
        if key == owner {
            assert(key[0] == owner[0] && key[1] == owner[1] && key[2] == owner[2]);
        }
        if covers(key, pos, size, stride) {
            assert(key =~= owner);
        }
    }
}

} // verus!
