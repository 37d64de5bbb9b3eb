use voxels::chunk::adjacent_keys;
use voxels::chunk::get_chunk_coords;
use voxels::chunk::owner_keys;
use voxels::chunk::voxel_pos_to_key;
use voxels::utils::coord_to_index;
use voxels::utils::floor_div_i64;
use voxels::utils::get_length;
use voxels::utils::get_size;
use voxels::utils::key_to_world_coord;

#[test]
fn floor_division_rounds_towards_minus_infinity() {
    assert_eq!(floor_div_i64(13, 14), 0);
    assert_eq!(floor_div_i64(14, 14), 1);
    assert_eq!(floor_div_i64(-1, 14), -1);
    assert_eq!(floor_div_i64(-14, 14), -1);
    assert_eq!(floor_div_i64(-15, 14), -2);
    assert_eq!(floor_div_i64(0, 3), 0);
    assert_eq!(floor_div_i64(i64::MIN, 1), i64::MIN);
    assert_eq!(floor_div_i64(i64::MIN, 2), i64::MIN / 2);
    assert_eq!(floor_div_i64(i64::MAX, i64::MAX), 1);
}

#[test]
fn keys_follow_the_stride_not_the_chunk_edge() {
    assert_eq!(voxel_pos_to_key(&[0, 0, 0], 14), [0, 0, 0]);
    assert_eq!(voxel_pos_to_key(&[-1, 14, 13], 14), [-1, 1, 0]);
    assert_eq!(voxel_pos_to_key(&[-14, -15, 27], 14), [-1, -2, 1]);
    assert_eq!(voxel_pos_to_key(&[15, 16, 28], 14), [1, 1, 2]);
}

#[test]
fn keys_are_the_same_within_one_block() {
    let first = voxel_pos_to_key(&[28, -14, 0], 14);
    for x in 28..42 {
        for y in -14..0 {
            for z in 0..14 {
                assert_eq!(voxel_pos_to_key(&[x, y, z], 14), first);
                assert_eq!(voxel_pos_to_key(&[x, y, z], 14), voxel_pos_to_key(&[x, y, z], 14));
            }
        }
    }
    assert_eq!(first, [2, -1, 0]);
    assert_eq!(voxel_pos_to_key(&[42, -14, 0], 14), [3, -1, 0]);
    assert_eq!(voxel_pos_to_key(&[27, -14, 0], 14), [1, -1, 0]);
}

#[test]
fn local_coordinates_lie_below_the_stride() {
    assert_eq!(get_chunk_coords(&[0, 0, 0], 14), [0, 0, 0]);
    assert_eq!(get_chunk_coords(&[-1, 14, 13], 14), [13, 0, 13]);
    assert_eq!(get_chunk_coords(&[-14, -15, 27], 14), [0, 13, 13]);
    for p in -60..60 {
        let key = voxel_pos_to_key(&[p, p, p], 14);
        let local = get_chunk_coords(&[p, p, p], 14);
        assert!(local[0] < 14);
        assert_eq!(key[0] * 14 + local[0] as i64, p);
    }
}

#[test]
fn adjacent_keys_list_the_cube_in_row_major_order() {
    let keys = adjacent_keys(&[0, 0, 0], 1, true);
    assert_eq!(keys.len(), 27);
    assert_eq!(keys[0], [-1, -1, -1]);
    assert_eq!(keys[1], [-1, -1, 0]);
    assert_eq!(keys[3], [-1, 0, -1]);
    assert_eq!(keys[9], [0, -1, -1]);
    assert_eq!(keys[13], [0, 0, 0]);
    assert_eq!(keys[26], [1, 1, 1]);

    let around = adjacent_keys(&[5, -7, 2], 2, true);
    assert_eq!(around.len(), 125);
    assert_eq!(around[0], [3, -9, 0]);
    assert_eq!(around[62], [5, -7, 2]);
    assert_eq!(around[124], [7, -5, 4]);
    for key in around.iter() {
        assert!((key[0] - 5).abs() <= 2 && (key[1] + 7).abs() <= 2 && (key[2] - 2).abs() <= 2);
    }
    for i in 0..around.len() {
        for j in 0..i {
            assert_ne!(around[i], around[j]);
        }
    }
}

#[test]
fn adjacent_keys_can_leave_the_centre_out() {
    let keys = adjacent_keys(&[4, 4, 4], 1, false);
    assert_eq!(keys.len(), 26);
    assert!(!keys.contains(&[4, 4, 4]));
    assert_eq!(keys[12], [4, 4, 3]);
    assert_eq!(keys[13], [4, 4, 5]);
    assert_eq!(adjacent_keys(&[4, 4, 4], 0, true), vec![[4, 4, 4]]);
    assert_eq!(adjacent_keys(&[4, 4, 4], 0, false).len(), 0);
    assert_eq!(adjacent_keys(&[4, 4, 4], -1, true).len(), 0);
    assert_eq!(adjacent_keys(&[4, 4, 4], -3, false).len(), 0);
}

#[test]
fn a_voxel_off_the_seam_has_one_owner() {
    assert_eq!(owner_keys(&[5, 5, 5], 16, 2), vec![[0, 0, 0]]);
    assert_eq!(owner_keys(&[2, 13, 7], 16, 2), vec![[0, 0, 0]]);
    assert_eq!(owner_keys(&[-1, -1, -1], 16, 2), vec![[-1, -1, -1]]);
    assert_eq!(owner_keys(&[14, 15, 1], 16, 0), vec![[0, 0, 0]]);
}

#[test]
fn a_voxel_on_the_seam_is_held_by_the_neighbours_too() {
    assert_eq!(owner_keys(&[14, 5, 5], 16, 2), vec![[1, 0, 0], [0, 0, 0]]);
    assert_eq!(owner_keys(&[15, 5, 5], 16, 2), vec![[1, 0, 0], [0, 0, 0]]);
    assert_eq!(owner_keys(&[5, 5, -14], 16, 2), vec![[0, 0, -1], [0, 0, -2]]);
    assert_eq!(owner_keys(&[0, 15, 5], 16, 2), vec![[0, 1, 0], [0, 0, 0], [-1, 1, 0], [-1, 0, 0]]);
    let corner = owner_keys(&[14, 15, 28], 16, 2);
    assert_eq!(
        corner,
        vec![[1, 1, 2], [1, 1, 1], [1, 0, 2], [1, 0, 1], [0, 1, 2], [0, 1, 1], [0, 0, 2], [0, 0, 1]]
    );
    for key in corner.iter() {
        for axis in 0..3 {
            let local = [14i64, 15, 28][axis] - key[axis] * 14;
            assert!(0 <= local && local < 16);
        }
    }
}

#[test]
fn grid_sizes_and_indices() {
    assert_eq!(get_size(0), 1);
    assert_eq!(get_size(4), 16);
    assert_eq!(get_size(10), 1024);
    assert_eq!(get_length(0), 1);
    assert_eq!(get_length(4), 4096);
    assert_eq!(get_length(10), 1_073_741_824);
    assert_eq!(coord_to_index(0, 0, 0, 0, 16), 0);
    assert_eq!(coord_to_index(1, 2, 3, 0, 16), 291);
    assert_eq!(coord_to_index(15, 15, 15, 0, 16), 4095);
    assert_eq!(coord_to_index(5, 5, 5, 4, 8), 21);
    assert_eq!(key_to_world_coord(&[2, -1, 0], 14), [28, -14, 0]);
}
