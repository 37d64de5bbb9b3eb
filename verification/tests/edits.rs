use voxels::bevy_voxel::get_near_positions;
use voxels::bevy_voxel::sphere_positions;
use voxels::bevy_voxel::BevyVoxelResource;
use voxels::bevy_voxel::NearVoxel;
use voxels::chunk::chunk_manager::ChunkMode;
use voxels::data::voxel_octree::VoxelMode;

fn flat_ground(_x: i64, y: i64, _z: i64, ground: i64) -> u8 {
    if y < ground {
        1
    } else {
        0
    }
}

#[test]
fn an_edit_off_the_seam_touches_one_chunk() {
    let mut world = BevyVoxelResource::new(4, 1, flat_ground);
    world.chunk_manager.new_chunk_mut(&[3, 3, 3]);
    let affected = world.set_voxel(&[5, 9, 5], 8);
    assert_eq!(affected, vec![[0, 0, 0]]);
    assert_eq!(world.chunk_manager.len(), 2);
    assert_eq!(world.chunk_manager.get_voxel(&[5, 9, 5]), 8);
    assert_eq!(world.chunk_manager.get_voxel(&[5, 8, 5]), 0);
    assert_eq!(world.chunk_manager.get_voxel(&[5, 4, 5]), 1);
    assert!(world.chunk_manager.get_chunk(&[3, 3, 3]).unwrap().is_default);
    assert!(!world.chunk_manager.get_chunk(&[0, 0, 0]).unwrap().is_default);
}

#[test]
fn an_edit_on_a_face_seam_touches_two_chunks() {
    let mut world = BevyVoxelResource::new(4, 1, flat_ground);
    let affected = world.set_voxel(&[15, 9, 5], 8);
    assert_eq!(affected, vec![[1, 0, 0], [0, 0, 0]]);
    assert_eq!(world.chunk_manager.len(), 2);
    assert_eq!(world.chunk_manager.get_chunk(&[1, 0, 0]).unwrap().octree.get_voxel(1, 9, 5), 8);
    assert_eq!(world.chunk_manager.get_chunk(&[0, 0, 0]).unwrap().octree.get_voxel(15, 9, 5), 8);
    assert_eq!(world.chunk_manager.get_voxel(&[15, 9, 5]), 8);
}

#[test]
fn an_edit_on_a_corner_seam_touches_eight_chunks() {
    let mut world = BevyVoxelResource::new(4, 1, flat_ground);
    world.chunk_manager.new_chunk_mut(&[2, 1, 1]);
    world.chunk_manager.new_chunk_mut(&[-1, 0, 0]);
    let affected = world.set_voxel(&[14, 15, 14], 3);
    assert_eq!(
        affected,
        vec![[1, 1, 1], [1, 1, 0], [1, 0, 1], [1, 0, 0], [0, 1, 1], [0, 1, 0], [0, 0, 1], [0, 0, 0]]
    );
    assert_eq!(world.chunk_manager.len(), 10);
    for key in affected.iter() {
        let chunk = world.chunk_manager.get_chunk(key).unwrap();
        let x = (14 - key[0] * 14) as u32;
        let y = (15 - key[1] * 14) as u32;
        let z = (14 - key[2] * 14) as u32;
        assert_eq!(chunk.octree.get_voxel(x, y, z), 3);
        assert!(!chunk.is_default);
    }
    assert!(world.chunk_manager.get_chunk(&[2, 1, 1]).unwrap().is_default);
    assert!(world.chunk_manager.get_chunk(&[-1, 0, 0]).unwrap().is_default);
    assert_eq!(world.chunk_manager.get_voxel(&[14, 15, 14]), 3);
}

#[test]
fn an_edit_keeps_the_seams_of_neighbours_in_step() {
    let mut world = BevyVoxelResource::new(4, 1, flat_ground);
    let chunks = world.load_adj_chunks([0, 0, 0]);
    assert_eq!(chunks.len(), 27);
    world.set_voxel(&[14, 9, 0], 6);
    let left = world.chunk_manager.get_chunk(&[0, 0, 0]).unwrap();
    let right = world.chunk_manager.get_chunk(&[1, 0, 0]).unwrap();
    let below = world.chunk_manager.get_chunk(&[0, 0, -1]).unwrap();
    assert_eq!(left.octree.get_voxel(14, 9, 0), 6);
    assert_eq!(right.octree.get_voxel(0, 9, 0), 6);
    assert_eq!(below.octree.get_voxel(14, 9, 14), 6);
    let left_mesh = world.compute_mesh(VoxelMode::SurfaceNets, left);
    let right_mesh = world.compute_mesh(VoxelMode::SurfaceNets, right);
    assert!(left_mesh.materials.contains(&6));
    assert!(right_mesh.materials.contains(&6));
    assert_eq!(world.chunk_manager.len(), 27);
}

#[test]
fn a_cube_edit_sets_every_voxel_of_the_cube() {
    let mut world = BevyVoxelResource::new(4, 1, flat_ground);
    let affected = world.set_voxel_cube(&[0, 0, 0], 1, 4);
    assert_eq!(affected.len(), 8);
    for x in -3..4 {
        for y in -3..4 {
            for z in -3..4 {
                let inside = x >= -1 && x <= 1 && y >= -1 && y <= 1 && z >= -1 && z <= 1;
                let expected = if inside { 4 } else { 1 };
                assert_eq!(world.chunk_manager.get_voxel(&[x, y, z]), expected, "at {} {} {}", x, y, z);
            }
        }
    }
    assert!(affected.contains(&[-1, -1, -1]));
    assert!(affected.contains(&[0, 0, 0]));
    for i in 0..affected.len() {
        for j in 0..i {
            assert_ne!(affected[i], affected[j]);
        }
    }
    // The seam copies hold the edit too.
    assert_eq!(world.chunk_manager.get_chunk(&[-1, -1, -1]).unwrap().octree.get_voxel(15, 14, 13), 4);
    assert_eq!(world.chunk_manager.get_chunk(&[-1, 0, 0]).unwrap().octree.get_voxel(14, 0, 1), 4);

    let single = world.set_voxel_cube(&[40, 40, 40], 0, 2);
    assert_eq!(single, vec![[2, 2, 2]]);
    assert_eq!(world.chunk_manager.get_voxel(&[40, 40, 40]), 2);
}

#[test]
fn a_sphere_edit_sets_the_voxels_within_the_radius() {
    let positions = sphere_positions(&[20, 20, 20], 2);
    assert_eq!(positions.len(), 33);
    assert!(positions.contains(&[20, 20, 22]));
    assert!(positions.contains(&[21, 21, 21]));
    assert!(!positions.contains(&[22, 21, 20]));
    assert_eq!(sphere_positions(&[0, 0, 0], 0), vec![[0, 0, 0]]);
    assert_eq!(sphere_positions(&[0, 0, 0], 1).len(), 7);

    let mut world = BevyVoxelResource::new(4, 1, flat_ground);
    let affected = world.set_voxel_sphere(&[20, 20, 20], 2, 6);
    assert_eq!(affected, vec![[1, 1, 1]]);
    let mut changed = 0;
    for x in 16..25 {
        for y in 16..25 {
            for z in 16..25 {
                let d = (x - 20) * (x - 20) + (y - 20) * (y - 20) + (z - 20) * (z - 20);
                let voxel = world.chunk_manager.get_voxel(&[x, y, z]);
                if d <= 4 {
                    assert_eq!(voxel, 6);
                    changed += 1;
                } else {
                    assert_eq!(voxel, 0);
                }
            }
        }
    }
    assert_eq!(changed, 33);
}

#[test]
fn a_batch_of_edits_reports_each_chunk_once() {
    let mut world = BevyVoxelResource::new(4, 1, flat_ground);
    let positions = vec![[5, 4, 5], [2, 2, 2], [30, 2, 2], [2, 2, 2], [13, 13, 13]];
    let affected = world.set_voxels(&positions, 0);
    assert_eq!(affected, vec![[0, 0, 0], [2, 0, 0]]);
    assert_eq!(world.chunk_manager.get_voxel(&[5, 4, 5]), 0);
    assert_eq!(world.chunk_manager.get_voxel(&[2, 2, 2]), 0);
    assert_eq!(world.chunk_manager.get_voxel(&[30, 2, 2]), 0);
    assert_eq!(world.chunk_manager.get_voxel(&[3, 3, 3]), 1);
    assert_eq!(world.set_voxels(&Vec::new(), 9).len(), 0);
    assert_eq!(world.chunk_manager.len(), 2);
}

#[test]
fn snapping_picks_the_nearest_voxel_of_the_wanted_kind() {
    let mut world = BevyVoxelResource::new(4, 1, flat_ground);
    world.load_adj_chunks([0, 0, 0]);
    let candidates = vec![
        NearVoxel { pos: [3, 5, 3], distance: 10 },
        NearVoxel { pos: [3, 4, 3], distance: 40 },
        NearVoxel { pos: [4, 4, 3], distance: 25 },
        NearVoxel { pos: [4, 4, 4], distance: 25 },
        NearVoxel { pos: [4, 5, 4], distance: 10 },
        NearVoxel { pos: [3, 6, 3], distance: 5 },
        NearVoxel { pos: [4, 3, 300], distance: 1 },
        NearVoxel { pos: [300, 9, 3], distance: 1 },
    ];
    // Material: the two at distance 25 tie, the first listed wins; the
    // nearest candidate of all lies in a chunk that is not loaded.
    assert_eq!(world.get_hit_voxel_pos(&candidates), Some(2));
    // Air: the nearest loaded air voxel.
    assert_eq!(world.get_nearest_voxel_air(&candidates), Some(5));
    let solid_only =
        vec![NearVoxel { pos: [3, 4, 3], distance: 40 }, NearVoxel { pos: [3, 3, 3], distance: 40 }];
    assert_eq!(world.get_nearest_voxel_air(&solid_only), None);
    assert_eq!(world.get_hit_voxel_pos(&solid_only), Some(0));
    assert_eq!(world.get_hit_voxel_pos(&Vec::new()), None);
    let far = vec![NearVoxel { pos: [3, 4, 3], distance: u32::MAX }];
    assert_eq!(world.get_hit_voxel_pos(&far), Some(0));
}

#[test]
fn a_preview_shows_the_edit_in_the_middle_of_a_default_chunk() {
    let mut world = BevyVoxelResource::new(4, 1, flat_ground);
    world.load_adj_chunks([0, 0, 0]);
    world.chunk_manager.set_voxel(&[5, 6, 5], 2);
    let preview = world.get_preview_chunk(&[5, 5, 5], 7);
    assert_eq!(preview.key, [0, 0, 0]);
    assert_eq!(preview.lod, 4);
    assert_eq!(preview.mode, ChunkMode::Unloaded);
    assert!(preview.is_default);
    for x in 0..16u32 {
        for y in 0..16u32 {
            for z in 0..16u32 {
                let shown = preview.octree.get_voxel(x, y, z);
                let inside = x >= 5 && x < 11 && y >= 5 && y < 11 && z >= 5 && z < 11;
                if !inside {
                    assert_eq!(shown, 0);
                } else if (x, y, z) == (8, 8, 8) {
                    assert_eq!(shown, 7);
                } else if (x, y, z) == (8, 9, 8) {
                    assert_eq!(shown, 2);
                } else if y < 8 {
                    assert_eq!(shown, 1);
                } else {
                    assert_eq!(shown, 0);
                }
            }
        }
    }
    // The world itself is untouched.
    assert_eq!(world.chunk_manager.get_voxel(&[5, 5, 5]), 0);
    assert_eq!(world.get_preview_pos(&[5, 5, 5]), [-3, -3, -3]);
}

#[test]
fn keys_and_positions_of_the_world() {
    let mut world = BevyVoxelResource::new(4, 2, flat_ground);
    assert_eq!(world.get_key(&[-1, 14, 27]), [-1, 1, 1]);
    assert_eq!(world.get_pos([-1, 1, 1]), [-14, 14, 14]);
    assert_eq!(world.get_pos([0, 0, 0]), [0, 0, 0]);
    let chunks = world.load_adj_chunks([0, 0, 0]);
    assert_eq!(chunks.len(), 125);
    assert_eq!(chunks[62].key, [0, 0, 0]);
    assert_eq!(chunks[62].mode, ChunkMode::Loaded);
    let mesh = world.compute_mesh(VoxelMode::SurfaceNets, &chunks[62]);
    assert_eq!(mesh.positions.len(), 225);
    let sky = world.compute_mesh(VoxelMode::SurfaceNets, &chunks[124]);
    assert_eq!(chunks[124].mode, ChunkMode::Air);
    assert_eq!(sky.positions.len(), 0);
    assert_eq!(sky.indices.len(), 0);
}

#[test]
fn the_lattice_points_around_a_hit_are_the_corners_of_its_cell() {
    assert_eq!(
        get_near_positions(&[3, -4, 7]),
        vec![[3, -4, 7], [3, -4, 8], [3, -3, 7], [3, -3, 8], [4, -4, 7], [4, -4, 8], [4, -3, 7], [4, -3, 8]]
    );
}

#[test]
fn a_sphere_lists_its_voxels_in_row_major_order() {
    assert_eq!(
        sphere_positions(&[5, 5, 5], 1),
        vec![[4, 5, 5], [5, 4, 5], [5, 5, 4], [5, 5, 5], [5, 5, 6], [5, 6, 5], [6, 5, 5]]
    );
}

#[test]
fn a_batch_lists_chunks_in_the_order_of_first_touch() {
    let mut world = BevyVoxelResource::new(4, 1, flat_ground);
    let positions = vec![[30, 2, 2], [14, 5, 5], [2, 2, 2], [29, 2, 2]];
    let affected = world.set_voxels(&positions, 3);
    assert_eq!(affected, vec![[2, 0, 0], [1, 0, 0], [0, 0, 0]]);
    assert_eq!(world.chunk_manager.get_chunk(&[1, 0, 0]).unwrap().octree.get_voxel(15, 2, 2), 3);
    assert_eq!(world.chunk_manager.get_chunk(&[2, 0, 0]).unwrap().octree.get_voxel(1, 2, 2), 3);
}
