use noise::NoiseFn;
use noise::OpenSimplex;
use noise::Seedable;
use std::cell::Cell;
use voxels::chunk::adjacent_keys;
use voxels::chunk::chunk_manager::voxel_by_noise;
use voxels::chunk::chunk_manager::Chunk;
use voxels::chunk::chunk_manager::ChunkManager;
use voxels::chunk::chunk_manager::ChunkMode;
use voxels::data::surface_nets::get_surface_nets2;
use voxels::data::surface_nets::GridPosition;
use voxels::data::surface_nets::VoxelReuse;
use voxels::data::voxel_octree::VoxelMode;
use voxels::data::voxel_octree::VoxelOctree;
use voxels::utils::coord_to_index;
use voxels::utils::get_length;

/// The terrain of the default world: open-simplex noise with seed 1234
/// lowers or raises the ground around the given middle height.
fn terrain() -> impl Fn(i64, i64, i64, i64) -> u8 {
    let noise = OpenSimplex::new().set_seed(1234);
    move |x: i64, y: i64, z: i64, middle: i64| {
        let frequency = 0.0125;
        let height_scale = 16.0;
        let fx = (x - middle) as f64 * frequency;
        let fz = (z - middle) as f64 * frequency;
        let elevation = (noise.get([fx, fz]) * height_scale) as i64;
        voxel_by_noise(y, middle, elevation)
    }
}

#[test]
fn test_set_and_get_voxel() -> Result<(), String> {
    let mut chunk_manager = ChunkManager::new_1(4, terrain());

    let start = -10;
    let end = 10;
    let mut new_value = 0;

    for x in start..end {
        for y in start..end {
            for z in start..end {
                new_value = if new_value == 255 { 0 } else { new_value + 1 };
                let pos = &[x, y, z];
                chunk_manager.set_voxel(pos, new_value);
            }
        }
    }

    new_value = 0;
    for x in start..end {
        for y in start..end {
            for z in start..end {
                new_value = if new_value == 255 { 0 } else { new_value + 1 };
                let expected = new_value;
                let pos = &[x, y, z];
                let result = chunk_manager.get_voxel(pos);

                assert_eq!(result, expected, "at pos: {:?}", (x, y, z));
            }
        }
    }

    Ok(())
}

#[test]
fn test_set_and_get_voxel_1() -> Result<(), String> {
    let mut chunk_manager = ChunkManager::new_1(4, terrain());

    let start = -32;
    let end = 32;
    let mut new_value = 0;

    for x in start..end {
        for y in start..end {
            for z in start..end {
                new_value = if new_value == 255 { 0 } else { new_value + 1 };
                let pos = &[x, y, z];
                chunk_manager.set_voxel(pos, new_value);
            }
        }
    }

    new_value = 0;
    for x in start..end {
        for y in start..end {
            for z in start..end {
                new_value = if new_value == 255 { 0 } else { new_value + 1 };
                let expected = new_value;
                let pos = &[x, y, z];
                let result = chunk_manager.get_voxel(pos);

                assert_eq!(result, expected, "at pos: {:?}", (x, y, z));
            }
        }
    }

    Ok(())
}

#[test]
fn test_set_and_get_voxel_2() -> Result<(), String> {
    let mut chunk_manager = ChunkManager::new_1(4, terrain());
    let density = terrain();
    let stride = chunk_manager.seamless_size();

    let keys = adjacent_keys(&[0, 0, 0], 1, true);

    for key in keys.iter() {
        let chunk_1 = chunk_manager.new_chunk_mut(key);
        let chunk_2 = ChunkManager::new_chunk(key, chunk_manager.depth as u8, 0, stride, &density);

        let len = chunk_1.octree.size;
        for x in 0..len {
            for y in 0..len {
                for z in 0..len {
                    let voxel_1 = chunk_1.octree.get_voxel(x, y, z);
                    let voxel_2 = chunk_2.octree.get_voxel(x, y, z);

                    let w_x = key[0] * stride as i64 + x as i64;
                    let w_y = key[1] * stride as i64 + y as i64;
                    let w_z = key[2] * stride as i64 + z as i64;
                    let voxel_3 = chunk_manager.get_voxel_mut(&[w_x, w_y, w_z]);

                    assert_eq!(voxel_1, voxel_2, "Not equal");
                    assert_eq!(voxel_1, voxel_3, "Not equal");
                }
            }
        }
    }

    Ok(())
}

#[test]
fn test_set_and_get_voxel_3() -> Result<(), String> {
    let chunk_manager = ChunkManager::new_1(4, terrain());
    let density = terrain();
    let stride = chunk_manager.seamless_size();

    let keys = vec![[0, 0, 0]];

    for key in keys.iter() {
        let chunk_1 = ChunkManager::new_chunk(key, chunk_manager.depth as u8, 0, stride, &density);

        let size = chunk_1.octree.size;
        let mut voxel_reuse = VoxelReuse::new_1(size);

        let data = get_surface_nets2(&chunk_1.octree, &chunk_manager, &mut voxel_reuse, *key, 0);
        println!("data.len() {}", data.indices.len());

        let start_x = key[0] * stride as i64;
        let start_y = key[1] * stride as i64;
        let start_z = key[2] * stride as i64;

        let len = chunk_1.octree.size;
        let ground = 5;
        for x in 0..len {
            for y in 0..len {
                for z in 0..len {
                    let voxel_1 = chunk_1.octree.get_voxel(x, y, z);

                    let w_x = x as i64 + start_x;
                    let w_y = y as i64 + start_y;
                    let w_z = z as i64 + start_z;

                    let voxel_2 = density(w_x, w_y, w_z, ground);
                    assert_eq!(voxel_1, voxel_2);

                    let index = coord_to_index(x, y, z, 0, size);
                    let voxel_3 = voxel_reuse.voxels[index];

                    assert_eq!(voxel_3, voxel_1);
                }
            }
        }
    }

    Ok(())
}

#[test]
fn test_set_and_get_voxel_in_chunk_manager_custom_algorithm() -> Result<(), String> {
    let ground = 5;

    let mut chunk_manager = ChunkManager::new_1(4, terrain());
    let stride = chunk_manager.seamless_size();
    let keys = vec![
        [0, 0, 0],
        [0, 0, 1],
        [0, 1, 0],
        [0, 1, 1],
        [1, 0, 0],
        [1, 0, 1],
        [1, 1, 0],
        [1, 1, 1],
    ];
    for key in keys.iter() {
        let chunk = ChunkManager::new_chunk(
            key,
            chunk_manager.depth as u8,
            0,
            stride,
            &|_x: i64, y: i64, _z: i64, _middle: i64| if y < ground { 1 } else { 0 },
        );
        chunk_manager.set_chunk(key, &chunk);
    }

    let default_len = chunk_manager.chunk_size as i64;
    let len = 20;
    let ground = 5;
    for x in 0..default_len {
        for y in 0..default_len {
            for z in 0..len {
                let voxel = chunk_manager.get_voxel(&[x, y, z]);

                if y < ground {
                    assert_eq!(voxel, 1, "at {} {} {}", x, y, z);
                }
            }
        }
    }

    Ok(())
}

#[test]
fn test_chunk_mode() -> Result<(), String> {
    let depth = 4;
    let len = get_length(depth as u8);
    let voxels = vec![0; len];
    let size = (2 as u32).pow(depth as u32);

    let grid_pos_len = get_length(depth as u8);
    let mut grid_pos = Vec::new();
    for _ in 0..grid_pos_len {
        grid_pos.push(GridPosition::default());
    }

    let mut voxel_reuse = VoxelReuse { voxels: voxels, grid_pos: grid_pos, size: size };

    let chunk_manager = ChunkManager::new_1(4, terrain());
    let density = terrain();

    let keys = adjacent_keys(&[0, 0, 0], 5, true);
    for key in keys.iter() {
        let chunk = ChunkManager::new_chunk(
            key,
            chunk_manager.depth as u8,
            chunk_manager.depth as usize,
            chunk_manager.seamless_size(),
            &density,
        );
        let d = chunk.compute_mesh(VoxelMode::SurfaceNets, &mut voxel_reuse, 0);
        if d.indices.len() != 0 {
            assert_eq!(chunk.mode, ChunkMode::Loaded, "key {:?}", key);
        } else {
            assert_eq!(chunk.mode, ChunkMode::Air, "key {:?}", key);
        }
        // The extraction itself, which looks at no mode: without triangles
        // the chunk cannot be loaded.
        let own = chunk.octree.compute_mesh(VoxelMode::SurfaceNets, &mut voxel_reuse, 0);
        if own.indices.len() == 0 {
            assert_eq!(chunk.mode, ChunkMode::Air, "key {:?}", key);
        }
        if chunk.mode == ChunkMode::Loaded {
            assert!(own.indices.len() >= 6, "key {:?}", key);
            assert_eq!(d.indices, own.indices, "key {:?}", key);
        }
    }

    Ok(())
}

#[test]
fn voxel_by_noise_places_ground_below_the_lowered_middle() {
    assert_eq!(voxel_by_noise(4, 5, 0), 1);
    assert_eq!(voxel_by_noise(5, 5, 0), 0);
    assert_eq!(voxel_by_noise(4, 5, 1), 0);
    assert_eq!(voxel_by_noise(7, 5, -3), 1);
    assert_eq!(voxel_by_noise(i64::MAX, 5, 16), 0);
    assert_eq!(voxel_by_noise(i64::MIN, 5, -16), 1);
}

#[test]
fn a_new_manager_is_empty_and_has_a_seam_of_two() {
    let manager = ChunkManager::new(4, 3, |_x: i64, _y: i64, _z: i64, _g: i64| 0u8);
    assert_eq!(manager.len(), 0);
    assert_eq!(manager.depth, 4);
    assert_eq!(manager.chunk_size, 16);
    assert_eq!(manager.offset, 2);
    assert_eq!(manager.range, 3);
    assert_eq!(manager.seamless_size(), 14);
    assert_eq!(ChunkManager::new_1(5, |_x: i64, _y: i64, _z: i64, _g: i64| 0u8).range, 1);
    assert_eq!(ChunkManager::new_1(5, |_x: i64, _y: i64, _z: i64, _g: i64| 0u8).seamless_size(), 30);
}

#[test]
fn safe_read_tells_unloaded_from_air() {
    let mut manager = ChunkManager::new_1(4, |_x: i64, _y: i64, _z: i64, _g: i64| 0u8);
    assert_eq!(manager.get_voxel_safe(&[1, 2, 3]), None);
    assert_eq!(manager.get_voxel(&[1, 2, 3]), 0);
    assert_eq!(manager.len(), 0);
    manager.new_chunk_mut(&[0, 0, 0]);
    assert_eq!(manager.get_voxel_safe(&[1, 2, 3]), Some(0));
    assert_eq!(manager.get_voxel_safe(&[14, 2, 3]), None);
    assert_eq!(manager.len(), 1);
}

#[test]
fn mutating_read_generates_the_owner_once() {
    let calls = Cell::new(0u32);
    let mut manager = ChunkManager::new_1(2, |_x: i64, y: i64, _z: i64, g: i64| {
        calls.set(calls.get() + 1);
        if y < g { 7 } else { 0 }
    });
    assert_eq!(manager.get_voxel_mut(&[0, 4, 0]), 7);
    assert_eq!(calls.get(), 64);
    assert_eq!(manager.len(), 1);
    assert_eq!(manager.get_voxel_mut(&[1, 5, 1]), 0);
    assert_eq!(calls.get(), 64);
    assert_eq!(manager.get_voxel_mut(&[2, 5, 1]), 0);
    assert_eq!(calls.get(), 128);
    assert_eq!(manager.get_voxel_mut(&[0, 4, 0]), 7);
    assert_eq!(calls.get(), 128);
    assert_eq!(manager.len(), 2);
}

#[test]
fn set_voxel_edits_on_top_of_generated_terrain() {
    let mut manager = ChunkManager::new_1(4, |_x: i64, y: i64, _z: i64, g: i64| if y < g { 1 } else { 0 });
    let chunk = manager.set_voxel(&[-1, -1, -1], 9);
    assert_eq!(chunk.key, [-1, -1, -1]);
    assert!(!chunk.is_default);
    assert_eq!(chunk.lod, 0);
    assert_eq!(chunk.octree.get_voxel(13, 13, 13), 9);
    assert_eq!(chunk.octree.get_voxel(13, 12, 13), 1);
    assert_eq!(manager.get_voxel(&[-1, -1, -1]), 9);
    assert_eq!(manager.get_voxel(&[-1, -2, -1]), 1);
    assert_eq!(manager.get_voxel_safe(&[0, 0, 0]), None);
    let above = manager.set_voxel(&[3, 9, 3], 0);
    assert_eq!(above.key, [0, 0, 0]);
    assert_eq!(manager.get_voxel(&[3, 4, 3]), 1);
    assert_eq!(manager.get_voxel(&[3, 5, 3]), 0);
    assert_eq!(manager.len(), 2);
}

#[test]
fn set_voxel_in_writes_the_named_chunk_only() {
    let mut manager = ChunkManager::new_1(4, |_x: i64, _y: i64, _z: i64, _g: i64| 0u8);
    let chunk = manager.set_voxel_in(&[2, 0, 0], 15, 0, 1, 4);
    assert_eq!(chunk.octree.get_voxel(15, 0, 1), 4);
    assert_eq!(manager.len(), 1);
    assert_eq!(manager.get_chunk(&[2, 0, 0]).unwrap().octree.get_voxel(15, 0, 1), 4);
    assert_eq!(manager.get_voxel_safe(&[43, 0, 1]), None);
}

#[test]
fn a_default_chunk_never_replaces_a_loaded_one() {
    let mut manager = ChunkManager::new_1(4, |_x: i64, _y: i64, _z: i64, _g: i64| 0u8);
    let key = [4, 5, 6];
    let mut edited = Chunk::new(key, 4);
    edited.octree.set_voxel(1, 1, 1, 3);
    edited.is_default = false;
    manager.set_chunk(&key, &edited);
    assert_eq!(manager.get_chunk(&key).unwrap().octree.get_voxel(1, 1, 1), 3);

    let blank = Chunk::new(key, 4);
    manager.set_chunk(&key, &blank);
    assert_eq!(manager.get_chunk(&key).unwrap().octree.get_voxel(1, 1, 1), 3);

    let mut other = Chunk::new(key, 4);
    other.octree.set_voxel(1, 1, 1, 8);
    other.is_default = false;
    manager.set_chunk(&key, &other);
    assert_eq!(manager.get_chunk(&key).unwrap().octree.get_voxel(1, 1, 1), 8);

    let elsewhere = [0, 0, 1];
    manager.set_chunk(&elsewhere, &Chunk::new(elsewhere, 4));
    assert!(manager.get_chunk(&elsewhere).is_some());
    assert_eq!(manager.get_chunk(&elsewhere).unwrap().key, elsewhere);
    manager.set_chunk(&elsewhere, &Chunk::new(elsewhere, 4));
    assert_eq!(manager.len(), 2);
}

#[test]
fn remove_chunk_keeps_edited_chunks() {
    let mut manager = ChunkManager::new_1(4, |_x: i64, _y: i64, _z: i64, _g: i64| 0u8);
    manager.new_chunk_mut(&[0, 0, 0]);
    manager.set_voxel(&[20, 0, 0], 1);
    assert_eq!(manager.len(), 2);
    manager.remove_chunk(&[9, 9, 9]);
    assert_eq!(manager.len(), 2);
    manager.remove_chunk(&[1, 0, 0]);
    assert_eq!(manager.len(), 2);
    assert!(manager.get_chunk(&[1, 0, 0]).is_some());
    manager.remove_chunk(&[0, 0, 0]);
    assert_eq!(manager.len(), 1);
    assert!(manager.get_chunk(&[0, 0, 0]).is_none());
}

#[test]
fn chunk_mode_of_a_missing_chunk_is_unloaded() {
    let mut manager = ChunkManager::new_1(4, |_x: i64, y: i64, _z: i64, g: i64| if y < g { 1 } else { 0 });
    assert_eq!(manager.chunk_mode(&[0, 0, 0]), ChunkMode::Unloaded);
    manager.new_chunk_mut(&[0, 0, 0]);
    manager.new_chunk_mut_1(&[0, 5, 0], 2);
    assert_eq!(manager.chunk_mode(&[0, 0, 0]), ChunkMode::Loaded);
    assert_eq!(manager.chunk_mode(&[0, 5, 0]), ChunkMode::Air);
    assert_eq!(manager.get_chunk(&[0, 5, 0]).unwrap().lod, 2);
    assert_eq!(manager.chunk_mode(&[0, 1, 0]), ChunkMode::Unloaded);
}

#[test]
fn get_chunk_mut_changes_the_stored_chunk() {
    let mut manager = ChunkManager::new_1(4, |_x: i64, _y: i64, _z: i64, _g: i64| 0u8);
    assert!(manager.get_chunk_mut(&[0, 0, 0]).is_none());
    manager.new_chunk_mut(&[0, 0, 0]);
    match manager.get_chunk_mut(&[0, 0, 0]) {
        Some(chunk) => {
            chunk.lod = 3;
            chunk.octree.set_voxel(2, 2, 2, 6);
        }
        None => panic!("the chunk was stored"),
    }
    assert_eq!(manager.get_chunk(&[0, 0, 0]).unwrap().lod, 3);
    assert_eq!(manager.get_voxel(&[2, 2, 2]), 6);
}

#[test]
fn streaming_twice_regenerates_nothing() {
    let calls = Cell::new(0u64);
    let mut manager = ChunkManager::new(3, 1, |_x: i64, y: i64, _z: i64, g: i64| {
        calls.set(calls.get() + 1);
        if y < g { 1 } else { 0 }
    });
    let first = manager.get_adj_chunks([0, 0, 0]);
    assert_eq!(first.len(), 27);
    assert_eq!(manager.len(), 27);
    assert_eq!(calls.get(), 27 * 512);
    let second = manager.get_adj_chunks([0, 0, 0]);
    assert_eq!(calls.get(), 27 * 512);
    assert_eq!(manager.len(), 27);
    assert_eq!(second.len(), 27);
    for i in 0..27 {
        assert_eq!(first[i].key, second[i].key);
        assert_eq!(first[i].mode, second[i].mode);
        assert_eq!(first[i].octree.data, second[i].octree.data);
    }
    assert_eq!(first[0].key, [-1, -1, -1]);
    assert_eq!(first[13].key, [0, 0, 0]);
    assert_eq!(first[26].key, [1, 1, 1]);

    let moved = manager.get_adj_chunks([1, 0, 0]);
    assert_eq!(moved.len(), 27);
    assert_eq!(manager.len(), 36);
    assert_eq!(calls.get(), 36 * 512);
}

#[test]
fn streaming_keeps_edited_chunks_as_they_are() {
    let mut manager = ChunkManager::new(3, 1, |_x: i64, _y: i64, _z: i64, _g: i64| 0u8);
    manager.set_voxel(&[1, 1, 1], 5);
    let chunks = manager.get_adj_chunks([0, 0, 0]);
    assert_eq!(chunks[13].key, [0, 0, 0]);
    assert!(!chunks[13].is_default);
    assert_eq!(chunks[13].octree.get_voxel(1, 1, 1), 5);
    assert!(chunks[12].is_default);
}

#[test]
fn classification_by_interior() {
    let solid = ChunkManager::new_chunk(&[0, -3, 0], 4, 0, 14, &|_x: i64, y: i64, _z: i64, g: i64| {
        if y < g { 1 } else { 0 }
    });
    assert_eq!(solid.mode, ChunkMode::Air);
    let air = ChunkManager::new_chunk(&[0, 5, 0], 4, 0, 14, &|_x: i64, y: i64, _z: i64, g: i64| {
        if y < g { 1 } else { 0 }
    });
    assert_eq!(air.mode, ChunkMode::Air);
    let mixed = ChunkManager::new_chunk(&[0, 0, 0], 4, 0, 14, &|_x: i64, y: i64, _z: i64, g: i64| {
        if y < g { 1 } else { 0 }
    });
    assert_eq!(mixed.mode, ChunkMode::Loaded);
    // Ground that reaches into the lowest layer only: the interior is air.
    let border = ChunkManager::new_chunk(&[0, 0, 0], 4, 0, 14, &|_x: i64, y: i64, _z: i64, _g: i64| {
        if y < 1 { 1 } else { 0 }
    });
    assert_eq!(border.mode, ChunkMode::Air);
    let tiny = ChunkManager::new_chunk(&[0, 0, 0], 1, 0, 2, &|_x: i64, _y: i64, _z: i64, _g: i64| 1u8);
    assert_eq!(tiny.mode, ChunkMode::Air);
    let single = ChunkManager::new_chunk(&[0, 0, 0], 0, 0, 1, &|_x: i64, _y: i64, _z: i64, _g: i64| 0u8);
    assert_eq!(single.mode, ChunkMode::Air);
    assert!(solid.is_default);
    assert_eq!(mixed.key, [0, 0, 0]);
    assert_eq!(air.key, [0, 5, 0]);
}

#[test]
fn generation_asks_for_world_coordinates_with_the_ground_level() {
    let chunk = ChunkManager::new_chunk(&[-2, 1, 3], 2, 7, 3, &|x: i64, y: i64, z: i64, g: i64| {
        assert_eq!(g, 5);
        (((x + 6) * 16 + (y - 3) * 4 + (z - 9)) % 251) as u8 + 1
    });
    assert_eq!(chunk.lod, 7);
    assert_eq!(chunk.octree.size, 4);
    for x in 0..4u32 {
        for y in 0..4u32 {
            for z in 0..4u32 {
                assert_eq!(chunk.octree.get_voxel(x, y, z) as u32, x * 16 + y * 4 + z + 1);
            }
        }
    }
}

#[test]
fn default_chunk_is_all_air_and_unloaded() {
    let chunk = Chunk::default();
    assert_eq!(chunk.key, [0, 0, 0]);
    assert_eq!(chunk.lod, 4);
    assert_eq!(chunk.mode, ChunkMode::Unloaded);
    assert!(chunk.is_default);
    assert_eq!(chunk.octree.get_size(), 16);
    assert_eq!(chunk.octree.get_voxel(15, 15, 15), 0);
    let copy = chunk.clone();
    assert_eq!(copy.octree.data, chunk.octree.data);
    let named = Chunk::new([1, 2, 3], 3);
    assert_eq!(named.key, [1, 2, 3]);
    assert_eq!(named.octree.get_size(), 8);
    assert_eq!(VoxelOctree::new(0, 3).data, named.octree.data);
}

#[test]
fn chunks_carry_the_key_they_are_stored_under() {
    let mut manager = ChunkManager::new(3, 1, |_x: i64, y: i64, _z: i64, g: i64| if y < g { 1 } else { 0 });
    let edited = manager.set_voxel(&[-7, 20, 3], 4);
    assert_eq!(edited.key, [-2, 3, 0]);
    let written = manager.set_voxel_in(&[5, 5, 5], 0, 0, 0, 1);
    assert_eq!(written.key, [5, 5, 5]);
    manager.get_voxel_mut(&[100, 0, 0]);
    assert_eq!(manager.get_chunk(&[16, 0, 0]).unwrap().key, [16, 0, 0]);
    let made = manager.new_chunk_mut_1(&[9, 9, 9], 1);
    assert_eq!(made.key, [9, 9, 9]);
    let keys = adjacent_keys(&[0, 3, 0], 1, true);
    let chunks = manager.get_adj_chunks([0, 3, 0]);
    for i in 0..keys.len() {
        assert_eq!(chunks[i].key, keys[i]);
        assert_eq!(manager.get_chunk(&keys[i]).unwrap().key, keys[i]);
    }
    assert_eq!(manager.get_chunk(&[-2, 3, 0]).unwrap().key, [-2, 3, 0]);
}
