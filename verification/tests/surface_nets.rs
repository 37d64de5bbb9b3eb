use voxels::chunk::chunk_manager::ChunkManager;
use voxels::chunk::chunk_manager::ChunkMode;
use voxels::data::surface_nets::decode;
use voxels::data::surface_nets::dominant_material;
use voxels::data::surface_nets::get_surface_nets;
use voxels::data::surface_nets::get_surface_nets2;
use voxels::data::surface_nets::normal_of;
use voxels::data::surface_nets::MeshData;
use voxels::data::surface_nets::VoxelReuse;
use voxels::data::voxel_octree::VoxelMode;
use voxels::data::voxel_octree::VoxelOctree;

fn flat_ground(_x: i64, y: i64, _z: i64, ground: i64) -> u8 {
    if y < ground {
        1
    } else {
        0
    }
}

/// Hills of two materials, the same wherever it is asked.
fn hills(x: i64, y: i64, z: i64, ground: i64) -> u8 {
    let height = ground + ((x * 7 + z * 3).rem_euclid(5)) - 2;
    if y < height {
        if (x + z).rem_euclid(3) == 0 {
            2
        } else {
            1
        }
    } else {
        0
    }
}

#[test]
fn a_single_voxel_becomes_a_closed_shell() {
    let mut octree = VoxelOctree::new(0, 4);
    octree.set_voxel(8, 8, 8, 5);
    let mut reuse = VoxelReuse::new(4);
    let mesh = octree.compute_mesh(VoxelMode::SurfaceNets, &mut reuse, 0);

    assert_eq!(
        mesh.positions,
        vec![
            [15, 15, 15],
            [15, 15, 17],
            [15, 17, 15],
            [15, 17, 17],
            [17, 15, 15],
            [17, 15, 17],
            [17, 17, 15],
            [17, 17, 17],
        ]
    );
    assert_eq!(
        mesh.normals,
        vec![
            [-1, -1, -1],
            [-1, -1, 1],
            [-1, 1, -1],
            [-1, 1, 1],
            [1, -1, -1],
            [1, -1, 1],
            [1, 1, -1],
            [1, 1, 1],
        ]
    );
    assert_eq!(mesh.materials, vec![5; 8]);
    assert_eq!(
        mesh.indices,
        vec![
            3, 0, 1, 3, 2, 0, 5, 0, 4, 5, 1, 0, 6, 0, 2, 6, 4, 0, 7, 5, 4, 7, 4, 6, 7, 6, 2, 7, 2, 3, 7, 3, 1, 7,
            1, 5,
        ]
    );
    assert_eq!(mesh.lod, 0);
}

#[test]
fn every_triangle_faces_the_air() {
    let chunk = ChunkManager::new_chunk(&[0, 0, 0], 4, 0, 14, &hills);
    let mut reuse = VoxelReuse::new(4);
    let mesh = chunk.octree.compute_mesh(VoxelMode::SurfaceNets, &mut reuse, 0);
    assert!(mesh.indices.len() > 0);
    assert_eq!(mesh.indices.len() % 3, 0);
    for triangle in mesh.indices.chunks(3) {
        let a = mesh.positions[triangle[0] as usize];
        let b = mesh.positions[triangle[1] as usize];
        let c = mesh.positions[triangle[2] as usize];
        let u = [b[0] as i64 - a[0] as i64, b[1] as i64 - a[1] as i64, b[2] as i64 - a[2] as i64];
        let v = [c[0] as i64 - a[0] as i64, c[1] as i64 - a[1] as i64, c[2] as i64 - a[2] as i64];
        let face = [u[1] * v[2] - u[2] * v[1], u[2] * v[0] - u[0] * v[2], u[0] * v[1] - u[1] * v[0]];
        // The triangle lies across one grid edge, which leaves the grid
        // point of its first vertex's cell along the axis that the
        // triangle faces.
        let axis = if face[0] != 0 {
            0
        } else if face[1] != 0 {
            1
        } else {
            2
        };
        assert_eq!(face[axis].abs(), 4);
        assert_eq!(face[(axis + 1) % 3], 0);
        assert_eq!(face[(axis + 2) % 3], 0);
        let here = [(a[0] - 1) / 2, (a[1] - 1) / 2, (a[2] - 1) / 2];
        let mut there = here;
        there[axis] += 1;
        let material_here = chunk.octree.get_voxel(here[0], here[1], here[2]) != 0;
        let material_there = chunk.octree.get_voxel(there[0], there[1], there[2]) != 0;
        if face[axis] > 0 {
            assert!(material_here && !material_there, "triangle {:?} faces {:?}", triangle, face);
        } else {
            assert!(!material_here && material_there, "triangle {:?} faces {:?}", triangle, face);
        }
    }
}

#[test]
fn flat_ground_gives_a_flat_shell() {
    let ground = ChunkManager::new_chunk(&[0, 0, 0], 4, 0, 14, &flat_ground);
    assert_eq!(ground.mode, ChunkMode::Loaded);
    let mut reuse = VoxelReuse::new(4);
    let mesh = ground.compute_mesh(VoxelMode::SurfaceNets, &mut reuse, 0);
    assert!(mesh.indices.len() / 3 > 0);
    assert_eq!(mesh.positions.len(), 225);
    assert_eq!(mesh.normals.len(), 225);
    assert_eq!(mesh.materials.len(), 225);
    assert_eq!(mesh.indices.len(), 1176);
    for position in mesh.positions.iter() {
        assert_eq!(position[1], 9);
    }
    for normal in mesh.normals.iter() {
        assert_eq!(*normal, [0, 4, 0]);
    }
    for material in mesh.materials.iter() {
        assert_eq!(*material, 1);
    }
    assert_eq!(mesh.positions[0], [1, 9, 1]);
    assert_eq!(mesh.positions[224], [29, 9, 29]);

    let sky = ChunkManager::new_chunk(&[0, 5, 0], 4, 0, 14, &flat_ground);
    assert_eq!(sky.mode, ChunkMode::Air);
    let nothing = sky.compute_mesh(VoxelMode::SurfaceNets, &mut reuse, 0);
    assert_eq!(nothing.positions.len(), 0);
    assert_eq!(nothing.normals.len(), 0);
    assert_eq!(nothing.indices.len(), 0);
}

#[test]
fn an_air_chunk_is_not_meshed_even_where_its_seam_has_a_surface() {
    let border = ChunkManager::new_chunk(&[0, 0, 0], 4, 0, 14, &|_x: i64, y: i64, _z: i64, _g: i64| {
        if y < 1 {
            1u8
        } else {
            0u8
        }
    });
    assert_eq!(border.mode, ChunkMode::Air);
    let mut reuse = VoxelReuse::new(4);
    let own = border.octree.compute_mesh(VoxelMode::SurfaceNets, &mut reuse, 0);
    assert_eq!(own.positions.len(), 225);
    let shown = border.compute_mesh(VoxelMode::SurfaceNets, &mut reuse, 0);
    assert_eq!(shown.positions.len(), 0);
    assert_eq!(shown.indices.len(), 0);
    assert_eq!(shown.lod, 0);
}

#[test]
fn a_coarser_level_meshes_the_summaries() {
    let ground = ChunkManager::new_chunk(&[0, 0, 0], 4, 0, 14, &flat_ground);
    let mut reuse = VoxelReuse::new(4);
    let mesh = ground.octree.compute_mesh(VoxelMode::SurfaceNets, &mut reuse, 1);
    assert_eq!(mesh.lod, 1);
    assert_eq!(reuse.size, 8);
    assert_eq!(reuse.voxels.len(), 512);
    assert_eq!(mesh.positions.len(), 49);
    assert_eq!(mesh.indices.len(), 216);
    for position in mesh.positions.iter() {
        assert_eq!(position[1], 10);
    }
    assert_eq!(mesh.positions[0], [2, 10, 2]);
    assert_eq!(mesh.positions[48], [26, 10, 26]);

    let coarsest = ground.octree.compute_mesh(VoxelMode::SurfaceNets, &mut reuse, 4);
    assert_eq!(reuse.size, 1);
    assert_eq!(coarsest.positions.len(), 0);
    assert_eq!(coarsest.lod, 4);
}

#[test]
fn decoding_copies_the_level() {
    let mut octree = VoxelOctree::new(0, 3);
    octree.set_voxel(1, 2, 3, 9);
    octree.set_voxel(7, 7, 7, 4);
    let mut reuse = VoxelReuse::new_1(2);
    decode(&octree, 0, &mut reuse);
    assert_eq!(reuse.size, 8);
    assert_eq!(reuse.voxels.len(), 512);
    assert_eq!(reuse.grid_pos.len(), 512);
    for x in 0..8u32 {
        for y in 0..8u32 {
            for z in 0..8u32 {
                assert_eq!(reuse.voxels[((x * 8 + y) * 8 + z) as usize], octree.get_voxel(x, y, z));
            }
        }
    }
    decode(&octree, 2, &mut reuse);
    assert_eq!(reuse.size, 2);
    assert_eq!(reuse.voxels, vec![9, 0, 0, 0, 0, 0, 0, 4]);
}

#[test]
fn the_cache_records_the_vertex_of_each_surface_cell() {
    let mut octree = VoxelOctree::new(0, 2);
    octree.set_voxel(1, 1, 1, 3);
    let mut reuse = VoxelReuse::new(2);
    decode(&octree, 0, &mut reuse);
    let mesh = get_surface_nets(&mut reuse, 0);
    assert_eq!(mesh.positions.len(), 8);
    let mut seen = 0;
    for x in 0..2u32 {
        for y in 0..2u32 {
            for z in 0..2u32 {
                let record = reuse.grid_pos[((x * 4 + y) * 4 + z) as usize];
                assert_eq!(record.index, seen);
                assert_eq!(record.pos, Some([2 * x + 1, 2 * y + 1, 2 * z + 1]));
                assert_eq!(mesh.positions[record.index as usize], [2 * x + 1, 2 * y + 1, 2 * z + 1]);
                seen += 1;
            }
        }
    }
}

#[test]
fn the_dominant_material_is_the_most_frequent_then_the_highest() {
    assert_eq!(dominant_material(&[0, 0, 0, 0, 0, 0, 0, 0]), 0);
    assert_eq!(dominant_material(&[0, 0, 0, 7, 0, 0, 0, 0]), 7);
    assert_eq!(dominant_material(&[3, 3, 3, 9, 0, 0, 0, 0]), 3);
    assert_eq!(dominant_material(&[1, 1, 2, 2, 0, 0, 0, 0]), 2);
    assert_eq!(dominant_material(&[2, 2, 1, 1, 0, 0, 0, 0]), 2);
    assert_eq!(dominant_material(&[5, 4, 3, 2, 1, 0, 0, 0]), 5);
    assert_eq!(dominant_material(&[1, 2, 2, 1, 1, 2, 0, 0]), 2);
    assert_eq!(dominant_material(&[255, 1, 1, 0, 0, 0, 0, 0]), 1);
}

#[test]
fn the_normal_points_away_from_the_material() {
    assert_eq!(normal_of(&[1, 0, 0, 0, 0, 0, 0, 0]), [1, 1, 1]);
    assert_eq!(normal_of(&[0, 0, 0, 0, 0, 0, 0, 9]), [-1, -1, -1]);
    assert_eq!(normal_of(&[1, 1, 1, 1, 0, 0, 0, 0]), [4, 0, 0]);
    assert_eq!(normal_of(&[0, 1, 0, 1, 0, 1, 0, 1]), [0, 0, -4]);
    assert_eq!(normal_of(&[1, 0, 0, 1, 0, 1, 1, 0]), [0, 0, 0]);
}

#[test]
fn neighbouring_chunks_agree_on_the_seam() {
    let left = ChunkManager::new_chunk(&[0, 0, 0], 4, 0, 14, &hills);
    let right = ChunkManager::new_chunk(&[1, 0, 0], 4, 0, 14, &hills);
    let mut reuse = VoxelReuse::new(4);
    let left_mesh = left.octree.compute_mesh(VoxelMode::SurfaceNets, &mut reuse, 0);
    let right_mesh = right.octree.compute_mesh(VoxelMode::SurfaceNets, &mut reuse, 0);

    // The cell at world x = 14 is the last cell of the left chunk and the
    // first of the right one: vertices at 2 * 14 + 1 half voxels.
    let mut from_left = Vec::new();
    for i in 0..left_mesh.positions.len() {
        let p = left_mesh.positions[i];
        if p[0] == 29 {
            from_left.push(([p[0] as i64, p[1] as i64, p[2] as i64], left_mesh.normals[i], left_mesh.materials[i]));
        }
    }
    let mut from_right = Vec::new();
    for i in 0..right_mesh.positions.len() {
        let p = right_mesh.positions[i];
        if p[0] == 1 {
            from_right.push((
                [2 * 14 + p[0] as i64, p[1] as i64, p[2] as i64],
                right_mesh.normals[i],
                right_mesh.materials[i],
            ));
        }
    }
    assert!(from_left.len() > 0);
    assert_eq!(from_left, from_right);

    // Both agree with the mesh of the two chunks merged into one volume.
    let mut merged = VoxelOctree::new(0, 5);
    for x in 0..30u32 {
        for y in 0..16u32 {
            for z in 0..16u32 {
                merged.set_voxel(x, y, z, hills(x as i64, y as i64, z as i64, 5));
            }
        }
    }
    let merged_mesh = merged.compute_mesh(VoxelMode::SurfaceNets, &mut reuse, 0);
    let mut from_merged = Vec::new();
    for i in 0..merged_mesh.positions.len() {
        let p = merged_mesh.positions[i];
        if p[0] == 29 && p[1] < 31 && p[2] < 31 {
            from_merged.push((
                [p[0] as i64, p[1] as i64, p[2] as i64],
                merged_mesh.normals[i],
                merged_mesh.materials[i],
            ));
        }
    }
    assert_eq!(from_left, from_merged);
}

#[test]
fn stitched_meshing_reads_the_seam_from_the_table() {
    let mut manager = ChunkManager::new_1(4, flat_ground);
    let left = manager.new_chunk_mut(&[0, 0, 0]);

    // No neighbour loaded: the chunk's own seam is used.
    let mut reuse = VoxelReuse::new(4);
    let alone = get_surface_nets2(&left.octree, &manager, &mut reuse, [0, 0, 0], 0);
    let own = left.octree.compute_mesh(VoxelMode::SurfaceNets, &mut VoxelReuse::new(4), 0);
    assert_eq!(alone.positions, own.positions);
    assert_eq!(alone.indices, own.indices);

    // The neighbour is edited in the voxel that the left chunk repeats at
    // x = 14: the left chunk's own copy is stale, the table is not.
    manager.set_voxel(&[14, 8, 8], 9);
    assert_eq!(left.octree.get_voxel(14, 8, 8), 0);
    let stitched = get_surface_nets2(&left.octree, &manager, &mut reuse, [0, 0, 0], 0);
    assert_eq!(reuse.voxels[(14 * 16 + 8) * 16 + 8], 9);
    assert_eq!(reuse.voxels[(13 * 16 + 8) * 16 + 8], 0);
    assert_eq!(stitched.positions.len(), own.positions.len() + 8);
    assert!(stitched.materials.contains(&9));
    let again = left.octree.compute_mesh2(VoxelMode::SurfaceNets, &manager, [0, 0, 0], 0);
    assert_eq!(again.positions, stitched.positions);
    assert_eq!(again.indices, stitched.indices);
    let still = left.octree.compute_mesh(VoxelMode::SurfaceNets, &mut reuse, 0);
    assert_eq!(still.positions, own.positions);
}

#[test]
fn an_empty_mesh_has_no_buffers() {
    let mesh = MeshData::empty(3);
    assert_eq!(mesh.positions.len(), 0);
    assert_eq!(mesh.normals.len(), 0);
    assert_eq!(mesh.materials.len(), 0);
    assert_eq!(mesh.indices.len(), 0);
    assert_eq!(mesh.lod, 3);
    let reuse = VoxelReuse::new(4);
    assert_eq!(reuse.size, 16);
    assert_eq!(reuse.voxels, vec![0u8; 4096]);
    assert_eq!(reuse.grid_pos.len(), 4096);
    assert_eq!(VoxelReuse::new_1(3).voxels.len(), 27);
    assert!(reuse.is_valid());
    let short = VoxelReuse { voxels: vec![0; 26], grid_pos: VoxelReuse::new_1(3).grid_pos, size: 3 };
    assert!(!short.is_valid());
    let none = VoxelReuse { voxels: Vec::new(), grid_pos: Vec::new(), size: 0 };
    assert!(!none.is_valid());
}

#[test]
fn a_surface_in_the_seam_of_two_air_chunks_is_shown_by_neither() {
    // Ground below 15: the surface lies between the last two layers of
    // the lower chunk, which are the first two of the upper one.
    let ground = |_x: i64, y: i64, _z: i64, _g: i64| if y < 15 { 1u8 } else { 0u8 };
    let lower = ChunkManager::new_chunk(&[0, 0, 0], 4, 0, 14, &ground);
    let upper = ChunkManager::new_chunk(&[0, 1, 0], 4, 0, 14, &ground);
    assert_eq!(lower.mode, ChunkMode::Air);
    assert_eq!(upper.mode, ChunkMode::Air);
    let mut reuse = VoxelReuse::new(4);
    assert_eq!(lower.compute_mesh(VoxelMode::SurfaceNets, &mut reuse, 0).positions.len(), 0);
    assert_eq!(upper.compute_mesh(VoxelMode::SurfaceNets, &mut reuse, 0).positions.len(), 0);

    // The extraction itself finds the surface in both, at one place in the
    // world: cell 14 of the lower chunk is cell 0 of the upper one.
    let below = lower.octree.compute_mesh(VoxelMode::SurfaceNets, &mut reuse, 0);
    let above = upper.octree.compute_mesh(VoxelMode::SurfaceNets, &mut reuse, 0);
    assert_eq!(below.positions.len(), 225);
    assert_eq!(above.positions.len(), 225);
    let mut from_below: Vec<[u32; 3]> = below.positions.clone();
    let mut from_above: Vec<[u32; 3]> = above.positions.iter().map(|p| [p[0], p[1] + 28, p[2]]).collect();
    from_below.sort();
    from_above.sort();
    assert_eq!(from_below, from_above);
    assert_eq!(below.positions[0], [1, 29, 1]);
    assert_eq!(above.positions[0], [1, 1, 1]);
    assert_eq!(below.normals, above.normals);
}
