use voxels::data::voxel_octree::ParentValueType;
use voxels::data::voxel_octree::VoxelOctree;

#[test]
fn new_octree_holds_the_default_everywhere() {
    let octree = VoxelOctree::new(7, 3);
    assert_eq!(octree.get_size(), 8);
    for x in 0..8 {
        for y in 0..8 {
            for z in 0..8 {
                assert_eq!(octree.get_voxel(x, y, z), 7);
            }
        }
    }
}

#[test]
fn set_voxel_then_get_voxel_returns_the_value() {
    let mut octree = VoxelOctree::new(0, 4);
    octree.set_voxel(3, 5, 9, 42);
    assert_eq!(octree.get_voxel(3, 5, 9), 42);
    assert_eq!(octree.get_voxel(3, 5, 8), 0);
    assert_eq!(octree.get_voxel_lod(1, 2, 4, 1), 42);
    assert_eq!(octree.get_voxel_lod(0, 0, 0, 4), 42);
    assert_eq!(octree.get_voxel_lod(0, 0, 0, 1), 0);
}

#[test]
fn bulk_construction_matches_single_writes() {
    let data = vec![[0u32, 0, 0, 3], [1, 1, 1, 9], [0, 0, 0, 4]];
    let bulk = VoxelOctree::new_from_3d_array(1, 2, &data, ParentValueType::Lod);
    let mut single = VoxelOctree::new(1, 2);
    single.set_voxel(0, 0, 0, 3);
    single.set_voxel(1, 1, 1, 9);
    single.set_voxel(0, 0, 0, 4);
    assert_eq!(bulk.data, single.data);
    assert_eq!(bulk.get_voxel(0, 0, 0), 4);
    assert_eq!(bulk.get_voxel_lod(0, 0, 0, 1), 9);
}

#[test]
fn parents_hold_the_highest_child() {
    let mut octree = VoxelOctree::new(0, 3);
    octree.set_voxel(0, 0, 0, 2);
    octree.set_voxel(1, 1, 1, 7);
    octree.set_voxel(7, 0, 0, 1);
    assert_eq!(octree.get_voxel_lod(0, 0, 0, 1), 7);
    assert_eq!(octree.get_voxel_lod(3, 0, 0, 1), 1);
    assert_eq!(octree.get_voxel_lod(0, 0, 0, 2), 7);
    assert_eq!(octree.get_voxel_lod(1, 0, 0, 2), 1);
    assert_eq!(octree.get_voxel_lod(0, 1, 0, 2), 0);
    assert_eq!(octree.get_voxel_lod(0, 0, 0, 3), 7);
    // Clearing the highest voxel brings the next one up.
    octree.set_voxel(1, 1, 1, 0);
    assert_eq!(octree.get_voxel_lod(0, 0, 0, 1), 2);
    assert_eq!(octree.get_voxel_lod(0, 0, 0, 3), 2);
    octree.set_voxel(0, 0, 0, 0);
    assert_eq!(octree.get_voxel_lod(0, 0, 0, 3), 1);
    octree.set_voxel(7, 0, 0, 0);
    assert_eq!(octree.data, VoxelOctree::new(0, 3).data);
}

#[test]
fn occupancy_parents_record_presence_only() {
    let data = vec![[0u32, 0, 0, 9], [3, 3, 3, 200]];
    let octree = VoxelOctree::new_from_3d_array(0, 2, &data, ParentValueType::Occupancy);
    assert_eq!(octree.get_voxel(0, 0, 0), 9);
    assert_eq!(octree.get_voxel(3, 3, 3), 200);
    assert_eq!(octree.get_voxel_lod(0, 0, 0, 1), 1);
    assert_eq!(octree.get_voxel_lod(1, 1, 1, 1), 1);
    assert_eq!(octree.get_voxel_lod(1, 0, 0, 1), 0);
    assert_eq!(octree.get_voxel_lod(0, 0, 0, 2), 1);
    let empty = VoxelOctree::new_from_3d_array(0, 2, &Vec::new(), ParentValueType::Occupancy);
    assert_eq!(empty.get_voxel_lod(0, 0, 0, 2), 0);
}

#[test]
fn octree_layout_is_finest_level_first() {
    let mut octree = VoxelOctree::new(0, 1);
    assert_eq!(octree.data.len(), 9);
    octree.set_voxel(1, 0, 1, 5);
    assert_eq!(octree.data, vec![0, 0, 0, 0, 0, 5, 0, 0, 5]);
    assert_eq!(VoxelOctree::new(3, 0).data, vec![3]);
    assert_eq!(VoxelOctree::new(0, 4).data.len(), 4096 + 512 + 64 + 8 + 1);
    let copy = octree.clone();
    assert_eq!(copy.data, octree.data);
    assert_eq!(copy.depth, 1);
    assert_eq!(copy.parent_value, ParentValueType::Lod);
}

#[test]
fn bounds_are_the_edge_on_every_axis() {
    let octree = VoxelOctree::new(0, 4);
    assert!(octree.in_bounds(0, 0, 0));
    assert!(octree.in_bounds(15, 15, 15));
    assert!(!octree.in_bounds(16, 0, 0));
    assert!(!octree.in_bounds(0, 16, 0));
    assert!(!octree.in_bounds(0, 0, 16));
    assert!(VoxelOctree::new(0, 0).in_bounds(0, 0, 0));
    assert!(!VoxelOctree::new(0, 0).in_bounds(0, 1, 0));
}

#[test]
fn validity_is_checked_node_by_node() {
    let mut octree = VoxelOctree::new(0, 3);
    assert!(octree.is_valid());
    octree.set_voxel(1, 2, 3, 9);
    assert!(octree.is_valid());
    let bulk = VoxelOctree::new_from_3d_array(2, 2, &vec![[1u32, 1, 1, 0]], ParentValueType::Occupancy);
    assert!(bulk.is_valid());

    // A voxel changed behind the octree's back leaves its parents stale.
    let mut stale = VoxelOctree::new(0, 3);
    stale.data[0] = 5;
    assert!(!stale.is_valid());
    // So does a parent that claims what no child holds.
    let mut lying = VoxelOctree::new(0, 3);
    let root = lying.data.len() - 1;
    lying.data[root] = 1;
    assert!(!lying.is_valid());
    // The same nodes under another policy.
    let mut other = VoxelOctree::new(0, 2);
    other.set_voxel(0, 0, 0, 7);
    other.parent_value = ParentValueType::Occupancy;
    assert!(!other.is_valid());

    let mut short = VoxelOctree::new(0, 2);
    short.data.pop();
    assert!(!short.is_valid());
    let mut wrong_size = VoxelOctree::new(0, 2);
    wrong_size.size = 8;
    assert!(!wrong_size.is_valid());
    let mut deep = VoxelOctree::new(0, 2);
    deep.depth = 11;
    assert!(!deep.is_valid());
    let mut shallow = VoxelOctree::new(0, 2);
    shallow.depth = 1;
    assert!(!shallow.is_valid());
}
