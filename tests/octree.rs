use textured_voxelizer::octree::{TreeBody, Voxel, VoxelTree};

fn set(t: &mut VoxelTree<usize>, x: i64, y: i64, z: i64, v: usize) {
    *t.get_mut_or_create(Voxel::new(x, y, z)) = TreeBody::Leaf(v);
}

fn value(t: &VoxelTree<usize>, x: i64, y: i64, z: i64) -> Option<usize> {
    t.get(Voxel::new(x, y, z)).copied()
}

#[test]
fn new_tree_is_empty() {
    let mut t = VoxelTree::<usize>::new();
    assert_eq!(t.size, 0);
    assert!(t.contents.iter().all(|c| matches!(c, TreeBody::Empty)));
    assert_eq!(t.get_any_mut_or_create(), None);
    assert_eq!(t.size, 0);
}

#[test]
fn empty_children() {
    let b = TreeBody::<u8>::empty();
    assert_eq!(b.len(), 8);
    assert!(b.iter().all(|c| matches!(c, TreeBody::Empty)));
}

#[test]
fn contains_bounds_of_size_zero() {
    let t = VoxelTree::<usize>::new();
    assert!(t.contains_bounds(Voxel::new(0, 0, 0)));
    assert!(t.contains_bounds(Voxel::new(-1, -1, -1)));
    assert!(t.contains_bounds(Voxel::new(-1, 0, -1)));
    assert!(!t.contains_bounds(Voxel::new(1, 0, 0)));
    assert!(!t.contains_bounds(Voxel::new(0, -2, 0)));
    assert!(!t.contains_bounds(Voxel::new(0, 0, 1)));
}

#[test]
fn grow_to_hold_doubles_until_contained() {
    let mut t = VoxelTree::<usize>::new();
    t.grow_to_hold(Voxel::new(5, 0, 0));
    assert_eq!(t.size, 3);
    assert!(t.contains_bounds(Voxel::new(5, 0, 0)));
    assert!(t.contains_bounds(Voxel::new(-8, 7, -8)));
    assert!(!t.contains_bounds(Voxel::new(8, 0, 0)));
    t.grow_to_hold(Voxel::new(0, -9, 0));
    assert_eq!(t.size, 4);
    t.grow_to_hold(Voxel::new(1, 1, 1));
    assert_eq!(t.size, 4);
}

#[test]
fn grow_preserves_content() {
    let mut t = VoxelTree::<usize>::new();
    let points = [(0, 0, 0, 1), (-1, -1, -1, 2), (-1, 0, 0, 3), (0, -1, 0, 4), (0, 0, -1, 5)];
    for &(x, y, z, v) in points.iter() {
        set(&mut t, x, y, z, v);
    }
    assert_eq!(t.size, 0);
    t.grow_to_hold(Voxel::new(100, -100, 3));
    assert_eq!(t.size, 7);
    for &(x, y, z, v) in points.iter() {
        assert_eq!(value(&t, x, y, z), Some(v));
    }
    assert_eq!(value(&t, 1, 0, 0), None);
    assert_eq!(value(&t, -2, -1, -1), None);
}

#[test]
fn get_mut_or_create_grows_and_stores() {
    let mut t = VoxelTree::<usize>::new();
    set(&mut t, 3, -4, 12, 9);
    assert_eq!(t.size, 4);
    assert_eq!(value(&t, 3, -4, 12), Some(9));
    assert_eq!(value(&t, 3, -4, 11), None);
    assert_eq!(value(&t, 2, -4, 12), None);
    assert_eq!(value(&t, 100, 0, 0), None);
    assert!(matches!(t.get_mut_or_create(Voxel::new(3, -4, 12)), TreeBody::Leaf(9)));
    assert!(matches!(t.get_mut_or_create(Voxel::new(0, 0, 0)), TreeBody::Empty));
    set(&mut t, 3, -4, 12, 10);
    assert_eq!(value(&t, 3, -4, 12), Some(10));
    *t.get_mut_or_create(Voxel::new(3, -4, 12)) = TreeBody::Empty;
    assert_eq!(value(&t, 3, -4, 12), None);
}

#[test]
fn get_any_finds_each_stored_voxel_then_none() {
    let mut t = VoxelTree::<usize>::new();
    let points = [(5, 5, 5), (-7, 2, 0), (0, -3, 6)];
    for &(x, y, z) in points.iter() {
        set(&mut t, x, y, z, 1);
    }
    let mut found = Vec::new();
    while let Some(v) = t.get_any_mut_or_create() {
        assert!(t.contains_bounds(v));
        assert_eq!(value(&t, v.x, v.y, v.z), Some(1));
        *t.get_mut_or_create(v) = TreeBody::Empty;
        found.push((v.x, v.y, v.z));
    }
    found.sort();
    let mut expected = points.to_vec();
    expected.sort();
    assert_eq!(found, expected);
    assert!(t.contents.iter().all(|c| matches!(c, TreeBody::Empty)));
}

#[test]
fn get_any_searches_children_in_index_order() {
    let mut t = VoxelTree::<usize>::new();
    set(&mut t, 1, 1, 1, 1);
    set(&mut t, -2, 1, 1, 2);
    set(&mut t, -1, -1, -1, 3);
    assert_eq!(t.get_any_mut_or_create(), Some(Voxel::new(-1, -1, -1)));
    *t.get_mut_or_create(Voxel::new(-1, -1, -1)) = TreeBody::Empty;
    assert_eq!(t.get_any_mut_or_create(), Some(Voxel::new(-2, 1, 1)));
}

#[test]
fn stored_voxels_lie_within_bounds() {
    let mut t = VoxelTree::<usize>::new();
    set(&mut t, -30, 17, 2, 4);
    set(&mut t, 31, -32, 0, 5);
    assert!(t.contains_bounds(Voxel::new(-30, 17, 2)));
    assert!(t.contains_bounds(Voxel::new(31, -32, 0)));
    assert_eq!(t.size, 5);
}

#[test]
fn doubling_moves_each_child_to_the_opposite_slot() {
    let mut t = VoxelTree::<usize>::new();
    for i in 0..8i64 {
        let x = if i & 4 != 0 { 0 } else { -1 };
        let y = if i & 2 != 0 { 0 } else { -1 };
        let z = if i & 1 != 0 { 0 } else { -1 };
        set(&mut t, x, y, z, i as usize);
    }
    assert_eq!(t.size, 0);
    t.grow_to_hold(Voxel::new(1, 0, 0));
    assert_eq!(t.size, 1);
    for i in 0..8usize {
        match &t.contents[i] {
            TreeBody::Branch(b) => {
                for j in 0..8usize {
                    if j == 7 - i {
                        assert!(matches!(b[j], TreeBody::Leaf(v) if v == i));
                    } else {
                        assert!(matches!(b[j], TreeBody::Empty));
                    }
                }
            }
            _ => panic!("expected a branch"),
        }
    }
}

#[test]
fn grow_to_hold_leaves_a_holding_tree_alone() {
    let mut t = VoxelTree::<usize>::new();
    set(&mut t, 2, 2, 2, 8);
    assert_eq!(t.size, 2);
    t.grow_to_hold(Voxel::new(-4, 3, 0));
    assert_eq!(t.size, 2);
    assert_eq!(value(&t, 2, 2, 2), Some(8));
}

#[test]
fn empty_search_prunes_every_top_level_child() {
    let mut t = VoxelTree::<usize>::new();
    set(&mut t, 5, -6, 7, 1);
    set(&mut t, -3, 2, -1, 2);
    *t.get_mut_or_create(Voxel::new(5, -6, 7)) = TreeBody::Empty;
    *t.get_mut_or_create(Voxel::new(-3, 2, -1)) = TreeBody::Empty;
    assert!(t.contents.iter().any(|c| matches!(c, TreeBody::Branch(_))));
    assert_eq!(t.get_any_mut_or_create(), None);
    assert!(t.contents.iter().all(|c| matches!(c, TreeBody::Empty)));
}
