use textured_voxelizer::octree::{TreeBody, Voxel, VoxelTree};
use textured_voxelizer::simplify::{brick_units, simplify, simplify_lossless, Brick, Region};

fn summary(bricks: &[Brick]) -> Vec<(Region, usize)> {
    bricks.iter().map(|b| (b.region, b.color)).collect()
}

fn tree_of(points: &[(i64, i64, i64, usize)]) -> VoxelTree<usize> {
    let mut t = VoxelTree::<usize>::new();
    for &(x, y, z, v) in points {
        *t.get_mut_or_create(Voxel::new(x, y, z)) = TreeBody::Leaf(v);
    }
    t
}

fn block(x0: i64, x1: i64, y0: i64, y1: i64, z0: i64, z1: i64, v: usize) -> Vec<(i64, i64, i64, usize)> {
    let mut out = Vec::new();
    for x in x0..x1 {
        for y in y0..y1 {
            for z in z0..z1 {
                out.push((x, y, z, v));
            }
        }
    }
    out
}

fn covers(r: &Region, x: i64, y: i64, z: i64) -> bool {
    r.x <= x && x < r.x + r.w && r.y <= y && y < r.y + r.h && r.z <= z && z < r.z + r.d
}

fn all_voxels(r: &Region) -> Vec<(i64, i64, i64)> {
    block(r.x, r.x + r.w, r.y, r.y + r.h, r.z, r.z + r.d, 0)
        .into_iter()
        .map(|(x, y, z, _)| (x, y, z))
        .collect()
}

/// Each stored voxel in exactly one region, no region voxel unstored, edges within 1..=200.
fn assert_partition(points: &[(i64, i64, i64, usize)], regions: &[Region]) {
    for &(x, y, z, _) in points {
        assert_eq!(regions.iter().filter(|r| covers(r, x, y, z)).count(), 1);
    }
    let total: i64 = regions.iter().map(|r| r.w * r.h * r.d).sum();
    assert_eq!(total as usize, points.len());
    for r in regions {
        assert!(1 <= r.w && r.w <= 200 && 1 <= r.h && r.h <= 200 && 1 <= r.d && r.d <= 200);
        for (x, y, z) in all_voxels(r) {
            assert!(points.iter().any(|&(a, b, c, _)| (a, b, c) == (x, y, z)));
        }
    }
}

#[test]
fn empty_tree_gives_no_boxes() {
    let mut t = VoxelTree::<usize>::new();
    assert!(simplify(&mut t).is_empty());
    assert_eq!(t.size, 0);
    let mut t = VoxelTree::<usize>::new();
    assert!(simplify_lossless(&mut t).is_empty());
    assert_eq!(t.size, 0);
}

#[test]
fn solid_block_becomes_one_brick() {
    let points = block(-1, 1, -1, 1, -1, 1, 0);
    let mut t = tree_of(&points);
    let bricks = simplify_lossless(&mut t);
    assert_eq!(summary(&bricks), vec![(Region { x: -1, y: -1, z: -1, w: 2, h: 2, d: 2 }, 0)]);
    assert_eq!(bricks[0].units.size, (10, 10, 4));
    assert_eq!(bricks[0].units.position, (0, 0, 0));
    assert_eq!(t.get_any_mut_or_create(), None);

    let mut t = tree_of(&points);
    let merged = simplify(&mut t);
    assert_eq!(merged.len(), 1);
    assert_eq!(merged[0].region, Region { x: -1, y: -1, z: -1, w: 2, h: 2, d: 2 });
    assert_eq!(merged[0].seed, 0);
    assert_eq!(merged[0].values, vec![0; 8]);
}

#[test]
fn lossless_splits_by_palette_index() {
    let mut points = block(0, 1, 0, 2, 0, 3, 4);
    points.extend(block(1, 2, 0, 2, 0, 3, 7));
    let mut t = tree_of(&points);
    let bricks = simplify_lossless(&mut t);
    assert_eq!(bricks.len(), 2);
    let regions: Vec<Region> = bricks.iter().map(|b| b.region).collect();
    assert_partition(&points, &regions);
    for b in &bricks {
        for (x, y, z) in all_voxels(&b.region) {
            let v = points.iter().find(|&&(a, c, d, _)| (a, c, d) == (x, y, z)).unwrap().3;
            assert_eq!(v, b.color);
        }
    }
    assert_eq!(
        summary(&bricks),
        vec![
            (Region { x: 0, y: 0, z: 0, w: 1, h: 2, d: 3 }, 4),
            (Region { x: 1, y: 0, z: 0, w: 1, h: 2, d: 3 }, 7),
        ]
    );
}

#[test]
fn lossy_merges_regardless_of_value() {
    let mut points = block(0, 1, 0, 2, 0, 3, 4);
    points.extend(block(1, 2, 0, 2, 0, 3, 7));
    let mut t = tree_of(&points);
    let merged = simplify(&mut t);
    assert_eq!(merged.len(), 1);
    assert_eq!(merged[0].region, Region { x: 0, y: 0, z: 0, w: 2, h: 2, d: 3 });
    assert_eq!(merged[0].values, vec![4, 4, 4, 4, 4, 4, 7, 7, 7, 7, 7, 7]);
}

#[test]
fn grows_z_then_y_then_x() {
    let points = vec![(0, 0, 0, 1), (0, 0, 1, 1), (0, 1, 0, 1), (1, 0, 0, 1), (1, 0, 1, 1)];
    let mut t = tree_of(&points);
    let merged = simplify(&mut t);
    let regions: Vec<Region> = merged.iter().map(|m| m.region).collect();
    assert_eq!(
        regions,
        vec![
            Region { x: 0, y: 0, z: 0, w: 2, h: 1, d: 2 },
            Region { x: 0, y: 1, z: 0, w: 1, h: 1, d: 1 },
        ]
    );
    assert_partition(&points, &regions);
}

#[test]
fn edges_stop_at_two_hundred() {
    let points = block(0, 1, 0, 1, 0, 250, 3);
    let mut t = tree_of(&points);
    let bricks = simplify_lossless(&mut t);
    assert_eq!(
        summary(&bricks),
        vec![
            (Region { x: 0, y: 0, z: 0, w: 1, h: 1, d: 200 }, 3),
            (Region { x: 0, y: 0, z: 200, w: 1, h: 1, d: 50 }, 3),
        ]
    );
}

#[test]
fn scattered_voxels_are_partitioned() {
    let mut points = Vec::new();
    for x in -6i64..6 {
        for y in -6i64..6 {
            for z in -6i64..6 {
                if (x * 7 + y * 3 + z * 5).rem_euclid(4) != 0 {
                    points.push((x, y, z, ((x + y + z).rem_euclid(3)) as usize));
                }
            }
        }
    }
    let mut t = tree_of(&points);
    let merged = simplify(&mut t);
    let regions: Vec<Region> = merged.iter().map(|m| m.region).collect();
    assert_partition(&points, &regions);
    assert_eq!(t.get_any_mut_or_create(), None);

    let mut t = tree_of(&points);
    let bricks = simplify_lossless(&mut t);
    let regions: Vec<Region> = bricks.iter().map(|b| b.region).collect();
    assert_partition(&points, &regions);
    for b in &bricks {
        for (x, y, z) in all_voxels(&b.region) {
            assert_eq!(((x + y + z).rem_euclid(3)) as usize, b.color);
        }
    }
}

#[test]
fn brick_units_scale_by_plate_convention() {
    let u = brick_units(Region { x: 1, y: 2, z: 3, w: 4, h: 5, d: 6 });
    assert_eq!(u.size, (20, 30, 10));
    assert_eq!(u.position, (30, 60, 18));
    let u = brick_units(Region { x: -2, y: -3, z: 0, w: 1, h: 1, d: 1 });
    assert_eq!(u.size, (5, 5, 2));
    assert_eq!(u.position, (-15, 5, -10));
    let u = brick_units(Region { x: 300_000_000, y: 0, z: 0, w: 1, h: 1, d: 1 });
    assert_eq!(u.position, (3_000_000_005u64 as u32 as i32, 5, 2));
}

#[test]
fn merged_boxes_carry_brick_units() {
    let points = block(2, 4, 0, 1, -1, 2, 1);
    let mut t = tree_of(&points);
    let merged = simplify(&mut t);
    assert_eq!(merged.len(), 1);
    assert_eq!(merged[0].units.size, (10, 15, 2));
    assert_eq!(merged[0].units.position, (30, 5, 2));
}

#[test]
fn cuboid_becomes_one_box_in_either_mode() {
    let points = block(-2, 1, -1, 2, 0, 2, 0);
    let mut t = tree_of(&points);
    let bricks = simplify_lossless(&mut t);
    assert_eq!(summary(&bricks), vec![(Region { x: -2, y: -1, z: 0, w: 3, h: 3, d: 2 }, 0)]);
    let mut t = tree_of(&points);
    let merged = simplify(&mut t);
    assert_eq!(merged.len(), 1);
    assert_eq!(merged[0].region, Region { x: -2, y: -1, z: 0, w: 3, h: 3, d: 2 });
}

#[test]
fn two_voxel_column_is_one_box() {
    let points = vec![(0, 0, 0, 5), (0, 0, 1, 5)];
    let mut t = tree_of(&points);
    let bricks = simplify_lossless(&mut t);
    assert_eq!(summary(&bricks), vec![(Region { x: 0, y: 0, z: 0, w: 1, h: 1, d: 2 }, 5)]);
}

#[test]
fn seeds_follow_depth_first_order() {
    // (-1, -1, -1) lies in child 0 of the top level and comes first.
    let points = vec![(0, 0, 0, 1), (-1, -1, -1, 2)];
    let mut t = tree_of(&points);
    let bricks = simplify_lossless(&mut t);
    assert_eq!(
        summary(&bricks),
        vec![
            (Region { x: -1, y: -1, z: -1, w: 1, h: 1, d: 1 }, 2),
            (Region { x: 0, y: 0, z: 0, w: 1, h: 1, d: 1 }, 1),
        ]
    );
}
