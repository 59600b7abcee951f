use crate::octree::{body_of, holds_at, node_count, value_of, TreeBody, Voxel, VoxelTree, MAX_SIZE};
use vstd::arithmetic::power2::pow2;
use vstd::prelude::*;

verus! {

/// Longest edge of a merged box, in voxels.
pub const MAX_EXTENT: i64 = 200;

/// An axis-aligned box of voxels: lowest corner and extent along x, y and z.
#[derive(Clone, Copy, Debug, PartialEq, Eq, Structural)]
pub struct Region {
    pub x: i64,
    pub y: i64,
    pub z: i64,
    pub w: i64,
    pub h: i64,
    pub d: i64,
}

impl Region {
    pub open spec fn covers(&self, p: (int, int, int)) -> bool {
        &&& self.x <= p.0 < self.x + self.w
        &&& self.y <= p.1 < self.y + self.h
        &&& self.z <= p.2 < self.z + self.d
    }

    /// Every extent between 1 and `MAX_EXTENT`.
    pub open spec fn sized(&self) -> bool {
        &&& 1 <= self.w <= MAX_EXTENT
        &&& 1 <= self.h <= MAX_EXTENT
        &&& 1 <= self.d <= MAX_EXTENT
    }
}

/// Size and position of a box in the units of a brick save, where a voxel is ten units across
/// and four (a plate) high; the save's axes are x, z, y.
#[derive(Clone, Copy, Debug)]
pub struct BrickUnits {
    pub size: (u32, u32, u32),
    pub position: (i32, i32, i32),
}

/// Size `(5w, 5d, 2h)` and position `(5w + 10x, 5d + 10z, 2h + 4y)`, each wrapped to its
/// integer type.
pub open spec fn units_of(r: Region) -> BrickUnits {
    BrickUnits {
        size: ((5 * r.w) as u32, (5 * r.d) as u32, (2 * r.h) as u32),
        position: (
            (5 * r.w + 10 * r.x) as i32,
            (5 * r.d + 10 * r.z) as i32,
            (2 * r.h + 4 * r.y) as i32,
        ),
    }
}

/// A box of voxels that all matched one palette entry, with its size and position in brick
/// units.
#[derive(Clone, Copy, Debug)]
pub struct Brick {
    pub region: Region,
    pub color: usize,
    pub units: BrickUnits,
}

/// A merged box, with the value stored at its lowest corner (where it grew from) and the
/// values of all its voxels, x outermost, then y, then z.
pub struct Merged {
    pub region: Region,
    pub units: BrickUnits,
    pub seed: usize,
    pub values: Vec<usize>,
}

pub open spec fn regions(ms: Seq<Merged>) -> Seq<Region> {
    ms.map_values(|b: Merged| b.region)
}

/// Whether some region of the list covers the voxel.
pub open spec fn covered(rs: Seq<Region>, p: (int, int, int)) -> bool {
    exists|i: int| 0 <= i < rs.len() && #[trigger] rs[i].covers(p)
}

/// The regions cover exactly the stored voxels, each of them once, and have edges of at most
/// `MAX_EXTENT`.
pub open spec fn partitions<T>(m: Map<(int, int, int), T>, rs: Seq<Region>) -> bool {
    &&& forall|i: int| 0 <= i < rs.len() ==> (#[trigger] rs[i]).sized()
    &&& forall|i: int, p: (int, int, int)|
        0 <= i < rs.len() && #[trigger] rs[i].covers(p) ==> m.contains_key(p)
    &&& forall|i: int, j: int, p: (int, int, int)|
        0 <= i < rs.len() && 0 <= j < rs.len() && i != j && #[trigger] rs[i].covers(p) ==> !(
        #[trigger] rs[j].covers(p))
    &&& forall|p: (int, int, int)| m.contains_key(p) ==> #[trigger] covered(rs, p)
}

/// What each merged box records of the tree it came from: its seed's value, the values of its
/// voxels, and, when `exact`, that all its voxels store the seed's value.
pub open spec fn records(m: Map<(int, int, int), usize>, b: Merged, exact: bool) -> bool {
    let r = b.region;
    &&& m.contains_key((r.x as int, r.y as int, r.z as int))
    &&& m[(r.x as int, r.y as int, r.z as int)] == b.seed
    &&& b.values@ == region_values(m, r, r.w as nat)
    &&& b.units == units_of(r)
    &&& exact ==> region_accepted(m, r, Some(b.seed))
}

/// Whether a voxel is stored and, when a class is asked for, stores exactly that class.
pub open spec fn accepts<T>(m: Map<(int, int, int), T>, p: (int, int, int), class: Option<T>) -> bool {
    &&& m.contains_key(p)
    &&& match class {
        Some(c) => m[p] == c,
        None => true,
    }
}

/// Whether every voxel of the region is accepted.
pub open spec fn region_accepted<T>(m: Map<(int, int, int), T>, r: Region, class: Option<T>) -> bool {
    forall|i: int, j: int, k: int| r.covers((i, j, k)) ==> #[trigger] accepts(m, (i, j, k), class)
}

/// The region could grow no further: along each axis, in the order z, y, x, its edge reached
/// `MAX_EXTENT` or the next layer holds a voxel that is not accepted.
pub open spec fn stops<T>(m: Map<(int, int, int), T>, r: Region, class: Option<T>) -> bool {
    let (x, y, z) = (r.x as int, r.y as int, r.z as int);
    &&& r.d == MAX_EXTENT || !accepts(m, (x, y, z + r.d), class)
    &&& r.h == MAX_EXTENT || !(forall|k: int| z <= k < z + r.d ==> #[trigger] accepts(m, (x, y + r.h, k), class))
    &&& r.w == MAX_EXTENT || !(forall|j: int, k: int|
        y <= j < y + r.h && z <= k < z + r.d ==> #[trigger] accepts(m, (x + r.w, j, k), class))
}

/// The stored voxels that no region of the list covers.
pub open spec fn remaining<T>(m: Map<(int, int, int), T>, rs: Seq<Region>) -> Map<(int, int, int), T> {
    Map::new(|p: (int, int, int)| m.contains_key(p) && !covered(rs, p), |p: (int, int, int)| m[p])
}

/// The region's lowest corner comes first, among the voxels that `m` stores, in a depth-first
/// scan of the tree `t`.
pub open spec fn seeded_first<T, U>(t: VoxelTree<T>, m: Map<(int, int, int), U>, r: Region) -> bool {
    forall|p: (int, int, int)|
        #[trigger] m.contains_key(p) ==> !t.precedes(p, (r.x as int, r.y as int, r.z as int))
}

/// Coordinates well inside `i64`, so that boxes grown from them stay representable.
pub open spec fn small(c: int) -> bool {
    -0x4000_0000_0000_0000 <= c <= 0x4000_0000_0000_0000
}

/// Values of the voxels `(x, y, z)` to `(x, y, z + n - 1)`, in that order.
pub open spec fn row_values<T>(m: Map<(int, int, int), T>, x: int, y: int, z: int, n: nat) -> Seq<T>
    decreases n,
{
    if n == 0 {
        Seq::empty()
    } else {
        row_values(m, x, y, z, (n - 1) as nat).push(m[(x, y, z + n - 1)])
    }
}

/// Values of the rows at heights `y` to `y + n - 1`, each of length `d`, one after the other.
pub open spec fn slab_values<T>(m: Map<(int, int, int), T>, x: int, y: int, z: int, n: nat, d: nat) -> Seq<T>
    decreases n,
{
    if n == 0 {
        Seq::empty()
    } else {
        slab_values(m, x, y, z, (n - 1) as nat, d) + row_values(m, x, y + n - 1, z, d)
    }
}

/// Values of the slabs at `x` to `x + n - 1` of a region, one after the other: x outermost,
/// then y, then z.
pub open spec fn region_values<T>(m: Map<(int, int, int), T>, r: Region, n: nat) -> Seq<T>
    decreases n,
{
    if n == 0 {
        Seq::empty()
    } else {
        region_values(m, r, (n - 1) as nat) + slab_values(
            m,
            r.x + n - 1,
            r.y as int,
            r.z as int,
            r.h as nat,
            r.d as nat,
        )
    }
}

fn accepted(tree: &VoxelTree<usize>, x: i64, y: i64, z: i64, class: Option<usize>) -> (r: bool)
    requires
        tree.size <= MAX_SIZE,
    ensures
        r == accepts(tree@, (x as int, y as int, z as int), class),
{
    match tree.get(Voxel::new(x, y, z)) {
        Some(c) => match class {
            Some(k) => *c == k,
            None => true,
        },
        None => false,
    }
}

/// Whether every voxel from `(x, y, z0)` to `(x, y, z1 - 1)` is accepted.
fn row_accepted(tree: &VoxelTree<usize>, x: i64, y: i64, z0: i64, z1: i64, class: Option<usize>) -> (r: bool)
    requires
        tree.size <= MAX_SIZE,
        z0 <= z1,
    ensures
        r == forall|k: int| z0 <= k < z1 ==> #[trigger] accepts(tree@, (x as int, y as int, k), class),
{
    let mut k = z0;
    while k < z1
        invariant
            z0 <= k <= z1,
            tree.size <= MAX_SIZE,
            forall|q: int| z0 <= q < k ==> #[trigger] accepts(tree@, (x as int, y as int, q), class),
        decreases z1 - k,
    {
        if !accepted(tree, x, y, k, class) {
            return false;
        }
        k = k + 1;
    }
    true
}

/// Whether every voxel of the slab `x`, `[y0, y1)`, `[z0, z1)` is accepted.
fn slab_accepted(
    tree: &VoxelTree<usize>,
    x: i64,
    y0: i64,
    y1: i64,
    z0: i64,
    z1: i64,
    class: Option<usize>,
) -> (r: bool)
    requires
        tree.size <= MAX_SIZE,
        y0 <= y1,
        z0 <= z1,
    ensures
        r == forall|j: int, k: int|
            y0 <= j < y1 && z0 <= k < z1 ==> #[trigger] accepts(tree@, (x as int, j, k), class),
{
    let mut j = y0;
    while j < y1
        invariant
            y0 <= j <= y1,
            z0 <= z1,
            tree.size <= MAX_SIZE,
            forall|q: int, k: int|
                y0 <= q < j && z0 <= k < z1 ==> #[trigger] accepts(tree@, (x as int, q, k), class),
        decreases y1 - j,
    {
        if !row_accepted(tree, x, j, z0, z1, class) {
            return false;
        }
        j = j + 1;
    }
    true
}

/// Grows a box from an accepted seed voxel: first along +z, then along +y (a whole row at a
/// time), then along +x (a whole slab at a time), each until a voxel is not accepted or the
/// edge would pass `MAX_EXTENT`.
fn grow(tree: &VoxelTree<usize>, seed: Voxel, class: Option<usize>) -> (r: Region)
    requires
        tree.size <= MAX_SIZE,
        accepts(tree@, seed@, class),
        small(seed.x as int),
        small(seed.y as int),
        small(seed.z as int),
    ensures
        r.x == seed.x && r.y == seed.y && r.z == seed.z,
        r.sized(),
        region_accepted(tree@, r, class),
        stops(tree@, r, class),
{
    let x = seed.x;
    let y = seed.y;
    let z = seed.z;
    let mut zp = z + 1;
    while zp - z < MAX_EXTENT && accepted(tree, x, y, zp, class)
        invariant
            z < zp <= z + MAX_EXTENT,
            small(x as int) && small(y as int) && small(z as int),
            tree.size <= MAX_SIZE,
            forall|k: int| z <= k < zp ==> #[trigger] accepts(tree@, (x as int, y as int, k), class),
        decreases z + MAX_EXTENT - zp,
    {
        zp = zp + 1;
    }
    let mut yp = y + 1;
    while yp - y < MAX_EXTENT && row_accepted(tree, x, yp, z, zp, class)
        invariant
            y < yp <= y + MAX_EXTENT,
            z < zp <= z + MAX_EXTENT,
            small(x as int) && small(y as int) && small(z as int),
            tree.size <= MAX_SIZE,
            forall|j: int, k: int|
                y <= j < yp && z <= k < zp ==> #[trigger] accepts(tree@, (x as int, j, k), class),
        decreases y + MAX_EXTENT - yp,
    {
        yp = yp + 1;
    }
    let mut xp = x + 1;
    while xp - x < MAX_EXTENT && slab_accepted(tree, xp, y, yp, z, zp, class)
        invariant
            x < xp <= x + MAX_EXTENT,
            y < yp <= y + MAX_EXTENT,
            z < zp <= z + MAX_EXTENT,
            small(x as int) && small(y as int) && small(z as int),
            tree.size <= MAX_SIZE,
            forall|i: int, j: int, k: int|
                x <= i < xp && y <= j < yp && z <= k < zp ==> #[trigger] accepts(tree@, (i, j, k), class),
        decreases x + MAX_EXTENT - xp,
    {
        xp = xp + 1;
    }
    let r = Region { x, y, z, w: xp - x, h: yp - y, d: zp - z };
    proof {
        assert(r.covers((x as int, y as int, z as int)));
    }
    r
}

/// Empties the voxels `(x, y, z0)` to `(x, y, z1 - 1)`, all of them stored and equal to
/// their values in `m`, and appends those values in that order.
fn clear_row(
    tree: &mut VoxelTree<usize>,
    x: i64,
    y: i64,
    z0: i64,
    z1: i64,
    values: &mut Vec<usize>,
    Ghost(m): Ghost<Map<(int, int, int), usize>>,
)
    requires
        old(tree).wf(),
        z0 <= z1,
        forall|k: int|
            z0 <= k < z1 ==> #[trigger] old(tree).lookup((x as int, y as int, k)) == Some(
                m[(x as int, y as int, k)],
            ),
    ensures
        final(tree).wf(),
        final(tree).size == old(tree).size,
        forall|p: (int, int, int)| #[trigger]
            final(tree).lookup(p) == if p.0 == x && p.1 == y && z0 <= p.2 < z1 {
                None
            } else {
                old(tree).lookup(p)
            },
        final(values)@ == old(values)@ + row_values(m, x as int, y as int, z0 as int, (z1 - z0) as nat),
        final(tree).count() <= old(tree).count(),
        z0 < z1 ==> final(tree).count() < old(tree).count(),
{
    let ghost start = *tree;
    let ghost v0 = values@;
    let mut k = z0;
    while k < z1
        invariant
            z0 <= k <= z1,
            tree.wf(),
            tree.size == start.size,
            start.wf(),
            forall|q: int|
                z0 <= q < z1 ==> #[trigger] start.lookup((x as int, y as int, q)) == Some(
                    m[(x as int, y as int, q)],
                ),
            forall|p: (int, int, int)| #[trigger]
                tree.lookup(p) == if p.0 == x && p.1 == y && z0 <= p.2 < k {
                    None
                } else {
                    start.lookup(p)
                },
            values@ == v0 + row_values(m, x as int, y as int, z0 as int, (k - z0) as nat),
            tree.count() <= start.count(),
            z0 < k ==> tree.count() < start.count(),
        decreases z1 - k,
    {
        let ghost before = *tree;
        let ghost p = (x as int, y as int, k as int);
        proof {
            assert(start.lookup(p) is Some);
            assert(tree.lookup(p) == start.lookup(p));
            assert(start.holds(p));
            start.lemma_holds_fits(p);
        }
        let slot = tree.get_mut_or_create(Voxel::new(x, y, k));
        let mut taken = TreeBody::Empty;
        std::mem::swap(slot, &mut taken);
        proof {
            assert(tree.size == before.size);
            assert(taken == body_of(before.lookup(p)));
        }
        if let TreeBody::Leaf(v) = taken {
            values.push(v);
        }
        proof {
            assert(values@ =~= v0 + row_values(m, x as int, y as int, z0 as int, (k + 1 - z0) as nat));
        }
        k = k + 1;
    }
}

/// Empties the slab `x`, `[y0, y1)`, `[z0, z1)`, every voxel of it stored and equal to its
/// value in `m`, and appends those values row by row.
fn clear_slab(
    tree: &mut VoxelTree<usize>,
    x: i64,
    y0: i64,
    y1: i64,
    z0: i64,
    z1: i64,
    values: &mut Vec<usize>,
    Ghost(m): Ghost<Map<(int, int, int), usize>>,
)
    requires
        old(tree).wf(),
        y0 <= y1,
        z0 <= z1,
        forall|j: int, k: int|
            y0 <= j < y1 && z0 <= k < z1 ==> #[trigger] old(tree).lookup((x as int, j, k)) == Some(
                m[(x as int, j, k)],
            ),
    ensures
        final(tree).wf(),
        final(tree).size == old(tree).size,
        forall|p: (int, int, int)| #[trigger]
            final(tree).lookup(p) == if p.0 == x && y0 <= p.1 < y1 && z0 <= p.2 < z1 {
                None
            } else {
                old(tree).lookup(p)
            },
        final(values)@ == old(values)@ + slab_values(
            m,
            x as int,
            y0 as int,
            z0 as int,
            (y1 - y0) as nat,
            (z1 - z0) as nat,
        ),
        final(tree).count() <= old(tree).count(),
        y0 < y1 && z0 < z1 ==> final(tree).count() < old(tree).count(),
{
    let ghost start = *tree;
    let ghost v0 = values@;
    let mut j = y0;
    while j < y1
        invariant
            y0 <= j <= y1,
            z0 <= z1,
            tree.wf(),
            tree.size == start.size,
            forall|q: int, k: int|
                y0 <= q < y1 && z0 <= k < z1 ==> #[trigger] start.lookup((x as int, q, k)) == Some(
                    m[(x as int, q, k)],
                ),
            forall|p: (int, int, int)| #[trigger]
                tree.lookup(p) == if p.0 == x && y0 <= p.1 < j && z0 <= p.2 < z1 {
                    None
                } else {
                    start.lookup(p)
                },
            values@ == v0 + slab_values(
                m,
                x as int,
                y0 as int,
                z0 as int,
                (j - y0) as nat,
                (z1 - z0) as nat,
            ),
            tree.count() <= start.count(),
            y0 < j && z0 < z1 ==> tree.count() < start.count(),
        decreases y1 - j,
    {
        let ghost vb = values@;
        proof {
            assert forall|k: int| z0 <= k < z1 implies #[trigger] tree.lookup((x as int, j as int, k)) == Some(
                m[(x as int, j as int, k)],
            ) by {
                assert(tree.lookup((x as int, j as int, k)) == start.lookup((x as int, j as int, k)));
            }
        }
        clear_row(tree, x, j, z0, z1, values, Ghost(m));
        proof {
            assert(values@ =~= v0 + slab_values(
                m,
                x as int,
                y0 as int,
                z0 as int,
                (j + 1 - y0) as nat,
                (z1 - z0) as nat,
            ));
        }
        j = j + 1;
    }
}

/// Empties a region whose voxels are all stored and equal to their values in `m`, and appends
/// those values slab by slab.
fn clear_region(
    tree: &mut VoxelTree<usize>,
    r: Region,
    values: &mut Vec<usize>,
    Ghost(m): Ghost<Map<(int, int, int), usize>>,
)
    requires
        old(tree).wf(),
        r.sized(),
        small(r.x as int) && small(r.y as int) && small(r.z as int),
        forall|i: int, j: int, k: int|
            r.covers((i, j, k)) ==> #[trigger] old(tree).lookup((i, j, k)) == Some(m[(i, j, k)]),
    ensures
        final(tree).wf(),
        final(tree).size == old(tree).size,
        forall|p: (int, int, int)| #[trigger]
            final(tree).lookup(p) == if r.covers(p) {
                None
            } else {
                old(tree).lookup(p)
            },
        final(values)@ == old(values)@ + region_values(m, r, r.w as nat),
        final(tree).count() < old(tree).count(),
{
    let ghost start = *tree;
    let ghost v0 = values@;
    let x1 = r.x + r.w;
    let y1 = r.y + r.h;
    let z1 = r.z + r.d;
    let mut i = r.x;
    while i < x1
        invariant
            r.x <= i <= x1,
            x1 == r.x + r.w,
            y1 == r.y + r.h,
            z1 == r.z + r.d,
            r.sized(),
            tree.wf(),
            tree.size == start.size,
            forall|a: int, j: int, k: int|
                r.covers((a, j, k)) ==> #[trigger] start.lookup((a, j, k)) == Some(m[(a, j, k)]),
            forall|p: (int, int, int)| #[trigger]
                tree.lookup(p) == if r.covers(p) && p.0 < i {
                    None
                } else {
                    start.lookup(p)
                },
            values@ == v0 + region_values(m, r, (i - r.x) as nat),
            tree.count() <= start.count(),
            r.x < i ==> tree.count() < start.count(),
        decreases x1 - i,
    {
        proof {
            assert forall|j: int, k: int|
                r.y <= j < y1 && r.z <= k < z1 implies #[trigger] tree.lookup((i as int, j, k)) == Some(
                m[(i as int, j, k)],
            ) by {
                assert(r.covers((i as int, j, k)));
                assert(tree.lookup((i as int, j, k)) == start.lookup((i as int, j, k)));
            }
        }
        clear_slab(tree, i, r.y, y1, r.z, z1, values, Ghost(m));
        proof {
            assert(values@ =~= v0 + region_values(m, r, (i + 1 - r.x) as nat));
        }
        i = i + 1;
    }
}

/// Consumes the tree into boxes: takes any stored voxel as a seed, grows a box from it that
/// accepts every stored voxel (or, when `exact`, those storing the seed's value), empties
/// the box, and repeats until the tree is empty.
fn merge(octree: &mut VoxelTree<usize>, exact: bool) -> (out: Vec<Merged>)
    requires
        old(octree).wf(),
    ensures
        final(octree).wf(),
        final(octree).size == old(octree).size,
        final(octree)@ == Map::<(int, int, int), usize>::empty(),
        partitions(old(octree)@, regions(out@)),
        forall|i: int| 0 <= i < out@.len() ==> records(old(octree)@, #[trigger] out@[i], exact),
        forall|i: int|
            0 <= i < out@.len() ==> stops(
                remaining(old(octree)@, regions(out@).take(i)),
                (#[trigger] out@[i]).region,
                if exact { Some(out@[i].seed) } else { None },
            ),
        forall|i: int|
            0 <= i < out@.len() ==> seeded_first(
                *old(octree),
                remaining(old(octree)@, regions(out@).take(i)),
                (#[trigger] out@[i]).region,
            ),
{
    let ghost start = *octree;
    let mut out: Vec<Merged> = Vec::new();
    loop
        invariant
            octree.wf(),
            octree.size == start.size,
            start.wf(),
            forall|p: (int, int, int)| #[trigger]
                octree.lookup(p) == if covered(regions(out@), p) {
                    None
                } else {
                    start.lookup(p)
                },
            forall|i: int| 0 <= i < out@.len() ==> (#[trigger] out@[i]).region.sized(),
            forall|i: int, p: (int, int, int)|
                0 <= i < out@.len() && #[trigger] out@[i].region.covers(p) ==> start@.contains_key(p),
            forall|i: int, j: int, p: (int, int, int)|
                0 <= i < out@.len() && 0 <= j < out@.len() && i != j && #[trigger] out@[i].region.covers(p)
                    ==> !(#[trigger] out@[j].region.covers(p)),
            forall|i: int| 0 <= i < out@.len() ==> records(start@, #[trigger] out@[i], exact),
            forall|i: int|
                0 <= i < out@.len() ==> stops(
                    remaining(start@, regions(out@).take(i)),
                    (#[trigger] out@[i]).region,
                    if exact { Some(out@[i].seed) } else { None },
                ),
            forall|i: int|
                0 <= i < out@.len() ==> seeded_first(
                    start,
                    remaining(start@, regions(out@).take(i)),
                    (#[trigger] out@[i]).region,
                ),
        ensures
            octree@ == Map::<(int, int, int), usize>::empty(),
        decreases octree.count(),
    {
        let ghost pre = *octree;
        let found = octree.get_any_mut_or_create();
        let seed = match found {
            Some(v) => v,
            None => break,
        };
        let c = match octree.get(seed) {
            Some(c) => *c,
            None => break,
        };
        let class = if exact { Some(c) } else { None };
        proof {
            octree.lemma_holds_fits(seed@);
        }
        let r = grow(octree, seed, class);
        let ghost regs = regions(out@);
        proof {
            assert forall|i: int, j: int, k: int|
                r.covers((i, j, k)) implies #[trigger] octree.lookup((i, j, k)) == Some(start@[(i, j, k)]) by {
                assert(accepts(octree@, (i, j, k), class));
                assert(octree.lookup((i, j, k)) is Some);
            }
        }
        let ghost mid = *octree;
        let mut values: Vec<usize> = Vec::new();
        clear_region(octree, r, &mut values, Ghost(start@));
        let ghost before = out@;
        let units = brick_units(r);
        out.push(Merged { region: r, units, seed: c, values });
        proof {
            assert(regions(out@) =~= regions(before).push(r));
            assert forall|p: (int, int, int)| #[trigger]
                covered(regions(out@), p) == (covered(regions(before), p) || r.covers(p)) by {
                if r.covers(p) {
                    assert(regions(out@)[before.len() as int] == r);
                }
                if covered(regions(before), p) {
                    let i = choose|i: int| 0 <= i < regions(before).len() && #[trigger] regions(before)[i].covers(p);
                    assert(regions(out@)[i] == regions(before)[i]);
                }
                if covered(regions(out@), p) {
                    let i = choose|i: int| 0 <= i < regions(out@).len() && #[trigger] regions(out@)[i].covers(p);
                    if i < before.len() {
                        assert(regions(before)[i] == regions(out@)[i]);
                    }
                }
            }
            assert forall|p: (int, int, int)| r.covers(p) implies mid.lookup(p) is Some && !covered(
                regs,
                p,
            ) && start@.contains_key(p) by {
                let (a, b, c) = p;
                assert(accepts(mid@, (a, b, c), class));
            }
            let nb = out@[before.len() as int];
            assert(r.covers(seed@));
            assert(mid.lookup(seed@) == start.lookup(seed@));
            if exact {
                assert forall|i: int, j: int, k: int| r.covers((i, j, k)) implies #[trigger] accepts(
                    start@,
                    (i, j, k),
                    Some(c),
                ) by {
                    assert(accepts(mid@, (i, j, k), class));
                    assert(mid.lookup((i, j, k)) == start.lookup((i, j, k)));
                }
            }
            assert(records(start@, nb, exact));
            assert(mid@ =~= remaining(start@, regs)) by {
                assert forall|p: (int, int, int)| #[trigger] mid@.contains_key(p) == remaining(start@, regs).contains_key(p) by {
                    assert(mid.lookup(p) == if covered(regs, p) { None } else { start.lookup(p) });
                }
            }
            assert(regions(out@).take(before.len() as int) =~= regs);
            assert(pre@ =~= remaining(start@, regs)) by {
                assert forall|p: (int, int, int)| #[trigger] pre@.contains_key(p) == remaining(start@, regs).contains_key(p) by {
                    assert(pre.lookup(p) == if covered(regs, p) { None } else { start.lookup(p) });
                }
            }
            assert(seeded_first(start, remaining(start@, regions(out@).take(before.len() as int)), r)) by {
                assert forall|p: (int, int, int)| #[trigger] pre@.contains_key(p) implies !start.precedes(
                    p,
                    (r.x as int, r.y as int, r.z as int),
                ) by {
                    assert(!pre.precedes(p, seed@));
                }
            }
            assert forall|i: int|
                0 <= i < out@.len() implies seeded_first(
                    start,
                    remaining(start@, regions(out@).take(i)),
                    (#[trigger] out@[i]).region,
                ) by {
                if i < before.len() {
                    assert(before[i] == out@[i]);
                    assert(regions(out@).take(i) =~= regions(before).take(i));
                }
            }
            assert forall|i: int|
                0 <= i < out@.len() implies stops(
                    remaining(start@, regions(out@).take(i)),
                    (#[trigger] out@[i]).region,
                    if exact { Some(out@[i].seed) } else { None },
                ) by {
                if i < before.len() {
                    assert(before[i] == out@[i]);
                    assert(regions(out@).take(i) =~= regions(before).take(i));
                }
            }
            assert forall|i: int| 0 <= i < out@.len() implies records(start@, #[trigger] out@[i], exact) by {
                if i < before.len() {
                    assert(before[i] == out@[i]);
                }
            }
            assert forall|i: int, p: (int, int, int)|
                0 <= i < out@.len() && #[trigger] out@[i].region.covers(p) implies start@.contains_key(p) by {
                if i == before.len() {
                    assert(r.covers(p));
                } else {
                    assert(before[i] == out@[i]);
                }
            }
            assert forall|i: int, j: int, p: (int, int, int)|
                0 <= i < out@.len() && 0 <= j < out@.len() && i != j && #[trigger] out@[i].region.covers(p)
                    implies !(#[trigger] out@[j].region.covers(p)) by {
                if i == before.len() {
                    assert(r.covers(p));
                    assert(regs[j] == before[j].region);
                    assert(before[j] == out@[j]);
                } else if j == before.len() {
                    assert(before[i] == out@[i]);
                    assert(regs[i] == before[i].region);
                    if r.covers(p) {
                        assert(!covered(regs, p));
                    }
                } else {
                    assert(before[i] == out@[i]);
                    assert(before[j] == out@[j]);
                }
            }
        }
    }
    proof {
        let rs = regions(out@);
        assert forall|p: (int, int, int)| start@.contains_key(p) implies #[trigger] covered(rs, p) by {
            assert(start.lookup(p) is Some);
            assert(!octree@.contains_key(p));
        }
        assert forall|i: int, p: (int, int, int)|
            0 <= i < rs.len() && #[trigger] rs[i].covers(p) implies start@.contains_key(p) by {
            assert(rs[i] == out@[i].region);
        }
        assert forall|i: int, j: int, p: (int, int, int)|
            0 <= i < rs.len() && 0 <= j < rs.len() && i != j && #[trigger] rs[i].covers(p) implies !(
            #[trigger] rs[j].covers(p)) by {
            assert(rs[i] == out@[i].region);
            assert(rs[j] == out@[j].region);
        }
        assert forall|i: int| 0 <= i < rs.len() implies (#[trigger] rs[i]).sized() by {
            assert(rs[i] == out@[i].region);
        }
    }
    out
}

/// Lossy merging of a tree of packed colours. Boxes take every stored voxel regardless of its
/// value; each comes with the values of its voxels, from which one palette colour is picked.
pub fn simplify(octree: &mut VoxelTree<usize>) -> (out: Vec<Merged>)
    requires
        old(octree).wf(),
    ensures
        final(octree).wf(),
        final(octree).size == old(octree).size,
        final(octree)@ == Map::<(int, int, int), usize>::empty(),
        partitions(old(octree)@, regions(out@)),
        forall|i: int| 0 <= i < out@.len() ==> records(old(octree)@, #[trigger] out@[i], false),
        forall|i: int|
            0 <= i < out@.len() ==> stops(
                remaining(old(octree)@, regions(out@).take(i)),
                (#[trigger] out@[i]).region,
                None,
            ),
        forall|i: int|
            0 <= i < out@.len() ==> seeded_first(
                *old(octree),
                remaining(old(octree)@, regions(out@).take(i)),
                (#[trigger] out@[i]).region,
            ),
{
    merge(octree, false)
}

pub open spec fn brick_regions(bs: Seq<Brick>) -> Seq<Region> {
    bs.map_values(|b: Brick| b.region)
}

/// Lossless merging of a tree of palette indices. A box only takes voxels whose index is the
/// index of the voxel it grew from, and carries that index as its colour.
pub fn simplify_lossless(octree: &mut VoxelTree<usize>) -> (out: Vec<Brick>)
    requires
        old(octree).wf(),
    ensures
        final(octree).wf(),
        final(octree).size == old(octree).size,
        final(octree)@ == Map::<(int, int, int), usize>::empty(),
        partitions(old(octree)@, brick_regions(out@)),
        forall|i: int|
            0 <= i < out@.len() ==> region_accepted(
                old(octree)@,
                (#[trigger] out@[i]).region,
                Some(out@[i].color),
            ),
        forall|i: int|
            0 <= i < out@.len() ==> {
                let r = (#[trigger] out@[i]).region;
                &&& old(octree)@.contains_key((r.x as int, r.y as int, r.z as int))
                &&& old(octree)@[(r.x as int, r.y as int, r.z as int)] == out@[i].color
                &&& stops(remaining(old(octree)@, brick_regions(out@).take(i)), r, Some(out@[i].color))
                &&& seeded_first(*old(octree), remaining(old(octree)@, brick_regions(out@).take(i)), r)
                &&& out@[i].units == units_of(r)
            },
{
    let ghost tree0 = *octree;
    let ghost start = octree@;
    let merged = merge(octree, true);
    let mut out: Vec<Brick> = Vec::new();
    let mut i: usize = 0;
    while i < merged.len()
        invariant
            i <= merged@.len(),
            out@.len() == i,
            forall|j: int| 0 <= j < i ==> (#[trigger] out@[j]).region == merged@[j].region && out@[j].color
                == merged@[j].seed && out@[j].units == merged@[j].units,
        decreases merged@.len() - i,
    {
        out.push(Brick { region: merged[i].region, color: merged[i].seed, units: merged[i].units });
        i = i + 1;
    }
    proof {
        assert(brick_regions(out@) =~= regions(merged@));
        assert forall|j: int| 0 <= j < out@.len() implies region_accepted(
            start,
            (#[trigger] out@[j]).region,
            Some(out@[j].color),
        ) by {
            assert(records(start, merged@[j], true));
        }
        assert forall|j: int| 0 <= j < out@.len() implies {
            let r = (#[trigger] out@[j]).region;
            &&& start.contains_key((r.x as int, r.y as int, r.z as int))
            &&& start[(r.x as int, r.y as int, r.z as int)] == out@[j].color
            &&& stops(remaining(start, brick_regions(out@).take(j)), r, Some(out@[j].color))
            &&& seeded_first(tree0, remaining(start, brick_regions(out@).take(j)), r)
            &&& out@[j].units == units_of(r)
        } by {
            assert(records(start, merged@[j], true));
            assert(brick_regions(out@).take(j) =~= regions(merged@).take(j));
        }
    }
    out
}

/// The box in brick units; positions wrap to `i32` as the save's integers do.
pub fn brick_units(r: Region) -> (u: BrickUnits)
    requires
        r.sized(),
    ensures
        u == units_of(r),
{
    let px = 5 * (r.w as i128) + 10 * (r.x as i128);
    let pz = 5 * (r.d as i128) + 10 * (r.z as i128);
    let py = 2 * (r.h as i128) + 4 * (r.y as i128);
    BrickUnits {
        size: ((5 * r.w) as u32, (5 * r.d) as u32, (2 * r.h) as u32),
        position: (
            #[verifier::truncate]
            (px as i32),
            #[verifier::truncate]
            (pz as i32),
            #[verifier::truncate]
            (py as i32),
        ),
    }
}

} // verus!
