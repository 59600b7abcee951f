use vstd::arithmetic::power2::{pow2, lemma_pow2_pos, lemma_pow2_unfold, lemma_pow2_strictly_increases, lemma2_to64, lemma2_to64_rest};
use vstd::bits::{lemma_u64_shl_is_mul, lemma_u64_pow2_no_overflow};
use vstd::prelude::*;

verus! {

/// Integer coordinate of one voxel.
#[derive(Clone, Copy, Debug, PartialEq, Eq, Structural)]
pub struct Voxel {
    pub x: i64,
    pub y: i64,
    pub z: i64,
}

impl View for Voxel {
    type V = (int, int, int);

    open spec fn view(&self) -> (int, int, int) {
        (self.x as int, self.y as int, self.z as int)
    }
}

impl Voxel {
    pub fn new(x: i64, y: i64, z: i64) -> (r: Voxel)
        ensures
            r.x == x,
            r.y == y,
            r.z == z,
    {
        Voxel { x, y, z }
    }
}

/// One node of the tree: nothing, a stored value (only at the finest depth), or eight children.
pub enum TreeBody<T> {
    Empty,
    Leaf(T),
    Branch(Box<Branches<T>>),
}

/// The eight children of a node, indexed by octant: bit 2 for x, bit 1 for y, bit 0 for z.
pub type Branches<T> = [TreeBody<T>; 8];

/// Sparse octree centred on the origin. Its `8` top-level children each cover a cube of
/// side `2^size`, so together they hold the voxels in `[-2^size, 2^size)` on each axis.
pub struct VoxelTree<T> {
    pub size: u8,
    pub contents: Branches<T>,
}

/// Largest exponent the tree can reach: coordinates stay within `i64`.
pub const MAX_SIZE: u8 = 62;

/// Index of the child that holds the upper (true) or lower (false) half along each axis.
pub open spec fn octant(bx: bool, by: bool, bz: bool) -> int {
    (if bx { 4int } else { 0int }) + (if by { 2int } else { 0int }) + (if bz { 1int } else { 0int })
}

/// Coordinate inside the child's half, given the half's side `h`.
pub open spec fn within(c: int, h: int) -> int {
    if c >= h { c - h } else { c }
}

pub open spec fn in_cube(side: int, x: int, y: int, z: int) -> bool {
    0 <= x < side && 0 <= y < side && 0 <= z < side
}

/// The value a node of the given depth level holds at local coordinates in `[0, 2^level)`.
pub open spec fn node_get<T>(n: TreeBody<T>, level: nat, x: int, y: int, z: int) -> Option<T>
    decreases level, 0nat,
{
    match n {
        TreeBody::Empty => None,
        TreeBody::Leaf(t) => if level == 0 { Some(t) } else { None },
        TreeBody::Branch(b) => if level == 0 {
            None
        } else {
            branches_get(b@, (level - 1) as nat, x, y, z)
        },
    }
}

/// The value held at local coordinates in `[0, 2^(level+1))` by eight children of the given level.
pub open spec fn branches_get<T>(bs: Seq<TreeBody<T>>, level: nat, x: int, y: int, z: int) -> Option<T>
    decreases level, 1nat,
{
    let h = pow2(level) as int;
    node_get(
        bs[octant(x >= h, y >= h, z >= h)],
        level,
        within(x, h),
        within(y, h),
        within(z, h),
    )
}

/// Number of stored values that a node can reach.
pub open spec fn node_count<T>(n: TreeBody<T>, level: nat) -> nat
    decreases level, 0nat,
{
    match n {
        TreeBody::Empty => 0,
        TreeBody::Leaf(_) => if level == 0 { 1 } else { 0 },
        TreeBody::Branch(b) => if level == 0 {
            0
        } else {
            branches_count(b@, (level - 1) as nat)
        },
    }
}

pub open spec fn branches_count<T>(bs: Seq<TreeBody<T>>, level: nat) -> nat
    decreases level, 1nat,
{
    node_count(bs[0], level) + node_count(bs[1], level) + node_count(bs[2], level) + node_count(
        bs[3],
        level,
    ) + node_count(bs[4], level) + node_count(bs[5], level) + node_count(bs[6], level)
        + node_count(bs[7], level)
}

/// Leaves only at depth level 0, branches only above it.
pub open spec fn node_wf<T>(n: TreeBody<T>, level: nat) -> bool
    decreases level, 0nat,
{
    match n {
        TreeBody::Empty => true,
        TreeBody::Leaf(_) => level == 0,
        TreeBody::Branch(b) => level > 0 && branches_wf(b@, (level - 1) as nat),
    }
}

pub open spec fn branches_wf<T>(bs: Seq<TreeBody<T>>, level: nat) -> bool
    decreases level, 1nat,
{
    &&& node_wf(bs[0], level)
    &&& node_wf(bs[1], level)
    &&& node_wf(bs[2], level)
    &&& node_wf(bs[3], level)
    &&& node_wf(bs[4], level)
    &&& node_wf(bs[5], level)
    &&& node_wf(bs[6], level)
    &&& node_wf(bs[7], level)
}

/// The value a leaf slot stands for.
pub open spec fn value_of<T>(n: TreeBody<T>) -> Option<T> {
    match n {
        TreeBody::Leaf(t) => Some(t),
        _ => None,
    }
}

/// The leaf slot that stands for a value.
pub open spec fn body_of<T>(v: Option<T>) -> TreeBody<T> {
    match v {
        Some(t) => TreeBody::Leaf(t),
        None => TreeBody::Empty,
    }
}

/// `2^level`, the side of a node of that level.
fn side(level: u8) -> (r: i64)
    requires
        level <= MAX_SIZE,
    ensures
        r == pow2(level as nat),
        0 < r <= 0x4000_0000_0000_0000,
{
    proof {
        lemma_u64_pow2_no_overflow(level as nat);
        lemma_u64_shl_is_mul(1, level as u64);
        lemma2_to64_rest();
        if level < MAX_SIZE {
            lemma_pow2_strictly_increases(level as nat, 62);
        }
        lemma_pow2_pos(level as nat);
    }
    (1u64 << (level as u64)) as i64
}

/// Same values at every local coordinate, same count, and well-formed whenever `b` is.
pub open spec fn node_equiv<T>(a: TreeBody<T>, b: TreeBody<T>, level: nat) -> bool {
    &&& forall|x: int, y: int, z: int|
        in_cube(pow2(level) as int, x, y, z) ==> #[trigger] node_get(a, level, x, y, z) == node_get(
            b,
            level,
            x,
            y,
            z,
        )
    &&& node_count(a, level) == node_count(b, level)
    &&& node_wf(b, level) ==> node_wf(a, level)
}

/// No value at any local coordinate.
pub open spec fn node_none<T>(n: TreeBody<T>, level: nat) -> bool {
    forall|x: int, y: int, z: int|
        in_cube(pow2(level) as int, x, y, z) ==> #[trigger] node_get(n, level, x, y, z) is None
}

/// What holds of each of eight children holds of them together.
proof fn lemma_children_sum<T>(nb: Seq<TreeBody<T>>, ob: Seq<TreeBody<T>>, ln: nat, lo: nat)
    ensures
        (forall|j: int| 0 <= j < 8 ==> node_count(#[trigger] nb[j], ln) == node_count(ob[j], lo))
            ==> branches_count(nb, ln) == branches_count(ob, lo),
        (forall|j: int| 0 <= j < 8 ==> node_count(#[trigger] nb[j], ln) == 0) ==> branches_count(nb, ln)
            == 0,
        (forall|j: int| 0 <= j < 8 ==> node_wf(#[trigger] nb[j], ln)) ==> branches_wf(nb, ln),
{
    // Naming each child lets the quantified facts reach it.
    let _children = (nb[0], nb[1], nb[2], nb[3], nb[4], nb[5], nb[6], nb[7]);
}

proof fn lemma_children_equiv<T>(nb: Seq<TreeBody<T>>, ob: Seq<TreeBody<T>>, level: nat)
    requires
        nb.len() == 8,
        ob.len() == 8,
        forall|j: int| 0 <= j < 8 ==> node_equiv(#[trigger] nb[j], ob[j], level),
    ensures
        forall|x: int, y: int, z: int|
            in_cube(2 * pow2(level) as int, x, y, z) ==> #[trigger] branches_get(nb, level, x, y, z)
                == branches_get(ob, level, x, y, z),
        branches_count(nb, level) == branches_count(ob, level),
        branches_wf(ob, level) ==> branches_wf(nb, level),
{
    let h = pow2(level) as int;
    assert forall|x: int, y: int, z: int|
        in_cube(2 * h, x, y, z) implies #[trigger] branches_get(nb, level, x, y, z) == branches_get(
            ob,
            level,
            x,
            y,
            z,
        ) by {
        let j = octant(x >= h, y >= h, z >= h);
        assert(node_equiv(nb[j], ob[j], level));
        assert(in_cube(h, within(x, h), within(y, h), within(z, h)));
        assert(node_get(nb[j], level, within(x, h), within(y, h), within(z, h)) == node_get(
            ob[j],
            level,
            within(x, h),
            within(y, h),
            within(z, h),
        ));
    }
    lemma_children_sum(nb, ob, level, level);
}

/// Whether local coordinate `a` comes before `b` in a depth-first scan, children in index
/// order, of eight children of the given level (a cube of side `2^(level+1)`).
pub open spec fn branches_before(level: nat, a: (int, int, int), b: (int, int, int)) -> bool
    decreases level,
{
    let h = pow2(level) as int;
    let ia = octant(a.0 >= h, a.1 >= h, a.2 >= h);
    let ib = octant(b.0 >= h, b.1 >= h, b.2 >= h);
    if ia != ib {
        ia < ib
    } else if level == 0 {
        false
    } else {
        branches_before(
            (level - 1) as nat,
            (within(a.0, h), within(a.1, h), within(a.2, h)),
            (within(b.0, h), within(b.1, h), within(b.2, h)),
        )
    }
}

/// The same order within a single node of the given level.
pub open spec fn node_before(level: nat, a: (int, int, int), b: (int, int, int)) -> bool {
    level > 0 && branches_before((level - 1) as nat, a, b)
}

/// Coordinates that the tree of exponent `MAX_SIZE` holds.
pub open spec fn fits(p: (int, int, int)) -> bool {
    let m = pow2(MAX_SIZE as nat) as int;
    -m <= p.0 < m && -m <= p.1 < m && -m <= p.2 < m
}

proof fn lemma_wf_child<T>(bs: Seq<TreeBody<T>>, level: nat, i: int)
    requires
        branches_wf(bs, level),
        0 <= i < 8,
    ensures
        node_wf(bs[i], level),
{
}

/// The children of a node, with eight empty ones for a node that has none.
pub open spec fn children<T>(n: TreeBody<T>) -> Seq<TreeBody<T>> {
    match n {
        TreeBody::Branch(b) => b@,
        _ => Seq::new(8, |j: int| TreeBody::Empty),
    }
}

/// `a` is `b` with branches made along the path to local coordinate (x, y, z), and with
/// nothing else changed but what that path leads to.
pub open spec fn node_agree<T>(a: TreeBody<T>, b: TreeBody<T>, level: nat, x: int, y: int, z: int) -> bool
    decreases level, 0nat,
{
    if level == 0 {
        true
    } else {
        match a {
            TreeBody::Branch(ab) => branches_agree(ab@, children(b), (level - 1) as nat, x, y, z),
            _ => false,
        }
    }
}

pub open spec fn branches_agree<T>(
    nb: Seq<TreeBody<T>>,
    ob: Seq<TreeBody<T>>,
    level: nat,
    x: int,
    y: int,
    z: int,
) -> bool
    decreases level, 1nat,
{
    let h = pow2(level) as int;
    let i = octant(x >= h, y >= h, z >= h);
    &&& nb.len() == 8
    &&& forall|j: int| 0 <= j < 8 && j != i ==> #[trigger] nb[j] == ob[j]
    &&& node_agree(nb[i], ob[i], level, within(x, h), within(y, h), within(z, h))
}

proof fn lemma_node_agree<T>(
    a: TreeBody<T>,
    b: TreeBody<T>,
    level: nat,
    x: int,
    y: int,
    z: int,
    px: int,
    py: int,
    pz: int,
)
    requires
        node_agree(a, b, level, x, y, z),
        in_cube(pow2(level) as int, x, y, z),
        in_cube(pow2(level) as int, px, py, pz),
        (px, py, pz) != (x, y, z),
    ensures
        node_get(a, level, px, py, pz) == node_get(b, level, px, py, pz),
    decreases level, 0nat,
{
    if level == 0 {
        lemma2_to64();
    } else {
        lemma_pow2_unfold(level);
        if let TreeBody::Branch(ab) = a {
            lemma_branches_agree(ab@, children(b), (level - 1) as nat, x, y, z, px, py, pz);
        }
    }
}

proof fn lemma_branches_agree<T>(
    nb: Seq<TreeBody<T>>,
    ob: Seq<TreeBody<T>>,
    level: nat,
    x: int,
    y: int,
    z: int,
    px: int,
    py: int,
    pz: int,
)
    requires
        branches_agree(nb, ob, level, x, y, z),
        in_cube(2 * pow2(level) as int, x, y, z),
        in_cube(2 * pow2(level) as int, px, py, pz),
        (px, py, pz) != (x, y, z),
    ensures
        branches_get(nb, level, px, py, pz) == branches_get(ob, level, px, py, pz),
    decreases level, 1nat,
{
    let h = pow2(level) as int;
    let i = octant(x >= h, y >= h, z >= h);
    let j = octant(px >= h, py >= h, pz >= h);
    if j == i {
        lemma_node_agree(
            nb[i],
            ob[i],
            level,
            within(x, h),
            within(y, h),
            within(z, h),
            within(px, h),
            within(py, h),
            within(pz, h),
        );
    } else {
        assert(nb[j] == ob[j]);
    }
}

/// Index of the child of a node of the given level that holds local coordinate (x, y, z), and
/// the coordinate within that child.
fn child_at(level: u8, x: i64, y: i64, z: i64) -> (r: (usize, i64, i64, i64))
    requires
        0 < level <= MAX_SIZE,
        in_cube(pow2(level as nat) as int, x as int, y as int, z as int),
    ensures
        ({
            let h = pow2((level - 1) as nat) as int;
            &&& r.0 == octant(x >= h, y >= h, z >= h)
            &&& r.1 == within(x as int, h)
            &&& r.2 == within(y as int, h)
            &&& r.3 == within(z as int, h)
            &&& in_cube(h, r.1 as int, r.2 as int, r.3 as int)
        }),
{
    let h = side(level - 1);
    proof {
        lemma_pow2_unfold(level as nat);
    }
    let mut i: usize = 0;
    let mut sx = x;
    let mut sy = y;
    let mut sz = z;
    if x >= h {
        i = i + 4;
        sx = x - h;
    }
    if y >= h {
        i = i + 2;
        sy = y - h;
    }
    if z >= h {
        i = i + 1;
        sz = z - h;
    }
    (i, sx, sy, sz)
}

#[verifier::rlimit(40)]
fn slot_mut<T>(n: &mut TreeBody<T>, level: u8, x: i64, y: i64, z: i64) -> (r: &mut TreeBody<T>)
    requires
        level <= MAX_SIZE,
        in_cube(pow2(level as nat) as int, x as int, y as int, z as int),
        node_wf(*old(n), level as nat),
    ensures
        *r == body_of(node_get(*old(n), level as nat, x as int, y as int, z as int)),
        node_get(*final(n), level as nat, x as int, y as int, z as int) == value_of(*final(r)),
        node_agree(*final(n), *old(n), level as nat, x as int, y as int, z as int),
        node_wf(*final(r), 0) ==> node_wf(
            *final(n),
            level as nat,
        ),
        node_count(*final(n), level as nat) + node_count(*r, 0) == node_count(
            *old(n),
            level as nat,
        ) + node_count(*final(r), 0),
    decreases level,
{
    if level == 0 {
        proof {
            lemma2_to64();
        }
        return n;
    }
    let (i, sx, sy, sz) = child_at(level, x, y, z);
    proof {
        lemma_pow2_unfold(level as nat);
    }
    if !matches!(*n, TreeBody::Branch(_)) {
        let fresh = TreeBody::empty();
        proof {
            assert(branches_wf(fresh@, (level - 1) as nat));
        }
        *n = TreeBody::Branch(Box::new(fresh));
        proof {
            assert(node_wf(*n, level as nat));
        }
    } else {
        proof {
            assert(node_wf(*n, level as nat));
        }
    }
    match n {
        TreeBody::Branch(b) => {
            let ghost ob = (**b)@;
            proof {
                lemma_wf_child(ob, (level - 1) as nat, i as int);
            }
            slot_mut(&mut b[i], level - 1, sx, sy, sz)
        },
        _ => {
            proof {
                assert(false);
            }
            n
        },
    }
}

impl<T> TreeBody<T> {
    /// Eight empty children.
    pub fn empty() -> (r: Branches<T>)
        ensures
            forall|i: int| 0 <= i < 8 ==> #[trigger] r@[i] == TreeBody::<T>::Empty,
    {
        [
            TreeBody::Empty,
            TreeBody::Empty,
            TreeBody::Empty,
            TreeBody::Empty,
            TreeBody::Empty,
            TreeBody::Empty,
            TreeBody::Empty,
            TreeBody::Empty,
        ]
    }
}


fn node_ref<T>(n: &TreeBody<T>, level: u8, x: i64, y: i64, z: i64) -> (r: Option<&T>)
    requires
        level <= MAX_SIZE,
        in_cube(pow2(level as nat) as int, x as int, y as int, z as int),
    ensures
        match r {
            Some(t) => node_get(*n, level as nat, x as int, y as int, z as int) == Some(*t),
            None => node_get(*n, level as nat, x as int, y as int, z as int) is None,
        },
    decreases level,
{
    match n {
        TreeBody::Empty => None,
        TreeBody::Leaf(t) => if level == 0 {
            Some(t)
        } else {
            None
        },
        TreeBody::Branch(b) => {
            if level == 0 {
                return None;
            }
            let (i, sx, sy, sz) = child_at(level, x, y, z);
            node_ref(&b[i], level - 1, sx, sy, sz)
        },
    }
}

fn take<T>(slot: &mut TreeBody<T>) -> (r: TreeBody<T>)
    ensures
        r == *old(slot),
        *final(slot) == TreeBody::<T>::Empty,
{
    let mut e = TreeBody::Empty;
    std::mem::swap(&mut e, slot);
    e
}

/// A branch whose only non-empty child, at index `at`, is `c`.
fn deepen<T>(c: TreeBody<T>, at: usize) -> (r: TreeBody<T>)
    requires
        at < 8,
    ensures
        r is Branch,
        children(r).len() == 8,
        children(r)[at as int] == c,
        forall|j: int| 0 <= j < 8 && j != at ==> #[trigger] children(r)[j] == TreeBody::<T>::Empty,
{
    let mut b = TreeBody::empty();
    b[at] = c;
    TreeBody::Branch(Box::new(b))
}

/// Children of a tree doubled in extent: top-level child `i` moves one level down, into
/// slot `7 - i` of a fresh branch.
pub open spec fn doubled<T>(ob: Seq<TreeBody<T>>, nb: Seq<TreeBody<T>>) -> bool {
    &&& ob.len() == 8
    &&& nb.len() == 8
    &&& forall|i: int|
        0 <= i < 8 ==> {
            &&& #[trigger] nb[i] is Branch
            &&& children(nb[i]).len() == 8
            &&& children(nb[i])[7 - i] == ob[i]
            &&& forall|j: int| 0 <= j < 8 && j != 7 - i ==> #[trigger] children(nb[i])[j] == TreeBody::<T>::Empty
        }
}

proof fn lemma_doubled_get<T>(ob: Seq<TreeBody<T>>, nb: Seq<TreeBody<T>>, s: nat, x: int, y: int, z: int)
    requires
        doubled(ob, nb),
        -2 * pow2(s) <= x < 2 * pow2(s),
        -2 * pow2(s) <= y < 2 * pow2(s),
        -2 * pow2(s) <= z < 2 * pow2(s),
    ensures
        branches_get(nb, s + 1, x + 2 * pow2(s), y + 2 * pow2(s), z + 2 * pow2(s)) == if -pow2(s) <= x
            < pow2(s) && -pow2(s) <= y < pow2(s) && -pow2(s) <= z < pow2(s) {
            branches_get(ob, s, x + pow2(s), y + pow2(s), z + pow2(s))
        } else {
            None
        },
{
    let h = pow2(s) as int;
    lemma_pow2_unfold(s + 1);
    assert(pow2(s + 1) == 2 * h);
    let i = octant(x >= 0, y >= 0, z >= 0);
    let lx = within(x + 2 * h, 2 * h);
    let ly = within(y + 2 * h, 2 * h);
    let lz = within(z + 2 * h, 2 * h);
    assert(nb[i] is Branch);
    let j = octant(lx >= h, ly >= h, lz >= h);
    assert(children(nb[i])[7 - i] == ob[i]);
    assert(branches_get(nb, s + 1, x + 2 * h, y + 2 * h, z + 2 * h) == node_get(nb[i], s + 1, lx, ly, lz));
    assert(node_get(nb[i], s + 1, lx, ly, lz) == branches_get(children(nb[i]), s, lx, ly, lz));
    assert(branches_get(children(nb[i]), s, lx, ly, lz) == node_get(
        children(nb[i])[j],
        s,
        within(lx, h),
        within(ly, h),
        within(lz, h),
    ));
    if -h <= x < h && -h <= y < h && -h <= z < h {
        assert(j == 7 - i);
        assert(branches_get(ob, s, x + h, y + h, z + h) == node_get(
            ob[i],
            s,
            within(x + h, h),
            within(y + h, h),
            within(z + h, h),
        ));
    } else {
        assert(j != 7 - i);
        assert(children(nb[i])[j] == TreeBody::<T>::Empty);
    }
}

proof fn lemma_doubled<T>(ob: Seq<TreeBody<T>>, nb: Seq<TreeBody<T>>, s: nat)
    requires
        doubled(ob, nb),
    ensures
        branches_count(nb, s + 1) == branches_count(ob, s),
        branches_wf(ob, s) ==> branches_wf(nb, s + 1),
        forall|x: int, y: int, z: int|
            -2 * pow2(s) <= x < 2 * pow2(s) && -2 * pow2(s) <= y < 2 * pow2(s) && -2 * pow2(s) <= z < 2
                * pow2(s) ==> #[trigger] branches_get(
                nb,
                s + 1,
                x + 2 * pow2(s),
                y + 2 * pow2(s),
                z + 2 * pow2(s),
            ) == if -pow2(s) <= x < pow2(s) && -pow2(s) <= y < pow2(s) && -pow2(s) <= z < pow2(s) {
                branches_get(ob, s, x + pow2(s), y + pow2(s), z + pow2(s))
            } else {
                None
            },
{
    assert forall|x: int, y: int, z: int|
        -2 * pow2(s) <= x < 2 * pow2(s) && -2 * pow2(s) <= y < 2 * pow2(s) && -2 * pow2(s) <= z < 2
            * pow2(s) implies #[trigger] branches_get(
            nb,
            s + 1,
            x + 2 * pow2(s),
            y + 2 * pow2(s),
            z + 2 * pow2(s),
        ) == if -pow2(s) <= x < pow2(s) && -pow2(s) <= y < pow2(s) && -pow2(s) <= z < pow2(s) {
            branches_get(ob, s, x + pow2(s), y + pow2(s), z + pow2(s))
        } else {
            None
        } by {
        lemma_doubled_get(ob, nb, s, x, y, z);
    }
    assert forall|i: int| 0 <= i < 8 implies node_count(#[trigger] nb[i], s + 1) == node_count(ob[i], s) by {
        assert(nb[i] is Branch);
        let c = children(nb[i]);
        assert(c[7 - i] == ob[i]);
        assert forall|j: int| 0 <= j < 8 && j != 7 - i implies node_count(#[trigger] c[j], s) == 0 by {
            assert(c[j] == TreeBody::<T>::Empty);
        }
        assert(node_count(nb[i], s + 1) == branches_count(c, s));
    }
    if branches_wf(ob, s) {
        assert forall|i: int| 0 <= i < 8 implies node_wf(#[trigger] nb[i], s + 1) by {
            assert(nb[i] is Branch);
            let c = children(nb[i]);
            assert(c[7 - i] == ob[i]);
            assert forall|j: int| 0 <= j < 8 && j != 7 - i implies node_wf(#[trigger] c[j], s) by {
                assert(c[j] == TreeBody::<T>::Empty);
            }
            assert(branches_wf(c, s));
        }
    }
    lemma_children_sum(nb, ob, s + 1, s);
}


/// The coordinates that a tree of the given exponent holds.
pub open spec fn holds_at(size: nat, p: (int, int, int)) -> bool {
    let m = pow2(size) as int;
    -m <= p.0 < m && -m <= p.1 < m && -m <= p.2 < m
}

impl<T> View for VoxelTree<T> {
    type V = Map<(int, int, int), T>;

    /// The stored values, by voxel coordinate.
    open spec fn view(&self) -> Map<(int, int, int), T> {
        Map::new(|p: (int, int, int)| self.lookup(p) is Some, |p: (int, int, int)| self.lookup(p)->Some_0)
    }
}

impl<T> VoxelTree<T> {
    pub open spec fn half_width(&self) -> int {
        pow2(self.size as nat) as int
    }

    pub open spec fn holds(&self, p: (int, int, int)) -> bool {
        holds_at(self.size as nat, p)
    }

    /// The value stored at a voxel coordinate.
    pub open spec fn lookup(&self, p: (int, int, int)) -> Option<T> {
        if self.holds(p) {
            branches_get(
                self.contents@,
                self.size as nat,
                p.0 + self.half_width(),
                p.1 + self.half_width(),
                p.2 + self.half_width(),
            )
        } else {
            None
        }
    }

    /// Whether voxel `p` comes before voxel `q` in a depth-first scan of the tree, children in
    /// index order.
    pub open spec fn precedes(&self, p: (int, int, int), q: (int, int, int)) -> bool {
        let hw = self.half_width();
        branches_before(self.size as nat, (p.0 + hw, p.1 + hw, p.2 + hw), (q.0 + hw, q.1 + hw, q.2 + hw))
    }

    pub open spec fn wf(&self) -> bool {
        self.size <= MAX_SIZE && branches_wf(self.contents@, self.size as nat)
    }

    /// Number of stored values.
    pub open spec fn count(&self) -> nat {
        branches_count(self.contents@, self.size as nat)
    }

    /// Bounds on the half-width of a well-formed tree.
    pub proof fn lemma_half_width(&self)
        requires
            self.wf(),
        ensures
            0 < self.half_width() <= 0x4000_0000_0000_0000,
    {
        lemma2_to64_rest();
        lemma_pow2_pos(self.size as nat);
        if self.size < MAX_SIZE {
            lemma_pow2_strictly_increases(self.size as nat, MAX_SIZE as nat);
        }
    }

    /// A voxel that a well-formed tree holds fits the largest tree.
    pub proof fn lemma_holds_fits(&self, p: (int, int, int))
        requires
            self.wf(),
            self.holds(p),
        ensures
            fits(p),
            -0x4000_0000_0000_0000 <= p.0 < 0x4000_0000_0000_0000,
            -0x4000_0000_0000_0000 <= p.1 < 0x4000_0000_0000_0000,
            -0x4000_0000_0000_0000 <= p.2 < 0x4000_0000_0000_0000,
    {
        self.lemma_half_width();
        lemma2_to64_rest();
    }

    /// An empty tree of exponent 0.
    pub fn new() -> (r: VoxelTree<T>)
        ensures
            r.wf(),
            r.size == 0,
            r@ == Map::<(int, int, int), T>::empty(),
            r.count() == 0,
    {
        let r = VoxelTree { size: 0, contents: TreeBody::empty() };
        proof {
            lemma2_to64();
            assert(r@ =~= Map::<(int, int, int), T>::empty());
        }
        r
    }

    /// Whether the voxel lies within the tree's current bounds.
    pub fn contains_bounds(&self, voxel: Voxel) -> (r: bool)
        requires
            self.size <= MAX_SIZE,
        ensures
            r == self.holds(voxel@),
    {
        let high = side(self.size);
        let low = -high;
        if voxel.x < low || voxel.y < low || voxel.z < low {
            return false;
        }
        voxel.x < high && voxel.y < high && voxel.z < high
    }

    /// Doubles the tree's extent, about the origin, until it holds the voxel.
    pub fn grow_to_hold(&mut self, voxel: Voxel)
        requires
            old(self).wf(),
            fits(voxel@),
        ensures
            final(self).wf(),
            final(self).holds(voxel@),
            final(self).size >= old(self).size,
            final(self).size > old(self).size ==> !holds_at((final(self).size - 1) as nat, voxel@),
            old(self).holds(voxel@) ==> *final(self) == *old(self),
            final(self).size == old(self).size + 1 ==> doubled(old(self).contents@, final(self).contents@),
            forall|p: (int, int, int)| #[trigger] final(self).lookup(p) == old(self).lookup(p),
            final(self)@ == old(self)@,
            final(self).count() == old(self).count(),
    {
        let ghost start = *self;
        while !self.contains_bounds(voxel)
            invariant
                self.wf(),
                fits(voxel@),
                self.size >= start.size,
                self.size > start.size ==> !holds_at((self.size - 1) as nat, voxel@),
                start.holds(voxel@) ==> *self == start,
                self.size == start.size ==> *self == start,
                self.size == start.size + 1 ==> doubled(start.contents@, self.contents@),
                forall|p: (int, int, int)| #[trigger] self.lookup(p) == start.lookup(p),
                self.count() == start.count(),
            decreases MAX_SIZE - self.size,
        {
            let ghost prev = *self;
            let ghost ob = self.contents@;
            let ghost s = self.size as nat;
            let c0 = take(&mut self.contents[0]);
            let c1 = take(&mut self.contents[1]);
            let c2 = take(&mut self.contents[2]);
            let c3 = take(&mut self.contents[3]);
            let c4 = take(&mut self.contents[4]);
            let c5 = take(&mut self.contents[5]);
            let c6 = take(&mut self.contents[6]);
            let c7 = take(&mut self.contents[7]);
            self.contents = [
                deepen(c0, 7),
                deepen(c1, 6),
                deepen(c2, 5),
                deepen(c3, 4),
                deepen(c4, 3),
                deepen(c5, 2),
                deepen(c6, 1),
                deepen(c7, 0),
            ];
            self.size = self.size + 1;
            proof {
                assert(doubled(ob, self.contents@));
                lemma_doubled(ob, self.contents@, s);
                lemma_pow2_unfold(s + 1);
                lemma_pow2_pos(s);
                assert forall|p: (int, int, int)| #[trigger] self.lookup(p) == start.lookup(p) by {
                    if holds_at(s + 1, p) {
                        assert(branches_get(
                            self.contents@,
                            s + 1,
                            p.0 + 2 * pow2(s),
                            p.1 + 2 * pow2(s),
                            p.2 + 2 * pow2(s),
                        ) == if holds_at(s, p) {
                            branches_get(ob, s, p.0 + pow2(s), p.1 + pow2(s), p.2 + pow2(s))
                        } else {
                            None
                        });
                    }
                    assert(self.lookup(p) == prev.lookup(p));
                }
            }
        }
        proof {
            assert(self@ =~= start@);
        }
    }

    /// Every tree whose children agree with this one's off the path to `v` stores the same
    /// values as this one at every other coordinate.
    proof fn lemma_agree_off_path(&self, v: (int, int, int))
        requires
            self.holds(v),
        ensures
            forall|t: VoxelTree<T>, p: (int, int, int)|
                t.size == self.size && branches_agree(
                    t.contents@,
                    self.contents@,
                    self.size as nat,
                    v.0 + self.half_width(),
                    v.1 + self.half_width(),
                    v.2 + self.half_width(),
                ) && p != v ==> #[trigger] t.lookup(p) == self.lookup(p),
    {
        let hw = self.half_width();
        lemma_pow2_unfold(self.size as nat + 1);
        assert forall|t: VoxelTree<T>, p: (int, int, int)|
            t.size == self.size && branches_agree(
                t.contents@,
                self.contents@,
                self.size as nat,
                v.0 + hw,
                v.1 + hw,
                v.2 + hw,
            ) && p != v implies #[trigger] t.lookup(p) == self.lookup(p) by {
            if self.holds(p) {
                lemma_branches_agree(
                    t.contents@,
                    self.contents@,
                    self.size as nat,
                    v.0 + hw,
                    v.1 + hw,
                    v.2 + hw,
                    p.0 + hw,
                    p.1 + hw,
                    p.2 + hw,
                );
            }
        }
    }

    /// Top-level child index and local coordinates of a voxel the tree holds.
    fn locate(&self, voxel: Voxel) -> (r: (usize, i64, i64, i64))
        requires
            self.size <= MAX_SIZE,
            self.holds(voxel@),
        ensures
            r.0 == octant(voxel.x >= 0, voxel.y >= 0, voxel.z >= 0),
            r.1 == within(voxel.x + self.half_width(), self.half_width()),
            r.2 == within(voxel.y + self.half_width(), self.half_width()),
            r.3 == within(voxel.z + self.half_width(), self.half_width()),
            in_cube(self.half_width(), r.1 as int, r.2 as int, r.3 as int),
    {
        let hw = side(self.size);
        let mut i: usize = 0;
        let mut lx = voxel.x + hw;
        let mut ly = voxel.y + hw;
        let mut lz = voxel.z + hw;
        if voxel.x >= 0 {
            i = i + 4;
            lx = voxel.x;
        }
        if voxel.y >= 0 {
            i = i + 2;
            ly = voxel.y;
        }
        if voxel.z >= 0 {
            i = i + 1;
            lz = voxel.z;
        }
        (i, lx, ly, lz)
    }

    /// The value stored at a voxel, if any.
    pub fn get(&self, voxel: Voxel) -> (r: Option<&T>)
        requires
            self.size <= MAX_SIZE,
        ensures
            match r {
                Some(t) => self@.contains_key(voxel@) && self@[voxel@] == *t,
                None => !self@.contains_key(voxel@),
            },
    {
        if !self.contains_bounds(voxel) {
            return None;
        }
        let (i, lx, ly, lz) = self.locate(voxel);
        node_ref(&self.contents[i], self.size, lx, ly, lz)
    }

    /// Grows the tree to hold the voxel, creates the branches down to it, and hands out its
    /// leaf slot. The slot holds `Leaf(value)` where a value is stored and `Empty` elsewhere;
    /// what is left in it when the borrow ends becomes the voxel's value.
    pub fn get_mut_or_create(&mut self, voxel: Voxel) -> (r: &mut TreeBody<T>)
        requires
            old(self).wf(),
            fits(voxel@),
        ensures
            final(self).size >= old(self).size,
            final(self).size > old(self).size ==> !holds_at((final(self).size - 1) as nat, voxel@),
            old(self).holds(voxel@) ==> final(self).size == old(self).size,
            final(self).holds(voxel@),
            *r == body_of(old(self).lookup(voxel@)),
            final(self).lookup(voxel@) == value_of(*final(r)),
            forall|p: (int, int, int)|
                p != voxel@ ==> #[trigger] final(self).lookup(p) == old(self).lookup(p),
            !(*final(r) is Branch) ==> final(self).wf(),
            final(self).count() + node_count(*r, 0) == old(self).count() + node_count(*final(r), 0),
    {
        self.grow_to_hold(voxel);
        let (i, lx, ly, lz) = self.locate(voxel);
        proof {
            self.lemma_agree_off_path(voxel@);
            lemma_wf_child(self.contents@, self.size as nat, i as int);
            assert(self.lookup(voxel@) == node_get(
                self.contents@[i as int],
                self.size as nat,
                lx as int,
                ly as int,
                lz as int,
            ));
        }
        slot_mut(&mut self.contents[i], self.size, lx, ly, lz)
    }

    /// Searches one child of the given level whose cube has its lowest corner at `c`, and
    /// empties it when it is a branch that holds no value.
    fn search_child(slot: &mut TreeBody<T>, level: u8, c: Voxel) -> (r: Option<Voxel>)
        requires
            level <= MAX_SIZE,
            node_wf(*old(slot), level as nat),
            -pow2(MAX_SIZE as nat) <= c.x,
            -pow2(MAX_SIZE as nat) <= c.y,
            -pow2(MAX_SIZE as nat) <= c.z,
            c.x + pow2(level as nat) <= pow2(MAX_SIZE as nat),
            c.y + pow2(level as nat) <= pow2(MAX_SIZE as nat),
            c.z + pow2(level as nat) <= pow2(MAX_SIZE as nat),
        ensures
            node_equiv(*final(slot), *old(slot), level as nat),
            match r {
                Some(v) => {
                    &&& in_cube(pow2(level as nat) as int, v.x - c.x, v.y - c.y, v.z - c.z)
                    &&& node_get(*old(slot), level as nat, v.x - c.x, v.y - c.y, v.z - c.z) is Some
                    &&& forall|x: int, y: int, z: int|
                        in_cube(pow2(level as nat) as int, x, y, z) && #[trigger] node_get(
                            *old(slot),
                            level as nat,
                            x,
                            y,
                            z,
                        ) is Some ==> !node_before(level as nat, (x, y, z), (v.x - c.x, v.y - c.y, v.z - c.z))
                },
                None => {
                    &&& node_count(*old(slot), level as nat) == 0
                    &&& node_none(*old(slot), level as nat)
                    &&& *final(slot) == TreeBody::<T>::Empty
                },
            },
        decreases level, 0nat,
    {
        let ghost child = *slot;
        let mut prune = false;
        let mut found: Option<Voxel> = None;
        match slot {
            TreeBody::Branch(b) => {
                if level > 0 {
                    let ghost cb = (**b)@;
                    proof {
                        lemma_pow2_unfold(level as nat);
                    }
                    match Self::get_any_recursive(&mut **b, level - 1, c) {
                        Some(v) => {
                            proof {
                                lemma_children_equiv((**b)@, cb, (level - 1) as nat);
                                assert forall|x: int, y: int, z: int|
                                    in_cube(pow2(level as nat) as int, x, y, z) implies #[trigger] node_get(
                                    TreeBody::Branch(*b),
                                    level as nat,
                                    x,
                                    y,
                                    z,
                                ) == node_get(child, level as nat, x, y, z) by {
                                    assert(in_cube(2 * pow2((level - 1) as nat) as int, x, y, z));
                                    assert(node_get(child, level as nat, x, y, z) == branches_get(
                                        cb,
                                        (level - 1) as nat,
                                        x,
                                        y,
                                        z,
                                    ));
                                    assert(node_get(TreeBody::Branch(*b), level as nat, x, y, z)
                                        == branches_get((**b)@, (level - 1) as nat, x, y, z));
                                }
                                assert(node_equiv(TreeBody::Branch(*b), child, level as nat));
                                assert(node_get(child, level as nat, v.x - c.x, v.y - c.y, v.z - c.z)
                                    == branches_get(cb, (level - 1) as nat, v.x - c.x, v.y - c.y, v.z - c.z));
                                assert forall|x: int, y: int, z: int|
                                    in_cube(pow2(level as nat) as int, x, y, z) && #[trigger] node_get(
                                        child,
                                        level as nat,
                                        x,
                                        y,
                                        z,
                                    ) is Some implies !node_before(
                                    level as nat,
                                    (x, y, z),
                                    (v.x - c.x, v.y - c.y, v.z - c.z),
                                ) by {
                                    assert(in_cube(2 * pow2((level - 1) as nat) as int, x, y, z));
                                    assert(node_get(child, level as nat, x, y, z) == branches_get(
                                        cb,
                                        (level - 1) as nat,
                                        x,
                                        y,
                                        z,
                                    ));
                                }
                            }
                            found = Some(v);
                        },
                        None => {
                            prune = true;
                        },
                    }
                }
            },
            TreeBody::Leaf(_) => {
                if level == 0 {
                    proof {
                        lemma2_to64();
                        assert(in_cube(1, 0, 0, 0));
                    }
                    found = Some(c);
                }
            },
            TreeBody::Empty => {},
        }
        if found.is_some() {
            return found;
        }
        proof {
            assert forall|x: int, y: int, z: int|
                in_cube(pow2(level as nat) as int, x, y, z) implies #[trigger] node_get(
                child,
                level as nat,
                x,
                y,
                z,
            ) is None by {
                if level > 0 {
                    lemma_pow2_unfold(level as nat);
                    assert(in_cube(2 * pow2((level - 1) as nat) as int, x, y, z));
                    if child is Branch {
                        assert(node_get(child, level as nat, x, y, z) == branches_get(
                            children(child),
                            (level - 1) as nat,
                            x,
                            y,
                            z,
                        ));
                    }
                }
            }
        }
        if prune {
            *slot = TreeBody::Empty;
        }
        None
    }

    /// Depth-first search, children in index order, for one stored value among children of the
    /// given level whose cube has its lowest corner at `corner`. A branch found to hold no
    /// value is replaced by `Empty` on the way.
    fn get_any_recursive(branches: &mut Branches<T>, level: u8, corner: Voxel) -> (r: Option<Voxel>)
        requires
            level <= MAX_SIZE,
            branches_wf(old(branches)@, level as nat),
            -pow2(MAX_SIZE as nat) <= corner.x,
            -pow2(MAX_SIZE as nat) <= corner.y,
            -pow2(MAX_SIZE as nat) <= corner.z,
            corner.x + 2 * pow2(level as nat) <= pow2(MAX_SIZE as nat),
            corner.y + 2 * pow2(level as nat) <= pow2(MAX_SIZE as nat),
            corner.z + 2 * pow2(level as nat) <= pow2(MAX_SIZE as nat),
        ensures
            forall|j: int|
                0 <= j < 8 ==> node_equiv(#[trigger] final(branches)@[j], old(branches)@[j], level as nat),
            match r {
                Some(v) => {
                    &&& in_cube(
                        2 * pow2(level as nat) as int,
                        v.x - corner.x,
                        v.y - corner.y,
                        v.z - corner.z,
                    )
                    &&& branches_get(
                        old(branches)@,
                        level as nat,
                        v.x - corner.x,
                        v.y - corner.y,
                        v.z - corner.z,
                    ) is Some
                    &&& forall|x: int, y: int, z: int|
                        in_cube(2 * pow2(level as nat) as int, x, y, z) && #[trigger] branches_get(
                            old(branches)@,
                            level as nat,
                            x,
                            y,
                            z,
                        ) is Some ==> !branches_before(
                            level as nat,
                            (x, y, z),
                            (v.x - corner.x, v.y - corner.y, v.z - corner.z),
                        )
                },
                None => {
                    &&& forall|j: int| 0 <= j < 8 ==> #[trigger] final(branches)@[j] == TreeBody::<T>::Empty
                    &&& branches_count(old(branches)@, level as nat) == 0
                    &&& forall|x: int, y: int, z: int|
                        in_cube(2 * pow2(level as nat) as int, x, y, z) ==> #[trigger] branches_get(
                            old(branches)@,
                            level as nat,
                            x,
                            y,
                            z,
                        ) is None
                },
            },
        decreases level, 1nat,
    {
        let ghost ob = branches@;
        let step = side(level);
        proof {
            lemma2_to64_rest();
        }
        let mut i: usize = 0;
        while i < 8
            invariant
                i <= 8,
                level <= MAX_SIZE,
                step == pow2(level as nat),
                pow2(MAX_SIZE as nat) == 0x4000_0000_0000_0000,
                ob == old(branches)@,
                branches_wf(ob, level as nat),
                forall|j: int| i <= j < 8 ==> #[trigger] branches@[j] == ob[j],
                forall|j: int| 0 <= j < i ==> #[trigger] branches@[j] == TreeBody::<T>::Empty,
                ob.len() == 8,
                -pow2(MAX_SIZE as nat) <= corner.x,
                -pow2(MAX_SIZE as nat) <= corner.y,
                -pow2(MAX_SIZE as nat) <= corner.z,
                corner.x + 2 * pow2(level as nat) <= pow2(MAX_SIZE as nat),
                corner.y + 2 * pow2(level as nat) <= pow2(MAX_SIZE as nat),
                corner.z + 2 * pow2(level as nat) <= pow2(MAX_SIZE as nat),
                forall|j: int| 0 <= j < 8 ==> node_equiv(#[trigger] branches@[j], ob[j], level as nat),
                forall|j: int|
                    0 <= j < i ==> node_count(#[trigger] ob[j], level as nat) == 0 && node_none(
                        ob[j],
                        level as nat,
                    ),
            decreases 8 - i,
        {
            let bx = i >= 4;
            let by = i % 4 >= 2;
            let bz = i % 2 == 1;
            proof {
                assert(octant(bx, by, bz) == i);
                lemma_wf_child(ob, level as nat, i as int);
            }
            let cx = if bx { corner.x + step } else { corner.x };
            let cy = if by { corner.y + step } else { corner.y };
            let cz = if bz { corner.z + step } else { corner.z };
            let c = Voxel { x: cx, y: cy, z: cz };
            let found = Self::search_child(&mut branches[i], level, c);
            if let Some(v) = found {
                proof {
                    let h = pow2(level as nat) as int;
                    let (qx, qy, qz) = (v.x - c.x, v.y - c.y, v.z - c.z);
                    assert(node_equiv(branches@[i as int], ob[i as int], level as nat));
                    assert(forall|j: int| 0 <= j < 8 ==> node_equiv(#[trigger] branches@[j], ob[j], level as nat));
                    assert(v.x - corner.x == (if bx { h } else { 0 }) + qx);
                    assert(v.y - corner.y == (if by { h } else { 0 }) + qy);
                    assert(v.z - corner.z == (if bz { h } else { 0 }) + qz);
                    assert(within(v.x - corner.x, h) == qx);
                    assert(within(v.y - corner.y, h) == qy);
                    assert(within(v.z - corner.z, h) == qz);
                    assert forall|x: int, y: int, z: int|
                        in_cube(2 * h, x, y, z) && #[trigger] branches_get(ob, level as nat, x, y, z) is Some
                            implies !branches_before(
                            level as nat,
                            (x, y, z),
                            (v.x - corner.x, v.y - corner.y, v.z - corner.z),
                        ) by {
                        let j = octant(x >= h, y >= h, z >= h);
                        assert(in_cube(h, within(x, h), within(y, h), within(z, h)));
                        assert(branches_get(ob, level as nat, x, y, z) == node_get(
                            ob[j],
                            level as nat,
                            within(x, h),
                            within(y, h),
                            within(z, h),
                        ));
                        if j < i {
                            assert(node_none(ob[j], level as nat));
                        }
                    }
                    assert(branches_get(ob, level as nat, v.x - corner.x, v.y - corner.y, v.z - corner.z)
                        == node_get(ob[i as int], level as nat, qx, qy, qz));
                }
                return found;
            }
            i = i + 1;
        }
        proof {
            let h = pow2(level as nat) as int;
            assert forall|x: int, y: int, z: int|
                in_cube(2 * h, x, y, z) implies #[trigger] branches_get(ob, level as nat, x, y, z) is None by {
                let j = octant(x >= h, y >= h, z >= h);
                assert(node_none(ob[j], level as nat));
                assert(in_cube(h, within(x, h), within(y, h), within(z, h)));
                assert(node_get(ob[j], level as nat, within(x, h), within(y, h), within(z, h)) is None);
            }
            lemma_children_sum(ob, ob, level as nat, level as nat);
        }
        None
    }

    /// Finds the first stored value of a depth-first scan, children in index order, and
    /// returns its voxel; `None` when the tree stores nothing, and then every top-level child
    /// is `Empty`. Branches found to hold nothing are pruned to `Empty` on the way, so repeated
    /// searches stay cheap while values are removed.
    pub fn get_any_mut_or_create(&mut self) -> (r: Option<Voxel>)
        requires
            old(self).wf(),
        ensures
            final(self).wf(),
            final(self).size == old(self).size,
            forall|p: (int, int, int)| #[trigger] final(self).lookup(p) == old(self).lookup(p),
            final(self)@ == old(self)@,
            final(self).count() == old(self).count(),
            match r {
                Some(v) => {
                    &&& old(self)@.contains_key(v@)
                    &&& forall|p: (int, int, int)|
                        #[trigger] old(self)@.contains_key(p) ==> !old(self).precedes(p, v@)
                },
                None => {
                    &&& old(self)@ == Map::<(int, int, int), T>::empty()
                    &&& old(self).count() == 0
                    &&& forall|i: int| 0 <= i < 8 ==> #[trigger] final(self).contents@[i] == TreeBody::<T>::Empty
                },
            },
    {
        let ghost start = *self;
        let hw = side(self.size);
        proof {
            lemma2_to64_rest();
            if self.size < MAX_SIZE {
                lemma_pow2_strictly_increases(self.size as nat, MAX_SIZE as nat);
            }
        }
        let r = Self::get_any_recursive(&mut self.contents, self.size, Voxel { x: -hw, y: -hw, z: -hw });
        proof {
            lemma_children_equiv(self.contents@, start.contents@, self.size as nat);
            assert forall|p: (int, int, int)| #[trigger] self.lookup(p) == start.lookup(p) by {
                if self.holds(p) {
                    assert(in_cube(2 * hw, p.0 + hw, p.1 + hw, p.2 + hw));
                }
            }
            assert(self@ =~= start@);
            if r is None {
                assert(start@ =~= Map::<(int, int, int), T>::empty()) by {
                    assert forall|p: (int, int, int)| !(#[trigger] start@.contains_key(p)) by {
                        if start.holds(p) {
                            assert(in_cube(2 * hw, p.0 + hw, p.1 + hw, p.2 + hw));
                        }
                    }
                }
            } else {
                let v = r->Some_0;
                assert(start.holds(v@));
                assert(start.lookup(v@) is Some);
                assert forall|p: (int, int, int)| #[trigger] start@.contains_key(p) implies !start.precedes(p, v@) by {
                    assert(start.lookup(p) is Some);
                    assert(in_cube(2 * hw, p.0 + hw, p.1 + hw, p.2 + hw));
                }
            }
        }
        r
    }
}

/// Every stored voxel lies within the tree's bounds, so `contains_bounds` accepts it.
pub proof fn lemma_stored_within_bounds<T>(t: &VoxelTree<T>, p: (int, int, int))
    requires
        t@.contains_key(p),
    ensures
        t.holds(p),
{
}

} // verus!
