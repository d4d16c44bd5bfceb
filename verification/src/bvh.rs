//! The bounding volume hierarchy: construction by binned surface-area
//! heuristic, and iterative nearest-hit traversal.
use vstd::prelude::*;

verus! {

use crate::Ray;
use crate::shapes::{Intersects, Shape, MIN_DISTANCE, T_LIMIT};
use crate::vec3::{
    BaseVector,
    Point,
    SCALE,
    WORLD,
    div_floor,
    lemma_mul_mag,
    lemma_div_mag,
};

/// Stands in for an unbounded slab interval end on an axis the ray runs
/// parallel to. Larger than any finite slab time.
pub const SLAB_INFINITY: i64 = 0x1_0000_0000_0000;

/// What a node holds: either two children, or a contiguous range of shape
/// indices.
#[derive(Clone, Copy, PartialEq, Eq, Structural, Debug)]
pub enum BvhNodeKind {
    Branch { left: usize, right: usize },
    Leaf { start: usize, end: usize },
}

/// A node of the flat tree: its kind and its bounding box corners.
#[derive(Clone, Copy, PartialEq, Eq, Structural, Debug)]
pub struct BvhNode {
    pub kind: BvhNodeKind,
    pub min: Point,
    pub max: Point,
}

/// One axis of the slab test: the scaled interval of times during which
/// the ray is between `lo` and `hi`, or nothing when it never is.
pub open spec fn axis_slab_spec(lo: i64, hi: i64, o: i64, d: i64) -> Option<(int, int)> {
    if d == 0 {
        if lo <= o <= hi {
            Some((-SLAB_INFINITY as int, SLAB_INFINITY as int))
        } else {
            None
        }
    } else if d > 0 {
        Some((((lo - o) * SCALE) / (d as int), ((hi - o) * SCALE) / (d as int)))
    } else {
        Some((((o - hi) * SCALE) / (-d as int), ((o - lo) * SCALE) / (-d as int)))
    }
}

/// The slab test: the entry time of the ray into the box, where the three
/// per-axis intervals overlap at some positive time.
pub open spec fn slab_spec(bmin: Point, bmax: Point, ray: Ray) -> Option<int> {
    let ix = axis_slab_spec(bmin.x, bmax.x, ray.origin.x, ray.direction.x);
    let iy = axis_slab_spec(bmin.y, bmax.y, ray.origin.y, ray.direction.y);
    let iz = axis_slab_spec(bmin.z, bmax.z, ray.origin.z, ray.direction.z);
    if ix is None || iy is None || iz is None {
        None
    } else {
        let (nx, fx) = ix->Some_0;
        let (ny, fy) = iy->Some_0;
        let (nz, fz) = iz->Some_0;
        let tmin = if nx >= ny && nx >= nz {
            nx
        } else if ny >= nz {
            ny
        } else {
            nz
        };
        let tmax = if fx <= fy && fx <= fz {
            fx
        } else if fy <= fz {
            fy
        } else {
            fz
        };
        if tmax >= tmin && tmax > 0 {
            Some(tmin)
        } else {
            None
        }
    }
}

/// One axis of the executable slab test.
fn axis_slab(lo: i64, hi: i64, o: i64, d: i64) -> (r: Option<(i64, i64)>)
    requires
        -WORLD <= lo <= WORLD,
        -WORLD <= hi <= WORLD,
        -WORLD <= o <= WORLD,
        -2 * SCALE <= d <= 2 * SCALE,
    ensures
        match r {
            Some((n, f)) => axis_slab_spec(lo, hi, o, d) == Some((n as int, f as int)),
            None => axis_slab_spec(lo, hi, o, d) is None,
        },
{
    if d == 0 {
        if lo <= o && o <= hi {
            Some((-SLAB_INFINITY, SLAB_INFINITY))
        } else {
            None
        }
    } else {
        proof {
            lemma_mul_mag(lo as int - o as int, SCALE as int, 2 * WORLD as int, SCALE as int);
            lemma_mul_mag(hi as int - o as int, SCALE as int, 2 * WORLD as int, SCALE as int);
            lemma_mul_mag(o as int - lo as int, SCALE as int, 2 * WORLD as int, SCALE as int);
            lemma_mul_mag(o as int - hi as int, SCALE as int, 2 * WORLD as int, SCALE as int);
            lemma_div_mag(
                (lo as int - o as int) * SCALE as int,
                if d > 0 {
                    d as int
                } else {
                    -d as int
                },
                2 * (WORLD as int) * (SCALE as int),
            );
        }
        if d > 0 {
            proof {
                lemma_div_mag(
                    (hi as int - o as int) * SCALE as int,
                    d as int,
                    2 * (WORLD as int) * (SCALE as int),
                );
            }
            let n = div_floor((lo as i128 - o as i128) * SCALE as i128, d as i128) as i64;
            let f = div_floor((hi as i128 - o as i128) * SCALE as i128, d as i128) as i64;
            Some((n, f))
        } else {
            proof {
                lemma_div_mag(
                    (o as int - hi as int) * SCALE as int,
                    -d as int,
                    2 * (WORLD as int) * (SCALE as int),
                );
                lemma_div_mag(
                    (o as int - lo as int) * SCALE as int,
                    -d as int,
                    2 * (WORLD as int) * (SCALE as int),
                );
            }
            let n = div_floor((o as i128 - hi as i128) * SCALE as i128, -(d as i128)) as i64;
            let f = div_floor((o as i128 - lo as i128) * SCALE as i128, -(d as i128)) as i64;
            Some((n, f))
        }
    }
}

impl BvhNode {
    /// Both corners lie in the world box.
    pub open spec fn box_in_world(self) -> bool {
        self.min.in_world() && self.max.in_world()
    }

    /// The slab test against this node's box: the entry time, where the ray
    /// hits the box at some positive time.
    #[inline(always)]
    pub fn intersects(&self, ray: &Ray) -> (r: Option<i64>)
        requires
            self.box_in_world(),
            ray.wf(),
        ensures
            match r {
                Some(t) => slab_spec(self.min, self.max, *ray) == Some(t as int),
                None => slab_spec(self.min, self.max, *ray) is None,
            },
    {
        let ix = axis_slab(self.min.x, self.max.x, ray.origin.x, ray.direction.x);
        let iy = axis_slab(self.min.y, self.max.y, ray.origin.y, ray.direction.y);
        let iz = axis_slab(self.min.z, self.max.z, ray.origin.z, ray.direction.z);
        match (ix, iy, iz) {
            (Some((nx, fx)), Some((ny, fy)), Some((nz, fz))) => {
                let tmin = if nx >= ny && nx >= nz {
                    nx
                } else if ny >= nz {
                    ny
                } else {
                    nz
                };
                let tmax = if fx <= fy && fx <= fz {
                    fx
                } else if fy <= fz {
                    fy
                } else {
                    fz
                };
                if tmax >= tmin && tmax > 0 {
                    Some(tmin)
                } else {
                    None
                }
            },
            _ => None,
        }
    }
}

/// Every branch points forward in the node array, and every leaf range is
/// ordered. This is what makes recursion over the flat tree well-founded.
pub open spec fn wf_shallow(nodes: Seq<BvhNode>) -> bool {
    forall|k: int|
        0 <= k < nodes.len() ==> match #[trigger] nodes[k].kind {
            BvhNodeKind::Branch { left, right } => k < left < nodes.len() && k < right
                < nodes.len(),
            BvhNodeKind::Leaf { start, end } => start <= end,
        }
}

/// Whether node `k` is a branch with `c` as one of its children.
pub open spec fn is_child(nodes: Seq<BvhNode>, k: int, c: int) -> bool {
    match nodes[k].kind {
        BvhNodeKind::Branch { left, right } => c == left || c == right,
        BvhNodeKind::Leaf { .. } => false,
    }
}

/// The flat arena is a tree: every branch's children differ, and no two
/// branches share a child, so each non-root node has exactly one parent.
pub open spec fn parents_unique(nodes: Seq<BvhNode>) -> bool {
    (forall|k: int|
        0 <= k < nodes.len() ==> match (#[trigger] nodes[k]).kind {
            BvhNodeKind::Branch { left, right } => left != right,
            BvhNodeKind::Leaf { .. } => true,
        }) && (forall|k1: int, k2: int, c: int|
        0 <= k1 < nodes.len() && 0 <= k2 < nodes.len() && #[trigger] is_child(nodes, k1, c)
            && #[trigger] is_child(nodes, k2, c) ==> k1 == k2)
}

/// Appending a leaf introduces no references, so the arena stays a tree.
proof fn lemma_parents_unique_push_leaf(nodes: Seq<BvhNode>, node: BvhNode)
    requires
        parents_unique(nodes),
        node.kind is Leaf,
    ensures
        parents_unique(nodes.push(node)),
{
    let ns = nodes.push(node);
    assert forall|k1: int, k2: int, c: int|
        0 <= k1 < ns.len() && 0 <= k2 < ns.len() && #[trigger] is_child(ns, k1, c)
            && #[trigger] is_child(ns, k2, c) implies k1 == k2 by {
        if k1 < nodes.len() && k2 < nodes.len() {
            assert(is_child(nodes, k1, c) && is_child(nodes, k2, c));
        }
    }
}

/// The first shape index covered by the subtree rooted at `k`.
pub open spec fn sub_lo(nodes: Seq<BvhNode>, k: int) -> int
    decreases nodes.len() - k,
    when 0 <= k < nodes.len() && wf_shallow(nodes)
{
    match nodes[k].kind {
        BvhNodeKind::Leaf { start, .. } => start as int,
        BvhNodeKind::Branch { left, .. } => sub_lo(nodes, left as int),
    }
}

/// One past the last shape index covered by the subtree rooted at `k`.
pub open spec fn sub_hi(nodes: Seq<BvhNode>, k: int) -> int
    decreases nodes.len() - k,
    when 0 <= k < nodes.len() && wf_shallow(nodes)
{
    match nodes[k].kind {
        BvhNodeKind::Leaf { end, .. } => end as int,
        BvhNodeKind::Branch { right, .. } => sub_hi(nodes, right as int),
    }
}

/// Whether the node's box encloses the bounds of every shape in
/// `shapes[s..e]`.
pub open spec fn box_bounds<T: Shape>(node: BvhNode, shapes: Seq<T>, s: int, e: int) -> bool {
    forall|j: int|
        s <= j < e ==> {
            let lo = (#[trigger] shapes[j]).min_spec();
            let hi = shapes[j].max_spec();
            node.min.x <= lo.x && node.min.y <= lo.y && node.min.z <= lo.z && hi.x <= node.max.x
                && hi.y <= node.max.y && hi.z <= node.max.z
        }
}

/// Whether the box of `inner` lies inside the box of `outer`.
pub open spec fn box_encloses(outer: BvhNode, inner: BvhNode) -> bool {
    outer.min.x <= inner.min.x && outer.min.y <= inner.min.y && outer.min.z <= inner.min.z
        && inner.max.x <= outer.max.x && inner.max.y <= outer.max.y && inner.max.z <= outer.max.z
}

/// The subtree at `k` is a proper bounding volume hierarchy over its shape
/// range: children split the range contiguously, every node's box
/// encloses the bounds of all shapes in its range, and each child's box
/// nests inside its parent's.
pub open spec fn subtree_good<T: Shape>(nodes: Seq<BvhNode>, k: int, shapes: Seq<T>) -> bool
    decreases nodes.len() - k,
    when 0 <= k < nodes.len() && wf_shallow(nodes)
{
    match nodes[k].kind {
        BvhNodeKind::Leaf { start, end } => 0 <= start <= end <= shapes.len() && box_bounds(
            nodes[k],
            shapes,
            start as int,
            end as int,
        ) && nodes[k].box_in_world(),
        BvhNodeKind::Branch { left, right } => subtree_good(nodes, left as int, shapes)
            && subtree_good(nodes, right as int, shapes) && sub_hi(nodes, left as int) == sub_lo(
            nodes,
            right as int,
        ) && sub_lo(nodes, left as int) == sub_lo(nodes, k) && sub_hi(nodes, right as int)
            == sub_hi(nodes, k) && box_bounds(nodes[k], shapes, sub_lo(nodes, k), sub_hi(nodes, k))
            && nodes[k].box_in_world() && box_encloses(nodes[k], nodes[left as int])
            && box_encloses(nodes[k], nodes[right as int]),
    }
}

/// In a good subtree the shape range is ordered and within the array.
pub proof fn lemma_subtree_range<T: Shape>(nodes: Seq<BvhNode>, k: int, shapes: Seq<T>)
    requires
        wf_shallow(nodes),
        0 <= k < nodes.len(),
        subtree_good(nodes, k, shapes),
    ensures
        0 <= sub_lo(nodes, k) <= sub_hi(nodes, k) <= shapes.len(),
    decreases nodes.len() - k,
{
    match nodes[k].kind {
        BvhNodeKind::Leaf { .. } => {},
        BvhNodeKind::Branch { left, right } => {
            lemma_subtree_range(nodes, left as int, shapes);
            lemma_subtree_range(nodes, right as int, shapes);
        },
    }
}

/// The cost of a split candidate with an empty side: never chosen over a
/// finite cost.
pub const COST_INFINITY: i128 = 0x7FFF_FFFF_FFFF_FFFF_FFFF_FFFF_FFFF_FFFF;

/// The coordinate of `p` on the given axis.
pub open spec fn axis_val(p: Point, axis: int) -> int {
    if axis == 0 {
        p.x as int
    } else if axis == 1 {
        p.y as int
    } else {
        p.z as int
    }
}

/// The coordinate of `p` on the given axis.
fn axis_of(p: Point, axis: u8) -> (r: i64)
    requires
        axis < 3,
    ensures
        r == axis_val(p, axis as int),
{
    if axis == 0 {
        p.x
    } else if axis == 1 {
        p.y
    } else {
        p.z
    }
}

/// The corner pair that bounds every shape in `shapes[start..end]`: the
/// fold of the per-shape bounds, starting from the inverted empty box.
/// Whether the corner pair is tight over `shapes[start..end]`: every
/// corner coordinate is attained by some shape's bound.
pub open spec fn bounds_tight<T: Shape>(
    shapes: Seq<T>,
    start: int,
    end: int,
    bmin: Point,
    bmax: Point,
) -> bool {
    &&& exists|j: int| start <= j < end && (#[trigger] shapes[j].min_spec()).x == bmin.x
    &&& exists|j: int| start <= j < end && (#[trigger] shapes[j].min_spec()).y == bmin.y
    &&& exists|j: int| start <= j < end && (#[trigger] shapes[j].min_spec()).z == bmin.z
    &&& exists|j: int| start <= j < end && (#[trigger] shapes[j].max_spec()).x == bmax.x
    &&& exists|j: int| start <= j < end && (#[trigger] shapes[j].max_spec()).y == bmax.y
    &&& exists|j: int| start <= j < end && (#[trigger] shapes[j].max_spec()).z == bmax.z
}

pub fn smallest_bounds<T: Shape + Copy>(shapes: &Vec<T>, start: usize, end: usize) -> (r: (
    Point,
    Point,
))
    requires
        start <= end <= shapes@.len(),
        forall|j: int| start <= j < end ==> (#[trigger] shapes@[j]).wf(),
    ensures
        r.0.in_world(),
        r.1.in_world(),
        forall|j: int|
            start <= j < end ==> {
                let lo = (#[trigger] shapes@[j]).min_spec();
                let hi = shapes@[j].max_spec();
                r.0.x <= lo.x && r.0.y <= lo.y && r.0.z <= lo.z && hi.x <= r.1.x && hi.y <= r.1.y
                    && hi.z <= r.1.z
            },
        start == end ==> r.0 == (BaseVector { x: WORLD, y: WORLD, z: WORLD }) && r.1 == (
        BaseVector { x: (-WORLD) as i64, y: (-WORLD) as i64, z: (-WORLD) as i64 }),
        start < end ==> bounds_tight(shapes@, start as int, end as int, r.0, r.1),
{
    let mut bmin = BaseVector { x: WORLD, y: WORLD, z: WORLD };
    let mut bmax = BaseVector { x: -WORLD, y: -WORLD, z: -WORLD };
    let mut i = start;
    while i < end
        invariant
            start <= i <= end <= shapes@.len(),
            forall|j: int| start <= j < end ==> (#[trigger] shapes@[j]).wf(),
            bmin.in_world(),
            bmax.bounded_spec(WORLD as int),
            forall|j: int|
                start <= j < i ==> {
                    let lo = (#[trigger] shapes@[j]).min_spec();
                    let hi = shapes@[j].max_spec();
                    bmin.x <= lo.x && bmin.y <= lo.y && bmin.z <= lo.z && hi.x <= bmax.x && hi.y
                        <= bmax.y && hi.z <= bmax.z
                },
            i == start ==> bmin == (BaseVector { x: WORLD, y: WORLD, z: WORLD }) && bmax == (
            BaseVector { x: (-WORLD) as i64, y: (-WORLD) as i64, z: (-WORLD) as i64 }),
            start < i ==> bounds_tight(shapes@, start as int, i as int, bmin, bmax),
        decreases end - i,
    {
        let ghost pm = bmin;
        let ghost px = bmax;
        let lo = shapes[i].min();
        let hi = shapes[i].max();
        bmin = bmin.min(&lo);
        bmax = bmax.max(&hi);
        proof {
            lemma_tight_step(shapes@, start as int, i as int, pm, px, bmin, bmax);
        }
        i = i + 1;
    }
    (bmin, bmax)
}

/// Folding one more shape into a tight corner pair keeps it tight: each
/// corner coordinate is either the new shape's bound or carries its old
/// witness.
proof fn lemma_tight_step<T: Shape>(
    shapes: Seq<T>,
    start: int,
    i: int,
    pm: Point,
    px: Point,
    bmin: Point,
    bmax: Point,
)
    requires
        0 <= start <= i < shapes.len(),
        start < i ==> bounds_tight(shapes, start, i, pm, px),
        bmin == pm.min_spec(shapes[i].min_spec()),
        bmax == px.max_spec(shapes[i].max_spec()),
        i == start ==> pm.x >= shapes[i].min_spec().x && pm.y >= shapes[i].min_spec().y && pm.z
            >= shapes[i].min_spec().z && px.x <= shapes[i].max_spec().x && px.y
            <= shapes[i].max_spec().y && px.z <= shapes[i].max_spec().z,
    ensures
        bounds_tight(shapes, start, i + 1, bmin, bmax),
{
    let s = shapes[i];
    assert(exists|j: int| start <= j < i + 1 && (#[trigger] shapes[j].min_spec()).x == bmin.x) by {
        if bmin.x == s.min_spec().x {
            assert((shapes[i].min_spec()).x == bmin.x);
        } else {
            let j0 = choose|j: int| start <= j < i && (#[trigger] shapes[j].min_spec()).x == pm.x;
            assert((shapes[j0].min_spec()).x == bmin.x);
        }
    }
    assert(exists|j: int| start <= j < i + 1 && (#[trigger] shapes[j].min_spec()).y == bmin.y) by {
        if bmin.y == s.min_spec().y {
            assert((shapes[i].min_spec()).y == bmin.y);
        } else {
            let j0 = choose|j: int| start <= j < i && (#[trigger] shapes[j].min_spec()).y == pm.y;
            assert((shapes[j0].min_spec()).y == bmin.y);
        }
    }
    assert(exists|j: int| start <= j < i + 1 && (#[trigger] shapes[j].min_spec()).z == bmin.z) by {
        if bmin.z == s.min_spec().z {
            assert((shapes[i].min_spec()).z == bmin.z);
        } else {
            let j0 = choose|j: int| start <= j < i && (#[trigger] shapes[j].min_spec()).z == pm.z;
            assert((shapes[j0].min_spec()).z == bmin.z);
        }
    }
    assert(exists|j: int| start <= j < i + 1 && (#[trigger] shapes[j].max_spec()).x == bmax.x) by {
        if bmax.x == s.max_spec().x {
            assert((shapes[i].max_spec()).x == bmax.x);
        } else {
            let j0 = choose|j: int| start <= j < i && (#[trigger] shapes[j].max_spec()).x == px.x;
            assert((shapes[j0].max_spec()).x == bmax.x);
        }
    }
    assert(exists|j: int| start <= j < i + 1 && (#[trigger] shapes[j].max_spec()).y == bmax.y) by {
        if bmax.y == s.max_spec().y {
            assert((shapes[i].max_spec()).y == bmax.y);
        } else {
            let j0 = choose|j: int| start <= j < i && (#[trigger] shapes[j].max_spec()).y == px.y;
            assert((shapes[j0].max_spec()).y == bmax.y);
        }
    }
    assert(exists|j: int| start <= j < i + 1 && (#[trigger] shapes[j].max_spec()).z == bmax.z) by {
        if bmax.z == s.max_spec().z {
            assert((shapes[i].max_spec()).z == bmax.z);
        } else {
            let j0 = choose|j: int| start <= j < i && (#[trigger] shapes[j].max_spec()).z == px.z;
            assert((shapes[j0].max_spec()).z == bmax.z);
        }
    }
}

/// Whether the subrange `s2[start..end]` holds the same values, with
/// multiplicity, as `s1[start..end]`.
pub open spec fn same_range_multiset<T>(s1: Seq<T>, s2: Seq<T>, start: int, end: int) -> bool {
    s1.subrange(start, end).to_multiset() == s2.subrange(start, end).to_multiset()
}

/// Swapping two entries of a sequence keeps its multiset of values.
proof fn lemma_swap_multiset<T>(s: Seq<T>, i: int, k: int)
    requires
        0 <= i < s.len(),
        0 <= k < s.len(),
    ensures
        s.update(i, s[k]).update(k, s[i]).to_multiset() == s.to_multiset(),
{
    broadcast use vstd::seq_lib::group_to_multiset_ensures;

    if i == k {
        assert(s.update(i, s[k]).update(k, s[i]) =~= s);
    } else {
        let s1 = s.update(i, s[k]);
        let s2 = s1.update(k, s[i]);
        assert(s1[k] == s[k]);
        assert(s1.to_multiset() =~= s.to_multiset().insert(s[k]).remove(s[i]));
        assert(s2.to_multiset() =~= s1.to_multiset().insert(s[i]).remove(s1[k]));
        assert(s2.to_multiset() =~= s.to_multiset());
    }
}

/// An update inside a range commutes with taking the subrange.
proof fn lemma_update_subrange<T>(s: Seq<T>, i: int, v: T, a: int, b: int)
    requires
        0 <= a <= i < b <= s.len(),
    ensures
        s.update(i, v).subrange(a, b) == s.subrange(a, b).update(i - a, v),
{
    assert(s.update(i, v).subrange(a, b) =~= s.subrange(a, b).update(i - a, v));
}

/// Reorders `shapes[start..end]` in place so that the shapes whose centroid
/// lies below `split` on `axis` come first; returns the index where the
/// second group begins.
pub fn partition<T: Shape + Copy>(
    shapes: &mut Vec<T>,
    start: usize,
    end: usize,
    axis: u8,
    split: i64,
) -> (m: usize)
    requires
        start <= end <= old(shapes)@.len(),
        axis < 3,
        forall|j: int| start <= j < end ==> (#[trigger] old(shapes)@[j]).wf(),
    ensures
        start <= m <= end,
        final(shapes)@.len() == old(shapes)@.len(),
        forall|j: int|
            !(start <= j < end) && 0 <= j < old(shapes)@.len() ==> final(shapes)@[j] == old(
                shapes,
            )@[j],
        same_range_multiset(old(shapes)@, final(shapes)@, start as int, end as int),
        forall|j: int| start <= j < end ==> (#[trigger] final(shapes)@[j]).wf(),
        forall|j: int|
            start <= j < m ==> axis_val(
                (#[trigger] final(shapes)@[j]).centroid_spec(),
                axis as int,
            ) < split,
        forall|j: int|
            m <= j < end ==> axis_val((#[trigger] final(shapes)@[j]).centroid_spec(), axis as int)
                >= split,
        m == start + count_below(old(shapes)@, start as int, end as int, axis as int, split as int),
{
    let mut m = start;
    let mut k = start;
    while k < end
        invariant
            start <= m <= k <= end <= shapes@.len(),
            shapes@.len() == old(shapes)@.len(),
            axis < 3,
            forall|j: int|
                !(start <= j < end) && 0 <= j < old(shapes)@.len() ==> shapes@[j] == old(
                    shapes,
                )@[j],
            same_range_multiset(old(shapes)@, shapes@, start as int, end as int),
            forall|j: int| start <= j < end ==> (#[trigger] shapes@[j]).wf(),
            forall|j: int|
                start <= j < m ==> axis_val(
                    (#[trigger] shapes@[j]).centroid_spec(),
                    axis as int,
                ) < split,
            forall|j: int|
                m <= j < k ==> axis_val((#[trigger] shapes@[j]).centroid_spec(), axis as int)
                    >= split,
            forall|j: int| k <= j < end ==> shapes@[j] == old(shapes)@[j],
            m - start == count_below(old(shapes)@, start as int, k as int, axis as int,
                split as int),
        decreases end - k,
    {
        let ghost pre_count = count_below(old(shapes)@, start as int, k as int, axis as int,
            split as int);
        let c = shapes[k].centroid();
        if axis_of(c, axis) < split {
            let ghost pre = shapes@;
            let a = shapes[m];
            let b = shapes[k];
            shapes[m] = b;
            shapes[k] = a;
            proof {
                assert(shapes@ =~= pre.update(m as int, pre[k as int]).update(
                    k as int,
                    pre[m as int],
                ));
                lemma_swap_multiset(pre, m as int, k as int);
                lemma_update_subrange(
                    pre,
                    m as int,
                    pre[k as int],
                    start as int,
                    end as int,
                );
                lemma_update_subrange(
                    pre.update(m as int, pre[k as int]),
                    k as int,
                    pre[m as int],
                    start as int,
                    end as int,
                );
                lemma_swap_multiset(
                    pre.subrange(start as int, end as int),
                    m as int - start,
                    k as int - start,
                );
                assert(shapes@.subrange(start as int, end as int) =~= pre.subrange(
                    start as int,
                    end as int,
                ).update(m as int - start, pre[k as int]).update(k as int - start, pre[m as int]));
            }
            m = m + 1;
        }
        proof {
            assert(count_below(
                old(shapes)@,
                start as int,
                k as int + 1,
                axis as int,
                split as int,
            ) == pre_count + if axis_val(old(shapes)@[k as int].centroid_spec(), axis as int)
                < split {
                1int
            } else {
                0int
            });
        }
        k = k + 1;
    }
    m
}

/// A good subtree only reads node entries at or after its root: extending
/// the array or changing earlier entries does not disturb it.
proof fn lemma_subtree_prefix_frame<T: Shape>(
    n1: Seq<BvhNode>,
    n2: Seq<BvhNode>,
    k: int,
    shapes: Seq<T>,
)
    requires
        wf_shallow(n1),
        wf_shallow(n2),
        0 <= k < n1.len() <= n2.len(),
        forall|i: int| k <= i < n1.len() ==> n2[i] == n1[i],
        subtree_good(n1, k, shapes),
    ensures
        subtree_good(n2, k, shapes),
        sub_lo(n2, k) == sub_lo(n1, k),
        sub_hi(n2, k) == sub_hi(n1, k),
    decreases n1.len() - k,
{
    match n1[k].kind {
        BvhNodeKind::Leaf { .. } => {},
        BvhNodeKind::Branch { left, right } => {
            lemma_subtree_prefix_frame(n1, n2, left as int, shapes);
            lemma_subtree_prefix_frame(n1, n2, right as int, shapes);
        },
    }
}

/// A good subtree only reads the shapes in its own range: changing shapes
/// outside that range does not disturb it.
proof fn lemma_subtree_shapes_frame<T: Shape>(
    nodes: Seq<BvhNode>,
    k: int,
    s1: Seq<T>,
    s2: Seq<T>,
)
    requires
        wf_shallow(nodes),
        0 <= k < nodes.len(),
        subtree_good(nodes, k, s1),
        s1.len() == s2.len(),
        forall|j: int| sub_lo(nodes, k) <= j < sub_hi(nodes, k) ==> s2[j] == s1[j],
    ensures
        subtree_good(nodes, k, s2),
    decreases nodes.len() - k,
{
    match nodes[k].kind {
        BvhNodeKind::Leaf { .. } => {},
        BvhNodeKind::Branch { left, right } => {
            lemma_subtree_range(nodes, left as int, s1);
            lemma_subtree_range(nodes, right as int, s1);
            lemma_subtree_shapes_frame(nodes, left as int, s1, s2);
            lemma_subtree_shapes_frame(nodes, right as int, s1, s2);
        },
    }
}

/// Whether the value at `s2[j]` already stood somewhere in `s1[a..b]`.
pub open spec fn value_drawn_from<T>(s1: Seq<T>, s2: Seq<T>, a: int, b: int, j: int) -> bool {
    exists|i: int| a <= i < b && s1[i] == s2[j]
}

/// Every value in `s2[a..b]` already stood somewhere in `s1[a..b]` when the
/// two subranges hold the same multiset of values.
proof fn lemma_range_values<T>(s1: Seq<T>, s2: Seq<T>, a: int, b: int)
    requires
        0 <= a <= b <= s1.len(),
        s1.len() == s2.len(),
        same_range_multiset(s1, s2, a, b),
    ensures
        forall|j: int| a <= j < b ==> #[trigger] value_drawn_from(s1, s2, a, b, j),
{
    broadcast use vstd::seq_lib::group_to_multiset_ensures;

    assert forall|j: int| a <= j < b implies #[trigger] value_drawn_from(s1, s2, a, b, j) by {
        let v = s2[j];
        assert(s2.subrange(a, b)[j - a] == v);
        assert(s2.subrange(a, b).contains(v));
        assert(s2.subrange(a, b).to_multiset().count(v) > 0);
        assert(s1.subrange(a, b).contains(v));
        let i0 = choose|i0: int| 0 <= i0 < s1.subrange(a, b).len() && s1.subrange(a, b)[i0] == v;
        assert(s1[i0 + a] == v);
        assert(a <= i0 + a < b);
    }
}

/// A box that bounds every shape of a range keeps doing so when part of the
/// range is filled with the same values in another order.
proof fn lemma_box_bounds_transfer<T: Shape>(
    node: BvhNode,
    s1: Seq<T>,
    s2: Seq<T>,
    s: int,
    e: int,
    cs: int,
    ce: int,
)
    requires
        box_bounds(node, s1, s, e),
        0 <= s <= cs <= ce <= e <= s1.len(),
        s1.len() == s2.len(),
        forall|j: int| !(cs <= j < ce) && 0 <= j < s1.len() ==> s2[j] == s1[j],
        same_range_multiset(s1, s2, cs, ce),
    ensures
        box_bounds(node, s2, s, e),
{
    lemma_range_values(s1, s2, cs, ce);
    assert forall|j: int| s <= j < e implies {
        let lo = (#[trigger] s2[j]).min_spec();
        let hi = s2[j].max_spec();
        node.min.x <= lo.x && node.min.y <= lo.y && node.min.z <= lo.z && hi.x <= node.max.x
            && hi.y <= node.max.y && hi.z <= node.max.z
    } by {
        if cs <= j < ce {
            assert(value_drawn_from(s1, s2, cs, ce, j));
            let i = choose|i: int| cs <= i < ce && s1[i] == s2[j];
            assert(s1[i].min_spec() == s2[j].min_spec());
        } else {
            assert(s2[j] == s1[j]);
        }
    }
}

/// All shapes of a sequence stay well formed when a range of it is filled
/// with the same values in another order.
proof fn lemma_wf_transfer<T: Shape>(s1: Seq<T>, s2: Seq<T>, cs: int, ce: int)
    requires
        0 <= cs <= ce <= s1.len(),
        s1.len() == s2.len(),
        forall|j: int| 0 <= j < s1.len() ==> (#[trigger] s1[j]).wf(),
        forall|j: int| !(cs <= j < ce) && 0 <= j < s1.len() ==> s2[j] == s1[j],
        same_range_multiset(s1, s2, cs, ce),
    ensures
        forall|j: int| 0 <= j < s2.len() ==> (#[trigger] s2[j]).wf(),
{
    lemma_range_values(s1, s2, cs, ce);
    assert forall|j: int| 0 <= j < s2.len() implies (#[trigger] s2[j]).wf() by {
        if cs <= j < ce {
            assert(value_drawn_from(s1, s2, cs, ce, j));
            let i = choose|i: int| cs <= i < ce && s1[i] == s2[j];
            assert(s1[i].wf());
        } else {
            assert(s2[j] == s1[j]);
        }
    }
}

/// A subrange multiset equality spreads to an enclosing range when
/// everything outside the inner range is unchanged.
proof fn lemma_range_multiset_extend<T>(
    s1: Seq<T>,
    s2: Seq<T>,
    a: int,
    b: int,
    cs: int,
    ce: int,
)
    requires
        0 <= a <= cs <= ce <= b <= s1.len(),
        s1.len() == s2.len(),
        forall|j: int| !(cs <= j < ce) && 0 <= j < s1.len() ==> s2[j] == s1[j],
        same_range_multiset(s1, s2, cs, ce),
    ensures
        same_range_multiset(s1, s2, a, b),
{
    broadcast use vstd::seq_lib::lemma_multiset_commutative;

    assert(s1.subrange(a, b) =~= s1.subrange(a, cs) + s1.subrange(cs, ce) + s1.subrange(ce, b));
    assert(s2.subrange(a, b) =~= s2.subrange(a, cs) + s2.subrange(cs, ce) + s2.subrange(ce, b));
    assert(s2.subrange(a, cs) =~= s1.subrange(a, cs));
    assert(s2.subrange(ce, b) =~= s1.subrange(ce, b));
    assert(s1.subrange(a, b).to_multiset() =~= s2.subrange(a, b).to_multiset());
}

/// A centroid-side property of a range survives refilling the range with
/// the same values in another order.
proof fn lemma_side_transfer<T: Shape>(
    s1: Seq<T>,
    s2: Seq<T>,
    cs: int,
    ce: int,
    axis: int,
    split: int,
    below: bool,
)
    requires
        0 <= cs <= ce <= s1.len(),
        s1.len() == s2.len(),
        forall|j: int| !(cs <= j < ce) && 0 <= j < s1.len() ==> s2[j] == s1[j],
        same_range_multiset(s1, s2, cs, ce),
        forall|j: int|
            cs <= j < ce ==> (axis_val((#[trigger] s1[j]).centroid_spec(), axis) < split) == below,
    ensures
        forall|j: int|
            cs <= j < ce ==> (axis_val((#[trigger] s2[j]).centroid_spec(), axis) < split) == below,
{
    lemma_range_values(s1, s2, cs, ce);
    assert forall|j: int|
        cs <= j < ce implies (axis_val((#[trigger] s2[j]).centroid_spec(), axis) < split)
        == below by {
        assert(value_drawn_from(s1, s2, cs, ce, j));
        let i = choose|i: int| cs <= i < ce && s1[i] == s2[j];
        assert(s1[i].centroid_spec() == s2[j].centroid_spec());
    }
}

/// The extent of the leaf at `k`, used as the builder's termination
/// measure.
pub open spec fn leaf_extent(nodes: Seq<BvhNode>, k: int) -> int {
    match nodes[k].kind {
        BvhNodeKind::Leaf { start, end } => end - start,
        BvhNodeKind::Branch { .. } => 0,
    }
}

/// How many shapes in `shapes[s..e]` have their centroid below `split`
/// on `axis`.
pub open spec fn count_below<T: Shape>(shapes: Seq<T>, s: int, e: int, axis: int, split: int)
    -> int
    decreases e - s,
{
    if e <= s {
        0
    } else {
        count_below(shapes, s, e - 1, axis, split) + if axis_val(
            shapes[e - 1].centroid_spec(),
            axis,
        ) < split {
            1int
        } else {
            0int
        }
    }
}

/// A side count lies between zero and the range's size.
pub proof fn lemma_count_below_bounds<T: Shape>(
    shapes: Seq<T>,
    s: int,
    e: int,
    axis: int,
    split: int,
)
    requires
        s <= e,
    ensures
        0 <= count_below(shapes, s, e, axis, split) <= e - s,
    decreases e - s,
{
    if e > s {
        lemma_count_below_bounds(shapes, s, e - 1, axis, split);
    }
}

/// The fold of the bounds of the shapes in `shapes[s..e]` on one side of
/// the split: the side below it when `below`, the side at or above it
/// otherwise. Starts from the inverted empty box.
pub open spec fn side_bounds<T: Shape>(
    shapes: Seq<T>,
    s: int,
    e: int,
    axis: int,
    split: int,
    below: bool,
) -> (Point, Point)
    decreases e - s,
{
    if e <= s {
        (
            BaseVector { x: WORLD, y: WORLD, z: WORLD },
            BaseVector { x: (-WORLD) as i64, y: (-WORLD) as i64, z: (-WORLD) as i64 },
        )
    } else {
        let (m0, x0) = side_bounds(shapes, s, e - 1, axis, split, below);
        if (axis_val(shapes[e - 1].centroid_spec(), axis) < split) == below {
            (m0.min_spec(shapes[e - 1].min_spec()), x0.max_spec(shapes[e - 1].max_spec()))
        } else {
            (m0, x0)
        }
    }
}

/// Half the surface area of the box with the given corners:
/// `dx*dy + dx*dz + dy*dz`.
pub open spec fn half_area_spec(bmin: Point, bmax: Point) -> int {
    let dx = bmax.x - bmin.x;
    let dy = bmax.y - bmin.y;
    let dz = bmax.z - bmin.z;
    dx * dy + dx * dz + dy * dz
}

/// The surface-area-heuristic cost of splitting `shapes[s..e]` by
/// centroid at `split` on `axis`: each side's surface area times twice
/// its count, or `COST_INFINITY` when a side is empty.
pub open spec fn split_cost_spec<T: Shape>(shapes: Seq<T>, s: int, e: int, axis: int, split: int)
    -> int {
    let nl = count_below(shapes, s, e, axis, split);
    let ng = (e - s) - nl;
    if nl == 0 || ng == 0 {
        COST_INFINITY as int
    } else {
        let (lmin, lmax) = side_bounds(shapes, s, e, axis, split, true);
        let (gmin, gmax) = side_bounds(shapes, s, e, axis, split, false);
        2 * ((2 * half_area_spec(lmin, lmax)) * nl + (2 * half_area_spec(gmin, gmax)) * ng)
    }
}

/// The candidate boundary `off` of sixteen on `axis` of the node's box.
pub open spec fn candidate_split_spec(node: BvhNode, axis: int, off: int) -> int {
    axis_val(node.min, axis) + (axis_val(node.max, axis) - axis_val(node.min, axis)) * off / 16
}

/// The builder's stop rule, per candidate: splitting at this boundary is
/// worth it when a traversal step plus the children's scan cost undercuts
/// scanning the whole leaf.
pub open spec fn worth_splitting<T: Shape>(
    node: BvhNode,
    shapes: Seq<T>,
    s: int,
    e: int,
    psa: int,
    axis: int,
    off: int,
) -> bool {
    15 * psa + split_cost_spec(shapes, s, e, axis, candidate_split_spec(node, axis, off)) < 2 * (e
        - s) * psa
}

impl BvhNode {
    /// Evaluates the binned surface-area heuristic over the leaf at `index`:
    /// for fifteen boundaries on each of the three axes, the cost of
    /// splitting the shapes by centroid at that boundary. Returns the best
    /// `(axis, boundary, cost, areas of the two sides)`; the cost is
    /// `COST_INFINITY` when every candidate left one side empty. Which
    /// candidate wins is a heuristic; any choice leaves the tree correct.
    fn get_split<T: Shape + Copy>(
        node: &BvhNode,
        shapes: &Vec<T>,
        start: usize,
        end: usize,
    ) -> (r: (u8, i64, i128, [i64; 2]))
        requires
            start <= end <= shapes@.len(),
            shapes@.len() <= 0x1_0000_0000,
            node.box_in_world(),
            forall|j: int| start <= j < end ==> (#[trigger] shapes@[j]).wf(),
        ensures
            r.0 < 3,
            r.2 == COST_INFINITY || -0x4_0000_0000_0000_0000_0000_0000 <= r.2
                <= 0x4_0000_0000_0000_0000_0000_0000,
            end - start <= 1 ==> r.2 == COST_INFINITY,
            forall|off: int, ax: int|
                1 <= off < 16 && 0 <= ax < 3 ==> r.2 <= #[trigger] split_cost_spec(
                    shapes@,
                    start as int,
                    end as int,
                    ax,
                    candidate_split_spec(*node, ax, off),
                ),
            r.2 != COST_INFINITY ==> exists|off: int, ax: int|
                1 <= off < 16 && 0 <= ax < 3 && r.0 == ax && r.1 == #[trigger] candidate_split_spec(
                    *node,
                    ax,
                    off,
                ) && r.2 == split_cost_spec(shapes@, start as int, end as int, ax, r.1 as int),
    {
        let mut best_axis: u8 = 0;
        let mut best_split: i64 = 0;
        let mut best_cost: i128 = COST_INFINITY;
        let mut best_areas: [i64; 2] = [0, 0];
        let mut offset_num: u8 = 1;
        while offset_num < 16
            invariant
                1 <= offset_num <= 16,
                best_axis < 3,
                best_cost == COST_INFINITY || -0x4_0000_0000_0000_0000_0000_0000 <= best_cost
                    <= 0x4_0000_0000_0000_0000_0000_0000,
                end - start <= 1 ==> best_cost == COST_INFINITY,
                start <= end <= shapes@.len(),
                shapes@.len() <= 0x1_0000_0000,
                node.box_in_world(),
                forall|j: int| start <= j < end ==> (#[trigger] shapes@[j]).wf(),
                forall|off: int, ax: int|
                    1 <= off < offset_num && 0 <= ax < 3 ==> best_cost <= #[trigger] split_cost_spec(
                        shapes@,
                        start as int,
                        end as int,
                        ax,
                        candidate_split_spec(*node, ax, off),
                    ),
                best_cost != COST_INFINITY ==> exists|off: int, ax: int|
                    1 <= off < offset_num && 0 <= ax < 3 && best_axis == ax && best_split
                        == #[trigger] candidate_split_spec(*node, ax, off) && best_cost
                        == split_cost_spec(
                        shapes@,
                        start as int,
                        end as int,
                        ax,
                        best_split as int,
                    ),
            decreases 16 - offset_num,
        {
            let mut axis: u8 = 0;
            while axis < 3
                invariant
                    axis <= 3,
                    1 <= offset_num < 16,
                    best_axis < 3,
                    best_cost == COST_INFINITY || -0x4_0000_0000_0000_0000_0000_0000 <= best_cost
                        <= 0x4_0000_0000_0000_0000_0000_0000,
                    end - start <= 1 ==> best_cost == COST_INFINITY,
                    start <= end <= shapes@.len(),
                    shapes@.len() <= 0x1_0000_0000,
                    node.box_in_world(),
                    forall|j: int| start <= j < end ==> (#[trigger] shapes@[j]).wf(),
                    forall|off: int, ax: int|
                        1 <= off < 16 && 0 <= ax < 3 && (off < offset_num || (off == offset_num
                            && ax < axis)) ==> best_cost <= #[trigger] split_cost_spec(
                            shapes@,
                            start as int,
                            end as int,
                            ax,
                            candidate_split_spec(*node, ax, off),
                        ),
                    best_cost != COST_INFINITY ==> exists|off: int, ax: int|
                        1 <= off < 16 && 0 <= ax < 3 && (off < offset_num || (off == offset_num
                            && ax < axis)) && best_axis == ax && best_split
                            == #[trigger] candidate_split_spec(*node, ax, off) && best_cost
                            == split_cost_spec(
                            shapes@,
                            start as int,
                            end as int,
                            ax,
                            best_split as int,
                        ),
                decreases 3 - axis,
            {
                let lo = axis_of(node.min, axis);
                let hi = axis_of(node.max, axis);
                proof {
                    lemma_mul_mag(hi as int - lo as int, offset_num as int, 2 * WORLD as int, 16);
                    lemma_div_mag(
                        (hi as int - lo as int) * offset_num as int,
                        16,
                        32 * (WORLD as int),
                    );
                }
                let candidate = lo + div_floor(
                    (hi as i128 - lo as i128) * offset_num as i128,
                    16,
                ) as i64;
                proof {
                    assert(candidate as int == candidate_split_spec(
                        *node,
                        axis as int,
                        offset_num as int,
                    ));
                }
                let (cost, areas) = Self::split_cost(shapes, start, end, axis, candidate);
                let ghost pb_axis = best_axis;
                let ghost pb_split = best_split;
                let ghost pb_cost = best_cost;
                let better = cost < best_cost;
                if better {
                    best_axis = axis;
                    best_split = candidate;
                    best_cost = cost;
                    best_areas = areas;
                }
                let ghost old_axis = axis;
                axis = axis + 1;
                proof {
                    if best_cost != COST_INFINITY {
                        assert(exists|off: int, ax: int|
                            1 <= off < 16 && 0 <= ax < 3 && (off < offset_num || (off
                                == offset_num && ax < axis)) && best_axis == ax && best_split
                                == #[trigger] candidate_split_spec(*node, ax, off) && best_cost
                                == split_cost_spec(
                                shapes@,
                                start as int,
                                end as int,
                                ax,
                                best_split as int,
                            )) by {
                            if better {
                                assert(best_split == candidate_split_spec(
                                    *node,
                                    old_axis as int,
                                    offset_num as int,
                                ));
                                assert(best_cost == split_cost_spec(
                                    shapes@,
                                    start as int,
                                    end as int,
                                    old_axis as int,
                                    best_split as int,
                                ));
                            } else {
                                let (o0, a0): (int, int) = choose|off: int, ax: int|
                                    1 <= off < 16 && 0 <= ax < 3 && (off < offset_num || (off
                                        == offset_num && ax < old_axis)) && pb_axis == ax
                                        && pb_split == #[trigger] candidate_split_spec(
                                        *node,
                                        ax,
                                        off,
                                    ) && pb_cost == split_cost_spec(
                                        shapes@,
                                        start as int,
                                        end as int,
                                        ax,
                                        pb_split as int,
                                    );
                                assert(best_split == candidate_split_spec(*node, a0, o0));
                            }
                        }
                    }
                }
            }
            offset_num = offset_num + 1;
        }
        (best_axis, best_split, best_cost, best_areas)
    }

    /// The surface-area-heuristic cost of splitting `shapes[start..end]` by
    /// centroid at `split` on `axis`: each side's surface area times twice
    /// its count, or `COST_INFINITY` when a side is empty.
    fn split_cost<T: Shape + Copy>(
        shapes: &Vec<T>,
        start: usize,
        end: usize,
        axis: u8,
        split: i64,
    ) -> (r: (i128, [i64; 2]))
        requires
            start <= end <= shapes@.len(),
            shapes@.len() <= 0x1_0000_0000,
            axis < 3,
            forall|j: int| start <= j < end ==> (#[trigger] shapes@[j]).wf(),
        ensures
            r.0 == COST_INFINITY || -0x4_0000_0000_0000_0000_0000_0000 <= r.0
                <= 0x4_0000_0000_0000_0000_0000_0000,
            end - start <= 1 ==> r.0 == COST_INFINITY,
            r.0 == split_cost_spec(shapes@, start as int, end as int, axis as int, split as int),
    {
        let mut min_lt = BaseVector { x: WORLD, y: WORLD, z: WORLD };
        let mut max_lt = BaseVector { x: -WORLD, y: -WORLD, z: -WORLD };
        let mut min_ge = min_lt;
        let mut max_ge = max_lt;
        let mut n_lt: usize = 0;
        let mut n_ge: usize = 0;
        let mut j = start;
        while j < end
            invariant
                start <= j <= end <= shapes@.len(),
                axis < 3,
                forall|jj: int| start <= jj < end ==> (#[trigger] shapes@[jj]).wf(),
                min_lt.in_world() && max_lt.in_world() && min_ge.in_world() && max_ge.in_world(),
                n_lt + n_ge == j - start,
                n_lt == count_below(shapes@, start as int, j as int, axis as int, split as int),
                (min_lt, max_lt) == side_bounds(
                    shapes@,
                    start as int,
                    j as int,
                    axis as int,
                    split as int,
                    true,
                ),
                (min_ge, max_ge) == side_bounds(
                    shapes@,
                    start as int,
                    j as int,
                    axis as int,
                    split as int,
                    false,
                ),
            decreases end - j,
        {
            let c = shapes[j].centroid();
            let lo = shapes[j].min();
            let hi = shapes[j].max();
            if axis_of(c, axis) < split {
                min_lt = min_lt.min(&lo);
                max_lt = max_lt.max(&hi);
                n_lt = n_lt + 1;
            } else {
                min_ge = min_ge.min(&lo);
                max_ge = max_ge.max(&hi);
                n_ge = n_ge + 1;
            }
            j = j + 1;
        }
        if n_lt == 0 || n_ge == 0 {
            return (COST_INFINITY, [0, 0]);
        }
        let sa_lt = 2 * Self::half_area(min_lt, max_lt);
        let sa_ge = 2 * Self::half_area(min_ge, max_ge);
        proof {
            lemma_mul_mag(sa_lt as int, n_lt as int, 0x6000_0000_0000_0000, 0x1_0000_0000);
            lemma_mul_mag(sa_ge as int, n_ge as int, 0x6000_0000_0000_0000, 0x1_0000_0000);
        }
        let cost = 2 * (sa_lt as i128 * n_lt as i128 + sa_ge as i128 * n_ge as i128);
        (cost, [sa_lt, sa_ge])
    }

    /// The surface-area sum `dx*dy + dx*dz + dy*dz` of the box with the
    /// given corners. Negative when the box is inverted.
    fn half_area(bmin: Point, bmax: Point) -> (r: i64)
        requires
            bmin.in_world(),
            bmax.in_world(),
        ensures
            -0x3000_0000_0000_0000 <= r <= 0x3000_0000_0000_0000,
            r == half_area_spec(bmin, bmax),
    {
        let dx = bmax.x - bmin.x;
        let dy = bmax.y - bmin.y;
        let dz = bmax.z - bmin.z;
        proof {
            let mw = 2 * WORLD as int;
            lemma_mul_mag(dx as int, dy as int, mw, mw);
            lemma_mul_mag(dx as int, dz as int, mw, mw);
            lemma_mul_mag(dy as int, dz as int, mw, mw);
        }
        (dx as i128 * dy as i128 + dx as i128 * dz as i128 + dy as i128 * dz as i128) as i64
    }
}

impl BvhNode {
    /// Builds the hierarchy over `shapes`, permuting them in place. Node 0
    /// is the root. The result covers `0..shapes.len()` exactly: see
    /// `lemma_partition_completeness`.
    pub fn new<T: Shape + Copy>(shapes: &mut Vec<T>) -> (nodes: Vec<BvhNode>)
        requires
            old(shapes)@.len() <= 0x1_0000_0000,
            forall|j: int| 0 <= j < old(shapes)@.len() ==> (#[trigger] old(shapes)@[j]).wf(),
        ensures
            final(shapes)@.len() == old(shapes)@.len(),
            forall|j: int| 0 <= j < final(shapes)@.len() ==> (#[trigger] final(shapes)@[j]).wf(),
            final(shapes)@.to_multiset() == old(shapes)@.to_multiset(),
            nodes@.len() >= 1,
            wf_shallow(nodes@),
            subtree_good(nodes@, 0, final(shapes)@),
            sub_lo(nodes@, 0) == 0,
            sub_hi(nodes@, 0) == final(shapes)@.len(),
            parents_unique(nodes@),
            forall|k: int| 0 <= k < nodes@.len() ==> !is_child(nodes@, k, 0),
            old(shapes)@.len() == 0 ==> nodes@.len() == 1 && nodes@[0].kind == (BvhNodeKind::Leaf {
                start: 0usize,
                end: 0usize,
            }) && nodes@[0].min == (BaseVector { x: WORLD, y: WORLD, z: WORLD }) && nodes@[0].max
                == (BaseVector { x: (-WORLD) as i64, y: (-WORLD) as i64, z: (-WORLD) as i64 }),
            old(shapes)@.len() == 1 ==> nodes@.len() == 1 && nodes@[0].kind == (BvhNodeKind::Leaf {
                start: 0usize,
                end: 1usize,
            }) && nodes@[0].min == final(shapes)@[0].min_spec() && nodes@[0].max
                == final(shapes)@[0].max_spec(),
    {
        let n = shapes.len();
        let (bmin, bmax) = smallest_bounds(shapes, 0, n);
        let root = BvhNode { kind: BvhNodeKind::Leaf { start: 0, end: n }, min: bmin, max: bmax };
        let mut nodes: Vec<BvhNode> = Vec::new();
        nodes.push(root);
        if n == 0 {
            proof {
                assert(shapes@.to_multiset() =~= old(shapes)@.to_multiset());
            }
            return nodes;
        }
        let sa = Self::half_area(bmin, bmax);
        let sa2 = if -0x2000_0000_0000_0000 <= sa && sa <= 0x2000_0000_0000_0000 {
            2 * sa
        } else {
            sa
        };
        Self::subdivide(0, shapes, &mut nodes, sa2);
        proof {
            lemma_range_multiset_extend(
                old(shapes)@,
                shapes@,
                0,
                old(shapes)@.len() as int,
                0,
                old(shapes)@.len() as int,
            );
            assert(old(shapes)@.subrange(0, old(shapes)@.len() as int) =~= old(shapes)@);
            assert(shapes@.subrange(0, shapes@.len() as int) =~= shapes@);
        }
        nodes
    }

    /// Splits the leaf at `index` while the heuristic finds a split cheaper
    /// than scanning the leaf whole, permuting the leaf's shapes in place
    /// and appending the new nodes.
    #[verifier::rlimit(100)]
    #[verifier::spinoff_prover]
    fn subdivide<T: Shape + Copy>(
        index: usize,
        shapes: &mut Vec<T>,
        nodes: &mut Vec<BvhNode>,
        surface_area: i64,
    )
        requires
            wf_shallow(old(nodes)@),
            index < old(nodes)@.len(),
            old(nodes)@[index as int].kind matches BvhNodeKind::Leaf { .. },
            subtree_good(old(nodes)@, index as int, old(shapes)@),
            parents_unique(old(nodes)@),
            old(shapes)@.len() <= 0x1_0000_0000,
            forall|j: int| 0 <= j < old(shapes)@.len() ==> (#[trigger] old(shapes)@[j]).wf(),
        ensures
            final(nodes)@.len() >= old(nodes)@.len(),
            parents_unique(final(nodes)@),
            forall|i: int|
                0 <= i < old(nodes)@.len() && i != index ==> final(nodes)@[i] == old(nodes)@[i],
            wf_shallow(final(nodes)@),
            subtree_good(final(nodes)@, index as int, final(shapes)@),
            sub_lo(final(nodes)@, index as int) == sub_lo(old(nodes)@, index as int),
            sub_hi(final(nodes)@, index as int) == sub_hi(old(nodes)@, index as int),
            final(shapes)@.len() == old(shapes)@.len(),
            forall|j: int|
                !(sub_lo(old(nodes)@, index as int) <= j < sub_hi(old(nodes)@, index as int)) && 0
                    <= j < old(shapes)@.len() ==> final(shapes)@[j] == old(shapes)@[j],
            same_range_multiset(
                old(shapes)@,
                final(shapes)@,
                sub_lo(old(nodes)@, index as int),
                sub_hi(old(nodes)@, index as int),
            ),
            forall|j: int| 0 <= j < final(shapes)@.len() ==> (#[trigger] final(shapes)@[j]).wf(),
            final(nodes)@[index as int].min == old(nodes)@[index as int].min
                && final(nodes)@[index as int].max == old(nodes)@[index as int].max,
            leaf_extent(old(nodes)@, index as int) <= 1 ==> final(nodes)@ == old(nodes)@
                && final(shapes)@ == old(shapes)@,
            (forall|off: int, ax: int|
                1 <= off < 16 && 0 <= ax < 3 ==> !#[trigger] worth_splitting(
                    old(nodes)@[index as int],
                    old(shapes)@,
                    sub_lo(old(nodes)@, index as int),
                    sub_hi(old(nodes)@, index as int),
                    surface_area as int,
                    ax,
                    off,
                )) ==> final(nodes)@ == old(nodes)@ && final(shapes)@ == old(shapes)@,
            (exists|off: int, ax: int|
                1 <= off < 16 && 0 <= ax < 3 && #[trigger] worth_splitting(
                    old(nodes)@[index as int],
                    old(shapes)@,
                    sub_lo(old(nodes)@, index as int),
                    sub_hi(old(nodes)@, index as int),
                    surface_area as int,
                    ax,
                    off,
                )) ==> final(nodes)@[index as int].kind is Branch,
            final(nodes)@[index as int].kind matches BvhNodeKind::Branch { left, right } ==> left
                == old(nodes)@.len() && (exists|off: int, ax: int|
                1 <= off < 16 && 0 <= ax < 3 && ({
                    let s = sub_lo(old(nodes)@, index as int);
                    let e = sub_hi(old(nodes)@, index as int);
                    let split = #[trigger] candidate_split_spec(old(nodes)@[index as int], ax, off);
                    let m = s + count_below(old(shapes)@, s, e, ax, split);
                    &&& worth_splitting(
                        old(nodes)@[index as int],
                        old(shapes)@,
                        s,
                        e,
                        surface_area as int,
                        ax,
                        off,
                    )
                    &&& forall|o2: int, a2: int|
                        1 <= o2 < 16 && 0 <= a2 < 3 ==> split_cost_spec(old(shapes)@, s, e, ax, split)
                            <= #[trigger] split_cost_spec(
                            old(shapes)@,
                            s,
                            e,
                            a2,
                            candidate_split_spec(old(nodes)@[index as int], a2, o2),
                        )
                    &&& sub_lo(final(nodes)@, left as int) == s
                    &&& sub_hi(final(nodes)@, left as int) == m
                    &&& sub_lo(final(nodes)@, right as int) == m
                    &&& sub_hi(final(nodes)@, right as int) == e
                    &&& forall|j: int|
                        s <= j < m ==> axis_val((#[trigger] final(shapes)@[j]).centroid_spec(), ax)
                            < split
                    &&& forall|j: int|
                        m <= j < e ==> axis_val((#[trigger] final(shapes)@[j]).centroid_spec(), ax)
                            >= split
                })),
        decreases leaf_extent(old(nodes)@, index as int),
    {
        let node = nodes[index];
        let (start, end): (usize, usize) = match node.kind {
            BvhNodeKind::Leaf { start, end } => (start, end),
            BvhNodeKind::Branch { .. } => {
                proof {
                    assert(false);
                }
                (0, 0)
            },
        };
        let (axis, split, cost, areas) = Self::get_split(&node, shapes, start, end);
        let num = end - start;
        proof {
            lemma_mul_mag(2 * num as int, surface_area as int, 0x2_0000_0000, 0x8000_0000_0000_0000);
            lemma_mul_mag(15, surface_area as int, 15, 0x8000_0000_0000_0000);
        }
        if cost >= COST_INFINITY {
            proof {
                assert forall|off: int, ax: int|
                    1 <= off < 16 && 0 <= ax < 3 implies !worth_splitting(
                    node,
                    shapes@,
                    start as int,
                    end as int,
                    surface_area as int,
                    ax,
                    off,
                ) by {
                    assert(cost as int <= split_cost_spec(
                        shapes@,
                        start as int,
                        end as int,
                        ax,
                        candidate_split_spec(node, ax, off),
                    ));
                }
            }
            return ;
        }
        if 15 * (surface_area as i128) + cost >= 2 * (num as i128) * (surface_area as i128) {
            proof {
                assert forall|off: int, ax: int|
                    1 <= off < 16 && 0 <= ax < 3 implies !worth_splitting(
                    node,
                    shapes@,
                    start as int,
                    end as int,
                    surface_area as int,
                    ax,
                    off,
                ) by {
                    assert(cost as int <= split_cost_spec(
                        shapes@,
                        start as int,
                        end as int,
                        ax,
                        candidate_split_spec(node, ax, off),
                    ));
                }
            }
            return ;
        }
        let ghost shapes0 = shapes@;
        proof {
            // the winning candidate is worth splitting at, and neither of
            // its sides is empty, so the partition point falls strictly
            // inside the range
            let (off0, ax0): (int, int) = choose|off: int, ax: int|
                1 <= off < 16 && 0 <= ax < 3 && axis as int == ax && split as int
                    == #[trigger] candidate_split_spec(node, ax, off) && cost as int
                    == split_cost_spec(shapes@, start as int, end as int, ax, split as int);
            assert(worth_splitting(
                node,
                shapes@,
                start as int,
                end as int,
                surface_area as int,
                ax0,
                off0,
            ));
            assert(sub_lo(old(nodes)@, index as int) == start && sub_hi(old(nodes)@, index as int)
                == end);
            lemma_count_below_bounds(shapes@, start as int, end as int, axis as int, split as int);
            assert(1 <= count_below(shapes@, start as int, end as int, axis as int, split as int)
                < end - start);
        }
        let m = partition(shapes, start, end, axis, split);
        proof {
            lemma_box_bounds_transfer(
                node,
                shapes0,
                shapes@,
                start as int,
                end as int,
                start as int,
                end as int,
            );
            lemma_wf_transfer(shapes0, shapes@, start as int, end as int);
        }
        if m == start || m == end {
            return ;
        }
        let ghost shapes1 = shapes@;
        let (lmin, lmax) = smallest_bounds(shapes, start, m);
        let left_idx = nodes.len();
        let left_node = BvhNode {
            kind: BvhNodeKind::Leaf { start, end: m },
            min: lmin,
            max: lmax,
        };
        let ghost nodes0 = nodes@;
        nodes.push(left_node);
        let ghost nodes1 = nodes@;
        proof {
            assert(wf_shallow(nodes1));
            assert(subtree_good(nodes1, left_idx as int, shapes@));
            lemma_parents_unique_push_leaf(nodes0, left_node);
        }
        Self::subdivide(left_idx, shapes, nodes, areas[0]);
        let ghost nodes2 = nodes@;
        let ghost shapes2 = shapes@;
        proof {
            lemma_wf_transfer(shapes1, shapes2, start as int, m as int);
        }
        let (rmin, rmax) = smallest_bounds(shapes, m, end);
        let right_idx = nodes.len();
        let right_node = BvhNode {
            kind: BvhNodeKind::Leaf { start: m, end },
            min: rmin,
            max: rmax,
        };
        nodes.push(right_node);
        let ghost nodes3 = nodes@;
        proof {
            assert(wf_shallow(nodes3));
            lemma_subtree_prefix_frame(nodes2, nodes3, left_idx as int, shapes2);
            assert(subtree_good(nodes3, right_idx as int, shapes@));
            lemma_parents_unique_push_leaf(nodes2, right_node);
        }
        Self::subdivide(right_idx, shapes, nodes, areas[1]);
        let ghost nodes4 = nodes@;
        let ghost shapes3 = shapes@;
        proof {
            lemma_wf_transfer(shapes2, shapes3, m as int, end as int);
            // the left subtree survives the right one's work: its nodes are
            // untouched and its shapes lie below m
            lemma_subtree_prefix_frame(nodes2, nodes4, left_idx as int, shapes2);
            lemma_subtree_shapes_frame(nodes4, left_idx as int, shapes2, shapes3);
        }
        let branch = BvhNode {
            kind: BvhNodeKind::Branch { left: left_idx, right: right_idx },
            min: node.min,
            max: node.max,
        };
        nodes[index] = branch;
        proof {
            let nf = nodes@;
            assert(wf_shallow(nf)) by {
                assert(forall|k: int|
                    0 <= k < nf.len() && k != index ==> nf[k] == #[trigger] nodes4[k]);
            }
            lemma_subtree_prefix_frame(nodes4, nf, left_idx as int, shapes3);
            lemma_subtree_prefix_frame(nodes4, nf, right_idx as int, shapes3);
            // the parent's box still bounds the whole range after both
            // halves were permuted within themselves
            lemma_box_bounds_transfer(
                node,
                shapes1,
                shapes2,
                start as int,
                end as int,
                start as int,
                m as int,
            );
            lemma_box_bounds_transfer(
                node,
                shapes2,
                shapes3,
                start as int,
                end as int,
                m as int,
                end as int,
            );
            assert(subtree_good(nf, index as int, shapes3));
            // the shape range keeps its contents: each stage reshuffles a
            // subrange only
            lemma_range_multiset_extend(
                shapes1,
                shapes2,
                start as int,
                end as int,
                start as int,
                m as int,
            );
            lemma_range_multiset_extend(
                shapes2,
                shapes3,
                start as int,
                end as int,
                m as int,
                end as int,
            );
            assert(same_range_multiset(shapes0, shapes3, start as int, end as int)) by {
                assert(shapes0.subrange(start as int, end as int).to_multiset() == shapes1.subrange(
                    start as int,
                    end as int,
                ).to_multiset());
            }
            // name the winning candidate again and carry the partition's
            // centroid sides through the children's own reorderings
            let (off0, ax0): (int, int) = choose|off: int, ax: int|
                1 <= off < 16 && 0 <= ax < 3 && axis as int == ax && split as int
                    == #[trigger] candidate_split_spec(node, ax, off) && cost as int
                    == split_cost_spec(shapes0, start as int, end as int, ax, split as int);
            lemma_side_transfer(
                shapes1,
                shapes2,
                start as int,
                m as int,
                ax0,
                split as int,
                true,
            );
            assert(forall|j: int|
                start <= j < m ==> axis_val((#[trigger] shapes3[j]).centroid_spec(), ax0)
                    < split);
            lemma_side_transfer(
                shapes2,
                shapes3,
                m as int,
                end as int,
                ax0,
                split as int,
                false,
            );
            assert(worth_splitting(
                node,
                shapes0,
                start as int,
                end as int,
                surface_area as int,
                ax0,
                off0,
            ));
            assert(m as int == start as int + count_below(
                shapes0,
                start as int,
                end as int,
                ax0,
                split as int,
            ));
            assert(sub_lo(nf, left_idx as int) == start && sub_hi(nf, left_idx as int) == m
                && sub_lo(nf, right_idx as int) == m && sub_hi(nf, right_idx as int) == end);
            // the arena stays a tree: the only new references are the two
            // fresh children, which nothing else points at
            assert forall|k: int|
                0 <= k < nf.len() implies match (#[trigger] nf[k]).kind {
                BvhNodeKind::Branch { left, right } => left != right,
                BvhNodeKind::Leaf { .. } => true,
            } by {
                if k != index {
                    assert(nf[k] == nodes4[k]);
                }
            }
            assert forall|k1: int, k2: int, c: int|
                0 <= k1 < nf.len() && 0 <= k2 < nf.len() && #[trigger] is_child(nf, k1, c)
                    && #[trigger] is_child(nf, k2, c) implies k1 == k2 by {
                if k1 != index && k2 != index {
                    assert(nf[k1] == nodes4[k1] && nf[k2] == nodes4[k2]);
                    assert(is_child(nodes4, k1, c) && is_child(nodes4, k2, c));
                } else {
                    let other: int = if k1 == index {
                        k2
                    } else {
                        k1
                    };
                    if other != index {
                        assert(c == left_idx || c == right_idx);
                        assert(nf[other as int] == nodes4[other as int]);
                        if other < left_idx {
                            assert(nodes4[other as int] == old(nodes)@[other as int]);
                            assert(is_child(old(nodes)@, other as int, c));
                        } else if other < right_idx {
                            assert(nodes4[other as int] == nodes2[other as int]);
                            assert(is_child(nodes2, other as int, c));
                        } else {
                            assert(is_child(nodes4, other as int, c));
                        }
                        assert(false);
                    }
                }
            }
        }
    }
}

/// Whether node `k` lies in the subtree rooted at `r`.
pub open spec fn in_subtree(nodes: Seq<BvhNode>, r: int, k: int) -> bool
    decreases nodes.len() - r,
    when 0 <= r < nodes.len() && wf_shallow(nodes)
{
    r == k || match nodes[r].kind {
        BvhNodeKind::Branch { left, right } => in_subtree(nodes, left as int, k) || in_subtree(
            nodes,
            right as int,
            k,
        ),
        BvhNodeKind::Leaf { .. } => false,
    }
}

/// Whether node `k` is a leaf whose shape range holds `j`.
pub open spec fn leaf_contains(nodes: Seq<BvhNode>, k: int, j: int) -> bool {
    0 <= k < nodes.len() && match nodes[k].kind {
        BvhNodeKind::Leaf { start, end } => start <= j < end,
        BvhNodeKind::Branch { .. } => false,
    }
}

/// Whether some leaf of the subtree rooted at `r` holds shape index `j`.
pub open spec fn some_leaf_contains(nodes: Seq<BvhNode>, r: int, j: int) -> bool {
    exists|k: int| in_subtree(nodes, r, k) && #[trigger] leaf_contains(nodes, k, j)
}

/// Partition completeness over a subtree: every shape index in the
/// subtree's range lies in exactly one of its leaves, and every leaf stays
/// within the range.
proof fn lemma_subtree_partition<T: Shape>(nodes: Seq<BvhNode>, r: int, shapes: Seq<T>)
    requires
        wf_shallow(nodes),
        0 <= r < nodes.len(),
        subtree_good(nodes, r, shapes),
    ensures
        forall|j: int|
            sub_lo(nodes, r) <= j < sub_hi(nodes, r) ==> #[trigger] some_leaf_contains(
                nodes,
                r,
                j,
            ),
        forall|k: int, j: int|
            in_subtree(nodes, r, k) && #[trigger] leaf_contains(nodes, k, j) ==> sub_lo(nodes, r)
                <= j < sub_hi(nodes, r),
        forall|k1: int, k2: int, j: int|
            in_subtree(nodes, r, k1) && in_subtree(nodes, r, k2) && #[trigger] leaf_contains(
                nodes,
                k1,
                j,
            ) && #[trigger] leaf_contains(nodes, k2, j) ==> k1 == k2,
    decreases nodes.len() - r,
{
    match nodes[r].kind {
        BvhNodeKind::Leaf { start, end } => {
            assert forall|j: int|
                sub_lo(nodes, r) <= j < sub_hi(nodes, r) implies #[trigger] some_leaf_contains(
                nodes,
                r,
                j,
            ) by {
                assert(in_subtree(nodes, r, r) && leaf_contains(nodes, r, j));
            }
        },
        BvhNodeKind::Branch { left, right } => {
            lemma_subtree_partition(nodes, left as int, shapes);
            lemma_subtree_partition(nodes, right as int, shapes);
            lemma_subtree_range(nodes, left as int, shapes);
            lemma_subtree_range(nodes, right as int, shapes);
            assert(sub_lo(nodes, r) == sub_lo(nodes, left as int));
            assert(sub_hi(nodes, left as int) == sub_lo(nodes, right as int));
            assert(sub_hi(nodes, r) == sub_hi(nodes, right as int));
            assert forall|j: int|
                sub_lo(nodes, r) <= j < sub_hi(nodes, r) implies #[trigger] some_leaf_contains(
                nodes,
                r,
                j,
            ) by {
                if j < sub_hi(nodes, left as int) {
                    assert(some_leaf_contains(nodes, left as int, j));
                    let k = choose|k: int|
                        in_subtree(nodes, left as int, k) && #[trigger] leaf_contains(
                            nodes,
                            k,
                            j,
                        );
                    assert(in_subtree(nodes, r, k) && leaf_contains(nodes, k, j));
                } else {
                    assert(some_leaf_contains(nodes, right as int, j));
                    let k = choose|k: int|
                        in_subtree(nodes, right as int, k) && #[trigger] leaf_contains(
                            nodes,
                            k,
                            j,
                        );
                    assert(in_subtree(nodes, r, k) && leaf_contains(nodes, k, j));
                }
            }
            assert forall|k: int, j: int|
                in_subtree(nodes, r, k) && #[trigger] leaf_contains(nodes, k, j) implies sub_lo(
                nodes,
                r,
            ) <= j < sub_hi(nodes, r) by {
                assert(k != r);
                assert(in_subtree(nodes, left as int, k) || in_subtree(nodes, right as int, k));
            }
            assert forall|k1: int, k2: int, j: int|
                in_subtree(nodes, r, k1) && in_subtree(nodes, r, k2) && #[trigger] leaf_contains(
                    nodes,
                    k1,
                    j,
                ) && #[trigger] leaf_contains(nodes, k2, j) implies k1 == k2 by {
                assert(k1 != r && k2 != r);
                if in_subtree(nodes, left as int, k1) && in_subtree(nodes, right as int, k2) {
                    assert(j < sub_hi(nodes, left as int));
                    assert(sub_lo(nodes, right as int) <= j);
                    assert(false);
                } else if in_subtree(nodes, right as int, k1) && in_subtree(
                    nodes,
                    left as int,
                    k2,
                ) {
                    assert(j < sub_hi(nodes, left as int));
                    assert(sub_lo(nodes, right as int) <= j);
                    assert(false);
                }
            }
        },
    }
}

/// Partition completeness: in a hierarchy built over `shapes`, every shape
/// index lies in the range of exactly one leaf of the tree.
pub proof fn lemma_partition_completeness<T: Shape>(nodes: Seq<BvhNode>, shapes: Seq<T>)
    requires
        wf_shallow(nodes),
        nodes.len() >= 1,
        subtree_good(nodes, 0, shapes),
        sub_lo(nodes, 0) == 0,
        sub_hi(nodes, 0) == shapes.len(),
    ensures
        forall|j: int| 0 <= j < shapes.len() ==> #[trigger] some_leaf_contains(nodes, 0, j),
        forall|k: int, j: int|
            in_subtree(nodes, 0, k) && #[trigger] leaf_contains(nodes, k, j) ==> 0 <= j
                < shapes.len(),
        forall|k1: int, k2: int, j: int|
            in_subtree(nodes, 0, k1) && in_subtree(nodes, 0, k2) && #[trigger] leaf_contains(
                nodes,
                k1,
                j,
            ) && #[trigger] leaf_contains(nodes, k2, j) ==> k1 == k2,
{
    lemma_subtree_partition(nodes, 0, shapes);
}

/// Checks at run time that every shape in `shapes[start..end]` has its
/// bounds inside the given corners.
fn check_box_bounds<T: Shape + Copy>(
    node: &BvhNode,
    shapes: &Vec<T>,
    start: usize,
    end: usize,
) -> (r: bool)
    requires
        start <= end <= shapes@.len(),
        forall|j: int| 0 <= j < shapes@.len() ==> (#[trigger] shapes@[j]).wf(),
    ensures
        r == box_bounds(*node, shapes@, start as int, end as int),
{
    let mut j = start;
    while j < end
        invariant
            start <= j <= end <= shapes@.len(),
            forall|jj: int| 0 <= jj < shapes@.len() ==> (#[trigger] shapes@[jj]).wf(),
            box_bounds(*node, shapes@, start as int, j as int),
        decreases end - j,
    {
        let lo = shapes[j].min();
        let hi = shapes[j].max();
        if !(node.min.x <= lo.x && node.min.y <= lo.y && node.min.z <= lo.z && hi.x <= node.max.x
            && hi.y <= node.max.y && hi.z <= node.max.z) {
            proof {
                assert(!box_bounds(*node, shapes@, start as int, end as int)) by {
                    assert(!{
                        let slo = shapes@[j as int].min_spec();
                        let shi = shapes@[j as int].max_spec();
                        node.min.x <= slo.x && node.min.y <= slo.y && node.min.z <= slo.z && shi.x
                            <= node.max.x && shi.y <= node.max.y && shi.z <= node.max.z
                    });
                }
            }
            return false;
        }
        j = j + 1;
    }
    true
}

/// Checks at run time that the subtree rooted at `k` is a proper
/// hierarchy over its shape range, and returns that range. A driver that
/// assembled nodes and shapes from outside can call this, through
/// `check_bvh`, before traversing them.
fn check_subtree<T: Shape + Copy>(nodes: &Vec<BvhNode>, k: usize, shapes: &Vec<T>) -> (r: Option<
    (usize, usize),
>)
    requires
        wf_shallow(nodes@),
        k < nodes@.len(),
        forall|j: int| 0 <= j < shapes@.len() ==> (#[trigger] shapes@[j]).wf(),
    ensures
        r matches Some(range) ==> subtree_good(nodes@, k as int, shapes@) && range.0 == sub_lo(
            nodes@,
            k as int,
        ) && range.1 == sub_hi(nodes@, k as int),
        subtree_good(nodes@, k as int, shapes@) ==> r is Some,
    decreases nodes@.len() - k,
{
    proof {
        if subtree_good(nodes@, k as int, shapes@) {
            match nodes@[k as int].kind {
                BvhNodeKind::Leaf { start, end } => {
                    lemma_subtree_unfold_leaf(nodes@, k as int, start, end, shapes@);
                },
                BvhNodeKind::Branch { left, right } => {
                    lemma_subtree_unfold_branch(nodes@, k as int, left, right, shapes@);
                },
            }
        }
    }
    let node = nodes[k];
    let in_world = node.min.x >= -WORLD && node.min.x <= WORLD && node.min.y >= -WORLD
        && node.min.y <= WORLD && node.min.z >= -WORLD && node.min.z <= WORLD && node.max.x
        >= -WORLD && node.max.x <= WORLD && node.max.y >= -WORLD && node.max.y <= WORLD
        && node.max.z >= -WORLD && node.max.z <= WORLD;
    if !in_world {
        return None;
    }
    match node.kind {
        BvhNodeKind::Leaf { start, end } => {
            if end > shapes.len() {
                return None;
            }
            if !check_box_bounds(&node, shapes, start, end) {
                return None;
            }
            Some((start, end))
        },
        BvhNodeKind::Branch { left, right } => {
            let (lo1, hi1) = match check_subtree(nodes, left, shapes) {
                Some(range) => range,
                None => {
                    return None;
                },
            };
            let (lo2, hi2) = match check_subtree(nodes, right, shapes) {
                Some(range) => range,
                None => {
                    return None;
                },
            };
            if hi1 != lo2 {
                return None;
            }
            proof {
                lemma_subtree_range(nodes@, left as int, shapes@);
                lemma_subtree_range(nodes@, right as int, shapes@);
            }
            if !check_box_bounds(&node, shapes, lo1, hi2) {
                return None;
            }
            let nested = node.min.x <= nodes[left].min.x && node.min.y <= nodes[left].min.y
                && node.min.z <= nodes[left].min.z && nodes[left].max.x <= node.max.x
                && nodes[left].max.y <= node.max.y && nodes[left].max.z <= node.max.z && node.min.x
                <= nodes[right].min.x && node.min.y <= nodes[right].min.y && node.min.z
                <= nodes[right].min.z && nodes[right].max.x <= node.max.x && nodes[right].max.y
                <= node.max.y && nodes[right].max.z <= node.max.z;
            if !nested {
                return None;
            }
            Some((lo1, hi2))
        },
    }
}

/// Checks at run time that `nodes` is a hierarchy over exactly `shapes`:
/// sound preparation for `closest_shape` when the two came from outside
/// rather than from `BvhNode::new`.
pub fn check_bvh<T: Shape + Copy>(nodes: &Vec<BvhNode>, shapes: &Vec<T>) -> (r: bool)
    requires
        forall|j: int| 0 <= j < shapes@.len() ==> (#[trigger] shapes@[j]).wf(),
    ensures
        r == (nodes@.len() >= 1 && wf_shallow(nodes@) && subtree_good(nodes@, 0, shapes@)
            && sub_lo(nodes@, 0) == 0 && sub_hi(nodes@, 0) == shapes@.len()),
{
    if nodes.len() < 1 {
        return false;
    }
    let mut k: usize = 0;
    while k < nodes.len()
        invariant
            k <= nodes@.len(),
            forall|kk: int|
                0 <= kk < k ==> match (#[trigger] nodes@[kk]).kind {
                    BvhNodeKind::Branch { left, right } => kk < left < nodes@.len() && kk < right
                        < nodes@.len(),
                    BvhNodeKind::Leaf { start, end } => start <= end,
                },
        decreases nodes@.len() - k,
    {
        match nodes[k].kind {
            BvhNodeKind::Branch { left, right } => {
                if !(k < left && left < nodes.len() && k < right && right < nodes.len()) {
                    proof {
                        assert(!wf_shallow(nodes@));
                    }
                    return false;
                }
            },
            BvhNodeKind::Leaf { start, end } => {
                if !(start <= end) {
                    proof {
                        assert(!wf_shallow(nodes@));
                    }
                    return false;
                }
            },
        }
        k = k + 1;
    }
    match check_subtree(nodes, 0, shapes) {
        Some((lo, hi)) => lo == 0 && hi == shapes.len(),
        None => false,
    }
}

/// Whether shape index `j` lies in the range covered by the subtree at `k`.
pub open spec fn in_node_range(nodes: Seq<BvhNode>, k: int, j: int) -> bool {
    sub_lo(nodes, k) <= j < sub_hi(nodes, k)
}

/// Whether some entry of the traversal stack still covers shape `j`.
pub open spec fn stack_covers(nodes: Seq<BvhNode>, stack: Seq<(i64, usize)>, j: int) -> bool {
    exists|idx: int|
        0 <= idx < stack.len() && #[trigger] in_node_range(nodes, stack[idx].1 as int, j)
}

/// Whether the best hit so far is at least as close as any hit of shape `j`.
pub open spec fn best_le<T: Shape>(
    shapes: Seq<T>,
    ray: Ray,
    best: Option<(i64, usize)>,
    j: int,
) -> bool {
    shapes[j].hit_spec(ray) matches Some(d) ==> best matches Some(b) && b.0 <= d
}

/// Whether the best hit so far is a real hit of the shape it names.
pub open spec fn genuine<T: Shape>(shapes: Seq<T>, ray: Ray, best: Option<(i64, usize)>) -> bool {
    best matches Some(b) ==> 0 <= b.1 < shapes.len() && shapes[b.1 as int].hit_spec(ray) == Some(
        b.0 as int,
    ) && MIN_DISTANCE < b.0 <= T_LIMIT
}

/// The pruning hypothesis: every hit is positive, and whenever a shape in a
/// node's range is hit, the slab test of that node's box reports an entry
/// no later than the hit. It holds whenever the integer slab rounding is
/// conservative for the shapes at hand; the traversal returns exactly the
/// brute-force nearest hit under it.
pub open spec fn boxes_bound_hits<T: Shape>(nodes: Seq<BvhNode>, shapes: Seq<T>, ray: Ray) -> bool {
    (forall|j: int|
        0 <= j < shapes.len() ==> ((#[trigger] shapes[j].hit_spec(ray)) matches Some(d) ==> d > 0))
        && (forall|k: int, j: int|
        0 <= k < nodes.len() && 0 <= j < shapes.len() && subtree_good(nodes, k, shapes)
            && #[trigger] in_node_range(nodes, k, j) ==> ((#[trigger] shapes[j].hit_spec(
            ray,
        )) matches Some(d) ==> slab_spec(nodes[k].min, nodes[k].max, ray) matches Some(e) && e
            <= d))
}

/// The number of nodes in the subtree rooted at `k`.
pub open spec fn subtree_size(nodes: Seq<BvhNode>, k: int) -> nat
    decreases nodes.len() - k,
    when 0 <= k < nodes.len() && wf_shallow(nodes)
{
    match nodes[k].kind {
        BvhNodeKind::Leaf { .. } => 1,
        BvhNodeKind::Branch { left, right } => 1 + subtree_size(nodes, left as int) + subtree_size(
            nodes,
            right as int,
        ),
    }
}

/// The total number of nodes in the subtrees still on the traversal stack:
/// the loop's termination measure.
pub open spec fn stack_measure(nodes: Seq<BvhNode>, stack: Seq<(i64, usize)>) -> nat
    decreases stack.len(),
{
    if stack.len() == 0 {
        0
    } else {
        stack_measure(nodes, stack.drop_last()) + subtree_size(nodes, stack.last().1 as int)
    }
}

/// Pushing an entry adds its subtree size to the measure.
proof fn lemma_measure_push(nodes: Seq<BvhNode>, stack: Seq<(i64, usize)>, e: (i64, usize))
    ensures
        stack_measure(nodes, stack.push(e)) == stack_measure(nodes, stack) + subtree_size(
            nodes,
            e.1 as int,
        ),
{
    assert(stack.push(e).drop_last() =~= stack);
    assert(stack.push(e).last() == e);
}

impl BvhNode {
    /// The nearest shape the ray hits, as `(distance, shape index)`, found
    /// by far-to-near traversal of the hierarchy with `stack` as reusable
    /// scratch space. Under `boxes_bound_hits` the result is exactly the
    /// brute-force nearest hit over all shapes; over no shapes it is
    /// always `None`.
    #[verifier::rlimit(100)]
    pub fn closest_shape<T: Shape + Copy>(
        ray: &Ray,
        shapes: &Vec<T>,
        nodes: &Vec<BvhNode>,
        stack: &mut Vec<(i64, usize)>,
    ) -> (r: Option<(i64, usize)>)
        requires
            ray.wf(),
            forall|j: int| 0 <= j < shapes@.len() ==> (#[trigger] shapes@[j]).wf(),
            nodes@.len() >= 1,
            wf_shallow(nodes@),
            subtree_good(nodes@, 0, shapes@),
            sub_lo(nodes@, 0) == 0,
            sub_hi(nodes@, 0) == shapes@.len(),
        ensures
            genuine(shapes@, *ray, r),
            shapes@.len() == 0 ==> r is None,
            boxes_bound_hits(nodes@, shapes@, *ray) ==> match r {
                Some(b) => forall|j: int|
                    0 <= j < shapes@.len() ==> ((#[trigger] shapes@[j].hit_spec(*ray)) matches Some(
                        dj,
                    ) ==> b.0 <= dj),
                None => forall|j: int|
                    0 <= j < shapes@.len() ==> (#[trigger] shapes@[j].hit_spec(*ray)) is None,
            },
    {
        stack.clear();
        if shapes.len() == 0 {
            return None;
        }
        let ghost hyp = boxes_bound_hits(nodes@, shapes@, *ray);
        let mut best: Option<(i64, usize)> = None;
        stack.push((0, 0));
        proof {
            assert forall|j: int| 0 <= j < shapes@.len() implies stack_covers(
                nodes@,
                stack@,
                j,
            ) by {
                assert(in_node_range(nodes@, stack@[0].1 as int, j));
            }
            assert forall|idx: int, j: int|
                0 <= idx < stack@.len() && 0 <= j < shapes@.len() && #[trigger] in_node_range(
                    nodes@,
                    stack@[idx].1 as int,
                    j,
                ) implies ((#[trigger] shapes@[j].hit_spec(*ray)) matches Some(d) ==> hyp
                ==> stack@[idx].0 <= d) by {
                if hyp && shapes@[j].hit_spec(*ray) is Some {
                    assert(shapes@[j].hit_spec(*ray)->Some_0 > 0);
                }
            }
        }
        while stack.len() > 0
            invariant
                ray.wf(),
                forall|j: int| 0 <= j < shapes@.len() ==> (#[trigger] shapes@[j]).wf(),
                nodes@.len() >= 1,
                wf_shallow(nodes@),
                hyp == boxes_bound_hits(nodes@, shapes@, *ray),
                forall|idx: int|
                    0 <= idx < stack@.len() ==> 0 <= (#[trigger] stack@[idx]).1 < nodes@.len()
                        && subtree_good(nodes@, stack@[idx].1 as int, shapes@),
                genuine(shapes@, *ray, best),
                hyp ==> forall|j: int|
                    0 <= j < shapes@.len() ==> stack_covers(nodes@, stack@, j) || best_le(
                        shapes@,
                        *ray,
                        best,
                        j,
                    ),
                hyp ==> forall|idx: int, j: int|
                    0 <= idx < stack@.len() && 0 <= j < shapes@.len() && #[trigger] in_node_range(
                        nodes@,
                        stack@[idx].1 as int,
                        j,
                    ) ==> ((#[trigger] shapes@[j].hit_spec(*ray)) matches Some(d) ==> stack@[idx].0
                        <= d),
            decreases stack_measure(nodes@, stack@),
        {
            let ghost stack_pre = stack@;
            let ghost measure_pre = stack_measure(nodes@, stack_pre);
            let entry = stack.pop().unwrap();
            let (e, k) = entry;
            proof {
                assert(stack_pre.drop_last() =~= stack@);
                assert(measure_pre == stack_measure(nodes@, stack@) + subtree_size(
                    nodes@,
                    k as int,
                ));
                assert(subtree_size(nodes@, k as int) >= 1);
            }
            let ghost best_at_pop = best;
            let prune = match best {
                Some(b) => b.0 <= e,
                None => false,
            };
            if prune {
                proof {
                    if hyp {
                        assert forall|j: int|
                            0 <= j < shapes@.len() implies stack_covers(nodes@, stack@, j)
                            || best_le(shapes@, *ray, best, j) by {
                            if stack_covers(nodes@, stack_pre, j) && !best_le(
                                shapes@,
                                *ray,
                                best,
                                j,
                            ) {
                                let idx = choose|idx: int|
                                    0 <= idx < stack_pre.len() && #[trigger] in_node_range(
                                        nodes@,
                                        stack_pre[idx].1 as int,
                                        j,
                                    );
                                if idx < stack_pre.len() - 1 {
                                    assert(stack@[idx] == stack_pre[idx]);
                                    assert(in_node_range(nodes@, stack@[idx].1 as int, j));
                                    assert(stack_covers(nodes@, stack@, j));
                                } else {
                                    assert(in_node_range(nodes@, k as int, j));
                                    if shapes@[j].hit_spec(*ray) is Some {
                                        assert(e <= shapes@[j].hit_spec(*ray)->Some_0);
                                        assert(best_le(shapes@, *ray, best, j));
                                        assert(false);
                                    }
                                }
                            }
                        }
                    }
                }
                continue ;
            }
            let node = nodes[k];
            match node.kind {
                BvhNodeKind::Branch { left, right } => {
                    proof {
                        lemma_subtree_unfold_branch(nodes@, k as int, left, right, shapes@);
                    }
                    let hit_l = nodes[left].intersects(ray);
                    let hit_r = nodes[right].intersects(ray);
                    let push_l = match (hit_l, best) {
                        (Some(el), Some(b)) => el < b.0,
                        (Some(_), None) => true,
                        (None, _) => false,
                    };
                    let push_r = match (hit_r, best) {
                        (Some(er), Some(b)) => er < b.0,
                        (Some(_), None) => true,
                        (None, _) => false,
                    };
                    let ghost stack_mid = stack@;
                    if push_l && push_r {
                        let el = hit_l.unwrap();
                        let er = hit_r.unwrap();
                        if el < er {
                            stack.push((er, right));
                            stack.push((el, left));
                        } else {
                            stack.push((el, left));
                            stack.push((er, right));
                        }
                    } else if push_l {
                        stack.push((hit_l.unwrap(), left));
                    } else if push_r {
                        stack.push((hit_r.unwrap(), right));
                    }
                    proof {
                        lemma_branch_step(
                            nodes@,
                            shapes@,
                            *ray,
                            stack_pre,
                            stack_mid,
                            stack@,
                            best,
                            e,
                            k as int,
                            left,
                            right,
                            hit_l,
                            hit_r,
                            push_l,
                            push_r,
                        );
                        assert(stack_measure(nodes@, stack@) < measure_pre) by {
                            lemma_subtree_unfold_branch(nodes@, k as int, left, right, shapes@);
                            if stack@.len() == stack_mid.len() + 2 {
                                lemma_measure_push(
                                    nodes@,
                                    stack@.drop_last().drop_last(),
                                    stack@.drop_last().last(),
                                );
                                lemma_measure_push(nodes@, stack@.drop_last(), stack@.last());
                                assert(stack@.drop_last().drop_last() =~= stack_mid);
                                assert(stack@.drop_last() =~= stack_mid.push(
                                    stack@.drop_last().last(),
                                ));
                            } else if stack@.len() == stack_mid.len() + 1 {
                                lemma_measure_push(nodes@, stack_mid, stack@.last());
                                assert(stack@.drop_last() =~= stack_mid);
                            } else {
                                assert(stack@ =~= stack_mid);
                            }
                        }
                    }
                },
                BvhNodeKind::Leaf { start, end } => {
                    proof {
                        lemma_subtree_unfold_leaf(nodes@, k as int, start, end, shapes@);
                    }
                    let mut idx = start;
                    while idx < end
                        invariant
                            ray.wf(),
                            forall|j: int|
                                0 <= j < shapes@.len() ==> (#[trigger] shapes@[j]).wf(),
                            start <= idx <= end <= shapes@.len(),
                            genuine(shapes@, *ray, best),
                            best_improves(best_at_pop, best),
                            forall|j: int| start <= j < idx ==> best_le(shapes@, *ray, best, j),
                        decreases end - idx,
                    {
                        let ghost best_pre = best;
                        let h = shapes[idx].intersects(ray);
                        let take = match (h, best) {
                            (Some(t), Some(b)) => t < b.0,
                            (Some(_), None) => true,
                            (None, _) => false,
                        };
                        if take {
                            best = Some((h.unwrap(), idx));
                        }
                        proof {
                            assert forall|j: int|
                                start <= j < idx + 1 implies best_le(
                                shapes@,
                                *ray,
                                best,
                                j,
                            ) by {
                                if j < idx {
                                    assert(best_le(shapes@, *ray, best_pre, j));
                                    if take && shapes@[j].hit_spec(*ray) is Some {
                                        assert(best_pre matches Some(b) && b.0 <= shapes@[j].hit_spec(
                                            *ray,
                                        )->Some_0);
                                    }
                                } else {
                                    if shapes@[j].hit_spec(*ray) is Some {
                                        assert(h matches Some(t) && t as int == shapes@[j].hit_spec(
                                            *ray,
                                        )->Some_0);
                                    }
                                }
                            }
                        }
                        idx = idx + 1;
                    }
                    proof {
                        if hyp {
                            assert forall|j: int|
                                0 <= j < shapes@.len() implies stack_covers(nodes@, stack@, j)
                                || best_le(shapes@, *ray, best, j) by {
                                if stack_covers(nodes@, stack_pre, j) && !best_le(
                                    shapes@,
                                    *ray,
                                    best,
                                    j,
                                ) {
                                    let widx = choose|widx: int|
                                        0 <= widx < stack_pre.len() && #[trigger] in_node_range(
                                            nodes@,
                                            stack_pre[widx].1 as int,
                                            j,
                                        );
                                    if widx < stack_pre.len() - 1 {
                                        assert(stack@[widx] == stack_pre[widx]);
                                        assert(in_node_range(nodes@, stack@[widx].1 as int, j));
                                        assert(stack_covers(nodes@, stack@, j));
                                    } else {
                                        assert(in_node_range(nodes@, k as int, j));
                                        assert(start <= j < end);
                                        assert(false);
                                    }
                                } else if !stack_covers(nodes@, stack_pre, j) {
                                    assert(best_le(shapes@, *ray, best_at_pop, j));
                                }
                            }
                        }
                    }
                },
            }
        }
        proof {
            if hyp {
                assert forall|j: int|
                    0 <= j < shapes@.len() implies best_le(shapes@, *ray, best, j) by {
                    assert(!stack_covers(nodes@, stack@, j));
                }
                if best is None {
                    assert forall|j: int|
                        0 <= j < shapes@.len() implies (#[trigger] shapes@[j].hit_spec(
                        *ray,
                    )) is None by {
                        assert(best_le(shapes@, *ray, best, j));
                    }
                } else {
                    let b = best->Some_0;
                    assert forall|j: int|
                        0 <= j < shapes@.len() implies ((#[trigger] shapes@[j].hit_spec(
                        *ray,
                    )) matches Some(dj) ==> b.0 <= dj) by {
                        assert(best_le(shapes@, *ray, best, j));
                    }
                }
            }
        }
        best
    }
}

/// The nearest hit by a plain linear scan over every shape: the reference
/// the hierarchy traversal is measured against.
pub fn closest_shape_brute<T: Shape + Copy>(ray: &Ray, shapes: &Vec<T>) -> (r: Option<(i64, usize)>)
    requires
        ray.wf(),
        forall|j: int| 0 <= j < shapes@.len() ==> (#[trigger] shapes@[j]).wf(),
    ensures
        genuine(shapes@, *ray, r),
        match r {
            Some(b) => forall|j: int|
                0 <= j < shapes@.len() ==> ((#[trigger] shapes@[j].hit_spec(*ray)) matches Some(dj)
                    ==> b.0 <= dj),
            None => forall|j: int|
                0 <= j < shapes@.len() ==> (#[trigger] shapes@[j].hit_spec(*ray)) is None,
        },
{
    let mut best: Option<(i64, usize)> = None;
    let mut idx: usize = 0;
    while idx < shapes.len()
        invariant
            ray.wf(),
            forall|j: int| 0 <= j < shapes@.len() ==> (#[trigger] shapes@[j]).wf(),
            0 <= idx <= shapes@.len(),
            genuine(shapes@, *ray, best),
            forall|j: int| 0 <= j < idx ==> best_le(shapes@, *ray, best, j),
        decreases shapes@.len() - idx,
    {
        let ghost best_pre = best;
        let h = shapes[idx].intersects(ray);
        let take = match (h, best) {
            (Some(t), Some(b)) => t < b.0,
            (Some(_), None) => true,
            (None, _) => false,
        };
        if take {
            best = Some((h.unwrap(), idx));
        }
        proof {
            assert forall|j: int| 0 <= j < idx + 1 implies best_le(shapes@, *ray, best, j) by {
                if j < idx {
                    assert(best_le(shapes@, *ray, best_pre, j));
                } else {
                    if shapes@[j].hit_spec(*ray) is Some {
                        assert(h matches Some(t) && t as int == shapes@[j].hit_spec(*ray)->Some_0);
                    }
                }
            }
        }
        idx = idx + 1;
    }
    proof {
        match best {
            Some(b) => {
                assert forall|j: int|
                    0 <= j < shapes@.len() implies ((#[trigger] shapes@[j].hit_spec(
                    *ray,
                )) matches Some(dj) ==> b.0 <= dj) by {
                    assert(best_le(shapes@, *ray, best, j));
                }
            },
            None => {
                assert forall|j: int|
                    0 <= j < shapes@.len() implies (#[trigger] shapes@[j].hit_spec(
                    *ray,
                )) is None by {
                    assert(best_le(shapes@, *ray, best, j));
                }
            },
        }
    }
    best
}

/// One axis of slab monotonicity: widening the interval moves the entry
/// time down and the exit time up, and never turns a hit into a miss.
proof fn lemma_axis_slab_mono(lo_b: i64, hi_b: i64, lo_s: i64, hi_s: i64, o: i64, d: i64)
    requires
        lo_b <= lo_s,
        hi_s <= hi_b,
    ensures
        axis_slab_spec(lo_s, hi_s, o, d) matches Some(s) ==> axis_slab_spec(
            lo_b,
            hi_b,
            o,
            d,
        ) matches Some(b) && b.0 <= s.0 && b.1 >= s.1,
{
    if axis_slab_spec(lo_s, hi_s, o, d) is Some {
        if d == 0 {
        } else if d > 0 {
            assert((lo_b - o) * SCALE <= (lo_s - o) * SCALE && (hi_s - o) * SCALE <= (hi_b - o)
                * SCALE) by (nonlinear_arith)
                requires
                    lo_b <= lo_s && hi_s <= hi_b && SCALE == 65536,
            ;
            vstd::arithmetic::div_mod::lemma_div_is_ordered(
                (lo_b - o) * SCALE,
                (lo_s - o) * SCALE,
                d as int,
            );
            vstd::arithmetic::div_mod::lemma_div_is_ordered(
                (hi_s - o) * SCALE,
                (hi_b - o) * SCALE,
                d as int,
            );
        } else {
            assert((o - hi_b) * SCALE <= (o - hi_s) * SCALE && (o - lo_s) * SCALE <= (o - lo_b)
                * SCALE) by (nonlinear_arith)
                requires
                    lo_b <= lo_s && hi_s <= hi_b && SCALE == 65536,
            ;
            vstd::arithmetic::div_mod::lemma_div_is_ordered(
                (o - hi_b) * SCALE,
                (o - hi_s) * SCALE,
                -d as int,
            );
            vstd::arithmetic::div_mod::lemma_div_is_ordered(
                (o - lo_s) * SCALE,
                (o - lo_b) * SCALE,
                -d as int,
            );
        }
    }
}

/// Slab monotonicity: a box that encloses another is hit whenever the
/// inner one is, and no later. With the boxes a built hierarchy carries —
/// each node's box encloses the bounds of every shape in its range — this
/// reduces the traversal's pruning hypothesis to a statement about each
/// shape and its own bounds: see `lemma_boxes_bound_hits_from_shapes`.
pub proof fn lemma_slab_entry_monotone(
    bmin: Point,
    bmax: Point,
    smin: Point,
    smax: Point,
    ray: Ray,
)
    requires
        bmin.x <= smin.x && bmin.y <= smin.y && bmin.z <= smin.z,
        smax.x <= bmax.x && smax.y <= bmax.y && smax.z <= bmax.z,
    ensures
        slab_spec(smin, smax, ray) matches Some(es) ==> slab_spec(bmin, bmax, ray) matches Some(
            eb,
        ) && eb <= es,
{
    lemma_axis_slab_mono(bmin.x, bmax.x, smin.x, smax.x, ray.origin.x, ray.direction.x);
    lemma_axis_slab_mono(bmin.y, bmax.y, smin.y, smax.y, ray.origin.y, ray.direction.y);
    lemma_axis_slab_mono(bmin.z, bmax.z, smin.z, smax.z, ray.origin.z, ray.direction.z);
}

/// The residual per-shape hypothesis: when a shape is hit, the slab test
/// of the shape's own bounds reports an entry no later than the hit, and
/// the hit lies at a positive time.
pub open spec fn shape_slab_bounds_hit<T: Shape>(shape: T, ray: Ray) -> bool {
    shape.hit_spec(ray) matches Some(d) ==> d > 0 && (slab_spec(
        shape.min_spec(),
        shape.max_spec(),
        ray,
    ) matches Some(e) && e <= d)
}

/// The pruning hypothesis of the whole hierarchy follows from the
/// per-shape one: every node's box encloses the bounds of the shapes in
/// its range, and slab entries only move down as boxes widen.
pub proof fn lemma_boxes_bound_hits_from_shapes<T: Shape>(
    nodes: Seq<BvhNode>,
    shapes: Seq<T>,
    ray: Ray,
)
    requires
        wf_shallow(nodes),
        nodes.len() >= 1,
        subtree_good(nodes, 0, shapes),
        forall|j: int|
            0 <= j < shapes.len() ==> shape_slab_bounds_hit(#[trigger] shapes[j], ray),
    ensures
        boxes_bound_hits(nodes, shapes, ray),
{
    assert forall|k: int, j: int|
        0 <= k < nodes.len() && 0 <= j < shapes.len() && subtree_good(nodes, k, shapes)
            && #[trigger] in_node_range(nodes, k, j) implies ((#[trigger] shapes[j].hit_spec(
        ray,
    )) matches Some(d) ==> slab_spec(nodes[k].min, nodes[k].max, ray) matches Some(e) && e <= d) by {
        if shapes[j].hit_spec(ray) is Some {
            assert(box_bounds(nodes[k], shapes, sub_lo(nodes, k), sub_hi(nodes, k))) by {
                match nodes[k].kind {
                    BvhNodeKind::Leaf { .. } => {},
                    BvhNodeKind::Branch { .. } => {},
                }
            }
            lemma_slab_entry_monotone(
                nodes[k].min,
                nodes[k].max,
                shapes[j].min_spec(),
                shapes[j].max_spec(),
                ray,
            );
        }
    }
}

/// Bounding containment: any point on the surface of a sphere lies inside
/// the box of every node whose range covers that sphere — so in
/// particular inside its leaf's box.
pub proof fn lemma_node_box_contains_sphere_point(
    nodes: Seq<BvhNode>,
    k: int,
    shapes: Seq<crate::shapes::Sphere>,
    j: int,
    p: Point,
)
    requires
        wf_shallow(nodes),
        0 <= k < nodes.len(),
        subtree_good(nodes, k, shapes),
        in_node_range(nodes, k, j),
        0 <= j < shapes.len(),
        shapes[j].wf(),
        ({
            let c = shapes[j].center;
            let r = shapes[j].radius;
            (p.x - c.x) * (p.x - c.x) + (p.y - c.y) * (p.y - c.y) + (p.z - c.z) * (p.z - c.z) == r
                * r
        }),
    ensures
        nodes[k].min.x <= p.x <= nodes[k].max.x,
        nodes[k].min.y <= p.y <= nodes[k].max.y,
        nodes[k].min.z <= p.z <= nodes[k].max.z,
{
    let c = shapes[j].center;
    let r = shapes[j].radius;
    assert(box_bounds(nodes[k], shapes, sub_lo(nodes, k), sub_hi(nodes, k))) by {
        match nodes[k].kind {
            BvhNodeKind::Leaf { .. } => {},
            BvhNodeKind::Branch { .. } => {},
        }
    }
    assert(nodes[k].min.x <= shapes[j].min_spec().x && shapes[j].max_spec().x <= nodes[k].max.x
        && nodes[k].min.y <= shapes[j].min_spec().y && shapes[j].max_spec().y <= nodes[k].max.y
        && nodes[k].min.z <= shapes[j].min_spec().z && shapes[j].max_spec().z <= nodes[k].max.z);
    assert(c.x - r <= p.x <= c.x + r && c.y - r <= p.y <= c.y + r && c.z - r <= p.z <= c.z + r)
        by (nonlinear_arith)
        requires
            (p.x - c.x) * (p.x - c.x) + (p.y - c.y) * (p.y - c.y) + (p.z - c.z) * (p.z - c.z) == r
                * r,
            r >= 0,
    ;
}

/// Whether the running best hit only got closer.
pub open spec fn best_improves(before: Option<(i64, usize)>, after: Option<(i64, usize)>) -> bool {
    before matches Some(b0) ==> after matches Some(b1) && b1.0 <= b0.0
}

/// Unfolds the subtree invariant at a branch node.
proof fn lemma_subtree_unfold_branch<T: Shape>(
    nodes: Seq<BvhNode>,
    k: int,
    left: usize,
    right: usize,
    shapes: Seq<T>,
)
    requires
        wf_shallow(nodes),
        0 <= k < nodes.len(),
        subtree_good(nodes, k, shapes),
        nodes[k].kind == (BvhNodeKind::Branch { left, right }),
    ensures
        k < left < nodes.len(),
        k < right < nodes.len(),
        subtree_good(nodes, left as int, shapes),
        subtree_good(nodes, right as int, shapes),
        sub_lo(nodes, left as int) == sub_lo(nodes, k),
        sub_hi(nodes, left as int) == sub_lo(nodes, right as int),
        sub_hi(nodes, right as int) == sub_hi(nodes, k),
        nodes[k].box_in_world(),
        nodes[left as int].box_in_world(),
        nodes[right as int].box_in_world(),
        box_bounds(nodes[k], shapes, sub_lo(nodes, k), sub_hi(nodes, k)),
{
    reveal_with_fuel(subtree_good, 3);
    assert(left < nodes.len() && right < nodes.len());
}

/// Unfolds the subtree invariant at a leaf node.
proof fn lemma_subtree_unfold_leaf<T: Shape>(
    nodes: Seq<BvhNode>,
    k: int,
    start: usize,
    end: usize,
    shapes: Seq<T>,
)
    requires
        wf_shallow(nodes),
        0 <= k < nodes.len(),
        subtree_good(nodes, k, shapes),
        nodes[k].kind == (BvhNodeKind::Leaf { start, end }),
    ensures
        0 <= start <= end <= shapes.len(),
        sub_lo(nodes, k) == start,
        sub_hi(nodes, k) == end,
        nodes[k].box_in_world(),
        box_bounds(nodes[k], shapes, start as int, end as int),
{
}

/// After a branch was expanded, every shape it covered is either covered
/// by a pushed child or already accounted for by `best`, and every pushed
/// entry is a child with a sound lower bound on the hits it covers.
#[verifier::rlimit(60)]
proof fn lemma_branch_step<T: Shape>(
    nodes: Seq<BvhNode>,
    shapes: Seq<T>,
    ray: Ray,
    stack_pre: Seq<(i64, usize)>,
    stack_mid: Seq<(i64, usize)>,
    stack_post: Seq<(i64, usize)>,
    best: Option<(i64, usize)>,
    e: i64,
    k: int,
    left: usize,
    right: usize,
    hit_l: Option<i64>,
    hit_r: Option<i64>,
    push_l: bool,
    push_r: bool,
)
    requires
        wf_shallow(nodes),
        0 <= k < nodes.len(),
        nodes[k].kind == (BvhNodeKind::Branch { left, right }),
        subtree_good(nodes, k, shapes),
        stack_mid =~= stack_pre.drop_last(),
        stack_pre.len() > 0,
        stack_pre.last() == (e, k as usize),
        match hit_l {
            Some(t) => slab_spec(nodes[left as int].min, nodes[left as int].max, ray) == Some(
                t as int,
            ),
            None => slab_spec(nodes[left as int].min, nodes[left as int].max, ray) is None,
        },
        match hit_r {
            Some(t) => slab_spec(nodes[right as int].min, nodes[right as int].max, ray) == Some(
                t as int,
            ),
            None => slab_spec(nodes[right as int].min, nodes[right as int].max, ray) is None,
        },
        push_l == (hit_l matches Some(el) && (best matches Some(b) ==> el < b.0)),
        push_r == (hit_r matches Some(er) && (best matches Some(b) ==> er < b.0)),
        stack_post =~= if push_l && push_r {
            if hit_l->Some_0 < hit_r->Some_0 {
                stack_mid.push((hit_r->Some_0, right)).push((hit_l->Some_0, left))
            } else {
                stack_mid.push((hit_l->Some_0, left)).push((hit_r->Some_0, right))
            }
        } else if push_l {
            stack_mid.push((hit_l->Some_0, left))
        } else if push_r {
            stack_mid.push((hit_r->Some_0, right))
        } else {
            stack_mid
        },
        forall|idx: int|
            0 <= idx < stack_pre.len() ==> 0 <= (#[trigger] stack_pre[idx]).1 < nodes.len()
                && subtree_good(nodes, stack_pre[idx].1 as int, shapes),
        boxes_bound_hits(nodes, shapes, ray) ==> forall|j: int|
            0 <= j < shapes.len() ==> stack_covers(nodes, stack_pre, j) || best_le(
                shapes,
                ray,
                best,
                j,
            ),
        boxes_bound_hits(nodes, shapes, ray) ==> forall|idx: int, j: int|
            0 <= idx < stack_pre.len() && 0 <= j < shapes.len() && #[trigger] in_node_range(
                nodes,
                stack_pre[idx].1 as int,
                j,
            ) ==> ((#[trigger] shapes[j].hit_spec(ray)) matches Some(d) ==> stack_pre[idx].0 <= d),
    ensures
        forall|idx: int|
            0 <= idx < stack_post.len() ==> 0 <= (#[trigger] stack_post[idx]).1 < nodes.len()
                && subtree_good(nodes, stack_post[idx].1 as int, shapes),
        boxes_bound_hits(nodes, shapes, ray) ==> forall|j: int|
            0 <= j < shapes.len() ==> stack_covers(nodes, stack_post, j) || best_le(
                shapes,
                ray,
                best,
                j,
            ),
        boxes_bound_hits(nodes, shapes, ray) ==> forall|idx: int, j: int|
            0 <= idx < stack_post.len() && 0 <= j < shapes.len() && #[trigger] in_node_range(
                nodes,
                stack_post[idx].1 as int,
                j,
            ) ==> ((#[trigger] shapes[j].hit_spec(ray)) matches Some(d) ==> stack_post[idx].0
                <= d),
{
    let hyp = boxes_bound_hits(nodes, shapes, ray);
    lemma_subtree_unfold_branch(nodes, k, left, right, shapes);
    let lefti = left as int;
    let righti = right as int;
    assert forall|idx: int|
        0 <= idx < stack_post.len() implies 0 <= (#[trigger] stack_post[idx]).1 < nodes.len()
        && subtree_good(nodes, stack_post[idx].1 as int, shapes) by {
        if idx < stack_mid.len() {
            assert(stack_post[idx] == stack_mid[idx]);
            assert(stack_mid[idx] == stack_pre[idx]);
        } else {
            let c = stack_post[idx].1 as int;
            assert(c == lefti || c == righti);
        }
    }
    if hyp {
        assert forall|j: int|
            0 <= j < shapes.len() implies stack_covers(nodes, stack_post, j) || best_le(
            shapes,
            ray,
            best,
            j,
        ) by {
            if stack_covers(nodes, stack_pre, j) && !best_le(shapes, ray, best, j) {
                let idx = choose|idx: int|
                    0 <= idx < stack_pre.len() && #[trigger] in_node_range(
                        nodes,
                        stack_pre[idx].1 as int,
                        j,
                    );
                if idx < stack_pre.len() - 1 {
                    assert(stack_post[idx] == stack_mid[idx]);
                    assert(stack_mid[idx] == stack_pre[idx]);
                    assert(in_node_range(nodes, stack_post[idx].1 as int, j));
                    assert(stack_covers(nodes, stack_post, j));
                } else {
                    assert(in_node_range(nodes, k, j));
                    if in_node_range(nodes, lefti, j) {
                        if push_l {
                            assert(exists|w: int|
                                0 <= w < stack_post.len() && #[trigger] in_node_range(
                                    nodes,
                                    stack_post[w].1 as int,
                                    j,
                                )) by {
                                if push_r && !(hit_l->Some_0 < hit_r->Some_0) {
                                    assert(stack_post[stack_post.len() - 1].1 == right);
                                    assert(stack_post[stack_post.len() - 2].1 == left);
                                    assert(in_node_range(
                                        nodes,
                                        stack_post[stack_post.len() - 2].1 as int,
                                        j,
                                    ));
                                } else {
                                    assert(stack_post[stack_post.len() - 1].1 == left);
                                    assert(in_node_range(
                                        nodes,
                                        stack_post[stack_post.len() - 1].1 as int,
                                        j,
                                    ));
                                }
                            }
                            assert(stack_covers(nodes, stack_post, j));
                        } else {
                            if shapes[j].hit_spec(ray) is Some {
                                let d = shapes[j].hit_spec(ray)->Some_0;
                                assert(slab_spec(
                                    nodes[lefti].min,
                                    nodes[lefti].max,
                                    ray,
                                ) matches Some(ee) && ee <= d);
                                assert(hit_l is Some);
                                assert(best matches Some(b) && !(hit_l->Some_0 < b.0));
                                assert(best_le(shapes, ray, best, j));
                                assert(false);
                            }
                        }
                    } else {
                        assert(in_node_range(nodes, righti, j));
                        if push_r {
                            assert(exists|w: int|
                                0 <= w < stack_post.len() && #[trigger] in_node_range(
                                    nodes,
                                    stack_post[w].1 as int,
                                    j,
                                )) by {
                                if push_l && hit_l->Some_0 < hit_r->Some_0 {
                                    assert(stack_post[stack_post.len() - 2].1 == right);
                                    assert(in_node_range(
                                        nodes,
                                        stack_post[stack_post.len() - 2].1 as int,
                                        j,
                                    ));
                                } else {
                                    assert(stack_post[stack_post.len() - 1].1 == right);
                                    assert(in_node_range(
                                        nodes,
                                        stack_post[stack_post.len() - 1].1 as int,
                                        j,
                                    ));
                                }
                            }
                            assert(stack_covers(nodes, stack_post, j));
                        } else {
                            if shapes[j].hit_spec(ray) is Some {
                                let d = shapes[j].hit_spec(ray)->Some_0;
                                assert(slab_spec(
                                    nodes[righti].min,
                                    nodes[righti].max,
                                    ray,
                                ) matches Some(ee) && ee <= d);
                                assert(best_le(shapes, ray, best, j));
                                assert(false);
                            }
                        }
                    }
                }
            }
        }
        assert forall|idx: int, j: int|
            0 <= idx < stack_post.len() && 0 <= j < shapes.len() && #[trigger] in_node_range(
                nodes,
                stack_post[idx].1 as int,
                j,
            ) implies ((#[trigger] shapes[j].hit_spec(ray)) matches Some(d) ==> stack_post[idx].0
            <= d) by {
            if shapes[j].hit_spec(ray) is Some {
                let d = shapes[j].hit_spec(ray)->Some_0;
                if idx < stack_mid.len() {
                    assert(stack_post[idx] == stack_mid[idx]);
                    assert(stack_mid[idx] == stack_pre[idx]);
                    assert(in_node_range(nodes, stack_pre[idx].1 as int, j));
                } else {
                    let c = stack_post[idx].1 as int;
                    assert(c == lefti || c == righti);
                    assert(in_node_range(nodes, c, j));
                    assert(slab_spec(nodes[c].min, nodes[c].max, ray) matches Some(ee) && ee <= d);
                    assert(stack_post[idx].0 as int == slab_spec(
                        nodes[c].min,
                        nodes[c].max,
                        ray,
                    )->Some_0);
                }
            }
        }
    }
}


} // verus!
