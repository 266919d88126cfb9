//! The quadtree as plain values: what a node is, when an arena of nodes is a
//! well-formed tree, which points a node's region covers, and what a tree
//! built from a point set holds.

use vstd::prelude::*;
use crate::slicing_tools::Point;

verus! {

/// A leaf that holds more than this many points splits, unless it sits at
/// the greatest depth.
pub const MAX: usize = 3;

/// The greatest depth of a node; the root has depth 0.
pub const MAX_DEPTH: i32 = 20;

/// Lattice units per degree: two to the power `MAX_DEPTH`, so that every
/// halving of the root's extent down to the greatest depth is exact.
pub const UNITS_PER_DEGREE: i32 = 1048576;

/// Half the width of the root's rectangle: 180 degrees.
pub const ROOT_HALF_WIDTH: i32 = 188743680;

/// Half the height of the root's rectangle: 90 degrees.
pub const ROOT_HALF_HEIGHT: i32 = 94371840;

/// What a node is, as plain values.
pub struct NodeView {
    /// The center of the node's rectangle.
    pub center: Point,
    /// Half the width and half the height of the rectangle.
    pub half_size: Point,
    /// The depth of the node; the root has depth 0.
    pub depth: int,
    /// The point indices of a leaf; `None` for an internal node.
    pub points: Option<Seq<usize>>,
    /// The four children of an internal node, in the order bottom-left,
    /// top-left, bottom-right, top-right; empty for a leaf.
    pub children: Seq<usize>,
}

/// Lattice units in one 180th of the half-width of a node at `depth`: one at
/// the greatest depth, doubling with each step towards the root.
pub open spec fn cell_units(depth: int) -> int
    decreases MAX_DEPTH - depth,
{
    if depth >= MAX_DEPTH {
        1
    } else {
        2 * cell_units(depth + 1)
    }
}

/// Whether a list of indices is strictly increasing.
pub open spec fn increasing(list: Seq<usize>) -> bool {
    forall|i: int, j: int| 0 <= i < j < list.len() ==> list[i] < list[j]
}

/// A node without children.
pub open spec fn is_leaf(n: NodeView) -> bool {
    n.children.len() == 0
}

/// The point indices that a node lists: none for an internal node.
pub open spec fn own_points(n: NodeView) -> Seq<usize> {
    match n.points {
        Some(ps) => ps,
        None => Seq::empty(),
    }
}

/// The center of the `k`-th quadrant of a node.
pub open spec fn child_center(n: NodeView, k: int) -> (int, int) {
    let hx = n.half_size.0 / 2;
    let hy = n.half_size.1 / 2;
    (
        if k < 2 {
            n.center.0 - hx
        } else {
            n.center.0 + hx
        },
        if k % 2 == 0 {
            n.center.1 - hy
        } else {
            n.center.1 + hy
        },
    )
}

/// The `k`-th child of node `i` comes later in the arena, `k` places after
/// the first child, lies one level deeper and is the `k`-th quadrant of its
/// parent.
pub open spec fn child_ok(t: Seq<NodeView>, i: int, k: int) -> bool {
    let n = t[i];
    let c = n.children[k] as int;
    &&& i < c < t.len()
    &&& c == n.children[0] + k
    &&& t[c].depth == n.depth + 1
    &&& t[c].half_size.0 == n.half_size.0 / 2
    &&& t[c].half_size.1 == n.half_size.1 / 2
    &&& t[c].center.0 == child_center(n, k).0
    &&& t[c].center.1 == child_center(n, k).1
}

/// The shape of node `i`: its depth is in range, its extent is the root's
/// halved once per level, its rectangle lies within the root's, and it is
/// either a leaf that lists points in increasing order of their indices or
/// an internal node below the greatest depth with four proper children and
/// no list.
pub open spec fn node_ok(t: Seq<NodeView>, i: int) -> bool {
    let n = t[i];
    &&& 0 <= n.depth <= MAX_DEPTH
    &&& n.half_size.0 == 180 * cell_units(n.depth)
    &&& n.half_size.1 == 90 * cell_units(n.depth)
    &&& -ROOT_HALF_WIDTH <= n.center.0 - n.half_size.0
    &&& n.center.0 + n.half_size.0 <= ROOT_HALF_WIDTH
    &&& -ROOT_HALF_HEIGHT <= n.center.1 - n.half_size.1
    &&& n.center.1 + n.half_size.1 <= ROOT_HALF_HEIGHT
    &&& if is_leaf(n) {
        n.points matches Some(ps) && increasing(ps)
    } else {
        &&& n.children.len() == 4
        &&& n.points is None
        &&& n.depth < MAX_DEPTH
        &&& forall|k: int| 0 <= k < 4 ==> child_ok(t, i, k)
    }
}

/// A leaf above the greatest depth holds at most `MAX` points.
pub open spec fn leaf_fits(n: NodeView) -> bool {
    is_leaf(n) && n.depth < MAX_DEPTH ==> own_points(n).len() <= MAX
}

/// Every node but node `except` is well shaped and within its capacity; node
/// `except`, if there is one, is well shaped.
pub open spec fn wf_except(t: Seq<NodeView>, except: int) -> bool {
    &&& forall|i: int| 0 <= i < t.len() ==> node_ok(t, i)
    &&& forall|i: int| 0 <= i < t.len() && i != except ==> leaf_fits(#[trigger] t[i])
    &&& t.len() > 0 ==> t[0].center == (0i32, 0i32) && t[0].depth == 0
}

/// The tree is well formed: every node is well shaped and within its
/// capacity, and the root, if there is one, is the whole domain.
pub open spec fn wf(t: Seq<NodeView>) -> bool {
    wf_except(t, -1)
}

/// `cell_units` is positive, and below the greatest depth it is twice the
/// value one level deeper.
pub proof fn lemma_cell_units(depth: int)
    ensures
        cell_units(depth) >= 1,
        depth < MAX_DEPTH ==> cell_units(depth) == 2 * cell_units(depth + 1),
    decreases MAX_DEPTH - depth,
{
    if depth < MAX_DEPTH {
        lemma_cell_units(depth + 1);
    }
}

/// At the root, `cell_units` is the number of lattice units per degree.
pub proof fn lemma_cell_units_root()
    ensures
        cell_units(0) == UNITS_PER_DEGREE,
        180 * cell_units(0) == ROOT_HALF_WIDTH,
        90 * cell_units(0) == ROOT_HALF_HEIGHT,
{
    reveal_with_fuel(cell_units, 22);
}

/// Whether the region of node `n` covers the point `p`.
///
/// The region is the node's rectangle, borders included, extended without
/// bound on every side that lies on the border of the root's rectangle: a
/// point outside the domain belongs to the nodes along the nearest border.
pub open spec fn covers(n: NodeView, p: Point) -> bool {
    &&& n.center.0 - n.half_size.0 <= p.0 || n.center.0 - n.half_size.0 == -ROOT_HALF_WIDTH
    &&& p.0 <= n.center.0 + n.half_size.0 || n.center.0 + n.half_size.0 == ROOT_HALF_WIDTH
    &&& n.center.1 - n.half_size.1 <= p.1 || n.center.1 - n.half_size.1 == -ROOT_HALF_HEIGHT
    &&& p.1 <= n.center.1 + n.half_size.1 || n.center.1 + n.half_size.1 == ROOT_HALF_HEIGHT
}

/// Whether `p` lies on the side of the center of `n` that its `k`-th
/// quadrant takes, the lines through the center belonging to both sides.
pub open spec fn in_quadrant(n: NodeView, k: int, p: Point) -> bool {
    &&& if k < 2 {
        p.0 <= n.center.0
    } else {
        p.0 >= n.center.0
    }
    &&& if k % 2 == 0 {
        p.1 <= n.center.1
    } else {
        p.1 >= n.center.1
    }
}

/// Whether the rectangle of `a` lies within the rectangle of `b`.
pub open spec fn inside(a: NodeView, b: NodeView) -> bool {
    &&& b.center.0 - b.half_size.0 <= a.center.0 - a.half_size.0
    &&& a.center.0 + a.half_size.0 <= b.center.0 + b.half_size.0
    &&& b.center.1 - b.half_size.1 <= a.center.1 - a.half_size.1
    &&& a.center.1 + a.half_size.1 <= b.center.1 + b.half_size.1
}

/// Whether the rectangle of `n` holds the point `p`, borders included.
pub open spec fn in_rect(n: NodeView, p: Point) -> bool {
    &&& n.center.0 - n.half_size.0 <= p.0 <= n.center.0 + n.half_size.0
    &&& n.center.1 - n.half_size.1 <= p.1 <= n.center.1 + n.half_size.1
}

/// The `k`-th child of node `a`, if it comes later in the arena.
pub open spec fn child_at(t: Seq<NodeView>, a: int, k: int) -> Option<int> {
    if 0 <= a < t.len() && t[a].children.len() == 4 && a < t[a].children[k] < t.len() {
        Some(t[a].children[k] as int)
    } else {
        None
    }
}

/// Whether node `m` is node `a` or lies below it.
pub open spec fn desc(t: Seq<NodeView>, a: int, m: int) -> bool
    decreases t.len() - a,
{
    a == m || desc_below(t, a, m, 0) || desc_below(t, a, m, 1) || desc_below(t, a, m, 2)
        || desc_below(t, a, m, 3)
}

/// Whether node `m` is the `k`-th child of node `a` or lies below that child.
pub open spec fn desc_below(t: Seq<NodeView>, a: int, m: int, k: int) -> bool
    decreases t.len() - a, 0int,
{
    match child_at(t, a, k) {
        Some(c) => desc(t, c, m),
        None => false,
    }
}

/// Every index that some node lists is below `bound`, is an index into the
/// point set, and is the index of a point that the node's region covers.
pub open spec fn sound(t: Seq<NodeView>, pts: Seq<Point>, bound: int) -> bool {
    forall|m: int, j: int|
        0 <= m < t.len() && 0 <= j < own_points(t[m]).len() ==> {
            let i = #[trigger] own_points(t[m])[j];
            i < bound && i < pts.len() && covers(t[m], pts[i as int])
        }
}

/// A leaf lists exactly the indices of `s` whose points its region covers.
pub open spec fn leaf_lists(n: NodeView, pts: Seq<Point>, s: Set<usize>) -> bool {
    forall|i: usize|
        #[trigger] own_points(n).contains(i) <==> s.contains(i) && i < pts.len() && covers(
            n,
            pts[i as int],
        )
}

/// Every leaf at or below node `r` lists exactly the indices of `s` whose
/// points its region covers.
pub open spec fn subtree_lists(t: Seq<NodeView>, pts: Seq<Point>, r: int, s: Set<usize>) -> bool {
    forall|m: int|
        0 <= m < t.len() && #[trigger] desc(t, r, m) && is_leaf(t[m]) ==> leaf_lists(
            t[m],
            pts,
            s,
        )
}

/// More than `MAX` points with an index below `bound` lie in the region of
/// node `n`.
pub open spec fn crowded(n: NodeView, pts: Seq<Point>, bound: int) -> bool {
    exists|w: Seq<usize>| #[trigger]
        witnesses(n, pts, bound, w)
}

/// `w` lists more than `MAX` distinct indices below `bound` of points that
/// lie in the region of node `n`.
pub open spec fn witnesses(n: NodeView, pts: Seq<Point>, bound: int, w: Seq<usize>) -> bool {
    &&& increasing(w)
    &&& w.len() > MAX
    &&& forall|j: int|
        0 <= j < w.len() ==> (#[trigger] w[j]) < bound && w[j] < pts.len() && covers(
            n,
            pts[w[j] as int],
        )
}

/// No node was split without need: the region of every internal node
/// covers more than `MAX` points with an index below `bound`.
pub open spec fn minimal(t: Seq<NodeView>, pts: Seq<Point>, bound: int) -> bool {
    forall|m: int| 0 <= m < t.len() && !is_leaf(#[trigger] t[m]) ==> crowded(t[m], pts, bound)
}

/// The arena only grew: every node of `t0` is still in its place with its
/// rectangle and its depth, and an internal node is unchanged.
pub open spec fn extends(t0: Seq<NodeView>, t1: Seq<NodeView>) -> bool {
    &&& t0.len() <= t1.len()
    &&& forall|i: int|
        0 <= i < t0.len() ==> {
            &&& (#[trigger] t1[i]).center == t0[i].center
            &&& t1[i].half_size == t0[i].half_size
            &&& t1[i].depth == t0[i].depth
            &&& (!is_leaf(t0[i]) ==> t1[i] == t0[i])
        }
}

/// Every node of `t0` that differs in `t1` has its rectangle within that of
/// node `r`.
pub open spec fn changed_within(t0: Seq<NodeView>, t1: Seq<NodeView>, r: int) -> bool {
    forall|m: int| 0 <= m < t0.len() && #[trigger] t1[m] != t0[m] ==> inside(t0[m], t0[r])
}

/// The set of the indices below `n`.
pub open spec fn indices_below(n: int) -> Set<usize> {
    Set::new(|i: usize| i < n)
}

/// Every node of the arena is the root or lies below it.
pub open spec fn connected(t: Seq<NodeView>) -> bool {
    forall|m: int| 0 <= m < t.len() ==> desc(t, 0, m)
}

/// Every node that `t1` has and `t0` has not lies below node `r`.
pub open spec fn grown_below(t0: Seq<NodeView>, t1: Seq<NodeView>, r: int) -> bool {
    forall|m: int| t0.len() <= m < t1.len() ==> desc(t1, r, m)
}

/// What a tree built from the point set `pts` is: a well-formed tree with a
/// root, below which all its nodes lie, in which a node lists an index only
/// if its region covers that point, every leaf lists exactly the points that
/// its region covers, and the region of every internal node covers more
/// than `MAX` points.
pub open spec fn built_from(t: Seq<NodeView>, pts: Seq<Point>) -> bool {
    &&& wf(t)
    &&& t.len() > 0
    &&& connected(t)
    &&& sound(t, pts, pts.len() as int)
    &&& subtree_lists(t, pts, 0, indices_below(pts.len() as int))
    &&& minimal(t, pts, pts.len() as int)
}

/// The region of a child is the part of its parent's region on the child's
/// side of the parent's center, and the child's rectangle is a quarter of
/// its parent's.
pub proof fn lemma_child_region(t: Seq<NodeView>, a: int, k: int, p: Point)
    requires
        0 <= a < t.len(),
        node_ok(t, a),
        !is_leaf(t[a]),
        0 <= k < 4,
    ensures
        covers(t[t[a].children[k] as int], p) <==> covers(t[a], p) && in_quadrant(t[a], k, p),
        inside(t[t[a].children[k] as int], t[a]),
        t[t[a].children[k] as int].half_size.0 >= 180,
        t[t[a].children[k] as int].half_size.1 >= 90,
        2 * t[t[a].children[k] as int].half_size.0 == t[a].half_size.0,
        2 * t[t[a].children[k] as int].half_size.1 == t[a].half_size.1,
{
    assert(child_ok(t, a, k));
    lemma_cell_units(t[a].depth);
    lemma_cell_units(t[a].depth + 1);
    let n = t[a];
    let c = t[n.children[k] as int];
    let u = cell_units(n.depth + 1);
    assert(n.half_size.0 == 360 * u && n.half_size.1 == 180 * u);
    assert(c.half_size.0 == 180 * u && c.half_size.1 == 90 * u);
    assert(c.center.0 == if k < 2 {
        n.center.0 - 180 * u
    } else {
        n.center.0 + 180 * u
    });
    assert(c.center.1 == if k % 2 == 0 {
        n.center.1 - 90 * u
    } else {
        n.center.1 + 90 * u
    });
}

/// A node below another has its rectangle within the other's, and is a node
/// of the arena.
pub proof fn lemma_desc_inside(t: Seq<NodeView>, a: int, m: int)
    requires
        0 <= a < t.len(),
        forall|i: int| 0 <= i < t.len() ==> node_ok(t, i),
        desc(t, a, m),
    ensures
        a <= m < t.len(),
        inside(t[m], t[a]),
        t[m].depth >= t[a].depth,
    decreases t.len() - a,
{
    if a != m {
        let k = if desc_below(t, a, m, 0) {
            0int
        } else if desc_below(t, a, m, 1) {
            1int
        } else if desc_below(t, a, m, 2) {
            2int
        } else {
            3int
        };
        assert(desc_below(t, a, m, k));
        let c = child_at(t, a, k)->0;
        assert(node_ok(t, a));
        assert(child_ok(t, a, k));
        lemma_child_region(t, a, k, (0i32, 0i32));
        lemma_desc_inside(t, c, m);
    }
}

/// A point that the region of a node covers is covered by the region of
/// every node above it.
pub proof fn lemma_covers_shrinks(t: Seq<NodeView>, a: int, m: int, p: Point)
    requires
        0 <= a < t.len(),
        forall|i: int| 0 <= i < t.len() ==> node_ok(t, i),
        desc(t, a, m),
        covers(t[m], p),
    ensures
        covers(t[a], p),
    decreases t.len() - a,
{
    if a != m {
        let k = if desc_below(t, a, m, 0) {
            0int
        } else if desc_below(t, a, m, 1) {
            1int
        } else if desc_below(t, a, m, 2) {
            2int
        } else {
            3int
        };
        assert(desc_below(t, a, m, k));
        let c = child_at(t, a, k)->0;
        assert(node_ok(t, a));
        lemma_covers_shrinks(t, c, m, p);
        lemma_child_region(t, a, k, p);
    }
}

/// No node at or below one child of a node has its rectangle within that of
/// another child, nor has the node itself.
pub proof fn lemma_sibling_apart(t: Seq<NodeView>, a: int, j: int, k: int, m: int)
    requires
        0 <= a < t.len(),
        forall|i: int| 0 <= i < t.len() ==> node_ok(t, i),
        !is_leaf(t[a]),
        0 <= j < 4,
        0 <= k < 4,
        j != k,
        desc(t, t[a].children[j] as int, m),
    ensures
        !inside(t[m], t[t[a].children[k] as int]),
        !inside(t[a], t[t[a].children[k] as int]),
{
    assert(node_ok(t, a));
    lemma_child_region(t, a, j, (0i32, 0i32));
    lemma_child_region(t, a, k, (0i32, 0i32));
    let cj = t[a].children[j] as int;
    assert(child_ok(t, a, j));
    assert(child_ok(t, a, k));
    lemma_desc_inside(t, cj, m);
    assert(node_ok(t, m));
    lemma_cell_units(t[m].depth);
}

/// Where no node at or below `a` differs between two arenas, the same nodes
/// lie below `a` in both.
pub proof fn lemma_subtree_untouched(t0: Seq<NodeView>, t1: Seq<NodeView>, a: int, m: int)
    requires
        0 <= a < t0.len() <= t1.len(),
        forall|i: int| 0 <= i < t0.len() ==> node_ok(t0, i),
        forall|i: int| 0 <= i < t0.len() && desc(t0, a, i) ==> t1[i] == t0[i],
    ensures
        desc(t1, a, m) == desc(t0, a, m),
    decreases t0.len() - a,
{
    assert(desc(t0, a, a));
    assert(t1[a] == t0[a]);
    if a != m {
        assert forall|k: int| 0 <= k < 4 implies desc_below(t1, a, m, k) == desc_below(
            t0,
            a,
            m,
            k,
        ) by {
            assert(node_ok(t0, a));
            if !is_leaf(t0[a]) {
                assert(child_ok(t0, a, k));
                let c = t0[a].children[k] as int;
                assert(child_at(t0, a, k) == Some(c));
                assert(child_at(t1, a, k) == Some(c));
                assert forall|i: int| 0 <= i < t0.len() && desc(t0, c, i) implies t1[i]
                    == t0[i] by {
                    assert(desc_below(t0, a, i, k));
                }
                lemma_subtree_untouched(t0, t1, c, m);
            }
        }
        assert(desc_below(t1, a, m, 0) == desc_below(t0, a, m, 0));
        assert(desc_below(t1, a, m, 1) == desc_below(t0, a, m, 1));
        assert(desc_below(t1, a, m, 2) == desc_below(t0, a, m, 2));
        assert(desc_below(t1, a, m, 3) == desc_below(t0, a, m, 3));
    }
}

/// Where no node at or below `a` differs between two arenas, what the
/// leaves below `a` are known to list carries over.
pub proof fn lemma_lists_untouched(
    t0: Seq<NodeView>,
    t1: Seq<NodeView>,
    pts: Seq<Point>,
    a: int,
    s: Set<usize>,
)
    requires
        0 <= a < t0.len() <= t1.len(),
        forall|i: int| 0 <= i < t0.len() ==> node_ok(t0, i),
        forall|i: int| 0 <= i < t0.len() && desc(t0, a, i) ==> t1[i] == t0[i],
        subtree_lists(t0, pts, a, s),
    ensures
        subtree_lists(t1, pts, a, s),
        forall|m: int| desc(t1, a, m) == desc(t0, a, m),
{
    assert forall|m: int| desc(t1, a, m) == desc(t0, a, m) by {
        lemma_subtree_untouched(t0, t1, a, m);
    }
    assert forall|m: int| 0 <= m < t1.len() && #[trigger] desc(t1, a, m) && is_leaf(
        t1[m],
    ) implies leaf_lists(t1[m], pts, s) by {
        lemma_desc_inside(t0, a, m);
    }
}

/// A point that the region of node `a` does not cover is listed by no leaf
/// below `a`, so what those leaves are known to list holds with it too.
pub proof fn lemma_lists_uncovered(
    t: Seq<NodeView>,
    pts: Seq<Point>,
    a: int,
    s: Set<usize>,
    pt: usize,
)
    requires
        0 <= a < t.len(),
        forall|i: int| 0 <= i < t.len() ==> node_ok(t, i),
        pt < pts.len(),
        !covers(t[a], pts[pt as int]),
        subtree_lists(t, pts, a, s),
    ensures
        subtree_lists(t, pts, a, s.insert(pt)),
{
    assert forall|m: int| 0 <= m < t.len() && #[trigger] desc(t, a, m) && is_leaf(
        t[m],
    ) implies leaf_lists(t[m], pts, s.insert(pt)) by {
        assert(leaf_lists(t[m], pts, s));
        if covers(t[m], pts[pt as int]) {
            lemma_covers_shrinks(t, a, m, pts[pt as int]);
        }
    }
}

/// What the leaves below an internal node list is what the leaves below its
/// four children list.
pub proof fn lemma_lists_from_children(
    t: Seq<NodeView>,
    pts: Seq<Point>,
    a: int,
    s: Set<usize>,
)
    requires
        0 <= a < t.len(),
        node_ok(t, a),
        !is_leaf(t[a]),
        forall|k: int| 0 <= k < 4 ==> #[trigger] subtree_lists(t, pts, t[a].children[k] as int, s),
    ensures
        subtree_lists(t, pts, a, s),
{
    assert forall|m: int| 0 <= m < t.len() && #[trigger] desc(t, a, m) && is_leaf(
        t[m],
    ) implies leaf_lists(t[m], pts, s) by {
        let k = if desc_below(t, a, m, 0) {
            0int
        } else if desc_below(t, a, m, 1) {
            1int
        } else if desc_below(t, a, m, 2) {
            2int
        } else {
            3int
        };
        assert(desc_below(t, a, m, k));
        let c = t[a].children[k] as int;
        assert(child_at(t, a, k) == Some(c));
        assert(desc(t, c, m));
        assert(subtree_lists(t, pts, c, s));
    }
}

/// What the leaves below an internal node list, the leaves below each of
/// its children list.
pub proof fn lemma_lists_to_child(
    t: Seq<NodeView>,
    pts: Seq<Point>,
    a: int,
    k: int,
    s: Set<usize>,
)
    requires
        0 <= a < t.len(),
        node_ok(t, a),
        !is_leaf(t[a]),
        0 <= k < 4,
        subtree_lists(t, pts, a, s),
    ensures
        subtree_lists(t, pts, t[a].children[k] as int, s),
{
    let c = t[a].children[k] as int;
    assert(child_ok(t, a, k));
    assert forall|m: int| 0 <= m < t.len() && #[trigger] desc(t, c, m) && is_leaf(
        t[m],
    ) implies leaf_lists(t[m], pts, s) by {
        assert(child_at(t, a, k) == Some(c));
        assert(desc_below(t, a, m, k));
        assert(desc(t, a, m));
    }
}

/// The set of the first `j + 1` entries of a list is the set of the first
/// `j` with the next entry added.
pub proof fn lemma_take_set_step(list: Seq<usize>, j: int)
    requires
        0 <= j < list.len(),
    ensures
        list.take(j + 1).to_set() =~= list.take(j).to_set().insert(list[j]),
{
    let before = list.take(j);
    let after = list.take(j + 1);
    assert forall|x: usize| after.to_set().contains(x) <==> before.to_set().insert(
        list[j],
    ).contains(x) by {
        if after.contains(x) {
            let i = choose|i: int| 0 <= i < after.len() && after[i] == x;
            if i < j {
                assert(before[i] == x);
            }
        }
        if before.contains(x) {
            let i = choose|i: int| 0 <= i < before.len() && before[i] == x;
            assert(after[i] == x);
        }
        assert(after[j] == list[j]);
    }
}

/// The empty leaf that is the `k`-th quadrant of `n`.
pub open spec fn quadrant_leaf(n: NodeView, k: int) -> NodeView {
    NodeView {
        center: (child_center(n, k).0 as i32, child_center(n, k).1 as i32),
        half_size: ((n.half_size.0 / 2) as i32, (n.half_size.1 / 2) as i32),
        depth: n.depth + 1,
        points: Some(Seq::empty()),
        children: Seq::empty(),
    }
}

/// The arena after the leaf `node` was split: four empty leaves, its
/// quadrants, are appended in order and are its children, and the node
/// itself lists nothing any more.
pub open spec fn split_shape(t0: Seq<NodeView>, node: int) -> Seq<NodeView> {
    let n = t0[node];
    let first = t0.len() as usize;
    t0.update(
        node,
        NodeView {
            points: None,
            children: seq![first, (first + 1) as usize, (first + 2) as usize, (first + 3) as usize],
            ..n
        },
    ).push(quadrant_leaf(n, 0)).push(quadrant_leaf(n, 1)).push(quadrant_leaf(n, 2)).push(
        quadrant_leaf(n, 3),
    )
}

/// Node `node`, a leaf of `t0`, is split in `t1`: it lists nothing, its
/// children are the four nodes that came first after the nodes of `t0`, in
/// order, and they are its four quadrants, one level deeper.
pub open spec fn split_at(t0: Seq<NodeView>, t1: Seq<NodeView>, node: int) -> bool {
    let first = t0.len();
    &&& t1.len() >= first + 4
    &&& t1[node].points is None
    &&& t1[node].children =~= seq![
        first as usize,
        (first + 1) as usize,
        (first + 2) as usize,
        (first + 3) as usize,
    ]
    &&& forall|k: int|
        0 <= k < 4 ==> {
            let child = #[trigger] t1[first + k];
            &&& child.center == quadrant_leaf(t0[node], k).center
            &&& child.half_size == quadrant_leaf(t0[node], k).half_size
            &&& child.depth == t0[node].depth + 1
        }
}

/// A leaf whose list was replaced leaves the arena well shaped, provided
/// the new list is increasing.
pub proof fn lemma_leaf_relisted(t0: Seq<NodeView>, node: int, list: Seq<usize>)
    requires
        0 <= node < t0.len(),
        forall|i: int| 0 <= i < t0.len() ==> node_ok(t0, i),
        is_leaf(t0[node]),
        increasing(list),
    ensures
        ({
            let t1 = t0.update(node, NodeView { points: Some(list), ..t0[node] });
            &&& forall|i: int| 0 <= i < t1.len() ==> node_ok(t1, i)
            &&& extends(t0, t1)
            &&& changed_within(t0, t1, node)
        }),
{
    let t1 = t0.update(node, NodeView { points: Some(list), ..t0[node] });
    assert forall|i: int| 0 <= i < t1.len() implies node_ok(t1, i) by {
        assert(node_ok(t0, i));
        if !is_leaf(t0[i]) {
            assert forall|k: int| 0 <= k < 4 implies child_ok(t1, i, k) by {
                assert(child_ok(t0, i, k));
            }
        }
    }
}

/// Splitting a leaf above the greatest depth leaves the arena well shaped:
/// the node becomes internal and its four quadrants are new empty leaves.
pub proof fn lemma_split_shape(t0: Seq<NodeView>, node: int)
    requires
        0 <= node < t0.len(),
        t0.len() + 4 <= usize::MAX,
        forall|i: int| 0 <= i < t0.len() ==> node_ok(t0, i),
        is_leaf(t0[node]),
        t0[node].depth < MAX_DEPTH,
    ensures
        ({
            let t1 = split_shape(t0, node);
            &&& t1.len() == t0.len() + 4
            &&& forall|i: int| 0 <= i < t1.len() ==> node_ok(t1, i)
            &&& extends(t0, t1)
            &&& changed_within(t0, t1, node)
            &&& !is_leaf(t1[node])
            &&& forall|i: int| 0 <= i < t0.len() && i != node ==> t1[i] == t0[i]
            &&& forall|k: int|
                0 <= k < 4 ==> #[trigger] t1[node].children[k] == t0.len() + k && t1[t0.len() + k]
                    == quadrant_leaf(t0[node], k)
        }),
{
    let t1 = split_shape(t0, node);
    let n = t0[node];
    assert(node_ok(t0, node));
    lemma_cell_units(n.depth);
    lemma_cell_units(n.depth + 1);
    assert forall|k: int| 0 <= k < 4 implies #[trigger] t1[node].children[k] == t0.len() + k
        && t1[t0.len() + k] == quadrant_leaf(t0[node], k) by {}
    assert forall|i: int| 0 <= i < t1.len() implies node_ok(t1, i) by {
        if i < t0.len() {
            assert(node_ok(t0, i));
            if i == node {
                assert forall|k: int| 0 <= k < 4 implies child_ok(t1, i, k) by {
                    assert(t1[node].children[k] == t0.len() + k);
                    assert(t1[t0.len() + k] == quadrant_leaf(n, k));
                }
            } else if !is_leaf(t0[i]) {
                assert forall|k: int| 0 <= k < 4 implies child_ok(t1, i, k) by {
                    assert(child_ok(t0, i, k));
                }
            }
        } else {
            let k = i - t0.len();
            assert(t1[i] == quadrant_leaf(n, k));
        }
    }
}

/// The point indices listed at or below node `a`, in the order in which a
/// walk with a stack meets them: the node's own list, then what lies below
/// its fourth child, its third, its second and its first. An index that
/// several leaves list is repeated.
pub open spec fn subtree_points(t: Seq<NodeView>, a: int) -> Seq<usize>
    decreases t.len() - a, 1int,
{
    if 0 <= a < t.len() {
        own_points(t[a]) + child_points(t, a, 3) + child_points(t, a, 2) + child_points(t, a, 1)
            + child_points(t, a, 0)
    } else {
        Seq::empty()
    }
}

/// The point indices listed at or below the `k`-th child of node `a`.
pub open spec fn child_points(t: Seq<NodeView>, a: int, k: int) -> Seq<usize>
    decreases t.len() - a, 0int,
{
    match child_at(t, a, k) {
        Some(c) => subtree_points(t, c),
        None => Seq::empty(),
    }
}

/// The number of nodes at or below node `a`.
pub open spec fn subtree_size(t: Seq<NodeView>, a: int) -> nat
    decreases t.len() - a, 1int,
{
    if 0 <= a < t.len() {
        1 + child_size(t, a, 0) + child_size(t, a, 1) + child_size(t, a, 2) + child_size(t, a, 3)
    } else {
        0
    }
}

/// The number of nodes at or below the `k`-th child of node `a`.
pub open spec fn child_size(t: Seq<NodeView>, a: int, k: int) -> nat
    decreases t.len() - a, 0int,
{
    match child_at(t, a, k) {
        Some(c) => subtree_size(t, c),
        None => 0,
    }
}

/// What a walk still has to yield when `stack` holds the nodes it has yet
/// to visit, the last one next.
pub open spec fn pending_points(t: Seq<NodeView>, stack: Seq<usize>) -> Seq<usize>
    decreases stack.len(),
{
    if stack.len() == 0 {
        Seq::empty()
    } else {
        subtree_points(t, stack.last() as int) + pending_points(t, stack.drop_last())
    }
}

/// The number of nodes that a walk has yet to visit.
pub open spec fn pending_size(t: Seq<NodeView>, stack: Seq<usize>) -> nat
    decreases stack.len(),
{
    if stack.len() == 0 {
        0
    } else {
        subtree_size(t, stack.last() as int) + pending_size(t, stack.drop_last())
    }
}

/// Putting a node on the stack puts what lies below it in front of what is
/// pending.
pub proof fn lemma_pending_push(t: Seq<NodeView>, stack: Seq<usize>, c: usize)
    ensures
        pending_points(t, stack.push(c)) == subtree_points(t, c as int) + pending_points(t, stack),
        pending_size(t, stack.push(c)) == subtree_size(t, c as int) + pending_size(t, stack),
{
    assert(stack.push(c).drop_last() == stack);
    assert(stack.push(c).last() == c);
}

/// A node that lies below another still does so after the arena grew.
pub proof fn lemma_desc_extends(t0: Seq<NodeView>, t1: Seq<NodeView>, a: int, m: int)
    requires
        0 <= a < t0.len(),
        forall|i: int| 0 <= i < t0.len() ==> node_ok(t0, i),
        extends(t0, t1),
        desc(t0, a, m),
    ensures
        desc(t1, a, m),
    decreases t0.len() - a,
{
    if a != m {
        let k = if desc_below(t0, a, m, 0) {
            0int
        } else if desc_below(t0, a, m, 1) {
            1int
        } else if desc_below(t0, a, m, 2) {
            2int
        } else {
            3int
        };
        assert(desc_below(t0, a, m, k));
        let c = child_at(t0, a, k)->0;
        assert(node_ok(t0, a));
        assert(t1[a] == t0[a]);
        assert(child_at(t1, a, k) == Some(c));
        lemma_desc_extends(t0, t1, c, m);
        assert(desc_below(t1, a, m, k));
    }
}

/// A node below a node below a third lies below the third.
pub proof fn lemma_desc_trans(t: Seq<NodeView>, a: int, b: int, m: int)
    requires
        desc(t, a, b),
        desc(t, b, m),
    ensures
        desc(t, a, m),
    decreases t.len() - a,
{
    if a != b {
        let k = if desc_below(t, a, b, 0) {
            0int
        } else if desc_below(t, a, b, 1) {
            1int
        } else if desc_below(t, a, b, 2) {
            2int
        } else {
            3int
        };
        assert(desc_below(t, a, b, k));
        let c = child_at(t, a, k)->0;
        lemma_desc_trans(t, c, b, m);
        assert(desc_below(t, a, m, k));
    }
}

/// After a change below node `r` the new nodes lie below every node that
/// `r` lies below, and the old nodes lie where they lay.
pub proof fn lemma_grown_on(t0: Seq<NodeView>, ta: Seq<NodeView>, tb: Seq<NodeView>, r: int, c: int)
    requires
        0 <= r < t0.len() <= ta.len(),
        forall|i: int| 0 <= i < ta.len() ==> node_ok(ta, i),
        grown_below(t0, ta, r),
        extends(ta, tb),
        desc(tb, r, c),
        grown_below(ta, tb, c),
    ensures
        grown_below(t0, tb, r),
{
    assert forall|m: int| t0.len() <= m < tb.len() implies desc(tb, r, m) by {
        if m < ta.len() {
            lemma_desc_extends(ta, tb, r, m);
        } else {
            lemma_desc_trans(tb, r, c, m);
        }
    }
}

} // verus!
