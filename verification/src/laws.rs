//! What holds of every tree that was built from a point set, and of every
//! answer that such a tree gives.

use vstd::prelude::*;
use vstd::relations::sorted_by;
use crate::distance::{
    box_dist2_spec, dist2_spec, gap, nearest_spec, nn_children_spec, nn_search_spec, scan_points,
};
use crate::query_model::{
    all_beyond, all_in_domain, beside_domain, chosen_part, holds_corners, in_domain, inside_below,
    lemma_beyond_not_contained, lemma_contained_same_vertices, lemma_covered_is_reached,
    lemma_crossing_same_vertices,
    lemma_sorted_is_sort, lex_leq, lex_order, polygon_reaches, query_result, rectangle_corners,
    sorted_vertices, takes_whole, walk_child, walk_result,
};
use crate::slicing_tools::{
    contained, has_crossing, lemma_passes_bounds, passes, Point, slice_left, slice_right,
};
use crate::tree_model::{
    built_from, child_at, child_ok, child_points, covers, desc, desc_below, in_quadrant, in_rect,
    indices_below, is_leaf, leaf_lists, lemma_cell_units_root, lemma_child_region,
    lemma_covers_shrinks, lemma_desc_inside, MAX, MAX_DEPTH, node_ok, NodeView, own_points,
    ROOT_HALF_HEIGHT, ROOT_HALF_WIDTH, sound, subtree_points, wf,
};

verus! {

/// An index is in the concatenation of two lists exactly when it is in one
/// of them.
pub proof fn lemma_concat_contains(x: Seq<usize>, y: Seq<usize>, j: usize)
    ensures
        (x + y).contains(j) <==> x.contains(j) || y.contains(j),
{
    if x.contains(j) {
        let i = choose|i: int| 0 <= i < x.len() && x[i] == j;
        assert((x + y)[i] == j);
    }
    if y.contains(j) {
        let i = choose|i: int| 0 <= i < y.len() && y[i] == j;
        assert((x + y)[x.len() + i] == j);
    }
    if (x + y).contains(j) {
        let i = choose|i: int| 0 <= i < (x + y).len() && (x + y)[i] == j;
        if i < x.len() {
            assert(x[i] == j);
        } else {
            assert(y[i - x.len()] == j);
        }
    }
}

/// What is listed at or below a node is what the node lists together with
/// what is listed at or below its children.
pub proof fn lemma_subtree_contains(t: Seq<NodeView>, a: int, j: usize)
    requires
        0 <= a < t.len(),
    ensures
        subtree_points(t, a).contains(j) <==> own_points(t[a]).contains(j) || child_points(
            t,
            a,
            0,
        ).contains(j) || child_points(t, a, 1).contains(j) || child_points(t, a, 2).contains(j)
            || child_points(t, a, 3).contains(j),
{
    let own = own_points(t[a]);
    let c0 = child_points(t, a, 0);
    let c1 = child_points(t, a, 1);
    let c2 = child_points(t, a, 2);
    let c3 = child_points(t, a, 3);
    lemma_concat_contains(own, c3, j);
    lemma_concat_contains(own + c3, c2, j);
    lemma_concat_contains(own + c3 + c2, c1, j);
    lemma_concat_contains(own + c3 + c2 + c1, c0, j);
}

/// An index that a node lists is among the indices listed at or below every
/// node above it.
pub proof fn lemma_listed_below(t: Seq<NodeView>, a: int, m: int, j: usize)
    requires
        0 <= a < t.len(),
        forall|i: int| 0 <= i < t.len() ==> node_ok(t, i),
        desc(t, a, m),
        own_points(t[m]).contains(j),
    ensures
        subtree_points(t, a).contains(j),
    decreases t.len() - a,
{
    lemma_subtree_contains(t, a, j);
    if a != m {
        let k = if desc_below(t, a, m, 0) {
            0int
        } else if desc_below(t, a, m, 1) {
            1int
        } else if desc_below(t, a, m, 2) {
            2int
        } else {
            3int
        };
        assert(desc_below(t, a, m, k));
        let c = child_at(t, a, k)->0;
        lemma_listed_below(t, c, m, j);
    }
}

/// An index among those listed at or below a node is listed by some node
/// there.
pub proof fn lemma_subtree_listed(t: Seq<NodeView>, a: int, j: usize) -> (m: int)
    requires
        0 <= a < t.len(),
        forall|i: int| 0 <= i < t.len() ==> node_ok(t, i),
        subtree_points(t, a).contains(j),
    ensures
        a <= m < t.len(),
        desc(t, a, m),
        own_points(t[m]).contains(j),
    decreases t.len() - a,
{
    lemma_subtree_contains(t, a, j);
    if own_points(t[a]).contains(j) {
        a
    } else {
        let k = if child_points(t, a, 0).contains(j) {
            0int
        } else if child_points(t, a, 1).contains(j) {
            1int
        } else if child_points(t, a, 2).contains(j) {
            2int
        } else {
            3int
        };
        assert(child_points(t, a, k).contains(j));
        let c = child_at(t, a, k)->0;
        let m = lemma_subtree_listed(t, c, j);
        assert(desc_below(t, a, m, k));
        m
    }
}

/// The quadrant of `n` that takes `p`, the first in order where `p` lies on
/// a line through the center.
pub open spec fn quadrant_of(n: NodeView, p: Point) -> int {
    (if p.0 <= n.center.0 {
        0int
    } else {
        2int
    }) + (if p.1 <= n.center.1 {
        0int
    } else {
        1int
    })
}

/// The leaf that is reached from node `a` by going down, at each internal
/// node, into the quadrant that takes `p`.
pub open spec fn leaf_for(t: Seq<NodeView>, a: int, p: Point) -> int
    decreases t.len() - a,
{
    if 0 <= a < t.len() && !is_leaf(t[a]) {
        match child_at(t, a, quadrant_of(t[a], p)) {
            Some(c) => leaf_for(t, c, p),
            None => a,
        }
    } else {
        a
    }
}

/// Below every node whose region covers a point lies a leaf whose region
/// covers it.
pub proof fn lemma_leaf_for(t: Seq<NodeView>, a: int, p: Point)
    requires
        0 <= a < t.len(),
        forall|i: int| 0 <= i < t.len() ==> node_ok(t, i),
        covers(t[a], p),
    ensures
        a <= leaf_for(t, a, p) < t.len(),
        desc(t, a, leaf_for(t, a, p)),
        is_leaf(t[leaf_for(t, a, p)]),
        covers(t[leaf_for(t, a, p)], p),
    decreases t.len() - a,
{
    assert(node_ok(t, a));
    if !is_leaf(t[a]) {
        let k = quadrant_of(t[a], p);
        assert(child_ok(t, a, k));
        let c = t[a].children[k] as int;
        assert(child_at(t, a, k) == Some(c));
        lemma_child_region(t, a, k, p);
        assert(in_quadrant(t[a], k, p));
        lemma_leaf_for(t, c, p);
        assert(desc_below(t, a, leaf_for(t, a, p), k));
    }
}

/// The region of the root covers every point.
pub proof fn lemma_root_covers(t: Seq<NodeView>, p: Point)
    requires
        wf(t),
        t.len() > 0,
    ensures
        covers(t[0], p),
{
    assert(node_ok(t, 0));
    lemma_cell_units_root();
}

/// Insertion completeness: in a tree built from a point set, the indices
/// listed at or below the root are, as a set, exactly the indices of the
/// point set.
pub proof fn lemma_collect_is_complete(t: Seq<NodeView>, pts: Seq<Point>)
    requires
        built_from(t, pts),
    ensures
        subtree_points(t, 0).to_set() =~= indices_below(pts.len() as int),
{
    let all = subtree_points(t, 0);
    assert forall|j: usize| all.to_set().contains(j) <==> indices_below(
        pts.len() as int,
    ).contains(j) by {
        if all.contains(j) {
            let m = lemma_subtree_listed(t, 0, j);
            let at = choose|at: int| 0 <= at < own_points(t[m]).len() && own_points(t[m])[at] == j;
            assert(own_points(t[m])[at] < pts.len());
        }
        if j < pts.len() {
            let p = pts[j as int];
            lemma_root_covers(t, p);
            lemma_leaf_for(t, 0, p);
            let m = leaf_for(t, 0, p);
            assert(leaf_lists(t[m], pts, indices_below(pts.len() as int)));
            assert(indices_below(pts.len() as int).contains(j));
            assert(own_points(t[m]).contains(j));
            lemma_listed_below(t, 0, m, j);
        }
    }
}

/// Depth bound: no node of a well-formed tree lies deeper than the greatest
/// depth, and only a leaf at the greatest depth may list more than `MAX`
/// points.
pub proof fn lemma_depth_bounded(t: Seq<NodeView>, i: int)
    requires
        wf(t),
        0 <= i < t.len(),
    ensures
        0 <= t[i].depth <= MAX_DEPTH,
        own_points(t[i]).len() > MAX ==> is_leaf(t[i]) && t[i].depth == MAX_DEPTH,
{
    assert(node_ok(t, i));
}

/// Whether `p` lies in the rectangle of `n` and on none of its borders.
pub open spec fn in_interior(n: NodeView, p: Point) -> bool {
    &&& n.center.0 - n.half_size.0 < p.0 < n.center.0 + n.half_size.0
    &&& n.center.1 - n.half_size.1 < p.1 < n.center.1 + n.half_size.1
}

/// Fanout invariant: an internal node of a well-formed tree has exactly
/// four children. Their rectangles together are the rectangle of the node,
/// and no point lies in the interior of two of them.
pub proof fn lemma_children_partition(t: Seq<NodeView>, a: int, p: Point)
    requires
        wf(t),
        0 <= a < t.len(),
        !is_leaf(t[a]),
    ensures
        t[a].children.len() == 4,
        in_rect(t[a], p) <==> exists|k: int|
            0 <= k < 4 && in_rect(t[#[trigger] t[a].children[k] as int], p),
        forall|j: int, k: int|
            0 <= j < 4 && 0 <= k < 4 && j != k ==> !(in_interior(
                t[#[trigger] t[a].children[j] as int],
                p,
            ) && in_interior(t[#[trigger] t[a].children[k] as int], p)),
{
    assert(node_ok(t, a));
    lemma_child_region(t, a, 0, p);
    lemma_child_region(t, a, 1, p);
    lemma_child_region(t, a, 2, p);
    lemma_child_region(t, a, 3, p);
    assert(child_ok(t, a, 0));
    assert(child_ok(t, a, 1));
    assert(child_ok(t, a, 2));
    assert(child_ok(t, a, 3));
    if in_rect(t[a], p) {
        let k = quadrant_of(t[a], p);
        assert(child_ok(t, a, k));
        assert(in_rect(t[t[a].children[k] as int], p));
    }
}

/// A candidate is a point of the point set together with its squared
/// distance from the query.
pub open spec fn is_candidate(best: Option<(usize, int)>, pts: Seq<Point>, q: Point) -> bool {
    best is Some ==> best.unwrap().0 < pts.len() && best.unwrap().1 == dist2_spec(
        pts[best.unwrap().0 as int],
        q,
    )
}

/// The candidate `found` is at least as near as the candidate `best`.
pub open spec fn no_worse(found: Option<(usize, int)>, best: Option<(usize, int)>) -> bool {
    best is Some ==> found is Some && found.unwrap().1 <= best.unwrap().1
}

/// The candidate `found` is at least as near as every point of the list.
pub open spec fn beats_all(
    found: Option<(usize, int)>,
    list: Seq<usize>,
    pts: Seq<Point>,
    q: Point,
) -> bool {
    &&& list.len() > 0 ==> found is Some
    &&& forall|j: int|
        0 <= j < list.len() ==> found.unwrap().1 <= dist2_spec(pts[(#[trigger] list[j]) as int], q)
}

/// A candidate that is at least as near as every point of two lists is so
/// for the two lists put together.
pub proof fn lemma_beats_concat(
    found: Option<(usize, int)>,
    x: Seq<usize>,
    y: Seq<usize>,
    pts: Seq<Point>,
    q: Point,
)
    requires
        beats_all(found, x, pts, q),
        beats_all(found, y, pts, q),
    ensures
        beats_all(found, x + y, pts, q),
{
    let z = x + y;
    assert forall|j: int| 0 <= j < z.len() implies found.unwrap().1 <= dist2_spec(
        pts[(#[trigger] z[j]) as int],
        q,
    ) by {
        if j < x.len() {
            assert(z[j] == x[j]);
        } else {
            assert(z[j] == y[j - x.len()]);
        }
    }
    assert(beats_all(found, z, pts, q));
}

/// A point of a rectangle is at least as far from the query as the
/// rectangle is.
pub proof fn lemma_box_bound(n: NodeView, p: Point, q: Point)
    requires
        in_rect(n, p),
    ensures
        box_dist2_spec(n.center, n.half_size, q) <= dist2_spec(p, q),
{
    let gx = gap(n.center.0 - n.half_size.0, n.center.0 + n.half_size.0, q.0 as int);
    let gy = gap(n.center.1 - n.half_size.1, n.center.1 + n.half_size.1, q.1 as int);
    let dx = p.0 - q.0;
    let dy = p.1 - q.1;
    assert(gx * gx <= dx * dx) by (nonlinear_arith)
        requires
            0 <= gx,
            gx <= dx || gx <= -dx,
    ;
    assert(gy * gy <= dy * dy) by (nonlinear_arith)
        requires
            0 <= gy,
            gy <= dy || gy <= -dy,
    ;
}

/// After a leaf's list was scanned, the candidate is at least as near as
/// the one before and as every point of the list.
pub proof fn lemma_scan(
    list: Seq<usize>,
    pts: Seq<Point>,
    q: Point,
    best: Option<(usize, int)>,
    n: nat,
)
    requires
        n <= list.len(),
        forall|j: int| 0 <= j < list.len() ==> #[trigger] list[j] < pts.len(),
        is_candidate(best, pts, q),
    ensures
        is_candidate(scan_points(list, pts, q, best, n), pts, q),
        no_worse(scan_points(list, pts, q, best, n), best),
        beats_all(scan_points(list, pts, q, best, n), list.take(n as int), pts, q),
    decreases n,
{
    if n > 0 {
        lemma_scan(list, pts, q, best, (n - 1) as nat);
        let before = scan_points(list, pts, q, best, (n - 1) as nat);
        let found = scan_points(list, pts, q, best, n);
        assert(list[n - 1] < pts.len());
        assert forall|j: int| 0 <= j < n implies found.unwrap().1 <= dist2_spec(
            pts[(#[trigger] list.take(n as int)[j]) as int],
            q,
        ) by {
            if j < n - 1 {
                assert(list.take(n - 1)[j] == list.take(n as int)[j]);
            }
        }
    }
}

/// Every point listed at or below a node lies in the node's rectangle,
/// where the whole point set lies in the rectangle of the root.
pub proof fn lemma_listed_in_rect(t: Seq<NodeView>, pts: Seq<Point>, a: int, j: usize)
    requires
        0 <= a < t.len(),
        forall|i: int| 0 <= i < t.len() ==> node_ok(t, i),
        sound(t, pts, pts.len() as int),
        all_in_domain(pts),
        subtree_points(t, a).contains(j),
    ensures
        j < pts.len(),
        in_rect(t[a], pts[j as int]),
{
    let m = lemma_subtree_listed(t, a, j);
    let at = choose|at: int| 0 <= at < own_points(t[m]).len() && own_points(t[m])[at] == j;
    assert(own_points(t[m])[at] < pts.len());
    assert(covers(t[m], pts[j as int]));
    assert(node_ok(t, m));
    lemma_desc_inside(t, a, m);
}

/// After the search went through a node, the candidate is at least as near
/// as the one before and as every point listed at or below the node.
pub proof fn lemma_nn_search(
    t: Seq<NodeView>,
    a: int,
    q: Point,
    pts: Seq<Point>,
    best: Option<(usize, int)>,
)
    requires
        0 <= a < t.len(),
        forall|i: int| 0 <= i < t.len() ==> node_ok(t, i),
        sound(t, pts, pts.len() as int),
        all_in_domain(pts),
        is_candidate(best, pts, q),
    ensures
        is_candidate(nn_search_spec(t, a, q, pts, best), pts, q),
        no_worse(nn_search_spec(t, a, q, pts, best), best),
        beats_all(nn_search_spec(t, a, q, pts, best), subtree_points(t, a), pts, q),
    decreases t.len() - a, 5nat,
{
    let all = subtree_points(t, a);
    let found = nn_search_spec(t, a, q, pts, best);
    assert(node_ok(t, a));
    if best is Some && box_dist2_spec(t[a].center, t[a].half_size, q) > best.unwrap().1 {
        assert forall|j: int| 0 <= j < all.len() implies found.unwrap().1 <= dist2_spec(
            pts[(#[trigger] all[j]) as int],
            q,
        ) by {
            assert(all.contains(all[j]));
            lemma_listed_in_rect(t, pts, a, all[j]);
            lemma_box_bound(t[a], pts[all[j] as int], q);
        }
        assert(beats_all(found, all, pts, q));
    } else if t[a].points is Some {
        let list = own_points(t[a]);
        assert forall|j: int| 0 <= j < list.len() implies #[trigger] list[j] < pts.len() by {
            assert(own_points(t[a])[j] < pts.len());
        }
        lemma_scan(list, pts, q, best, list.len());
        assert(list.take(list.len() as int) == list);
        assert(child_points(t, a, 0) == Seq::<usize>::empty());
        assert(child_points(t, a, 1) == Seq::<usize>::empty());
        assert(child_points(t, a, 2) == Seq::<usize>::empty());
        assert(child_points(t, a, 3) == Seq::<usize>::empty());
        assert(all =~= list);
        assert(found == scan_points(list, pts, q, best, list.len()));
        assert(beats_all(found, all, pts, q));
    } else {
        lemma_nn_children(t, a, q, pts, best, 4);
        assert(found == nn_children_spec(t, a, q, pts, best, 4));
        let own = own_points(t[a]);
        let c0 = child_points(t, a, 0);
        let c1 = child_points(t, a, 1);
        let c2 = child_points(t, a, 2);
        let c3 = child_points(t, a, 3);
        assert(own =~= Seq::<usize>::empty());
        assert(beats_all(found, own, pts, q));
        assert(beats_all(found, c0, pts, q));
        assert(beats_all(found, c1, pts, q));
        assert(beats_all(found, c2, pts, q));
        assert(beats_all(found, c3, pts, q));
        lemma_beats_concat(found, own, c3, pts, q);
        lemma_beats_concat(found, own + c3, c2, pts, q);
        lemma_beats_concat(found, own + c3 + c2, c1, pts, q);
        lemma_beats_concat(found, own + c3 + c2 + c1, c0, pts, q);
        assert(beats_all(found, all, pts, q));
    }
}

/// After the search went through the first `n` children of a node, the
/// candidate is at least as near as the one before and as every point
/// listed at or below those children.
pub proof fn lemma_nn_children(
    t: Seq<NodeView>,
    a: int,
    q: Point,
    pts: Seq<Point>,
    best: Option<(usize, int)>,
    n: nat,
)
    requires
        0 <= a < t.len(),
        n <= 4,
        forall|i: int| 0 <= i < t.len() ==> node_ok(t, i),
        sound(t, pts, pts.len() as int),
        all_in_domain(pts),
        is_candidate(best, pts, q),
    ensures
        is_candidate(nn_children_spec(t, a, q, pts, best, n), pts, q),
        no_worse(nn_children_spec(t, a, q, pts, best, n), best),
        forall|k: int|
            0 <= k < n ==> beats_all(
                nn_children_spec(t, a, q, pts, best, n),
                #[trigger] child_points(t, a, k),
                pts,
                q,
            ),
    decreases t.len() - a, n,
{
    if n > 0 {
        lemma_nn_children(t, a, q, pts, best, (n - 1) as nat);
        let before = nn_children_spec(t, a, q, pts, best, (n - 1) as nat);
        let found = nn_children_spec(t, a, q, pts, best, n);
        match child_at(t, a, n - 1) {
            Some(c) => {
                lemma_nn_search(t, c, q, pts, before);
            },
            None => {},
        }
        assert forall|k: int| 0 <= k < n implies beats_all(
            found,
            #[trigger] child_points(t, a, k),
            pts,
            q,
        ) by {
            if k < n - 1 {
                assert(beats_all(before, child_points(t, a, k), pts, q));
            }
        }
    }
}

/// Nearest neighbour: in a tree built from a point set that lies in the
/// rectangle of the root, the search finds nothing only where there is no
/// point, and the point it finds is at least as near to the query as every
/// point of the set. (The point set is as long as a vector can be.)
pub proof fn lemma_nearest_is_closest(t: Seq<NodeView>, pts: Seq<Point>, q: Point)
    requires
        built_from(t, pts),
        all_in_domain(pts),
        pts.len() <= usize::MAX,
    ensures
        nearest_spec(t, q, pts) is None <==> pts.len() == 0,
        nearest_spec(t, q, pts) matches Some(i) ==> i < pts.len() && forall|j: int|
            0 <= j < pts.len() ==> dist2_spec(pts[i as int], q) <= dist2_spec(#[trigger] pts[j], q),
{
    let found = nn_search_spec(t, 0, q, pts, None);
    let all = subtree_points(t, 0);
    lemma_nn_search(t, 0, q, pts, None);
    lemma_collect_is_complete(t, pts);
    assert forall|j: int| 0 <= j < pts.len() implies found.unwrap().1 <= dist2_spec(
        #[trigger] pts[j],
        q,
    ) by {
        assert(indices_below(pts.len() as int).contains(j as usize));
        assert(all.to_set().contains(j as usize));
        let at = choose|at: int| 0 <= at < all.len() && all[at] == j as usize;
        assert(all[at] == j as usize);
    }
    if pts.len() > 0 {
        assert(indices_below(pts.len() as int).contains(0usize));
        assert(all.to_set().contains(0usize));
        assert(all.len() > 0);
        assert(found is Some);
    }
    if nearest_spec(t, q, pts) is Some {
        assert(found is Some);
        assert(found.unwrap().0 < pts.len());
    }
}

/// Every index listed at or below a node is an index into the point set,
/// and the region of the node covers its point.
pub proof fn lemma_listed_is_covered(t: Seq<NodeView>, pts: Seq<Point>, a: int, j: usize)
    requires
        0 <= a < t.len(),
        forall|i: int| 0 <= i < t.len() ==> node_ok(t, i),
        sound(t, pts, pts.len() as int),
        subtree_points(t, a).contains(j),
    ensures
        j < pts.len(),
        covers(t[a], pts[j as int]),
{
    let m = lemma_subtree_listed(t, a, j);
    let at = choose|at: int| 0 <= at < own_points(t[m]).len() && own_points(t[m])[at] == j;
    assert(own_points(t[m])[at] < pts.len());
    lemma_covers_shrinks(t, a, m, pts[j as int]);
}

/// Whether `found` lies between what a query must find and what it may
/// find at or below node `a`: it holds every listed index whose point the
/// polygon contains, and besides these only listed indices whose points lie
/// beyond the domain.
pub open spec fn found_between(
    found: Set<usize>,
    t: Seq<NodeView>,
    pts: Seq<Point>,
    a: int,
    polygon: Seq<Point>,
) -> bool {
    &&& forall|i: usize| #[trigger]
        found.contains(i) ==> subtree_points(t, a).contains(i) && (contained(
            pts[i as int],
            polygon,
        ) || !in_domain(pts[i as int]))
    &&& forall|i: usize|
        (#[trigger] subtree_points(t, a).contains(i)) && contained(pts[i as int], polygon)
            ==> found.contains(i)
}

/// A point of the domain that the region of a node covers lies in the
/// node's rectangle.
pub proof fn lemma_covered_in_rect(t: Seq<NodeView>, a: int, p: Point)
    requires
        0 <= a < t.len(),
        node_ok(t, a),
        covers(t[a], p),
        in_domain(p),
    ensures
        in_rect(t[a], p),
{
}

/// The walk loses nothing and finds nothing unlisted: with whatever part it
/// comes to a node, it finds every index listed at or below the node whose
/// point the polygon contains, and besides these only listed indices whose
/// points lie beyond the domain.
pub proof fn lemma_walk(
    t: Seq<NodeView>,
    pts: Seq<Point>,
    a: int,
    part: Seq<Point>,
    polygon: Seq<Point>,
)
    requires
        0 <= a < t.len(),
        forall|i: int| 0 <= i < t.len() ==> node_ok(t, i),
        sound(t, pts, pts.len() as int),
    ensures
        found_between(walk_result(t, pts, a, Some(part), polygon), t, pts, a, polygon),
    decreases t.len() - a,
{
    assert(node_ok(t, a));
    let found = walk_result(t, pts, a, Some(part), polygon);
    let sorted = sorted_vertices(part);
    if takes_whole(t[a], part, polygon) {
        crate::tree_model::lemma_cell_units(t[a].depth);
        let corners = rectangle_corners(t[a]);
        assert forall|i: usize| #[trigger] found.contains(i) implies subtree_points(t, a).contains(
            i,
        ) && (contained(pts[i as int], polygon) || !in_domain(pts[i as int])) by {
            lemma_listed_is_covered(t, pts, a, i);
            if in_domain(pts[i as int]) {
                lemma_covered_in_rect(t, a, pts[i as int]);
                lemma_rectangle_inside(polygon, corners[0], corners[3], pts[i as int]);
            }
        }
    } else if !is_leaf(t[a]) {
        let left = slice_left(Some(sorted), t[a].center.0 as int, 0);
        let right = slice_right(Some(sorted), t[a].center.0 as int, 0);
        let cy = t[a].center.1 as int;
        let cuts = seq![
            slice_left(left, cy, 1),
            slice_right(left, cy, 1),
            slice_left(right, cy, 1),
            slice_right(right, cy, 1),
        ];
        assert(found == walk_child(t, pts, a, 0, cuts[0], sorted, polygon).union(
            walk_child(t, pts, a, 1, cuts[1], sorted, polygon),
        ).union(walk_child(t, pts, a, 2, cuts[2], sorted, polygon)).union(
            walk_child(t, pts, a, 3, cuts[3], sorted, polygon),
        ));
        assert forall|k: int| 0 <= k < 4 implies child_at(t, a, k) == Some(
            t[a].children[k] as int,
        ) && #[trigger] child_points(t, a, k) == subtree_points(t, t[a].children[k] as int) by {
            assert(child_ok(t, a, k));
        }
        assert forall|k: int| 0 <= k < 4 implies {
            let c = t[a].children[k] as int;
            let below = #[trigger] walk_child(t, pts, a, k, cuts[k], sorted, polygon);
            &&& polygon_reaches(t[c], polygon) ==> found_between(below, t, pts, c, polygon)
            &&& found_between(below, t, pts, c, polygon) || below == Set::<usize>::empty()
        } by {
            let c = t[a].children[k] as int;
            assert(child_ok(t, a, k));
            let chosen = chosen_part(cuts[k], sorted, polygon_reaches(t[c], polygon));
            if chosen is Some {
                lemma_walk(t, pts, c, chosen.unwrap(), polygon);
            }
        }
        assert forall|i: usize| #[trigger] found.contains(i) implies subtree_points(t, a).contains(
            i,
        ) && (contained(pts[i as int], polygon) || !in_domain(pts[i as int])) by {
            lemma_subtree_contains(t, a, i);
            let k = if walk_child(t, pts, a, 0, cuts[0], sorted, polygon).contains(i) {
                0int
            } else if walk_child(t, pts, a, 1, cuts[1], sorted, polygon).contains(i) {
                1int
            } else if walk_child(t, pts, a, 2, cuts[2], sorted, polygon).contains(i) {
                2int
            } else {
                3int
            };
            assert(walk_child(t, pts, a, k, cuts[k], sorted, polygon).contains(i));
            assert(child_points(t, a, k).contains(i));
        }
        assert forall|i: usize|
            (#[trigger] subtree_points(t, a).contains(i)) && contained(
                pts[i as int],
                polygon,
            ) implies found.contains(i) by {
            lemma_subtree_contains(t, a, i);
            let k = if child_points(t, a, 0).contains(i) {
                0int
            } else if child_points(t, a, 1).contains(i) {
                1int
            } else if child_points(t, a, 2).contains(i) {
                2int
            } else {
                3int
            };
            assert(child_points(t, a, k).contains(i));
            let c = t[a].children[k] as int;
            assert(subtree_points(t, c).contains(i));
            lemma_listed_is_covered(t, pts, c, i);
            lemma_covered_is_reached(t[c], pts[i as int], polygon);
            assert(walk_child(t, pts, a, k, cuts[k], sorted, polygon).contains(i));
        }
    } else {
        lemma_leaf_subtree(t, a);
    }
}

/// The sorted vertices of a polygon are the vertices of the polygon.
pub proof fn lemma_sorted_same_vertices(polygon: Seq<Point>)
    ensures
        same_vertices(sorted_vertices(polygon), polygon),
        sorted_vertices(polygon).len() == polygon.len(),
{
    broadcast use vstd::seq_lib::group_to_multiset_ensures;

    polygon.lemma_sort_by_ensures(lex_order());
    let sorted = sorted_vertices(polygon);
    assert forall|v: Point| sorted.contains(v) <==> polygon.contains(v) by {
        assert(sorted.to_multiset().count(v) == polygon.to_multiset().count(v));
    }
    assert(sorted.to_multiset().len() == polygon.to_multiset().len());
}

/// A walk that starts at a node with the node's own rectangle finds every
/// index listed at or below the node, wherever the points lie.
pub proof fn lemma_walk_with_corners(
    t: Seq<NodeView>,
    pts: Seq<Point>,
    a: int,
    polygon: Seq<Point>,
)
    requires
        0 <= a < t.len(),
        node_ok(t, a),
        sorted_vertices(polygon) == rectangle_corners(t[a]),
    ensures
        walk_result(t, pts, a, Some(polygon), polygon) =~= subtree_points(t, a).to_set(),
{
    crate::tree_model::lemma_cell_units(t[a].depth);
    let low: Point = (
        (t[a].center.0 - t[a].half_size.0) as i32,
        (t[a].center.1 - t[a].half_size.1) as i32,
    );
    let high: Point = (
        (t[a].center.0 + t[a].half_size.0) as i32,
        (t[a].center.1 + t[a].half_size.1) as i32,
    );
    let corners = rectangle_corners(t[a]);
    assert(corners =~= corners_of(low, high));
    lemma_sorted_same_vertices(polygon);
    assert forall|k: int| 0 <= k < 4 implies contained(#[trigger] corners[k], polygon) by {
        lemma_contained_in_rectangle(low, high, corners[k]);
        lemma_contained_same_vertices(corners[k], polygon, corners_of(low, high));
    }
    assert(holds_corners(polygon, t[a]));
}

/// What the contract of a query states beside the walk: the bounds of the
/// result, the result of a query with the node's own rectangle, and the
/// result over a point set that lies in the domain.
pub proof fn lemma_query(t: Seq<NodeView>, pts: Seq<Point>, a: int, polygon: Seq<Point>)
    requires
        0 <= a < t.len(),
        wf(t),
        sound(t, pts, pts.len() as int),
    ensures
        found_between(query_result(t, pts, a, Some(polygon)), t, pts, a, polygon),
        sorted_vertices(polygon) == rectangle_corners(t[a]) ==> query_result(
            t,
            pts,
            a,
            Some(polygon),
        ) == subtree_points(t, a).to_set(),
        all_in_domain(pts) ==> query_result(t, pts, a, Some(polygon)) == inside_below(
            t,
            pts,
            a,
            polygon,
        ),
{
    assert(node_ok(t, a));
    let found = query_result(t, pts, a, Some(polygon));
    lemma_sorted_same_vertices(polygon);
    if polygon.len() > 0 {
        lemma_walk(t, pts, a, polygon, polygon);
        if sorted_vertices(polygon) == rectangle_corners(t[a]) {
            lemma_walk_with_corners(t, pts, a, polygon);
        }
    }
    if all_in_domain(pts) {
        assert forall|i: usize| found.contains(i) <==> inside_below(t, pts, a, polygon).contains(
            i,
        ) by {
            if subtree_points(t, a).contains(i) {
                lemma_listed_is_covered(t, pts, a, i);
                assert(in_domain(pts[i as int]));
            }
        }
        assert(found =~= inside_below(t, pts, a, polygon));
    }
}

/// At a leaf, what lies at or below the node is what the leaf lists.
pub proof fn lemma_leaf_subtree(t: Seq<NodeView>, a: int)
    requires
        0 <= a < t.len(),
        is_leaf(t[a]),
    ensures
        subtree_points(t, a) =~= own_points(t[a]),
{
    assert(child_points(t, a, 0) == Seq::<usize>::empty());
    assert(child_points(t, a, 1) == Seq::<usize>::empty());
    assert(child_points(t, a, 2) == Seq::<usize>::empty());
    assert(child_points(t, a, 3) == Seq::<usize>::empty());
}

/// The four corners of the rectangle from `low` to `high`, in lexicographic
/// order.
pub open spec fn corners_of(low: Point, high: Point) -> Seq<Point> {
    seq![low, (low.0, high.1), (high.0, low.1), high]
}

/// The containment test agrees with a rectangle: of the four corners of a
/// rectangle that has a width, the polygon contains exactly the points of
/// the rectangle, borders included.
pub proof fn lemma_contained_in_rectangle(low: Point, high: Point, p: Point)
    requires
        low.0 < high.0,
        low.1 <= high.1,
    ensures
        contained(p, corners_of(low, high)) <==> low.0 <= p.0 <= high.0 && low.1 <= p.1 <= high.1,
{
    let vs = corners_of(low, high);
    if low.0 <= p.0 <= high.0 && low.1 <= p.1 <= high.1 {
        let run = high.0 - low.0;
        let up = p.1 - low.1;
        let down = p.1 - high.1;
        assert(0 <= up * run) by (nonlinear_arith)
            requires
                0 <= up,
                0 < run,
        ;
        assert(0 >= down * run) by (nonlinear_arith)
            requires
                down <= 0,
                0 < run,
        ;
        assert((p.0 - low.0) * (low.1 - low.1) == 0) by (nonlinear_arith);
        assert((p.0 - low.0) * (high.1 - high.1) == 0) by (nonlinear_arith);
        assert(passes(vs[2], vs[0], p, true));
        assert(passes(vs[3], vs[1], p, false));
    }
    if contained(p, vs) {
        let (i, j) = choose|i: int, j: int|
            #![trigger vs[i], vs[j]]
            0 <= i < vs.len() && 0 <= j < vs.len() && passes(vs[i], vs[j], p, true);
        let (k, l) = choose|k: int, l: int|
            #![trigger vs[k], vs[l]]
            0 <= k < vs.len() && 0 <= l < vs.len() && passes(vs[k], vs[l], p, false);
        lemma_passes_bounds(vs[i], vs[j], p, true);
        lemma_passes_bounds(vs[k], vs[l], p, false);
    }
}

/// Whether the height `y` lies on the side of the height `level` that is
/// asked for: at or below it (where `below`), or at or above it.
pub open spec fn on_side(y: int, level: int, below: bool) -> bool {
    if below {
        y <= level
    } else {
        y >= level
    }
}

/// A pair that crosses the vertical line through `q` on the side asked for
/// crosses the line through every point straight beyond `q` on the other
/// side as well.
pub proof fn lemma_passes_beyond(a: Point, c: Point, q: Point, p: Point, below: bool)
    requires
        passes(a, c, q, below),
        p.0 == q.0,
        on_side(q.1 as int, p.1 as int, below),
    ensures
        passes(a, c, p, below),
{
    if a.0 != c.0 {
        let run = a.0 - c.0;
        let from = q.1 - c.1;
        let to = p.1 - c.1;
        if below {
            assert(from * run <= to * run) by (nonlinear_arith)
                requires
                    from <= to,
                    run > 0,
            ;
        } else {
            assert(from * run >= to * run) by (nonlinear_arith)
                requires
                    from >= to,
                    run > 0,
            ;
        }
    }
}

/// Two distinct points on the side of a level, one at or right of `x` and
/// one at or left of it, cross the vertical line at `x` on that side of the
/// level.
pub proof fn lemma_both_ends(hi: Point, lo: Point, x: i32, level: i32, below: bool)
    requires
        lo.0 <= x <= hi.0,
        hi != lo,
        on_side(hi.1 as int, level as int, below),
        on_side(lo.1 as int, level as int, below),
    ensures
        passes(hi, lo, (x, level), below),
{
    if hi.0 != lo.0 {
        let run = hi.0 - lo.0;
        let num = x - lo.0;
        let rise = hi.1 - lo.1;
        let up = level - lo.1;
        if below {
            assert(num * rise <= up * run) by (nonlinear_arith)
                requires
                    0 <= num <= run,
                    rise <= up,
                    0 <= up,
            ;
        } else {
            assert(num * rise >= up * run) by (nonlinear_arith)
                requires
                    0 <= num <= run,
                    rise >= up,
                    0 >= up,
            ;
        }
    }
}

/// A pair that crosses the vertical line at `far` on the side of a level,
/// and whose left point lies on that side, crosses every vertical line
/// between its left point and `far` on that side too.
pub proof fn lemma_from_left(a: Point, c: Point, far: i32, x: i32, level: i32, below: bool)
    requires
        passes(a, c, (far, level), below),
        on_side(c.1 as int, level as int, below),
        c.0 <= x <= far,
        c.0 < far,
    ensures
        passes(a, c, (x, level), below),
{
    let run = a.0 - c.0;
    let num = x - c.0;
    let reach = far - c.0;
    let rise = a.1 - c.1;
    let up = level - c.1;
    if below {
        assert(num * rise <= up * run) by (nonlinear_arith)
            requires
                0 <= num <= reach,
                reach <= run,
                0 <= up,
                reach * rise <= up * run,
        ;
    } else {
        assert(num * rise >= up * run) by (nonlinear_arith)
            requires
                0 <= num <= reach,
                reach <= run,
                0 >= up,
                reach * rise >= up * run,
        ;
    }
}

/// A pair that crosses the vertical line at `near` on the side of a level,
/// and whose right point lies on that side, crosses every vertical line
/// between `near` and its right point on that side too.
pub proof fn lemma_from_right(a: Point, c: Point, near: i32, x: i32, level: i32, below: bool)
    requires
        passes(a, c, (near, level), below),
        on_side(a.1 as int, level as int, below),
        near <= x <= a.0,
        near < a.0,
    ensures
        passes(a, c, (x, level), below),
{
    let run = a.0 - c.0;
    let num = x - c.0;
    let reach = near - c.0;
    let rise = a.1 - c.1;
    let up = level - c.1;
    if below {
        assert(num * rise <= up * run) by (nonlinear_arith)
            requires
                0 <= reach <= num,
                num <= run,
                rise <= up,
                reach * rise <= up * run,
        ;
    } else {
        assert(num * rise >= up * run) by (nonlinear_arith)
            requires
                0 <= reach <= num,
                num <= run,
                rise >= up,
                reach * rise >= up * run,
        ;
    }
}

/// Between two vertical lines that pairs of vertices cross on the side of a
/// level, every vertical line is crossed on that side of the level.
pub proof fn lemma_crossing_between(
    vs: Seq<Point>,
    near: i32,
    far: i32,
    x: i32,
    level: i32,
    below: bool,
)
    requires
        has_crossing(vs, (near, level), below),
        has_crossing(vs, (far, level), below),
        near <= x <= far,
    ensures
        has_crossing(vs, (x, level), below),
{
    let l: Point = (near, level);
    let r: Point = (far, level);
    let q: Point = (x, level);
    let (i1, j1) = choose|i: int, j: int|
        #![trigger vs[i], vs[j]]
        0 <= i < vs.len() && 0 <= j < vs.len() && passes(vs[i], vs[j], l, below);
    let (i2, j2) = choose|i: int, j: int|
        #![trigger vs[i], vs[j]]
        0 <= i < vs.len() && 0 <= j < vs.len() && passes(vs[i], vs[j], r, below);
    let a1 = vs[i1];
    let c1 = vs[j1];
    let a2 = vs[i2];
    let c2 = vs[j2];
    lemma_passes_bounds(a1, c1, l, below);
    lemma_passes_bounds(a2, c2, r, below);
    if x == near {
        assert(passes(vs[i1], vs[j1], q, below));
    } else if x == far {
        assert(passes(vs[i2], vs[j2], q, below));
    } else if on_side(c2.1 as int, level as int, below) && c2.0 < x {
        lemma_from_left(a2, c2, far, x, level, below);
        assert(passes(vs[i2], vs[j2], q, below));
    } else {
        let right = if on_side(c2.1 as int, level as int, below) {
            j2
        } else {
            i2
        };
        assert(on_side(vs[right].1 as int, level as int, below));
        assert(vs[right].0 >= x);
        if on_side(a1.1 as int, level as int, below) {
            if a1.0 >= x {
                lemma_from_right(a1, c1, near, x, level, below);
                assert(passes(vs[i1], vs[j1], q, below));
            } else {
                lemma_both_ends(vs[right], a1, x, level, below);
                assert(passes(vs[right], vs[i1], q, below));
            }
        } else {
            lemma_both_ends(vs[right], c1, x, level, below);
            assert(passes(vs[right], vs[j1], q, below));
        }
    }
}

/// A polygon that contains the four corners of a rectangle contains every
/// point of the rectangle, borders included.
pub proof fn lemma_rectangle_inside(vs: Seq<Point>, low: Point, high: Point, p: Point)
    requires
        contained(low, vs),
        contained((low.0, high.1), vs),
        contained((high.0, low.1), vs),
        contained(high, vs),
        low.0 <= p.0 <= high.0,
        low.1 <= p.1 <= high.1,
    ensures
        contained(p, vs),
{
    lemma_crossing_between(vs, low.0, high.0, p.0, low.1, true);
    lemma_crossing_between(vs, low.0, high.0, p.0, high.1, false);
    let (i, j) = choose|i: int, j: int|
        #![trigger vs[i], vs[j]]
        0 <= i < vs.len() && 0 <= j < vs.len() && passes(vs[i], vs[j], (p.0, low.1), true);
    lemma_passes_beyond(vs[i], vs[j], (p.0, low.1), p, true);
    let (k, l) = choose|k: int, l: int|
        #![trigger vs[k], vs[l]]
        0 <= k < vs.len() && 0 <= l < vs.len() && passes(vs[k], vs[l], (p.0, high.1), false);
    lemma_passes_beyond(vs[k], vs[l], (p.0, high.1), p, false);
}


/// The indices of a list whose points lie in the rectangle from `low` to
/// `high`, borders included.
pub open spec fn listed_in_rectangle(
    list: Seq<usize>,
    pts: Seq<Point>,
    low: Point,
    high: Point,
) -> Set<usize> {
    Set::new(
        |i: usize|
            list.contains(i) && low.0 <= pts[i as int].0 <= high.0 && low.1 <= pts[i as int].1
                <= high.1,
    )
}

/// Two lists hold the same vertices.
pub open spec fn same_vertices(first: Seq<Point>, second: Seq<Point>) -> bool {
    forall|v: Point| first.contains(v) <==> second.contains(v)
}

/// The four corners of a node's rectangle stand in lexicographic order.
pub proof fn lemma_corners_sorted(t: Seq<NodeView>, a: int)
    requires
        0 <= a < t.len(),
        node_ok(t, a),
    ensures
        sorted_by(rectangle_corners(t[a]), lex_order()),
{
    crate::tree_model::lemma_cell_units(t[a].depth);
    let corners = rectangle_corners(t[a]);
    let r = lex_order();
    assert forall|x: int, y: int| 0 <= x < y < corners.len() implies r(corners[x], corners[y]) by {
        assert(lex_leq(corners[x], corners[y]));
    }
}

/// Query with a rectangle: where the point set lies in the domain, a
/// polygon whose vertices are the four corners of a rectangle that has a
/// width, in any order, finds exactly the points listed at or below the node
/// that lie in the rectangle, borders included.
pub proof fn lemma_query_with_rectangle(
    t: Seq<NodeView>,
    pts: Seq<Point>,
    a: int,
    low: Point,
    high: Point,
    polygon: Seq<Point>,
)
    requires
        0 <= a < t.len(),
        wf(t),
        sound(t, pts, pts.len() as int),
        all_in_domain(pts),
        low.0 < high.0,
        low.1 <= high.1,
        same_vertices(polygon, corners_of(low, high)),
    ensures
        query_result(t, pts, a, Some(polygon)) =~= listed_in_rectangle(
            subtree_points(t, a),
            pts,
            low,
            high,
        ),
{
    lemma_query(t, pts, a, polygon);
    let list = subtree_points(t, a);
    assert forall|i: usize|
        inside_below(t, pts, a, polygon).contains(i) <==> listed_in_rectangle(
            list,
            pts,
            low,
            high,
        ).contains(i) by {
        lemma_contained_same_vertices(pts[i as int], polygon, corners_of(low, high));
        lemma_contained_in_rectangle(low, high, pts[i as int]);
    }
}

/// Query with a node's own rectangle: a polygon whose vertices are the four
/// corners of a node's rectangle, in any order, finds every index listed at
/// or below the node, wherever the points lie.
pub proof fn lemma_query_with_node_corners(
    t: Seq<NodeView>,
    pts: Seq<Point>,
    a: int,
    polygon: Seq<Point>,
)
    requires
        0 <= a < t.len(),
        node_ok(t, a),
        polygon.to_multiset() == rectangle_corners(t[a]).to_multiset(),
    ensures
        query_result(t, pts, a, Some(polygon)) =~= subtree_points(t, a).to_set(),
{
    lemma_corners_sorted(t, a);
    lemma_sorted_is_sort(polygon, rectangle_corners(t[a]));
    lemma_sorted_same_vertices(polygon);
    assert(rectangle_corners(t[a]).len() == 4);
    lemma_walk_with_corners(t, pts, a, polygon);
}

/// Query with the root's own rectangle: in a tree built from a point set, a
/// polygon whose vertices are the four corners of the root's rectangle, in
/// any order, finds the index of every point, wherever the points lie.
pub proof fn lemma_query_with_root_corners(t: Seq<NodeView>, pts: Seq<Point>, polygon: Seq<Point>)
    requires
        built_from(t, pts),
        polygon.to_multiset() == rectangle_corners(t[0]).to_multiset(),
    ensures
        query_result(t, pts, 0, Some(polygon)) =~= indices_below(pts.len() as int),
{
    assert(node_ok(t, 0));
    lemma_query_with_node_corners(t, pts, 0, polygon);
    lemma_collect_is_complete(t, pts);
}

/// Query with a polygon around all points: in a tree built from a point
/// set, a polygon that contains every point of the set finds the index of
/// every point.
pub proof fn lemma_query_around_all(t: Seq<NodeView>, pts: Seq<Point>, polygon: Seq<Point>)
    requires
        built_from(t, pts),
        forall|i: int| 0 <= i < pts.len() ==> contained(#[trigger] pts[i], polygon),
    ensures
        query_result(t, pts, 0, Some(polygon)) =~= indices_below(pts.len() as int),
{
    lemma_collect_is_complete(t, pts);
    lemma_query(t, pts, 0, polygon);
    assert forall|i: usize|
        query_result(t, pts, 0, Some(polygon)).contains(i) <==> indices_below(
            pts.len() as int,
        ).contains(i) by {
        if i < pts.len() {
            assert(subtree_points(t, 0).to_set().contains(i));
            assert(contained(pts[i as int], polygon));
        }
        if subtree_points(t, 0).contains(i) {
            assert(subtree_points(t, 0).to_set().contains(i));
        }
    }
}

/// Query with a polygon apart from the domain: in a tree whose point set
/// lies in the domain, a polygon that contains no point of the domain finds
/// nothing, at whatever node the query starts.
pub proof fn lemma_query_apart(t: Seq<NodeView>, pts: Seq<Point>, a: int, polygon: Seq<Point>)
    requires
        0 <= a < t.len(),
        wf(t),
        sound(t, pts, pts.len() as int),
        all_in_domain(pts),
        forall|p: Point| in_domain(p) ==> !contained(p, polygon),
    ensures
        query_result(t, pts, a, Some(polygon)) =~= Set::<usize>::empty(),
{
    lemma_query(t, pts, a, polygon);
    assert forall|i: usize| !query_result(t, pts, a, Some(polygon)).contains(i) by {
        if subtree_points(t, a).contains(i) {
            lemma_listed_is_covered(t, pts, a, i);
            assert(in_domain(pts[i as int]));
        }
    }
}

/// A polygon whose vertices all lie strictly beyond the same border line of
/// the domain is apart from the domain: it contains none of its points.
pub proof fn lemma_beside_is_apart(polygon: Seq<Point>, p: Point)
    requires
        beside_domain(polygon),
        in_domain(p),
    ensures
        !contained(p, polygon),
{
    let (side, positive) = choose|side: usize, positive: bool|
        side < 2 && #[trigger] all_beyond(polygon, side, positive);
    lemma_beyond_not_contained(p, polygon, side, positive);
}

/// Idempotence: two answers to the same query of the same tree are the
/// same.
pub proof fn lemma_query_repeats(
    t: Seq<NodeView>,
    pts: Seq<Point>,
    a: int,
    polygon: Option<Seq<Point>>,
    first: Set<usize>,
    second: Set<usize>,
)
    requires
        first == query_result(t, pts, a, polygon),
        second == query_result(t, pts, a, polygon),
    ensures
        first == second,
{
}

/// No index is found that is not listed, and none whose point lies in the
/// domain without the polygon containing it.
pub proof fn lemma_query_finds_inside_only(
    t: Seq<NodeView>,
    pts: Seq<Point>,
    a: int,
    polygon: Seq<Point>,
    i: usize,
)
    requires
        0 <= a < t.len(),
        wf(t),
        sound(t, pts, pts.len() as int),
        query_result(t, pts, a, Some(polygon)).contains(i),
    ensures
        subtree_points(t, a).contains(i),
        in_domain(pts[i as int]) ==> contained(pts[i as int], polygon),
{
    lemma_query(t, pts, a, polygon);
}

/// Every index that is listed at or below the node and whose point the
/// polygon contains is found.
pub proof fn lemma_query_loses_nothing(
    t: Seq<NodeView>,
    pts: Seq<Point>,
    a: int,
    polygon: Seq<Point>,
    i: usize,
)
    requires
        0 <= a < t.len(),
        wf(t),
        sound(t, pts, pts.len() as int),
        subtree_points(t, a).contains(i),
        contained(pts[i as int], polygon),
    ensures
        query_result(t, pts, a, Some(polygon)).contains(i),
{
    lemma_query(t, pts, a, polygon);
}

/// Whether an index occurs at most once in a list.
pub open spec fn at_most_once(list: Seq<usize>, i: usize) -> bool {
    forall|x: int, y: int| 0 <= x < y < list.len() ==> !(list[x] == i && list[y] == i)
}

/// Whether a point lies on a split line at or below node `a`: on one of the
/// two lines through the center of an internal node there.
pub open spec fn on_split_line(t: Seq<NodeView>, a: int, p: Point) -> bool {
    exists|m: int|
        0 <= m < t.len() && #[trigger] desc(t, a, m) && !is_leaf(t[m]) && (p.0 == t[m].center.0
            || p.1 == t[m].center.1)
}

/// An index occurs at most once in two lists put together where it occurs
/// at most once in one of them and not at all in the other.
pub proof fn lemma_once_concat(x: Seq<usize>, y: Seq<usize>, i: usize)
    requires
        at_most_once(x, i),
        at_most_once(y, i),
        !x.contains(i) || !y.contains(i),
    ensures
        at_most_once(x + y, i),
        (x + y).contains(i) <==> x.contains(i) || y.contains(i),
{
    lemma_concat_contains(x, y, i);
    let z = x + y;
    assert forall|u: int, v: int| 0 <= u < v < z.len() implies !(z[u] == i && z[v] == i) by {
        if z[u] == i && z[v] == i {
            if v < x.len() {
                assert(x[u] == i && x[v] == i);
            } else if u >= x.len() {
                assert(y[u - x.len()] == i && y[v - x.len()] == i);
            } else {
                assert(x[u] == i);
                assert(y[v - x.len()] == i);
            }
        }
    }
}

/// Repeats in a collected list: an index whose point lies on no split line
/// at or below a node occurs at most once among the indices listed there.
/// Only a point on a split line is listed by more than one leaf.
pub proof fn lemma_repeats_on_split_lines(t: Seq<NodeView>, pts: Seq<Point>, a: int, i: usize)
    requires
        0 <= a < t.len(),
        forall|m: int| 0 <= m < t.len() ==> node_ok(t, m),
        sound(t, pts, pts.len() as int),
        i < pts.len() ==> !on_split_line(t, a, pts[i as int]),
    ensures
        at_most_once(subtree_points(t, a), i),
    decreases t.len() - a,
{
    assert(node_ok(t, a));
    let all = subtree_points(t, a);
    if !all.contains(i) {
        assert forall|x: int, y: int| 0 <= x < y < all.len() implies !(all[x] == i && all[y]
            == i) by {
            if all[x] == i {
                assert(all.contains(i));
            }
        }
    } else if is_leaf(t[a]) {
        lemma_leaf_subtree(t, a);
    } else {
        lemma_listed_is_covered(t, pts, a, i);
        let p = pts[i as int];
        assert(desc(t, a, a));
        assert(p.0 != t[a].center.0 && p.1 != t[a].center.1);
        let q = quadrant_of(t[a], p);
        let own = own_points(t[a]);
        assert(own =~= Seq::<usize>::empty());
        assert forall|k: int| 0 <= k < 4 implies at_most_once(#[trigger] child_points(t, a, k), i)
            && (k != q ==> !child_points(t, a, k).contains(i)) by {
            assert(child_ok(t, a, k));
            let c = t[a].children[k] as int;
            assert(child_at(t, a, k) == Some(c));
            assert(child_points(t, a, k) == subtree_points(t, c));
            lemma_child_region(t, a, k, p);
            if subtree_points(t, c).contains(i) {
                lemma_listed_is_covered(t, pts, c, i);
                assert(in_quadrant(t[a], k, p));
                assert(k == q);
            }
            assert(!on_split_line(t, c, p)) by {
                if on_split_line(t, c, p) {
                    let m = choose|m: int|
                        0 <= m < t.len() && #[trigger] desc(t, c, m) && !is_leaf(t[m]) && (p.0
                            == t[m].center.0 || p.1 == t[m].center.1);
                    assert(desc_below(t, a, m, k));
                    assert(desc(t, a, m));
                }
            }
            lemma_repeats_on_split_lines(t, pts, c, i);
        }
        let c0 = child_points(t, a, 0);
        let c1 = child_points(t, a, 1);
        let c2 = child_points(t, a, 2);
        let c3 = child_points(t, a, 3);
        assert(at_most_once(c0, i) && at_most_once(c1, i) && at_most_once(c2, i) && at_most_once(
            c3,
            i,
        ));
        assert(at_most_once(own, i));
        lemma_once_concat(own, c3, i);
        lemma_once_concat(own + c3, c2, i);
        lemma_once_concat(own + c3 + c2, c1, i);
        lemma_once_concat(own + c3 + c2 + c1, c0, i);
    }
}

/// In a tree built from a point set, the index of a point that lies on no
/// split line is collected exactly once.
pub proof fn lemma_collected_once(t: Seq<NodeView>, pts: Seq<Point>, i: usize)
    requires
        built_from(t, pts),
        i < pts.len(),
        !on_split_line(t, 0, pts[i as int]),
    ensures
        subtree_points(t, 0).contains(i),
        at_most_once(subtree_points(t, 0), i),
{
    lemma_collect_is_complete(t, pts);
    assert(indices_below(pts.len() as int).contains(i));
    assert(subtree_points(t, 0).to_set().contains(i));
    lemma_repeats_on_split_lines(t, pts, 0, i);
}

/// Edges included: a point on the segment between two vertices of a polygon
/// is contained in the polygon.
pub proof fn lemma_edge_is_contained(polygon: Seq<Point>, i: int, j: int, p: Point)
    requires
        0 <= i < polygon.len(),
        0 <= j < polygon.len(),
        polygon[i] != polygon[j],
        polygon[j].0 <= p.0 <= polygon[i].0,
        (p.0 - polygon[j].0) * (polygon[i].1 - polygon[j].1) == (p.1 - polygon[j].1) * (
        polygon[i].0 - polygon[j].0),
        polygon[i].0 == polygon[j].0 ==> polygon[j].1 <= p.1 <= polygon[i].1 || polygon[i].1 <= p.1
            <= polygon[j].1,
    ensures
        contained(p, polygon),
{
    let a = polygon[i];
    let b = polygon[j];
    if a.0 == b.0 {
        if b.1 <= p.1 <= a.1 {
            assert(passes(polygon[i], polygon[j], p, true));
            assert(passes(polygon[j], polygon[i], p, false));
        } else {
            assert(passes(polygon[j], polygon[i], p, true));
            assert(passes(polygon[i], polygon[j], p, false));
        }
    } else {
        assert(passes(polygon[i], polygon[j], p, true));
        assert(passes(polygon[i], polygon[j], p, false));
    }
}

/// Vertices included: a polygon with two different vertices contains each
/// of its vertices.
pub proof fn lemma_vertex_is_contained(polygon: Seq<Point>, i: int, j: int)
    requires
        0 <= i < polygon.len(),
        0 <= j < polygon.len(),
        polygon[i] != polygon[j],
    ensures
        contained(polygon[i], polygon),
{
    let v = polygon[i];
    let w = polygon[j];
    if w.0 <= v.0 {
        assert((v.0 - w.0) * (v.1 - w.1) == (v.1 - w.1) * (v.0 - w.0)) by (nonlinear_arith);
        if w.0 == v.0 {
            assert(passes(polygon[j], polygon[i], v, true));
            assert(passes(polygon[j], polygon[i], v, false));
        } else {
            lemma_edge_is_contained(polygon, i, j, v);
        }
    } else {
        assert((v.0 - v.0) * (w.1 - v.1) == (v.1 - v.1) * (w.0 - v.0)) by (nonlinear_arith);
        lemma_edge_is_contained(polygon, j, i, v);
    }
}

/// More vertices, no less inside: a polygon contains what a polygon with
/// some of its vertices contains.
pub proof fn lemma_contained_grows(p: Point, fewer: Seq<Point>, more: Seq<Point>)
    requires
        forall|v: Point| fewer.contains(v) ==> more.contains(v),
        contained(p, fewer),
    ensures
        contained(p, more),
{
    lemma_crossing_same_vertices(p, fewer, more, true);
    lemma_crossing_same_vertices(p, fewer, more, false);
}

} // verus!
