//! What a polygon query over the quadtree returns: the walk that cuts the
//! polygon per quadrant, takes a node whole where the part cut for it is the
//! node's own rectangle, passes over the quadrants that the polygon cannot
//! reach, and tests the points of the leaves it comes to.

use vstd::prelude::*;
use vstd::relations::{sorted_by, total_ordering};
use vstd::seq_lib::lemma_sorted_unique;
use crate::slicing_tools::{
    contained, coord, has_crossing, is_extent, lemma_passes_bounds, passes, Point, slice_left,
    slice_right,
};
use crate::tree_model::{
    child_at, covers, is_leaf, NodeView, own_points, ROOT_HALF_HEIGHT, ROOT_HALF_WIDTH,
    subtree_points,
};

verus! {

/// The lexicographic order on points: by `x`, then by `y`.
pub open spec fn lex_leq(a: Point, b: Point) -> bool {
    a.0 < b.0 || (a.0 == b.0 && a.1 <= b.1)
}

/// The lexicographic order as a relation.
pub open spec fn lex_order() -> spec_fn(Point, Point) -> bool {
    |a: Point, b: Point| lex_leq(a, b)
}

/// The vertices of a polygon in lexicographic order.
pub open spec fn sorted_vertices(polygon: Seq<Point>) -> Seq<Point> {
    polygon.sort_by(lex_order())
}

/// The four corners of a node's rectangle, in lexicographic order:
/// bottom-left, top-left, bottom-right, top-right.
pub open spec fn rectangle_corners(n: NodeView) -> Seq<Point> {
    seq![
        ((n.center.0 - n.half_size.0) as i32, (n.center.1 - n.half_size.1) as i32),
        ((n.center.0 - n.half_size.0) as i32, (n.center.1 + n.half_size.1) as i32),
        ((n.center.0 + n.half_size.0) as i32, (n.center.1 - n.half_size.1) as i32),
        ((n.center.0 + n.half_size.0) as i32, (n.center.1 + n.half_size.1) as i32),
    ]
}

/// The indices of a list whose points the polygon contains.
pub open spec fn listed_inside(list: Seq<usize>, pts: Seq<Point>, polygon: Seq<Point>) -> Set<
    usize,
> {
    Set::new(|i: usize| list.contains(i) && contained(pts[i as int], polygon))
}

/// The indices listed at or below node `a` whose points the polygon
/// contains.
pub open spec fn inside_below(
    t: Seq<NodeView>,
    pts: Seq<Point>,
    a: int,
    polygon: Seq<Point>,
) -> Set<usize> {
    listed_inside(subtree_points(t, a), pts, polygon)
}

/// Whether the polygon contains the four corners of a node's rectangle.
pub open spec fn holds_corners(polygon: Seq<Point>, n: NodeView) -> bool {
    &&& contained(rectangle_corners(n)[0], polygon)
    &&& contained(rectangle_corners(n)[1], polygon)
    &&& contained(rectangle_corners(n)[2], polygon)
    &&& contained(rectangle_corners(n)[3], polygon)
}

/// Whether a walk that comes to node `n` with `part` takes the node whole:
/// the sorted vertices of the part are the four corners of the node's
/// rectangle, and the polygon contains the four.
///
/// A polygon that is the rectangle itself contains them. A part of a larger
/// polygon that is the rectangle although the polygon lacks a corner can
/// only come from a cut that was rounded; such a node is searched like any
/// other.
pub open spec fn takes_whole(n: NodeView, part: Seq<Point>, polygon: Seq<Point>) -> bool {
    sorted_vertices(part) == rectangle_corners(n) && holds_corners(polygon, n)
}

/// Whether the polygon reaches into the region of node `n`: on every side of
/// the node's rectangle that does not lie on the border of the domain, some
/// vertex lies on the rectangle's side of the line through it.
pub open spec fn polygon_reaches(n: NodeView, polygon: Seq<Point>) -> bool {
    &&& n.center.0 - n.half_size.0 == -ROOT_HALF_WIDTH || exists|i: int|
        0 <= i < polygon.len() && n.center.0 - n.half_size.0 <= coord(#[trigger] polygon[i], 0)
    &&& n.center.0 + n.half_size.0 == ROOT_HALF_WIDTH || exists|i: int|
        0 <= i < polygon.len() && coord(#[trigger] polygon[i], 0) <= n.center.0 + n.half_size.0
    &&& n.center.1 - n.half_size.1 == -ROOT_HALF_HEIGHT || exists|i: int|
        0 <= i < polygon.len() && n.center.1 - n.half_size.1 <= coord(#[trigger] polygon[i], 1)
    &&& n.center.1 + n.half_size.1 == ROOT_HALF_HEIGHT || exists|i: int|
        0 <= i < polygon.len() && coord(#[trigger] polygon[i], 1) <= n.center.1 + n.half_size.1
}

/// The part of the polygon with which a child is searched: its own part of
/// the cut; or, where the cut gave it none although the polygon reaches
/// into its region, the uncut part; or none.
pub open spec fn chosen_part(cut: Option<Seq<Point>>, uncut: Seq<Point>, reached: bool) -> Option<
    Seq<Point>,
> {
    match cut {
        Some(vertices) => Some(vertices),
        None => if reached {
            Some(uncut)
        } else {
            None
        },
    }
}

/// What the walk finds at or below node `a` with `part`, the part of
/// `polygon` that was cut for the node.
///
/// Without a part nothing is found. Where the node is taken whole, every
/// index listed at or below it is found, untested, and the part is cut no
/// further. At any other internal node
/// the sorted part is cut at the node's center, first along `x` and then each
/// half along `y`, and each child is searched with the part in its quadrant.
/// At a leaf, the listed indices whose points `polygon` contains.
pub open spec fn walk_result(
    t: Seq<NodeView>,
    pts: Seq<Point>,
    a: int,
    part: Option<Seq<Point>>,
    polygon: Seq<Point>,
) -> Set<usize>
    decreases t.len() - a, 1int,
{
    if !(0 <= a < t.len()) || part is None {
        Set::empty()
    } else {
        let sorted = sorted_vertices(part.unwrap());
        if takes_whole(t[a], part.unwrap(), polygon) {
            subtree_points(t, a).to_set()
        } else if !is_leaf(t[a]) {
            let left = slice_left(Some(sorted), t[a].center.0 as int, 0);
            let right = slice_right(Some(sorted), t[a].center.0 as int, 0);
            let cy = t[a].center.1 as int;
            walk_child(t, pts, a, 0, slice_left(left, cy, 1), sorted, polygon).union(
                walk_child(t, pts, a, 1, slice_right(left, cy, 1), sorted, polygon),
            ).union(walk_child(t, pts, a, 2, slice_left(right, cy, 1), sorted, polygon)).union(
                walk_child(t, pts, a, 3, slice_right(right, cy, 1), sorted, polygon),
            )
        } else {
            listed_inside(own_points(t[a]), pts, polygon)
        }
    }
}

/// What the walk finds at or below the `k`-th child of node `a`, where
/// `cut` is the child's part of the cut of `uncut`.
pub open spec fn walk_child(
    t: Seq<NodeView>,
    pts: Seq<Point>,
    a: int,
    k: int,
    cut: Option<Seq<Point>>,
    uncut: Seq<Point>,
    polygon: Seq<Point>,
) -> Set<usize>
    decreases t.len() - a, 0int,
{
    match child_at(t, a, k) {
        Some(c) => walk_result(
            t,
            pts,
            c,
            chosen_part(cut, uncut, polygon_reaches(t[c], polygon)),
            polygon,
        ),
        None => Set::empty(),
    }
}

/// The result of a polygon query at node `a`: nothing without a polygon or
/// with one that has no vertex, and otherwise what the walk finds that
/// starts at the node with the whole polygon.
pub open spec fn query_result(
    t: Seq<NodeView>,
    pts: Seq<Point>,
    a: int,
    polygon: Option<Seq<Point>>,
) -> Set<usize> {
    match polygon {
        Some(vertices) => if vertices.len() == 0 {
            Set::empty()
        } else {
            walk_result(t, pts, a, Some(vertices), vertices)
        },
        None => Set::empty(),
    }
}

/// Whether `low` and `high` are the least and the greatest corner of the
/// bounding box of the vertices.
pub open spec fn is_box(polygon: Seq<Point>, low: Point, high: Point) -> bool {
    &&& is_extent(polygon, 0, low.0 as int, high.0 as int)
    &&& is_extent(polygon, 1, low.1 as int, high.1 as int)
}

/// Whether the box from `low` to `high` reaches into the region of node `n`:
/// the node's rectangle, without bound on every side that lies on the border
/// of the domain.
pub open spec fn box_reaches(n: NodeView, low: Point, high: Point) -> bool {
    &&& n.center.0 - n.half_size.0 <= high.0 || n.center.0 - n.half_size.0 == -ROOT_HALF_WIDTH
    &&& low.0 <= n.center.0 + n.half_size.0 || n.center.0 + n.half_size.0 == ROOT_HALF_WIDTH
    &&& n.center.1 - n.half_size.1 <= high.1 || n.center.1 - n.half_size.1 == -ROOT_HALF_HEIGHT
    &&& low.1 <= n.center.1 + n.half_size.1 || n.center.1 + n.half_size.1 == ROOT_HALF_HEIGHT
}

/// The lexicographic order is a total order.
pub proof fn lemma_lex_total()
    ensures
        total_ordering(lex_order()),
{
    let r = lex_order();
    assert forall|x: Point, y: Point| #[trigger] r(x, y) && #[trigger] r(y, x) implies x == y by {}
}

/// A sequence in lexicographic order with the same entries as `polygon` is
/// the sorted vertex list of `polygon`.
pub proof fn lemma_sorted_is_sort(polygon: Seq<Point>, sorted: Seq<Point>)
    requires
        sorted_by(sorted, lex_order()),
        sorted.to_multiset() == polygon.to_multiset(),
    ensures
        sorted == sorted_vertices(polygon),
{
    lemma_lex_total();
    polygon.lemma_sort_by_ensures(lex_order());
    lemma_sorted_unique(sorted, polygon.sort_by(lex_order()), lex_order());
}

/// Whether `a` comes before `b`, or is `b`, in lexicographic order.
pub fn lex_before(a: Point, b: Point) -> (r: bool)
    ensures
        r == lex_leq(a, b),
{
    a.0 < b.0 || (a.0 == b.0 && a.1 <= b.1)
}

/// Sorts the vertices of a polygon into lexicographic order.
pub fn sort_points(points: &mut Vec<Point>)
    ensures
        final(points)@ == sorted_vertices(old(points)@),
{
    broadcast use vstd::seq_lib::group_to_multiset_ensures;

    let mut sorted: Vec<Point> = Vec::new();
    let mut i: usize = 0;
    while i < points.len()
        invariant
            i <= points@.len(),
            points@ == old(points)@,
            sorted_by(sorted@, lex_order()),
            sorted@.to_multiset() == points@.take(i as int).to_multiset(),
            sorted@.len() == i,
        decreases points.len() - i,
    {
        let p = points[i];
        let mut pos: usize = 0;
        while pos < sorted.len() && lex_before(sorted[pos], p)
            invariant
                pos <= sorted@.len(),
                forall|j: int| 0 <= j < pos ==> lex_leq(#[trigger] sorted@[j], p),
            decreases sorted.len() - pos,
        {
            pos += 1;
        }
        let ghost before = sorted@;
        sorted.insert(pos, p);
        proof {
            let after = sorted@;
            assert(after == before.insert(pos as int, p));
            assert(points@.take(i as int + 1) == points@.take(i as int).push(p));
            vstd::seq_lib::to_multiset_insert(before, pos as int, p);
            vstd::seq_lib::to_multiset_build(points@.take(i as int), p);
            assert(after.to_multiset() == points@.take(i as int + 1).to_multiset());
            let r = lex_order();
            assert forall|a: int, b: int| 0 <= a < b < after.len() implies r(
                after[a],
                after[b],
            ) by {
                if b < pos {
                    assert(r(before[a], before[b]));
                } else if b == pos {
                    assert(lex_leq(before[a], p));
                } else if a < pos {
                    assert(r(before[a], before[b - 1]));
                } else if a == pos {
                    assert(r(before[pos as int], before[b - 1]));
                    assert(!lex_leq(before[pos as int], p));
                } else {
                    assert(r(before[a - 1], before[b - 1]));
                }
            }
        }
        i += 1;
    }
    proof {
        assert(points@.take(points@.len() as int) == points@);
        lemma_sorted_is_sort(points@, sorted@);
    }
    *points = sorted;
}

/// Whether two vertex lists are the same, entry by entry.
pub fn same_points(a: &Vec<Point>, b: &Vec<Point>) -> (same: bool)
    ensures
        same == (a@ == b@),
{
    if a.len() != b.len() {
        return false;
    }
    let mut i: usize = 0;
    while i < a.len()
        invariant
            i <= a@.len(),
            a@.len() == b@.len(),
            forall|j: int| 0 <= j < i ==> a@[j] == b@[j],
        decreases a.len() - i,
    {
        if a[i].0 != b[i].0 || a[i].1 != b[i].1 {
            return false;
        }
        i += 1;
    }
    assert(a@ =~= b@);
    true
}

/// How far the domain reaches from the origin along an axis.
pub open spec fn domain_bound(axis: usize) -> int {
    if axis == 0 {
        ROOT_HALF_WIDTH as int
    } else {
        ROOT_HALF_HEIGHT as int
    }
}

/// Whether a point of the lattice lies in the domain, the rectangle of the
/// root.
pub open spec fn in_domain(p: Point) -> bool {
    &&& -ROOT_HALF_WIDTH <= p.0 <= ROOT_HALF_WIDTH
    &&& -ROOT_HALF_HEIGHT <= p.1 <= ROOT_HALF_HEIGHT
}

/// Every point of the point set lies in the domain.
pub open spec fn all_in_domain(pts: Seq<Point>) -> bool {
    forall|i: int| 0 <= i < pts.len() ==> in_domain(#[trigger] pts[i])
}

/// Whether `p` lies strictly beyond the domain along `axis`: above it where
/// `positive`, below it otherwise.
pub open spec fn beyond(p: Point, axis: usize, positive: bool) -> bool {
    if positive {
        coord(p, axis) > domain_bound(axis)
    } else {
        coord(p, axis) < -domain_bound(axis)
    }
}

/// Every vertex lies strictly beyond the domain on the same side.
pub open spec fn all_beyond(polygon: Seq<Point>, axis: usize, positive: bool) -> bool {
    forall|i: int| 0 <= i < polygon.len() ==> beyond(#[trigger] polygon[i], axis, positive)
}

/// The polygon lies beside the domain: all its vertices lie strictly beyond
/// one and the same of the four border lines of the domain.
pub open spec fn beside_domain(polygon: Seq<Point>) -> bool {
    exists|axis: usize, positive: bool| axis < 2 && #[trigger] all_beyond(polygon, axis, positive)
}

/// A point that a polygon contains and that the region of a node covers
/// shows that the polygon reaches into the region.
pub proof fn lemma_covered_is_reached(n: NodeView, p: Point, polygon: Seq<Point>)
    requires
        contained(p, polygon),
        covers(n, p),
    ensures
        polygon_reaches(n, polygon),
{
    let (i, j) = choose|i: int, j: int|
        #![trigger polygon[i], polygon[j]]
        0 <= i < polygon.len() && 0 <= j < polygon.len() && passes(
            polygon[i],
            polygon[j],
            p,
            true,
        );
    let (k, l) = choose|k: int, l: int|
        #![trigger polygon[k], polygon[l]]
        0 <= k < polygon.len() && 0 <= l < polygon.len() && passes(
            polygon[k],
            polygon[l],
            p,
            false,
        );
    lemma_passes_bounds(polygon[i], polygon[j], p, true);
    lemma_passes_bounds(polygon[k], polygon[l], p, false);
    assert(coord(polygon[i], 0) >= p.0);
    assert(coord(polygon[j], 0) <= p.0);
    assert(coord(polygon[i], 1) <= p.1 || coord(polygon[j], 1) <= p.1);
    assert(coord(polygon[k], 1) >= p.1 || coord(polygon[l], 1) >= p.1);
}

/// The polygon reaches into the region of a node exactly if the bounding
/// box of its vertices does.
pub proof fn lemma_box_reaches(n: NodeView, polygon: Seq<Point>, low: Point, high: Point)
    requires
        is_box(polygon, low, high),
    ensures
        box_reaches(n, low, high) == polygon_reaches(n, polygon),
{
    let at_low_x = choose|i: int| 0 <= i < polygon.len() && coord(#[trigger] polygon[i], 0) == low.0;
    let at_high_x = choose|i: int|
        0 <= i < polygon.len() && coord(#[trigger] polygon[i], 0) == high.0;
    let at_low_y = choose|i: int| 0 <= i < polygon.len() && coord(#[trigger] polygon[i], 1) == low.1;
    let at_high_y = choose|i: int|
        0 <= i < polygon.len() && coord(#[trigger] polygon[i], 1) == high.1;
    assert(coord(polygon[at_low_x], 0) == low.0);
    assert(coord(polygon[at_high_x], 0) == high.0);
    assert(coord(polygon[at_low_y], 1) == low.1);
    assert(coord(polygon[at_high_y], 1) == high.1);
}

/// Containment depends on the vertices only, not on their order or on how
/// often each is listed.
pub proof fn lemma_contained_same_vertices(p: Point, first: Seq<Point>, second: Seq<Point>)
    requires
        forall|v: Point| first.contains(v) <==> second.contains(v),
    ensures
        contained(p, first) == contained(p, second),
{
    if has_crossing(first, p, true) {
        lemma_crossing_same_vertices(p, first, second, true);
    }
    if has_crossing(first, p, false) {
        lemma_crossing_same_vertices(p, first, second, false);
    }
    if has_crossing(second, p, true) {
        lemma_crossing_same_vertices(p, second, first, true);
    }
    if has_crossing(second, p, false) {
        lemma_crossing_same_vertices(p, second, first, false);
    }
}

/// A crossing among the vertices of one list is a crossing among those of
/// another list with the same vertices.
pub proof fn lemma_crossing_same_vertices(
    p: Point,
    first: Seq<Point>,
    second: Seq<Point>,
    below: bool,
)
    requires
        forall|v: Point| first.contains(v) ==> second.contains(v),
        has_crossing(first, p, below),
    ensures
        has_crossing(second, p, below),
{
    let (i, j) = choose|i: int, j: int|
        #![trigger first[i], first[j]]
        0 <= i < first.len() && 0 <= j < first.len() && passes(first[i], first[j], p, below);
    assert(first.contains(first[i]));
    assert(first.contains(first[j]));
    let k = choose|k: int| 0 <= k < second.len() && second[k] == first[i];
    let l = choose|l: int| 0 <= l < second.len() && second[l] == first[j];
    assert(passes(second[k], second[l], p, below));
}

/// A polygon whose vertices all lie strictly beyond the same border line of
/// the domain contains no point of the domain.
pub proof fn lemma_beyond_not_contained(
    p: Point,
    polygon: Seq<Point>,
    side: usize,
    positive: bool,
)
    requires
        side < 2,
        all_beyond(polygon, side, positive),
        in_domain(p),
    ensures
        !contained(p, polygon),
{
    if contained(p, polygon) {
        let (i, j) = choose|i: int, j: int|
            #![trigger polygon[i], polygon[j]]
            0 <= i < polygon.len() && 0 <= j < polygon.len() && passes(
                polygon[i],
                polygon[j],
                p,
                true,
            );
        let (k, l) = choose|k: int, l: int|
            #![trigger polygon[k], polygon[l]]
            0 <= k < polygon.len() && 0 <= l < polygon.len() && passes(
                polygon[k],
                polygon[l],
                p,
                false,
            );
        lemma_passes_bounds(polygon[i], polygon[j], p, true);
        lemma_passes_bounds(polygon[k], polygon[l], p, false);
        assert(beyond(polygon[i], side, positive) && beyond(polygon[j], side, positive));
        assert(beyond(polygon[k], side, positive) && beyond(polygon[l], side, positive));
    }
}

} // verus!
