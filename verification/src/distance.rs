//! Squared distances on the lattice, and what the nearest-neighbour search
//! over the quadtree returns.

use vstd::prelude::*;
use crate::slicing_tools::Point;
use crate::tree_model::{child_at, NodeView, own_points};

verus! {

/// The squared Euclidean distance between two points.
pub open spec fn dist2_spec(a: Point, b: Point) -> int {
    (a.0 - b.0) * (a.0 - b.0) + (a.1 - b.1) * (a.1 - b.1)
}

/// How far `v` lies outside the interval from `lo` to `hi`: zero inside it.
pub open spec fn gap(lo: int, hi: int, v: int) -> int {
    if v < lo {
        lo - v
    } else if v > hi {
        v - hi
    } else {
        0
    }
}

/// The squared distance from `point` to the rectangle with the given center
/// and half-size: zero when the point lies in the rectangle.
pub open spec fn box_dist2_spec(center: Point, size: Point, point: Point) -> int {
    let dx = gap(center.0 - size.0, center.0 + size.0, point.0 as int);
    let dy = gap(center.1 - size.1, center.1 + size.1, point.1 as int);
    dx * dx + dy * dy
}

/// The best candidate so far, as plain values: a point index and its
/// squared distance from the query.
pub open spec fn best_view(best: Option<(usize, u128)>) -> Option<(usize, int)> {
    match best {
        Some(b) => Some((b.0, b.1 as int)),
        None => None,
    }
}

/// The best candidate after the first `n` entries of a leaf's list were
/// compared with `best`: an entry replaces the candidate only when it is
/// strictly nearer.
pub open spec fn scan_points(
    list: Seq<usize>,
    pts: Seq<Point>,
    q: Point,
    best: Option<(usize, int)>,
    n: nat,
) -> Option<(usize, int)>
    decreases n,
{
    if n == 0 {
        best
    } else {
        let before = scan_points(list, pts, q, best, (n - 1) as nat);
        let i = list[n - 1];
        let d = dist2_spec(pts[i as int], q);
        match before {
            Some(b) => if d < b.1 {
                Some((i, d))
            } else {
                before
            },
            None => Some((i, d)),
        }
    }
}

/// The best candidate after the search went through node `a`.
///
/// A node whose rectangle lies farther from the query than the candidate is
/// passed over. A leaf compares every point it lists. An internal node lets
/// the search go through its children, in order.
pub open spec fn nn_search_spec(
    t: Seq<NodeView>,
    a: int,
    q: Point,
    pts: Seq<Point>,
    best: Option<(usize, int)>,
) -> Option<(usize, int)>
    decreases t.len() - a, 5nat,
{
    if !(0 <= a < t.len()) {
        best
    } else if best is Some && box_dist2_spec(t[a].center, t[a].half_size, q) > best.unwrap().1 {
        best
    } else if t[a].points is Some {
        scan_points(own_points(t[a]), pts, q, best, own_points(t[a]).len())
    } else {
        nn_children_spec(t, a, q, pts, best, 4)
    }
}

/// The best candidate after the search went through the first `n` children
/// of node `a`.
pub open spec fn nn_children_spec(
    t: Seq<NodeView>,
    a: int,
    q: Point,
    pts: Seq<Point>,
    best: Option<(usize, int)>,
    n: nat,
) -> Option<(usize, int)>
    decreases t.len() - a, (if n <= 4 { n } else { 4 }),
{
    if n == 0 || n > 4 {
        best
    } else {
        let before = nn_children_spec(t, a, q, pts, best, (n - 1) as nat);
        match child_at(t, a, n - 1) {
            Some(c) => nn_search_spec(t, c, q, pts, before),
            None => before,
        }
    }
}

/// The index of the stored point nearest to `q`, or `None` where the search
/// meets no point.
pub open spec fn nearest_spec(t: Seq<NodeView>, q: Point, pts: Seq<Point>) -> Option<usize> {
    if t.len() == 0 {
        None
    } else {
        match nn_search_spec(t, 0, q, pts, None) {
            Some(b) => Some(b.0),
            None => None,
        }
    }
}

/// The squared Euclidean distance between two points.
pub fn dist2(a: Point, b: Point) -> (d: u128)
    ensures
        d == dist2_spec(a, b),
{
    let dx: i128 = a.0 as i128 - b.0 as i128;
    let dy: i128 = a.1 as i128 - b.1 as i128;
    assert(0 <= dx * dx <= 0x1_0000_0000 * 0x1_0000_0000) by (nonlinear_arith)
        requires
            -0x1_0000_0000 <= dx <= 0x1_0000_0000,
    ;
    assert(0 <= dy * dy <= 0x1_0000_0000 * 0x1_0000_0000) by (nonlinear_arith)
        requires
            -0x1_0000_0000 <= dy <= 0x1_0000_0000,
    ;
    (dx * dx + dy * dy) as u128
}

/// How far `v` lies outside the interval from `lo` to `hi`.
fn gap_of(lo: i64, hi: i64, v: i32) -> (g: i128)
    requires
        -0x1_0000_0000 <= lo <= 0x1_0000_0000,
        -0x1_0000_0000 <= hi <= 0x1_0000_0000,
    ensures
        g == gap(lo as int, hi as int, v as int),
        -0x2_0000_0000 <= g <= 0x2_0000_0000,
{
    if (v as i64) < lo {
        lo as i128 - v as i128
    } else if (v as i64) > hi {
        v as i128 - hi as i128
    } else {
        0
    }
}

/// The squared distance from a point to a rectangle given by its center and
/// its half-size: zero when the point lies in the rectangle.
pub fn box_dist2(center: Point, size: Point, point: Point) -> (d: u128)
    ensures
        d == box_dist2_spec(center, size, point),
{
    let min_x: i64 = center.0 as i64 - size.0 as i64;
    let max_x: i64 = center.0 as i64 + size.0 as i64;
    let min_y: i64 = center.1 as i64 - size.1 as i64;
    let max_y: i64 = center.1 as i64 + size.1 as i64;
    let dx = gap_of(min_x, max_x, point.0);
    let dy = gap_of(min_y, max_y, point.1);
    assert(0 <= dx * dx <= 0x2_0000_0000 * 0x2_0000_0000) by (nonlinear_arith)
        requires
            -0x2_0000_0000 <= dx <= 0x2_0000_0000,
    ;
    assert(0 <= dy * dy <= 0x2_0000_0000 * 0x2_0000_0000) by (nonlinear_arith)
        requires
            -0x2_0000_0000 <= dy <= 0x2_0000_0000,
    ;
    (dx * dx + dy * dy) as u128
}

} // verus!
