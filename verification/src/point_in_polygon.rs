//! Picking from a list of points those that lie inside a polygon, which
//! need not be convex.

use vstd::prelude::*;
use vstd::string::*;
use geo::Contains;
use crate::slicing_tools::{close_ring, close_ring_spec, is_extent, Point, polygon_extents};

verus! {

/// Whether the `geo` crate finds the point strictly inside the polygon with
/// the given exterior ring: in it and not on its boundary.
pub uninterp spec fn polygon_contains(ring: Seq<Point>, point: Point) -> bool;

/// The test that keeps the points inside the polygon with the given ring.
pub open spec fn inside_polygon(ring: Seq<Point>) -> spec_fn(Point) -> bool {
    |p: Point| polygon_contains(ring, p)
}

/// Whether `p` lies in the rectangle from `low` to `high`, borders included.
pub open spec fn in_bounds(low: Point, high: Point, p: Point) -> bool {
    low.0 <= p.0 <= high.0 && low.1 <= p.1 <= high.1
}

/// The test that keeps the points that lie in the rectangle from `low` to
/// `high` and inside the polygon with the given ring.
pub open spec fn inside_bounds_and_polygon(low: Point, high: Point, ring: Seq<Point>) -> spec_fn(
    Point,
) -> bool {
    |p: Point| in_bounds(low, high, p) && polygon_contains(ring, p)
}

/// Whether `low` and `high` are the least and the greatest corner of the
/// bounding box of a list of points.
pub open spec fn is_bounds(points: Seq<Point>, low: Point, high: Point) -> bool {
    &&& is_extent(points, 0, low.0 as int, high.0 as int)
    &&& is_extent(points, 1, low.1 as int, high.1 as int)
}

/// A polygon without vertices has no bounding box.
#[derive(Debug)]
pub struct EmptyPolygonError;

impl EmptyPolygonError {
    /// The text of the error.
    pub fn message(&self) -> (text: String)
        ensures
            text@ == "Polygon has no points, cannot compute bounding box."@,
    {
        String::from_str("Polygon has no points, cannot compute bounding box.")
    }
}

/// Calls `geo`'s `Contains::contains` on the polygon whose exterior is
/// `ring` (on `i128`, so that no product of coordinate differences can
/// overflow) and the point.
///
/// Trusted: the result is a function of the ring and the point alone, named
/// `polygon_contains`. Nothing else is claimed of it here.
#[verifier::external_body]
fn ring_contains(ring: &Vec<Point>, point: Point) -> (inside: bool)
    ensures
        inside == polygon_contains(ring@, point),
{
    let coords: Vec<geo::Coord<i128>> =
        ring.iter().map(|p| geo::Coord { x: p.0 as i128, y: p.1 as i128 }).collect();
    let polygon = geo::Polygon::new(geo::LineString::new(coords), Vec::new());
    polygon.contains(&geo::Coord { x: point.0 as i128, y: point.1 as i128 })
}

/// Closes a list of vertices into a ring: the first vertex is repeated at
/// the end unless the list is empty or already ends with it.
pub fn close_polygon(points: Vec<Point>) -> (closed: Vec<Point>)
    ensures
        closed@ == close_ring_spec(points@),
{
    close_ring(&points)
}

/// The least and the greatest corner of the bounding box of a list of
/// points, or `None` for an empty list.
pub fn find_bounds(points: &Vec<Point>) -> (bounds: Option<(Point, Point)>)
    ensures
        bounds is None <==> points@.len() == 0,
        bounds matches Some(b) ==> is_bounds(points@, b.0, b.1),
{
    let xs = polygon_extents(points, 0);
    let ys = polygon_extents(points, 1);
    match (xs, ys) {
        (Some((min_x, max_x)), Some((min_y, max_y))) => Some(((min_x, min_y), (max_x, max_y))),
        _ => None,
    }
}

/// The points that lie strictly inside the polygon, in their order.
pub fn extract_point_in_poly(points: Vec<Point>, poly: Vec<Point>) -> (inside: Vec<Point>)
    ensures
        inside@ == points@.filter(inside_polygon(close_ring_spec(poly@))),
{
    let ring = close_polygon(poly);
    let ghost keep = inside_polygon(ring@);
    let mut inside: Vec<Point> = Vec::new();
    let mut i: usize = 0;
    while i < points.len()
        invariant
            i <= points@.len(),
            keep == inside_polygon(ring@),
            inside@ == points@.take(i as int).filter(keep),
        decreases points.len() - i,
    {
        let p = points[i];
        proof {
            reveal(Seq::filter);
            assert(points@.take(i as int + 1).drop_last() == points@.take(i as int));
            assert(points@.take(i as int + 1).last() == p);
        }
        if ring_contains(&ring, p) {
            inside.push(p);
        }
        i += 1;
    }
    assert(points@.take(points@.len() as int) == points@);
    inside
}

/// The points that lie in the bounding box of the polygon and strictly
/// inside the polygon, in their order; an error for a polygon without
/// vertices.
pub fn extract_point_in_poly_bbox(points: Vec<Point>, poly: Vec<Point>) -> (res: Result<
    Vec<Point>,
    EmptyPolygonError,
>)
    ensures
        res is Err <==> poly@.len() == 0,
        res matches Ok(inside) ==> exists|low: Point, high: Point|
            is_bounds(poly@, low, high) && inside@ == points@.filter(
                inside_bounds_and_polygon(low, high, close_ring_spec(poly@)),
            ),
{
    let (low, high) = match find_bounds(&poly) {
        Some(b) => b,
        None => {
            return Err(EmptyPolygonError);
        },
    };
    let ghost vertices = poly@;
    let ring = close_polygon(poly);
    let ghost keep = inside_bounds_and_polygon(low, high, ring@);
    let mut inside: Vec<Point> = Vec::new();
    let mut i: usize = 0;
    while i < points.len()
        invariant
            i <= points@.len(),
            keep == inside_bounds_and_polygon(low, high, ring@),
            inside@ == points@.take(i as int).filter(keep),
        decreases points.len() - i,
    {
        let p = points[i];
        proof {
            reveal(Seq::filter);
            assert(points@.take(i as int + 1).drop_last() == points@.take(i as int));
            assert(points@.take(i as int + 1).last() == p);
        }
        let in_box = low.0 <= p.0 && p.0 <= high.0 && low.1 <= p.1 && p.1 <= high.1;
        if in_box && ring_contains(&ring, p) {
            inside.push(p);
        }
        i += 1;
    }
    assert(points@.take(points@.len() as int) == points@);
    assert(is_bounds(vertices, low, high));
    Ok(inside)
}

} // verus!
