use polytope_quadtree::point_in_polygon::{
    close_polygon, extract_point_in_poly, extract_point_in_poly_bbox, find_bounds,
    EmptyPolygonError,
};
use polytope_quadtree::quadtree_mod::QuadTree;
use polytope_quadtree::tree_model::UNITS_PER_DEGREE;
use std::collections::HashSet;

fn deg(x: i32, y: i32) -> (i32, i32) {
    (x * UNITS_PER_DEGREE, y * UNITS_PER_DEGREE)
}

#[test]
fn closing_a_polygon() {
    assert_eq!(
        close_polygon(vec![(0, 0), (4, 0), (0, 4)]),
        vec![(0, 0), (4, 0), (0, 4), (0, 0)]
    );
    assert_eq!(close_polygon(vec![(0, 0), (4, 0), (0, 0)]), vec![(0, 0), (4, 0), (0, 0)]);
    assert_eq!(close_polygon(Vec::new()), Vec::<(i32, i32)>::new());
}

#[test]
fn bounds_of_points() {
    assert_eq!(find_bounds(&vec![(3, -2), (-7, 4), (1, 9)]), Some(((-7, -2), (3, 9))));
    assert_eq!(find_bounds(&vec![(5, 5)]), Some(((5, 5), (5, 5))));
    assert_eq!(find_bounds(&Vec::new()), None);
}

#[test]
fn points_strictly_inside_a_square_are_picked() {
    let square = vec![(0, 0), (10, 0), (10, 10), (0, 10)];
    let points = vec![(5, 5), (0, 0), (10, 5), (11, 5), (1, 9), (5, 0), (-1, -1), (9, 9)];
    assert_eq!(
        extract_point_in_poly(points, square),
        vec![(5, 5), (1, 9), (9, 9)]
    );
}

#[test]
fn points_inside_a_polygon_that_is_not_convex() {
    let shape = vec![(0, 0), (10, 0), (10, 10), (5, 2), (0, 10)];
    let points = vec![(5, 1), (5, 5), (1, 5), (9, 5), (5, 3)];
    assert_eq!(
        extract_point_in_poly(points, shape),
        vec![(5, 1), (1, 5), (9, 5)]
    );
}

#[test]
fn no_point_is_inside_an_empty_polygon() {
    assert_eq!(
        extract_point_in_poly(vec![(0, 0), (1, 1)], Vec::new()),
        Vec::<(i32, i32)>::new()
    );
    assert_eq!(
        extract_point_in_poly(Vec::new(), vec![(0, 0), (4, 0), (0, 4)]),
        Vec::<(i32, i32)>::new()
    );
}

#[test]
fn picking_with_the_bounding_box_first_gives_the_same() {
    let triangle = vec![(0, 0), (10, 0), (0, 10)];
    let points = vec![(1, 1), (6, 6), (4, 4), (20, 1), (-3, 2), (2, 7), (9, 1)];
    let plain = extract_point_in_poly(points.clone(), triangle.clone());
    let boxed = extract_point_in_poly_bbox(points, triangle).unwrap();
    assert_eq!(plain, vec![(1, 1), (4, 4), (2, 7)]);
    assert_eq!(boxed, plain);
}

#[test]
fn picking_far_apart_points_does_not_overflow() {
    let low = i32::MIN;
    let high = i32::MAX;
    let square = vec![(low, low), (high, low), (high, high), (low, high)];
    let points = vec![(0, 0), (low, 0), (high - 1, low + 1)];
    assert_eq!(
        extract_point_in_poly(points, square),
        vec![(0, 0), (high - 1, low + 1)]
    );
}

#[test]
fn a_polygon_without_points_has_no_bounding_box() {
    let res = extract_point_in_poly_bbox(vec![(1, 1)], Vec::new());
    match res {
        Err(error) => {
            let EmptyPolygonError = error;
            assert_eq!(
                EmptyPolygonError.message(),
                "Polygon has no points, cannot compute bounding box."
            );
        }
        Ok(_) => panic!("a polygon without points must be refused"),
    }
}

#[test]
fn a_node_takes_some_bytes() {
    let mut tree = QuadTree::new();
    let word = std::mem::size_of::<usize>();
    let own = std::mem::size_of::<QuadTree>();
    assert_eq!(tree.sizeof(), Some(own));
    tree.build_point_tree(vec![deg(1, 1), deg(2, 2)]);
    let small = tree.sizeof().unwrap();
    assert!(small > own + 2 * word);
    let mut other = QuadTree::new();
    other.build_point_tree(vec![deg(1, 1), deg(2, 2), deg(3, 3)]);
    assert_eq!(other.sizeof().unwrap(), small + word);
    let mut split = QuadTree::new();
    split.build_point_tree(vec![deg(1, 1), deg(-2, 2), deg(3, -3), deg(-4, -4)]);
    // five nodes, each counted with room in the arena and by itself; four
    // children and four listed points
    assert_eq!(split.sizeof().unwrap(), own + 5 * (small - own - 2 * word) + 8 * word);
}

#[test]
fn polygons_beyond_each_border_find_nothing() {
    let points = vec![deg(179, 89), deg(-179, -89), deg(180, 90), deg(-180, -90), deg(0, 0)];
    let mut tree = QuadTree::new();
    tree.build_point_tree(points.clone());
    let beyond = [
        vec![deg(181, -95), deg(181, 95), deg(500, 0)],
        vec![deg(-181, -95), deg(-181, 95), deg(-500, 0)],
        vec![deg(-300, 91), deg(300, 91), deg(0, 200)],
        vec![deg(-300, -91), deg(300, -91), deg(0, -200)],
    ];
    for polygon in beyond {
        let found = tree.query_polygon(points.clone(), 0, Some(polygon)).unwrap();
        assert_eq!(found, HashSet::new());
    }
}
