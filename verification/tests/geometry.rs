use polytope_quadtree::distance::{box_dist2, dist2};
use polytope_quadtree::query_model::{lex_before, same_points, sort_points};
use polytope_quadtree::slicing_tools::{
    axis_value, close_ring, copy_points, find_intersects, find_qhull_points2, find_qhull_points3,
    is_contained_in, lerp, lerp_up, polygon_extents, polygon_of_ring, slice_in_two, QhullError,
};

fn sorted(mut points: Vec<(i32, i32)>) -> Vec<(i32, i32)> {
    points.sort();
    points
}

#[test]
fn axis_value_picks_the_coordinate() {
    assert_eq!(axis_value((3, 7), 0), 3);
    assert_eq!(axis_value((3, 7), 1), 7);
}

#[test]
fn lerp_rounds_down() {
    assert_eq!(lerp((3, 1), (0, 0), 1, 3), (1, 0));
    assert_eq!(lerp((3, 1), (0, 0), 2, 3), (2, 0));
    assert_eq!(lerp((3, 1), (0, 0), 3, 3), (3, 1));
    assert_eq!(lerp((3, -1), (0, 0), 1, 3), (1, -1));
    assert_eq!(lerp((3, -1), (0, 0), 0, 3), (0, 0));
    assert_eq!(lerp((10, 20), (0, 0), 1, 2), (5, 10));
    assert_eq!(lerp((0, 0), (10, 7), 1, 2), (5, 3));
}

#[test]
fn lerp_spans_the_whole_lattice() {
    let low = i32::MIN;
    let high = i32::MAX;
    assert_eq!(lerp((high, high), (low, low), 1, 1), (high, high));
    assert_eq!(lerp((high, low), (low, high), 0, 5), (low, high));
    assert_eq!(lerp((high, low), (low, high), 1, 2), (-1, -1));
}

#[test]
fn intersects_of_a_square_with_a_vertical_line() {
    let square = vec![(0, 0), (0, 20), (20, 20), (20, 0)];
    assert_eq!(
        find_intersects(&square, 0, 10),
        vec![(10, 10), (10, 20), (10, 0), (10, 10)]
    );
}

#[test]
fn intersects_of_a_square_with_a_horizontal_line() {
    let square = vec![(0, 0), (0, 20), (20, 20), (20, 0)];
    assert_eq!(
        find_intersects(&square, 1, 5),
        vec![(0, 5), (15, 5), (5, 5), (20, 5)]
    );
}

#[test]
fn intersects_with_a_line_through_vertices() {
    let square = vec![(0, 0), (0, 20), (20, 20), (20, 0)];
    assert_eq!(
        find_intersects(&square, 0, 0),
        vec![(0, 20), (0, 0), (0, 0), (0, 20), (0, 0), (0, 20)]
    );
}

#[test]
fn a_crossing_between_two_lattice_points_is_taken_at_both() {
    // the segment from (-4, 0) to (4, 3) crosses x = 0 at height 1.5
    assert_eq!(find_intersects(&[(-4, 0), (4, 3)], 0, 0), vec![(0, 1), (0, 2)]);
    // and the line y = 1 at x = -1.33
    assert_eq!(find_intersects(&[(-4, 0), (4, 3)], 1, 1), vec![(-2, 1), (-1, 1)]);
    // downwards: from (-4, 0) to (4, -3), height -1.5
    assert_eq!(find_intersects(&[(-4, 0), (4, -3)], 0, 0), vec![(0, -2), (0, -1)]);
}

#[test]
fn lerp_up_rounds_up() {
    assert_eq!(lerp_up((3, 1), (0, 0), 1, 3), (1, 1));
    assert_eq!(lerp_up((3, 1), (0, 0), 0, 3), (0, 0));
    assert_eq!(lerp_up((3, 1), (0, 0), 3, 3), (3, 1));
    assert_eq!(lerp_up((3, -1), (0, 0), 1, 3), (1, 0));
    assert_eq!(lerp_up((10, 20), (0, 0), 1, 2), (5, 10));
    assert_eq!(lerp_up((0, 0), (10, 7), 1, 2), (5, 4));
    let low = i32::MIN;
    let high = i32::MAX;
    assert_eq!(lerp_up((high, low), (low, high), 1, 2), (0, 0));
    assert_eq!(lerp_up((high, high), (low, low), 1, 1), (high, high));
}

#[test]
fn intersects_with_a_line_that_misses() {
    let square = vec![(0, 0), (0, 20), (20, 20), (20, 0)];
    assert_eq!(find_intersects(&square, 0, 30), Vec::<(i32, i32)>::new());
    assert_eq!(find_intersects(&square, 1, -1), Vec::<(i32, i32)>::new());
    assert_eq!(find_intersects(&[], 0, 0), Vec::<(i32, i32)>::new());
}

#[test]
fn intersects_skip_a_vertex_paired_with_itself() {
    assert_eq!(find_intersects(&[(5, 5)], 0, 5), Vec::<(i32, i32)>::new());
    assert_eq!(find_intersects(&[(5, 5), (5, 5)], 0, 5), Vec::<(i32, i32)>::new());
    assert_eq!(find_intersects(&[(5, 5), (5, 9)], 0, 5), vec![(5, 9), (5, 5)]);
}

#[test]
fn extents_of_a_polygon() {
    let polygon = vec![(4, -2), (-3, 9), (7, 1)];
    assert_eq!(polygon_extents(&polygon, 0), Some((-3, 7)));
    assert_eq!(polygon_extents(&polygon, 1), Some((-2, 9)));
    assert_eq!(polygon_extents(&Vec::new(), 0), None);
    assert_eq!(polygon_extents(&vec![(1, 2)], 1), Some((2, 2)));
}

#[test]
fn containment_in_a_square() {
    let square = [(0, 0), (0, 20), (20, 20), (20, 0)];
    assert!(is_contained_in((10, 10), &square));
    assert!(is_contained_in((0, 0), &square));
    assert!(is_contained_in((20, 20), &square));
    assert!(is_contained_in((10, 0), &square));
    assert!(is_contained_in((0, 7), &square));
    assert!(!is_contained_in((10, 21), &square));
    assert!(!is_contained_in((10, -1), &square));
    assert!(!is_contained_in((21, 10), &square));
    assert!(!is_contained_in((-1, 10), &square));
}

#[test]
fn containment_in_a_triangle() {
    let triangle = [(0, 0), (8, 0), (0, 8)];
    assert!(is_contained_in((2, 6), &triangle));
    assert!(!is_contained_in((2, 7), &triangle));
    assert!(is_contained_in((4, 4), &triangle));
    assert!(!is_contained_in((5, 4), &triangle));
    assert!(is_contained_in((8, 0), &triangle));
}

#[test]
fn containment_is_exact_under_a_slanted_rim() {
    // the rim from (-4, 0) to (4, -3) passes x = -1 at height -1.125
    let triangle = [(-4, 0), (4, -3), (0, 10)];
    assert!(!is_contained_in((-1, -2), &triangle));
    assert!(is_contained_in((-1, -1), &triangle));
    assert!(is_contained_in((-4, 0), &triangle));
    assert!(is_contained_in((4, -3), &triangle));
    assert!(!is_contained_in((0, -2), &triangle));
    assert!(is_contained_in((0, -1), &triangle));
    // the rim from (-4, 0) to (4, 3) passes x = -1 at height 1.125
    let other = [(-4, 0), (4, 3), (0, -10)];
    assert!(is_contained_in((-1, 1), &other));
    assert!(!is_contained_in((-1, 2), &other));
}

#[test]
fn containment_does_not_depend_on_the_order_of_the_vertices() {
    let orders = [
        [(0, 0), (8, 0), (0, 8)],
        [(8, 0), (0, 8), (0, 0)],
        [(0, 8), (0, 0), (8, 0)],
        [(0, 0), (0, 8), (8, 0)],
    ];
    for triangle in orders {
        assert!(is_contained_in((3, 5), &triangle));
        assert!(!is_contained_in((3, 6), &triangle));
        assert!(is_contained_in((1, 1), &triangle));
        assert!(!is_contained_in((-1, 1), &triangle));
    }
}

#[test]
fn containment_over_the_whole_lattice_does_not_overflow() {
    let low = i32::MIN;
    let high = i32::MAX;
    let triangle = [(low, low), (high, low), (low, high)];
    assert!(is_contained_in((0, -1), &triangle));
    assert!(!is_contained_in((0, 0), &triangle));
    assert!(is_contained_in((low, high), &triangle));
    assert!(!is_contained_in((high, high), &triangle));
}

#[test]
fn nothing_is_contained_in_less_than_a_segment() {
    assert!(!is_contained_in((0, 0), &[]));
    assert!(!is_contained_in((5, 5), &[(5, 5)]));
    assert!(is_contained_in((5, 6), &[(5, 5), (5, 9)]));
    assert!(!is_contained_in((5, 4), &[(5, 5), (5, 9)]));
}

#[test]
fn close_ring_repeats_the_first_vertex_once() {
    assert_eq!(close_ring(&vec![(0, 0), (1, 0), (1, 1)]), vec![(0, 0), (1, 0), (1, 1), (0, 0)]);
    assert_eq!(close_ring(&vec![(0, 0), (1, 0), (0, 0)]), vec![(0, 0), (1, 0), (0, 0)]);
    assert_eq!(close_ring(&vec![(4, 2)]), vec![(4, 2)]);
    assert_eq!(close_ring(&Vec::new()), Vec::<(i32, i32)>::new());
}

#[test]
fn copy_points_copies() {
    assert_eq!(copy_points(&vec![(1, 2), (3, 4)]), vec![(1, 2), (3, 4)]);
}

#[test]
fn hull_drops_points_inside_and_on_edges() {
    let points = vec![(0, 0), (5, 5), (10, 0), (5, 0), (10, 10), (0, 10), (3, 7)];
    let hull = find_qhull_points2(&points).unwrap();
    assert_eq!(hull.len(), 4);
    assert_eq!(sorted(hull), vec![(0, 0), (0, 10), (10, 0), (10, 10)]);
}

#[test]
fn hull_of_a_triangle_is_the_triangle() {
    let hull = find_qhull_points2(&vec![(0, 0), (4, 0), (0, 4)]).unwrap();
    assert_eq!(sorted(hull), vec![(0, 0), (0, 4), (4, 0)]);
}

#[test]
fn hull_goes_round_counter_clockwise() {
    let hull = find_qhull_points2(&vec![(0, 0), (0, 4), (4, 4), (4, 0), (2, 2)]).unwrap();
    assert_eq!(hull.len(), 4);
    let mut twice_area: i64 = 0;
    for i in 0..hull.len() {
        let a = hull[i];
        let b = hull[(i + 1) % hull.len()];
        twice_area += a.0 as i64 * b.1 as i64 - b.0 as i64 * a.1 as i64;
    }
    assert_eq!(twice_area, 32);
}

#[test]
fn hull_of_far_apart_points_does_not_overflow() {
    let low = i32::MIN;
    let high = i32::MAX;
    let points = vec![(low, low), (high, low), (high, high), (low, high), (0, 0), (1, -1)];
    let hull = find_qhull_points2(&points).unwrap();
    assert_eq!(sorted(hull), sorted(vec![(low, low), (high, low), (high, high), (low, high)]));
}

#[test]
fn flat_hull_is_a_flat_error() {
    let collinear = vec![(0, 0), (1, 1), (2, 2), (3, 3), (7, 7)];
    assert!(matches!(find_qhull_points2(&collinear), Err(QhullError::FlatError)));
    let same = vec![(5, 5), (5, 5), (5, 5), (5, 5)];
    assert!(matches!(find_qhull_points2(&same), Err(QhullError::FlatError)));
    let two = vec![(0, 0), (3, 4)];
    assert!(matches!(find_qhull_points2(&two), Err(QhullError::FlatError)));
}

#[test]
fn flat_hull_is_no_polygon() {
    let collinear = vec![(0, 0), (1, 1), (2, 2), (3, 3)];
    assert!(matches!(find_qhull_points3(&collinear), Ok(None)));
    assert!(matches!(find_qhull_points3(&Vec::new()), Ok(None)));
    let square = vec![(0, 0), (0, 2), (2, 2), (2, 0)];
    let hull = find_qhull_points3(&square).unwrap().unwrap();
    assert_eq!(sorted(hull), vec![(0, 0), (0, 2), (2, 0), (2, 2)]);
}

#[test]
fn a_ring_that_is_not_closed_is_an_error() {
    match polygon_of_ring(vec![(0, 0), (1, 0), (1, 1), (0, 1)]) {
        Err(QhullError::OtherError(msg)) => assert_eq!(msg, "hull ring is not closed"),
        _ => panic!("an open ring must be refused"),
    }
    assert!(matches!(polygon_of_ring(Vec::new()), Err(QhullError::OtherError(_))));
}

#[test]
fn a_closed_ring_loses_its_closing_vertex() {
    let ring = vec![(0, 0), (1, 0), (1, 1), (0, 0)];
    assert_eq!(polygon_of_ring(ring).unwrap(), vec![(0, 0), (1, 0), (1, 1)]);
    assert!(matches!(
        polygon_of_ring(vec![(0, 0), (1, 0), (0, 0)]),
        Err(QhullError::FlatError)
    ));
    assert!(matches!(polygon_of_ring(vec![(0, 0)]), Err(QhullError::FlatError)));
}

#[test]
fn error_texts() {
    assert_eq!(
        QhullError::FlatError.message(),
        "QHull error: flat or invalid geometry"
    );
    assert_eq!(
        QhullError::OtherError("hull ring is not closed".to_string()).message(),
        "QHull error: hull ring is not closed"
    );
}

#[test]
fn slicing_nothing_gives_nothing() {
    assert!(matches!(slice_in_two(None, 0, 0), Ok((None, None))));
    assert!(matches!(slice_in_two(Some(&Vec::new()), 0, 0), Ok((None, None))));
}

#[test]
fn a_polygon_on_one_side_stays_whole() {
    let square = vec![(0, 0), (0, 20), (20, 20), (20, 0)];
    let (left, right) = slice_in_two(Some(&square), 20, 0).unwrap();
    assert_eq!(left, Some(square.clone()));
    assert_eq!(right, None);
    let (left, right) = slice_in_two(Some(&square), 25, 1).unwrap();
    assert_eq!(left, Some(square.clone()));
    assert_eq!(right, None);
    let (left, right) = slice_in_two(Some(&square), -1, 0).unwrap();
    assert_eq!(left, None);
    assert_eq!(right, Some(square.clone()));
}

#[test]
fn the_parts_of_a_cut_lie_on_their_sides_of_the_line() {
    let shapes = [
        vec![(0, 0), (8, 0), (0, 8)],
        vec![(-4, 0), (4, 3), (0, -10)],
        vec![(-7, -3), (5, -9), (9, 4), (-2, 11), (-8, 6)],
    ];
    for shape in shapes {
        for axis in 0..2 {
            for value in -9..10 {
                let (low, high) = slice_in_two(Some(&shape), value, axis).unwrap();
                for v in low.unwrap_or_default() {
                    assert!(if axis == 0 { v.0 <= value } else { v.1 <= value });
                }
                for v in high.unwrap_or_default() {
                    assert!(if axis == 0 { v.0 >= value } else { v.1 >= value });
                }
            }
        }
    }
}

#[test]
fn a_square_is_cut_into_two_rectangles() {
    let square = vec![(0, 0), (0, 20), (20, 20), (20, 0)];
    let (left, right) = slice_in_two(Some(&square), 5, 0).unwrap();
    assert_eq!(sorted(left.unwrap()), vec![(0, 0), (0, 20), (5, 0), (5, 20)]);
    assert_eq!(sorted(right.unwrap()), vec![(5, 0), (5, 20), (20, 0), (20, 20)]);
    let (low, high) = slice_in_two(Some(&square), 12, 1).unwrap();
    assert_eq!(sorted(low.unwrap()), vec![(0, 0), (0, 12), (20, 0), (20, 12)]);
    assert_eq!(sorted(high.unwrap()), vec![(0, 12), (0, 20), (20, 12), (20, 20)]);
}

#[test]
fn a_triangle_is_cut_into_a_quadrilateral_and_a_triangle() {
    let triangle = vec![(0, 0), (8, 0), (0, 8)];
    let (left, right) = slice_in_two(Some(&triangle), 4, 0).unwrap();
    assert_eq!(sorted(left.unwrap()), vec![(0, 0), (0, 8), (4, 0), (4, 4)]);
    assert_eq!(sorted(right.unwrap()), vec![(4, 0), (4, 4), (8, 0)]);
}

#[test]
fn a_cut_along_an_edge_leaves_one_side_flat() {
    let square = vec![(0, 0), (0, 20), (20, 20), (20, 0)];
    let (left, right) = slice_in_two(Some(&square), 0, 0).unwrap();
    assert_eq!(left, None);
    assert_eq!(sorted(right.unwrap()), vec![(0, 0), (0, 20), (20, 0), (20, 20)]);
}

#[test]
fn a_segment_cannot_be_cut_into_polygons() {
    let segment = vec![(0, 0), (10, 10)];
    let (left, right) = slice_in_two(Some(&segment), 5, 0).unwrap();
    assert_eq!(left, None);
    assert_eq!(right, None);
}

#[test]
fn points_sort_by_x_then_y() {
    let mut points = vec![(20, 0), (0, 20), (20, 20), (0, 0), (0, 20), (-5, 99)];
    sort_points(&mut points);
    assert_eq!(points, vec![(-5, 99), (0, 0), (0, 20), (0, 20), (20, 0), (20, 20)]);
    let mut none: Vec<(i32, i32)> = Vec::new();
    sort_points(&mut none);
    assert_eq!(none, Vec::new());
}

#[test]
fn lexicographic_order() {
    assert!(lex_before((0, 5), (1, 0)));
    assert!(lex_before((1, 0), (1, 0)));
    assert!(lex_before((1, 0), (1, 1)));
    assert!(!lex_before((1, 1), (1, 0)));
    assert!(!lex_before((2, 0), (1, 9)));
}

#[test]
fn same_points_compares_entry_by_entry() {
    assert!(same_points(&vec![(1, 2), (3, 4)], &vec![(1, 2), (3, 4)]));
    assert!(!same_points(&vec![(1, 2), (3, 4)], &vec![(3, 4), (1, 2)]));
    assert!(!same_points(&vec![(1, 2)], &vec![(1, 2), (3, 4)]));
    assert!(same_points(&Vec::new(), &Vec::new()));
}

#[test]
fn squared_distance() {
    assert_eq!(dist2((0, 0), (3, 4)), 25);
    assert_eq!(dist2((-1, -1), (-1, -1)), 0);
    assert_eq!(dist2((i32::MIN, i32::MIN), (i32::MAX, i32::MAX)), 2 * 4294967295u128 * 4294967295u128);
}

#[test]
fn squared_distance_to_a_rectangle() {
    let center = (10, 10);
    let half = (5, 2);
    assert_eq!(box_dist2(center, half, (10, 10)), 0);
    assert_eq!(box_dist2(center, half, (15, 12)), 0);
    assert_eq!(box_dist2(center, half, (5, 8)), 0);
    assert_eq!(box_dist2(center, half, (18, 10)), 9);
    assert_eq!(box_dist2(center, half, (10, 4)), 16);
    assert_eq!(box_dist2(center, half, (18, 16)), 9 + 16);
    assert_eq!(box_dist2(center, half, (2, 4)), 9 + 16);
    assert_eq!(
        box_dist2((i32::MAX, i32::MAX), (i32::MAX, i32::MAX), (i32::MIN, i32::MIN)),
        2 * 2147483648u128 * 2147483648u128
    );
}
