use polytope_quadtree::quadtree_mod::QuadTree;
use polytope_quadtree::tree_model::{
    MAX, MAX_DEPTH, ROOT_HALF_HEIGHT, ROOT_HALF_WIDTH, UNITS_PER_DEGREE,
};
use std::collections::HashSet;

fn deg(x: i32, y: i32) -> (i32, i32) {
    (x * UNITS_PER_DEGREE, y * UNITS_PER_DEGREE)
}

fn five_points() -> Vec<(i32, i32)> {
    vec![deg(-10, -10), deg(10, 10), deg(-10, 10), deg(10, -10), deg(0, 0)]
}

fn set_of(items: &[usize]) -> HashSet<usize> {
    items.iter().copied().collect()
}

fn built(points: &Vec<(i32, i32)>) -> QuadTree {
    let mut tree = QuadTree::new();
    tree.build_point_tree(points.clone());
    tree
}

/// A small generator of scattered lattice points inside the domain.
fn scattered(count: usize, seed: u64) -> Vec<(i32, i32)> {
    let mut state = seed;
    let mut points = Vec::with_capacity(count);
    for _ in 0..count {
        state = state.wrapping_mul(6364136223846793005).wrapping_add(1442695040888963407);
        let x = ((state >> 33) % (2 * ROOT_HALF_WIDTH as u64 + 1)) as i64 - ROOT_HALF_WIDTH as i64;
        state = state.wrapping_mul(6364136223846793005).wrapping_add(1442695040888963407);
        let y = ((state >> 33) % (2 * ROOT_HALF_HEIGHT as u64 + 1)) as i64 - ROOT_HALF_HEIGHT as i64;
        points.push((x as i32, y as i32));
    }
    points
}

fn brute_force_nearest(points: &[(i32, i32)], q: (i32, i32)) -> Option<i128> {
    points
        .iter()
        .map(|p| {
            let dx = p.0 as i128 - q.0 as i128;
            let dy = p.1 as i128 - q.1 as i128;
            dx * dx + dy * dy
        })
        .min()
}

fn distance2(p: (i32, i32), q: (i32, i32)) -> i128 {
    let dx = p.0 as i128 - q.0 as i128;
    let dy = p.1 as i128 - q.1 as i128;
    dx * dx + dy * dy
}

#[test]
fn constants_fit_together() {
    assert_eq!(MAX, 3);
    assert_eq!(MAX_DEPTH, 20);
    assert_eq!(UNITS_PER_DEGREE, 1 << 20);
    assert_eq!(ROOT_HALF_WIDTH, 180 * UNITS_PER_DEGREE);
    assert_eq!(ROOT_HALF_HEIGHT, 90 * UNITS_PER_DEGREE);
}

#[test]
fn new_tree_is_empty() {
    let tree = QuadTree::new();
    assert_eq!(tree.len(), 0);
}

#[test]
fn tree_of_no_points_has_an_empty_root() {
    let tree = built(&Vec::new());
    assert_eq!(tree.len(), 1);
    assert_eq!(tree.get_center(0), (0, 0));
    assert_eq!(tree.get_size(0), (ROOT_HALF_WIDTH, ROOT_HALF_HEIGHT));
    assert_eq!(tree.get_depth(0), 0);
    assert_eq!(tree.get_children_idxs(0), Vec::<usize>::new());
    assert_eq!(tree.get_point_idxs(0), Vec::<usize>::new());
    assert_eq!(tree.get_points_length(0), 0);
    assert_eq!(tree.find_nodes_in(0), Vec::<usize>::new());
}

#[test]
fn three_points_stay_in_the_root() {
    let points = vec![deg(1, 1), deg(-1, 1), deg(5, -5)];
    let tree = built(&points);
    assert_eq!(tree.len(), 1);
    assert_eq!(tree.get_point_idxs(0), vec![0, 1, 2]);
    assert_eq!(tree.get_node_items(0), vec![0, 1, 2]);
    assert_eq!(tree.get_points_length(0), 3);
}

#[test]
fn five_points_split_the_root() {
    let tree = built(&five_points());
    assert_eq!(tree.get_children_idxs(0), vec![1, 2, 3, 4]);
    assert_eq!(tree.get_point_idxs(0), Vec::<usize>::new());
    assert_eq!(tree.len(), 5);
}

#[test]
fn the_fourth_point_splits_the_root() {
    let points = vec![deg(-10, -10), deg(10, 10), deg(-10, 10), deg(10, -10)];
    let tree = built(&points);
    assert_eq!(tree.len(), 5);
    assert_eq!(tree.get_point_idxs(1), vec![0]);
    assert_eq!(tree.get_point_idxs(2), vec![2]);
    assert_eq!(tree.get_point_idxs(3), vec![3]);
    assert_eq!(tree.get_point_idxs(4), vec![1]);
}

#[test]
fn children_are_the_four_quadrants_in_order() {
    let tree = built(&five_points());
    let hx = ROOT_HALF_WIDTH / 2;
    let hy = ROOT_HALF_HEIGHT / 2;
    assert_eq!(tree.get_center(1), (-hx, -hy));
    assert_eq!(tree.get_center(2), (-hx, hy));
    assert_eq!(tree.get_center(3), (hx, -hy));
    assert_eq!(tree.get_center(4), (hx, hy));
    for child in 1..5 {
        assert_eq!(tree.get_size(child), (hx, hy));
        assert_eq!(tree.get_depth(child), 1);
    }
}

#[test]
fn children_rectangles_make_up_the_parent_rectangle() {
    let points = scattered(200, 7);
    let tree = built(&points);
    for node in 0..tree.len() {
        let children = tree.get_children_idxs(node);
        if children.is_empty() {
            continue;
        }
        assert_eq!(children.len(), 4);
        assert_eq!(tree.get_point_idxs(node), Vec::<usize>::new());
        let (low, high) = tree.node_bbox_points(node);
        let center = tree.get_center(node);
        let boxes: Vec<_> = children.iter().map(|&c| tree.node_bbox_points(c)).collect();
        assert_eq!(boxes[0], (low, center));
        assert_eq!(boxes[1], ((low.0, center.1), (center.0, high.1)));
        assert_eq!(boxes[2], ((center.0, low.1), (high.0, center.1)));
        assert_eq!(boxes[3], (center, high));
        for &c in &children {
            assert!(c > node);
            assert_eq!(tree.get_depth(c), tree.get_depth(node) + 1);
        }
    }
}

#[test]
fn a_point_on_the_center_lines_goes_to_all_four_children() {
    let tree = built(&five_points());
    assert_eq!(tree.get_point_idxs(1), vec![0, 4]);
    assert_eq!(tree.get_point_idxs(2), vec![2, 4]);
    assert_eq!(tree.get_point_idxs(3), vec![3, 4]);
    assert_eq!(tree.get_point_idxs(4), vec![1, 4]);
}

#[test]
fn a_point_on_one_center_line_goes_to_both_sides() {
    let points = vec![deg(0, 10), deg(-10, -10), deg(10, -10), deg(10, 10)];
    let tree = built(&points);
    assert_eq!(tree.get_point_idxs(1), vec![1]);
    assert_eq!(tree.get_point_idxs(2), vec![0]);
    assert_eq!(tree.get_point_idxs(3), vec![2]);
    assert_eq!(tree.get_point_idxs(4), vec![0, 3]);
}

#[test]
fn collect_walks_own_points_then_children_from_the_last() {
    let tree = built(&five_points());
    assert_eq!(tree.find_nodes_in(0), vec![1, 4, 3, 4, 2, 4, 0, 4]);
    assert_eq!(tree.find_nodes_in(4), vec![1, 4]);
    let mut results = vec![99];
    tree.collect_points(&mut results, 1);
    assert_eq!(results, vec![99, 0, 4]);
}

#[test]
fn five_points_are_all_collected() {
    let tree = built(&five_points());
    let found: HashSet<usize> = tree.find_nodes_in(0).into_iter().collect();
    assert_eq!(found, set_of(&[0, 1, 2, 3, 4]));
}

#[test]
fn every_point_of_a_scattered_set_is_collected() {
    let points = scattered(500, 11);
    let tree = built(&points);
    let found: HashSet<usize> = tree.find_nodes_in(0).into_iter().collect();
    let all: HashSet<usize> = (0..points.len()).collect();
    assert_eq!(found, all);
}

#[test]
fn points_outside_the_domain_are_kept() {
    let points = vec![deg(200, 0), deg(-200, 95), deg(0, -100), deg(190, 91), deg(1, 1)];
    let tree = built(&points);
    let found: HashSet<usize> = tree.find_nodes_in(0).into_iter().collect();
    assert_eq!(found, set_of(&[0, 1, 2, 3, 4]));
    assert_eq!(tree.get_point_idxs(4), vec![0, 3, 4]);
}

#[test]
fn no_node_lies_deeper_than_the_greatest_depth() {
    let same = deg(33, 44);
    let points = vec![same, same, same, same, same];
    let tree = built(&points);
    let mut deepest = 0;
    let mut crowded_leaves = 0;
    for node in 0..tree.len() {
        let depth = tree.get_depth(node);
        assert!(depth <= MAX_DEPTH);
        deepest = deepest.max(depth);
        if tree.get_points_length(node) > MAX {
            assert_eq!(depth, MAX_DEPTH);
            assert_eq!(tree.get_children_idxs(node), Vec::<usize>::new());
            assert_eq!(tree.get_point_idxs(node), vec![0, 1, 2, 3, 4]);
            crowded_leaves += 1;
        }
    }
    assert_eq!(deepest, MAX_DEPTH);
    assert!(crowded_leaves >= 1);
    assert_eq!(tree.get_size(tree.len() - 1), (180, 90));
}

#[test]
fn leaves_above_the_greatest_depth_hold_at_most_three_points() {
    let points = scattered(300, 3);
    let tree = built(&points);
    for node in 0..tree.len() {
        if tree.get_children_idxs(node).is_empty() && tree.get_depth(node) < MAX_DEPTH {
            assert!(tree.get_points_length(node) <= MAX);
        }
    }
}

#[test]
fn leaves_list_their_points_in_increasing_order() {
    let points = scattered(300, 5);
    let tree = built(&points);
    for node in 0..tree.len() {
        let list = tree.get_point_idxs(node);
        for pair in list.windows(2) {
            assert!(pair[0] < pair[1]);
        }
    }
}

#[test]
fn rectangle_corners_come_in_lexicographic_order() {
    let tree = built(&five_points());
    assert_eq!(
        tree.quadrant_rectangle_points(0),
        vec![
            (-ROOT_HALF_WIDTH, -ROOT_HALF_HEIGHT),
            (-ROOT_HALF_WIDTH, ROOT_HALF_HEIGHT),
            (ROOT_HALF_WIDTH, -ROOT_HALF_HEIGHT),
            (ROOT_HALF_WIDTH, ROOT_HALF_HEIGHT),
        ]
    );
    assert_eq!(
        tree.node_bbox_points(4),
        ((0, 0), (ROOT_HALF_WIDTH, ROOT_HALF_HEIGHT))
    );
}

#[test]
fn polygon_over_the_domain_finds_all_five() {
    let points = five_points();
    let tree = built(&points);
    let polygon = vec![deg(-20, -20), deg(-20, 20), deg(20, 20), deg(20, -20)];
    let found = tree.query_polygon(points, 0, Some(polygon)).unwrap();
    assert_eq!(found, set_of(&[0, 1, 2, 3, 4]));
}

#[test]
fn polygon_over_one_quadrant_finds_its_points_and_the_center() {
    let points = five_points();
    let tree = built(&points);
    let polygon = vec![deg(0, 0), deg(0, 20), deg(20, 20), deg(20, 0)];
    let found = tree.query_polygon(points, 0, Some(polygon)).unwrap();
    assert_eq!(found, set_of(&[1, 4]));
}

#[test]
fn query_without_a_polygon_finds_nothing() {
    let points = five_points();
    let tree = built(&points);
    let found = tree.query_polygon(points, 0, None).unwrap();
    assert_eq!(found, HashSet::new());
}

#[test]
fn query_with_an_empty_polygon_finds_nothing() {
    let points = five_points();
    let tree = built(&points);
    let found = tree.query_polygon(points, 0, Some(Vec::new())).unwrap();
    assert_eq!(found, HashSet::new());
}

#[test]
fn query_with_the_corners_of_the_root_finds_every_point() {
    let points = scattered(400, 13);
    let tree = built(&points);
    let corners = tree.quadrant_rectangle_points(0);
    let all: HashSet<usize> = (0..points.len()).collect();
    let found = tree.query_polygon(points.clone(), 0, Some(corners.clone())).unwrap();
    assert_eq!(found, all);
    let turned = vec![corners[3], corners[1], corners[0], corners[2]];
    let found = tree.query_polygon(points, 0, Some(turned)).unwrap();
    assert_eq!(found, all);
}

#[test]
fn query_with_the_corners_of_a_node_finds_what_lies_below_it() {
    let points = scattered(400, 17);
    let tree = built(&points);
    for node in 1..5 {
        let corners = tree.quadrant_rectangle_points(node);
        let expected: HashSet<usize> = tree.find_nodes_in(node).into_iter().collect();
        let found = tree.query_polygon(points.clone(), node, Some(corners)).unwrap();
        assert_eq!(found, expected);
    }
}

#[test]
fn a_polygon_around_all_points_finds_all_of_them() {
    let points: Vec<(i32, i32)> = scattered(300, 19)
        .into_iter()
        .map(|(x, y)| (x / 2, y / 2))
        .collect();
    let tree = built(&points);
    let polygon = vec![deg(-100, -50), deg(-100, 50), deg(100, 50), deg(100, -50)];
    let all: HashSet<usize> = (0..points.len()).collect();
    let found = tree.query_polygon(points, 0, Some(polygon)).unwrap();
    assert_eq!(found, all);
}

#[test]
fn a_polygon_beside_the_domain_finds_nothing() {
    let points = scattered(300, 23);
    let tree = built(&points);
    let polygon = vec![deg(200, -10), deg(200, 10), deg(220, 10), deg(220, -10)];
    let found = tree.query_polygon(points.clone(), 0, Some(polygon)).unwrap();
    assert_eq!(found, HashSet::new());
    let polygon = vec![deg(-10, 100), deg(10, 100), deg(0, 120)];
    let found = tree.query_polygon(points, 0, Some(polygon)).unwrap();
    assert_eq!(found, HashSet::new());
}

#[test]
fn a_rectangle_finds_exactly_the_points_in_it() {
    let points = scattered(500, 29);
    let tree = built(&points);
    let low = deg(-37, -21);
    let high = deg(52, 33);
    let polygon = vec![low, (low.0, high.1), high, (high.0, low.1)];
    let expected: HashSet<usize> = points
        .iter()
        .enumerate()
        .filter(|(_, p)| low.0 <= p.0 && p.0 <= high.0 && low.1 <= p.1 && p.1 <= high.1)
        .map(|(i, _)| i)
        .collect();
    let found = tree.query_polygon(points, 0, Some(polygon)).unwrap();
    assert_eq!(found, expected);
}

#[test]
fn a_triangle_finds_the_points_in_it() {
    let points = vec![deg(1, 1), deg(5, 1), deg(1, 5), deg(6, 6), deg(-1, 1), deg(3, 3), deg(2, 7)];
    let tree = built(&points);
    let polygon = vec![deg(0, 0), deg(8, 0), deg(0, 8)];
    let found = tree.query_polygon(points, 0, Some(polygon)).unwrap();
    assert_eq!(found, set_of(&[0, 1, 2, 5]));
}

#[test]
fn a_query_from_a_child_stays_below_it() {
    let points = five_points();
    let tree = built(&points);
    let polygon = vec![deg(-20, -20), deg(-20, 20), deg(20, 20), deg(20, -20)];
    let found = tree.query_polygon(points, 1, Some(polygon)).unwrap();
    assert_eq!(found, set_of(&[0, 4]));
}

#[test]
fn the_same_query_gives_the_same_answer() {
    let points = scattered(300, 31);
    let tree = built(&points);
    let polygon = vec![deg(-50, -40), deg(-60, 30), deg(10, 70), deg(80, 10), deg(40, -60)];
    let first = tree.query_polygon(points.clone(), 0, Some(polygon.clone())).unwrap();
    let second = tree.query_polygon(points.clone(), 0, Some(polygon.clone())).unwrap();
    let third = tree.query_polygon(points, 0, Some(polygon)).unwrap();
    assert_eq!(first, second);
    assert_eq!(second, third);
    assert!(!first.is_empty());
}

#[test]
fn nearest_neighbor_of_an_empty_tree_is_none() {
    let tree = QuadTree::new();
    assert_eq!(tree.nearest_neighbor(deg(1, 2), Vec::new()), None);
    let tree = built(&Vec::new());
    assert_eq!(tree.nearest_neighbor(deg(1, 2), Vec::new()), None);
}

#[test]
fn nearest_neighbor_among_five() {
    let points = five_points();
    let tree = built(&points);
    assert_eq!(tree.nearest_neighbor(deg(9, 9), points.clone()), Some(1));
    assert_eq!(tree.nearest_neighbor(deg(-10, -10), points.clone()), Some(0));
    assert_eq!(tree.nearest_neighbor(deg(1, -1), points.clone()), Some(4));
    assert_eq!(tree.nearest_neighbor(deg(170, -80), points), Some(3));
}

#[test]
fn nearest_neighbor_keeps_the_first_of_two_equally_near() {
    let points = vec![deg(-10, -10), deg(10, 10), deg(-10, 10), deg(10, -10)];
    let tree = built(&points);
    assert_eq!(tree.nearest_neighbor(deg(0, 0), points), Some(0));
}

#[test]
fn nearest_neighbor_matches_brute_force() {
    let points = scattered(400, 37);
    let tree = built(&points);
    let mut queries = scattered(60, 41);
    queries.extend(points.iter().take(20).copied());
    queries.push((0, 0));
    queries.push((ROOT_HALF_WIDTH, ROOT_HALF_HEIGHT));
    queries.push(deg(300, -200));
    for q in queries {
        let found = tree.nearest_neighbor(q, points.clone()).unwrap();
        let best = brute_force_nearest(&points, q).unwrap();
        assert_eq!(distance2(points[found], q), best);
    }
}

#[test]
fn nearest_neighbor_of_a_stored_point_is_at_distance_zero() {
    let points = scattered(100, 43);
    let tree = built(&points);
    for (i, p) in points.iter().enumerate() {
        let found = tree.nearest_neighbor(*p, points.clone()).unwrap();
        assert_eq!(points[found], points[i]);
    }
}

#[test]
fn nearest_neighbor_may_pass_over_a_point_beyond_the_domain() {
    // point 0 lies beyond the domain, in the region of the top-right
    // quadrant, whose rectangle is farther from the query than point 3
    let points = vec![deg(1000, 1), deg(-100, -50), deg(-100, 50), deg(990, -1)];
    let tree = built(&points);
    assert_eq!(tree.nearest_neighbor(deg(1000, 2), points.clone()), Some(3));
    assert_eq!(tree.nearest_neighbor(deg(1000, 1), points.clone()), Some(3));
    assert_eq!(tree.nearest_neighbor(deg(1000, -1), points), Some(3));
}

#[test]
fn a_point_under_a_slanted_rim_is_found() {
    // the rim from (-4, 0) to (4, 3) passes over (-1, 1), at height 1.125,
    // and crosses the line x = 0 at height 1.5, where the polygon is cut
    let points = vec![(-1, 1), (0, 0), (1, 0), (0, -1)];
    let tree = built(&points);
    assert_eq!(tree.len(), 5);
    let polygon = vec![(-4, 0), (4, 3), (0, -10)];
    let found = tree.query_polygon(points.clone(), 0, Some(polygon.clone())).unwrap();
    assert_eq!(found, set_of(&[0, 1, 2, 3]));
    let raised = vec![(-1, 2), (0, 0), (1, 0), (0, -1)];
    let tree = built(&raised);
    let found = tree.query_polygon(raised, 0, Some(polygon)).unwrap();
    assert_eq!(found, set_of(&[1, 2, 3]));
}

#[test]
fn a_point_just_outside_a_slanted_rim_is_not_found() {
    // the rim from (-4, 0) to (4, -3) passes x = -1 at height -1.125
    let polygon = vec![(-4, 0), (4, -3), (0, 10)];
    let tree = built(&vec![(-1, -2)]);
    let found = tree.query_polygon(vec![(-1, -2)], 0, Some(polygon.clone())).unwrap();
    assert_eq!(found, HashSet::new());
    let tree = built(&vec![(-1, -1)]);
    let found = tree.query_polygon(vec![(-1, -1)], 0, Some(polygon)).unwrap();
    assert_eq!(found, set_of(&[0]));
}

#[test]
fn a_triangle_just_beyond_the_corner_of_the_domain_finds_nothing() {
    let (w, h) = (ROOT_HALF_WIDTH, ROOT_HALF_HEIGHT);
    let points = vec![(w, h)];
    let tree = built(&points);
    // its edge passes x = w at height h + 0.75
    let polygon = vec![(w - 3, h + 3), (w + 1, h), (w + 1, h + 3)];
    let found = tree.query_polygon(points.clone(), 0, Some(polygon)).unwrap();
    assert_eq!(found, HashSet::new());
    let touching = vec![(w - 4, h + 3), (w, h), (w + 1, h + 3)];
    let found = tree.query_polygon(points, 0, Some(touching)).unwrap();
    assert_eq!(found, set_of(&[0]));
}

#[test]
fn a_polygon_finds_exactly_the_points_it_contains() {
    let points: Vec<(i32, i32)> = scattered(400, 47)
        .into_iter()
        .map(|(x, y)| (x / 4000000, y / 4000000))
        .collect();
    let tree = built(&points);
    let shapes = [
        vec![(-20, -7), (3, -11), (25, 2), (9, 12), (-14, 9)],
        vec![(-4, 0), (4, 3), (0, -10)],
        vec![(0, 0), (47, 1), (1, 22)],
        vec![(-47, -22), (47, 22), (46, 22)],
    ];
    for shape in shapes {
        let expected: HashSet<usize> = points
            .iter()
            .enumerate()
            .filter(|(_, p)| polytope_quadtree::slicing_tools::is_contained_in(**p, &shape))
            .map(|(i, _)| i)
            .collect();
        let found = tree.query_polygon(points.clone(), 0, Some(shape.clone())).unwrap();
        assert_eq!(found, expected);
        assert!(!found.is_empty());
    }
}

#[test]
fn a_query_without_a_polygon_takes_any_node_index() {
    let points = five_points();
    let tree = built(&points);
    assert_eq!(tree.query_polygon(points.clone(), 99, None).unwrap(), HashSet::new());
    let empty = QuadTree::new();
    assert_eq!(empty.query_polygon(Vec::new(), 0, None).unwrap(), HashSet::new());
}

#[test]
fn the_corners_of_the_root_find_a_point_beyond_the_domain_too() {
    let points = vec![deg(200, 0), deg(1, 1), deg(-180, 90), deg(180, -90)];
    let tree = built(&points);
    let corners = tree.quadrant_rectangle_points(0);
    let found = tree.query_polygon(points, 0, Some(corners)).unwrap();
    assert_eq!(found, set_of(&[0, 1, 2, 3]));
}

#[test]
fn the_corners_of_the_root_in_another_order_find_every_point() {
    let points = vec![deg(200, 0), deg(1, 1), deg(-180, 90), deg(180, -90), deg(0, 95)];
    let tree = built(&points);
    let polygon = vec![deg(180, 90), deg(-180, -90), deg(180, -90), deg(-180, 90)];
    let found = tree.query_polygon(points, 0, Some(polygon)).unwrap();
    assert_eq!(found, set_of(&[0, 1, 2, 3, 4]));
}

#[test]
fn a_single_point_beyond_the_domain_is_found_with_the_corners_of_the_root() {
    let points = vec![deg(200, 0)];
    let tree = built(&points);
    let corners = tree.quadrant_rectangle_points(0);
    let found = tree.query_polygon(points, 0, Some(corners)).unwrap();
    assert_eq!(found, set_of(&[0]));
}

#[test]
fn a_polygon_wider_than_the_domain_tests_the_points_beyond_it() {
    let points = vec![deg(200, 0), deg(1, 1), deg(-180, 90), deg(180, -90), deg(250, 0)];
    let tree = built(&points);
    let polygon = vec![deg(-210, -95), deg(210, -95), deg(210, 95), deg(-210, 95)];
    let found = tree.query_polygon(points, 0, Some(polygon)).unwrap();
    assert_eq!(found, set_of(&[0, 1, 2, 3]));
}

#[test]
fn the_corners_of_a_quadrant_take_the_quadrant_whole_from_the_root() {
    let points = vec![deg(200, 10), deg(10, 10), deg(-20, 20), deg(-30, -30), deg(40, -40)];
    let tree = built(&points);
    assert_eq!(tree.get_children_idxs(0).len(), 4);
    let polygon = vec![deg(0, 0), deg(180, 0), deg(180, 90), deg(0, 90)];
    let found = tree.query_polygon(points, 0, Some(polygon)).unwrap();
    assert_eq!(found, set_of(&[0, 1]));
}

#[test]
fn four_coincident_points_split_down_to_the_greatest_depth() {
    let points = vec![deg(10, 10), deg(10, 10), deg(10, 10), deg(10, 10)];
    let tree = built(&points);
    assert_eq!(tree.len(), 81);
    let mut deepest = 0;
    let mut crowded = 0;
    for node in 0..tree.len() {
        deepest = deepest.max(tree.get_depth(node));
        if tree.get_points_length(node) == 4 {
            crowded += 1;
            assert_eq!(tree.get_depth(node), 20);
        }
    }
    assert_eq!(deepest, 20);
    assert_eq!(crowded, 1);
    assert_eq!(tree.find_nodes_in(0), vec![0, 1, 2, 3]);
}

#[test]
fn contains_all_asks_for_every_point() {
    let polygon = vec![deg(0, 0), deg(10, 0), deg(10, 10), deg(0, 10)];
    let inside = vec![deg(0, 0), deg(5, 5), deg(10, 10)];
    let mixed = vec![deg(5, 5), deg(11, 5)];
    assert!(polytope_quadtree::quadtree_mod::contains_all(&polygon, &inside));
    assert!(!polytope_quadtree::quadtree_mod::contains_all(&polygon, &mixed));
    assert!(polytope_quadtree::quadtree_mod::contains_all(&polygon, &Vec::new()));
}

#[test]
fn insert_all_adds_every_index_once() {
    let mut found = set_of(&[7]);
    polytope_quadtree::quadtree_mod::insert_all(&mut found, &vec![1, 2, 2, 7]);
    assert_eq!(found, set_of(&[1, 2, 7]));
}

#[test]
fn a_polygon_that_holds_the_corners_of_a_rectangle_holds_its_points() {
    let polygon = vec![deg(-30, 0), deg(0, -30), deg(30, 0), deg(0, 30)];
    let corners = vec![deg(-10, -10), deg(-10, 10), deg(10, -10), deg(10, 10)];
    assert!(polytope_quadtree::quadtree_mod::contains_all(&polygon, &corners));
    for x in -10..=10 {
        for y in -10..=10 {
            assert!(polytope_quadtree::slicing_tools::is_contained_in(deg(x, y), &polygon));
        }
    }
}

#[test]
fn a_quadrant_is_taken_whole_only_with_its_own_corners() {
    let points = vec![deg(200, 10), deg(10, 10), deg(-20, 20), deg(-30, -30), deg(40, -40)];
    let tree = built(&points);
    let wider = vec![deg(0, 0), deg(190, 0), deg(190, 90), deg(0, 90)];
    let found = tree.query_polygon(points.clone(), 0, Some(wider)).unwrap();
    assert_eq!(found, set_of(&[1]));
    let child = tree.get_children_idxs(0)[3];
    let own = tree.quadrant_rectangle_points(child);
    let found = tree.query_polygon(points, child, Some(own)).unwrap();
    assert_eq!(found, set_of(&[0, 1]));
}
