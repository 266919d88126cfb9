use polytope_quadtree::list_tools::bisect_left_cmp;
use polytope_quadtree::quadtree_mod::{contains_index, copy_indices, keep_contained};
use polytope_quadtree::utility::exceptions::{BadGridError, BadRequestError, GribJumpNoIndexError};
use std::collections::{HashMap, HashSet};

#[test]
fn bisect_finds_the_last_entry_below() {
    let arr = [1, 3, 5, 7, 9];
    assert_eq!(bisect_left_cmp(&arr, &6, |a, b| a < b), 2);
    assert_eq!(bisect_left_cmp(&arr, &5, |a, b| a < b), 1);
    assert_eq!(bisect_left_cmp(&arr, &5, |a, b| a <= b), 2);
    assert_eq!(bisect_left_cmp(&arr, &100, |a, b| a < b), 4);
    assert_eq!(bisect_left_cmp(&arr, &1, |a, b| a < b), -1);
    assert_eq!(bisect_left_cmp(&arr, &0, |a, b| a < b), -1);
}

#[test]
fn bisect_of_an_empty_slice() {
    let arr: [i32; 0] = [];
    assert_eq!(bisect_left_cmp(&arr, &6, |a, b| a < b), -1);
}

#[test]
fn bisect_of_one_entry() {
    assert_eq!(bisect_left_cmp(&[4], &6, |a, b| a < b), 0);
    assert_eq!(bisect_left_cmp(&[4], &2, |a, b| a < b), -1);
}

#[test]
fn bisect_with_repeated_entries() {
    let arr = [2, 2, 2, 4, 4, 8];
    assert_eq!(bisect_left_cmp(&arr, &4, |a, b| a < b), 2);
    assert_eq!(bisect_left_cmp(&arr, &4, |a, b| a <= b), 4);
}

#[test]
fn index_lists() {
    assert!(contains_index(&vec![4, 9, 2], 9));
    assert!(!contains_index(&vec![4, 9, 2], 3));
    assert!(!contains_index(&Vec::new(), 0));
    assert_eq!(copy_indices(&vec![4, 9, 2]), vec![4, 9, 2]);
    let mut set: HashSet<usize> = HashSet::new();
    set.insert(7);
    let points = vec![(1, 1), (9, 9), (2, 3), (0, 4), (5, 5)];
    let square = vec![(0, 0), (0, 4), (4, 4), (4, 0)];
    keep_contained(&mut set, &vec![0, 1, 2, 3, 2], &points, &square);
    let expected: HashSet<usize> = [0, 2, 3, 7].into_iter().collect();
    assert_eq!(set, expected);
}

#[test]
fn bad_request_error_keeps_its_path() {
    let mut path = HashMap::new();
    path.insert("step".to_string(), "3".to_string());
    let error = BadRequestError::new(path.clone());
    assert_eq!(error.pre_path(), &path);
    assert_eq!(
        error.message(),
        "No data for {\"step\": \"3\"} is available on the FDB."
    );
}

#[test]
fn bad_request_error_for_an_empty_path() {
    let error = BadRequestError::new(HashMap::new());
    assert_eq!(error.message(), "No data for {} is available on the FDB.");
}

#[test]
fn bad_grid_error_text() {
    assert_eq!(
        BadGridError.message(),
        "Data on this grid is not supported by Polytope."
    );
}

#[test]
fn no_index_error_text() {
    assert_eq!(
        GribJumpNoIndexError.message(),
        "Feature extraction cannot be performed on this data because no GribJump index has been generated."
    );
}
