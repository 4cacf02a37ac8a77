use image_contours::simplify::{perp_distance_sq, simplify_path};

#[test]
fn test_simplify_path() {
    let points = vec![0, 0, 1, 1, 2, 2, 3, 3];
    let simplified = simplify_path(&points, 500);
    assert_eq!(simplified.len(), 4);
    assert_eq!(simplified[0], 0);
    assert_eq!(simplified[1], 0);
    assert_eq!(simplified[2], 3);
    assert_eq!(simplified[3], 3);
}

#[test]
fn simplify_short_lists_come_back_unchanged() {
    assert_eq!(simplify_path(&vec![], 0), Vec::<i32>::new());
    assert_eq!(simplify_path(&vec![4, 5, 9, 1], 0), vec![4, 5, 9, 1]);
    assert_eq!(simplify_path(&vec![4, 5, 9], 0), vec![4, 5, 9]);
}

#[test]
fn simplify_keeps_a_far_corner() {
    let points = vec![0, 0, 5, 5, 10, 0];
    assert_eq!(simplify_path(&points, 1000), vec![0, 0, 5, 5, 10, 0]);
    // Distance 5 is not above a tolerance of 5.
    assert_eq!(simplify_path(&points, 5000), vec![0, 0, 10, 0]);
}

#[test]
fn simplify_keeps_endpoints_and_is_idempotent() {
    let points = vec![0, 0, 1, 3, 2, -1, 3, 4, 4, 0, 5, 6, 6, 1, 7, 0];
    let once = simplify_path(&points, 1500);
    assert_eq!(&once[..2], &[0, 0]);
    assert_eq!(&once[once.len() - 2..], &[7, 0]);
    let twice = simplify_path(&once, 1500);
    assert_eq!(once, twice);
}

#[test]
fn simplify_ignores_a_trailing_odd_coordinate() {
    let points = vec![0, 0, 1, 0, 2, 0, 9];
    assert_eq!(simplify_path(&points, 0), vec![0, 0, 2, 0]);
}

#[test]
fn perp_distance_of_degenerate_chord_is_point_distance() {
    // sqrt(2) squared.
    assert_eq!(perp_distance_sq(1, 1, 0, 0, 0, 0), (2, 1));
}

#[test]
fn perp_distance_to_a_diagonal() {
    // Point (0, 2) against the line y = x: distance sqrt(2), squared 8 / 4.
    assert_eq!(perp_distance_sq(0, 2, 0, 0, 2, 2), (16, 8));
}

#[test]
fn short_lists_need_no_coordinate_bound() {
    assert_eq!(simplify_path(&vec![i32::MAX, i32::MIN], 0), vec![i32::MAX, i32::MIN]);
}
