use image_contours::contours::{group_contours, sample_points};
use image_contours::edges::ImageError;

fn flat(points: &[(u32, u32)]) -> Vec<u32> {
    points.iter().flat_map(|p| [p.0, p.1]).collect()
}

#[test]
fn a_chain_forms_one_contour() {
    let line: Vec<(u32, u32)> = (0..12).map(|x| (x, 7)).collect();
    let contours = group_contours(&flat(&line), 1, 100).unwrap();
    assert_eq!(contours.len(), 1);
    let mut got = contours[0].clone();
    got.sort();
    assert_eq!(got, line);
    assert_eq!(contours[0][0], (0, 7));
}

#[test]
fn isolated_points_are_dropped() {
    let pts: Vec<(u32, u32)> = (0..20).map(|i| (i * 10, 0)).collect();
    assert!(group_contours(&flat(&pts), 4, 100).unwrap().is_empty());
}

#[test]
fn small_groups_are_dropped_and_large_ones_kept() {
    let mut pts: Vec<(u32, u32)> = (0..10).map(|x| (x, 0)).collect();
    pts.extend((0..11).map(|x| (x, 100)));
    let contours = group_contours(&flat(&pts), 1, 1000).unwrap();
    assert_eq!(contours.len(), 1);
    assert_eq!(contours[0].len(), 11);
    assert!(contours[0].iter().all(|p| p.1 == 100));
}

#[test]
fn diagonal_neighbours_need_radius_squared_two() {
    let diag: Vec<(u32, u32)> = (0..12).map(|i| (i, i)).collect();
    assert!(group_contours(&flat(&diag), 1, 100).unwrap().is_empty());
    assert_eq!(group_contours(&flat(&diag), 2, 100).unwrap().len(), 1);
}

#[test]
fn zero_budget_is_refused() {
    assert_eq!(group_contours(&vec![1, 2], 1, 0), Err(ImageError::InvalidInput));
}

#[test]
fn sampling_uses_ceiling_stride() {
    let pts: Vec<(u32, u32)> = (0..10).map(|i| (i, 0)).collect();
    // stride ceil(10 / 3) = 4, count ceil(10 / 4) = 3.
    assert_eq!(sample_points(&flat(&pts), 3), vec![(0, 0), (4, 0), (8, 0)]);
    assert_eq!(sample_points(&flat(&pts), 10), pts);
    assert_eq!(sample_points(&flat(&pts), 5).len(), 5);
}

#[test]
fn sampling_thins_before_clustering() {
    let line: Vec<(u32, u32)> = (0..24).map(|x| (x, 0)).collect();
    // Stride 2 leaves 12 points two apart.
    assert!(group_contours(&flat(&line), 1, 12).unwrap().is_empty());
    let contours = group_contours(&flat(&line), 4, 12).unwrap();
    assert_eq!(contours.len(), 1);
    assert_eq!(contours[0].len(), 12);
}

#[test]
fn an_isolated_point_joins_no_contour() {
    let mut pts: Vec<(u32, u32)> = (0..11).map(|x| (x, 0)).collect();
    pts.push((5, 1000));
    let contours = group_contours(&flat(&pts), 1, 100).unwrap();
    assert_eq!(contours.len(), 1);
    assert!(!contours[0].contains(&(5, 1000)));
}

#[test]
fn limits_can_be_chosen() {
    let line: Vec<(u32, u32)> = (0..6).map(|x| (x, 0)).collect();
    assert!(group_contours(&flat(&line), 1, 100).unwrap().is_empty());
    let kept = image_contours::contours::group_contours_with(&flat(&line), 1, 100, 5, 5000).unwrap();
    assert_eq!(kept.len(), 1);
    assert_eq!(kept[0].len(), 6);
    // A cap of four splits the line.
    let capped = image_contours::contours::group_contours_with(&flat(&line), 1, 100, 0, 4).unwrap();
    assert!(capped.iter().all(|c| c.len() <= 4));
    // The point left waiting at the cap stays free and seeds the next contour.
    assert_eq!(capped, vec![vec![(0, 0), (1, 0), (2, 0), (3, 0)], vec![(4, 0), (5, 0)]]);
    assert_eq!(
        image_contours::contours::group_contours_with(&flat(&line), 1, 100, 0, 0),
        Err(ImageError::InvalidInput)
    );
}

#[test]
fn eleven_points_on_a_line_form_one_contour_in_visiting_order() {
    let line: Vec<(u32, u32)> = (0..11).map(|x| (x, 0)).collect();
    let contours = group_contours(&flat(&line), 1, 100).unwrap();
    assert_eq!(contours, vec![line]);
}

#[test]
fn ten_points_on_a_line_form_no_contour() {
    let line: Vec<(u32, u32)> = (0..10).map(|x| (x, 0)).collect();
    assert!(group_contours(&flat(&line), 1, 100).unwrap().is_empty());
}

#[test]
fn contours_come_in_seed_order() {
    let mut pts: Vec<(u32, u32)> = (0..11).map(|x| (x, 50)).collect();
    pts.extend((0..12).map(|x| (x, 0)));
    let contours = group_contours(&flat(&pts), 1, 1000).unwrap();
    assert_eq!(contours.len(), 2);
    assert_eq!(contours[0][0], (0, 50));
    assert_eq!(contours[1][0], (0, 0));
    assert_eq!(contours[1].len(), 12);
}
