use image_contours::edges::{
    detect_edges, extract_contour_points, grayscale_sobel, sobel_edge_detection, sobel_edges_above,
    EdgeVariant,
    ImageError,
};

fn white_over_black_3x3() -> Vec<u8> {
    let mut data = vec![0u8; 3 * 3 * 4];
    for y in 0..3 {
        for x in 0..3 {
            let idx = (y * 3 + x) * 4;
            if y < 2 {
                data[idx] = 255;
                data[idx + 1] = 255;
                data[idx + 2] = 255;
            }
            data[idx + 3] = 255;
        }
    }
    data
}

#[test]
fn test_sobel_edge_detection() {
    let data = white_over_black_3x3();
    let result = sobel_edge_detection(&data, 3, 3, 50).unwrap();
    let middle_idx = (1 * 3 + 1) * 4;
    assert!(result[middle_idx] > 0);
}

#[test]
fn sobel_marks_centre_and_leaves_border_zero() {
    let data = white_over_black_3x3();
    let result = sobel_edge_detection(&data, 3, 3, 50).unwrap();
    assert_eq!(result.len(), data.len());
    assert_eq!(&result[16..20], &[255, 255, 255, 255]);
    for (k, v) in result.iter().enumerate() {
        if k / 4 != 4 {
            assert_eq!(*v, 0, "byte {}", k);
        }
    }
}

#[test]
fn sobel_threshold_is_strict_on_the_norm() {
    // Centre gradient norm is (4 * 765) / 3 = 1020.
    let data = white_over_black_3x3();
    let at = sobel_edge_detection(&data, 3, 3, 1020).unwrap();
    assert_eq!(&at[16..20], &[0, 0, 0, 255]);
    let below = sobel_edge_detection(&data, 3, 3, 1019).unwrap();
    assert_eq!(&below[16..20], &[255, 255, 255, 255]);
}

#[test]
fn sobel_uniform_image_has_no_edges() {
    let data = vec![200u8; 5 * 4 * 4];
    let result = sobel_edge_detection(&data, 5, 4, 0).unwrap();
    for p in 0..20 {
        let (x, y) = (p % 5, p / 5);
        let interior = x >= 1 && x <= 3 && y >= 1 && y <= 2;
        let expected: [u8; 4] = if interior { [0, 0, 0, 255] } else { [0, 0, 0, 0] };
        assert_eq!(&result[p * 4..p * 4 + 4], &expected);
    }
}

#[test]
fn sobel_small_images_have_no_interior() {
    let data = vec![255u8; 2 * 5 * 4];
    assert_eq!(sobel_edge_detection(&data, 2, 5, 0).unwrap(), vec![0u8; 40]);
    let single = vec![9u8; 4];
    assert_eq!(sobel_edge_detection(&single, 1, 1, 0).unwrap(), vec![0u8; 4]);
}

#[test]
fn sobel_rejects_bad_dimensions() {
    let data = vec![0u8; 36];
    assert_eq!(sobel_edge_detection(&data, 3, 2, 10), Err(ImageError::InvalidInput));
    assert_eq!(sobel_edge_detection(&data, 0, 3, 10), Err(ImageError::InvalidInput));
    assert_eq!(sobel_edge_detection(&vec![], 0, 0, 10), Err(ImageError::InvalidInput));
}

#[test]
fn fast_sobel_writes_l1_intensity_in_place() {
    let mut data = vec![0u8; 36];
    for x in 0..3 {
        data[x * 4] = 10;
        data[x * 4 + 1] = 10;
        data[x * 4 + 2] = 10;
    }
    for p in 0..9 {
        data[p * 4 + 3] = 77;
    }
    let before = data.clone();
    grayscale_sobel(&mut data, 3, 3).unwrap();
    // Only the centre changes: |gy| = 4 * 10 = 40.
    assert_eq!(&data[16..20], &[40, 40, 40, 77]);
    for k in 0..36 {
        if k / 4 != 4 {
            assert_eq!(data[k], before[k]);
        }
    }
}

#[test]
fn fast_sobel_caps_at_255() {
    let mut data = white_over_black_3x3();
    grayscale_sobel(&mut data, 3, 3).unwrap();
    assert_eq!(&data[16..20], &[255, 255, 255, 255]);
}

#[test]
fn fast_sobel_rejects_bad_length_and_leaves_data() {
    let mut data = vec![5u8; 35];
    assert_eq!(grayscale_sobel(&mut data, 3, 3), Err(ImageError::InvalidInput));
    assert_eq!(data, vec![5u8; 35]);
}

#[test]
fn extract_blank_mask_is_empty() {
    let data = vec![0u8; 4 * 3 * 4];
    assert_eq!(extract_contour_points(&data, 4, 3).unwrap(), Vec::<u32>::new());
}

#[test]
fn extract_full_mask_gives_every_pixel_in_row_order() {
    let data = vec![255u8; 3 * 2 * 4];
    let pts = extract_contour_points(&data, 3, 2).unwrap();
    assert_eq!(pts, vec![0, 0, 1, 0, 2, 0, 0, 1, 1, 1, 2, 1]);
}

#[test]
fn extract_uses_red_above_128() {
    let mut data = vec![0u8; 2 * 2 * 4];
    data[0] = 128;
    data[4] = 129;
    data[9] = 255;
    data[12] = 200;
    let pts = extract_contour_points(&data, 2, 2).unwrap();
    assert_eq!(pts, vec![1, 0, 1, 1]);
}

#[test]
fn extract_rejects_bad_length() {
    assert_eq!(extract_contour_points(&vec![0u8; 15], 2, 2), Err(ImageError::InvalidInput));
}

#[test]
fn detect_edges_dispatches_on_variant() {
    let data = white_over_black_3x3();
    let binary = detect_edges(&data, 3, 3, EdgeVariant::Binary { threshold: 50 }).unwrap();
    assert_eq!(binary, sobel_edge_detection(&data, 3, 3, 50).unwrap());
    let continuous = detect_edges(&data, 3, 3, EdgeVariant::Continuous).unwrap();
    let mut in_place = data.clone();
    grayscale_sobel(&mut in_place, 3, 3).unwrap();
    assert_eq!(continuous, in_place);
    assert_eq!(detect_edges(&data, 4, 3, EdgeVariant::Continuous), Err(ImageError::InvalidInput));
}

#[test]
fn extract_with_a_chosen_level() {
    let mut data = vec![0u8; 2 * 1 * 4];
    data[0] = 10;
    data[4] = 11;
    assert_eq!(image_contours::edges::extract_points_above(&data, 2, 1, 10).unwrap(), vec![1, 0]);
    assert_eq!(image_contours::edges::extract_points_above(&data, 2, 1, 9).unwrap(), vec![0, 0, 1, 0]);
}

#[test]
fn sobel_bound_compares_exactly() {
    // Centre: plain responses gx = 0, gy = -3060, so 9 g^2 = 3060^2 = 9363600.
    let data = white_over_black_3x3();
    let on = sobel_edges_above(&data, 3, 3, 9363599).unwrap();
    assert_eq!(&on[16..20], &[255, 255, 255, 255]);
    let off = sobel_edges_above(&data, 3, 3, 9363600).unwrap();
    assert_eq!(&off[16..20], &[0, 0, 0, 255]);
    let uniform = vec![7u8; 36];
    let all = sobel_edges_above(&uniform, 3, 3, -1).unwrap();
    assert_eq!(&all[16..20], &[255, 255, 255, 255]);
}
