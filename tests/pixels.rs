use image_contours::bmp::{grayscale, invert, BMPImage};
use image_contours::{add, grayscale as weighted_grayscale};

fn image(data: Vec<u8>) -> BMPImage {
    BMPImage { width: 2, height: 1, data, header: vec![66, 77], pixel_offset: 2 }
}

#[test]
fn bmp_grayscale_averages_channels() {
    let mut img = image(vec![10, 20, 31, 255, 255, 254]);
    grayscale(&mut img);
    assert_eq!(img.data, vec![20, 20, 20, 254, 254, 254]);
    assert_eq!(img.header, vec![66, 77]);
}

#[test]
fn bmp_invert_flips_bytes() {
    let mut img = image(vec![0, 1, 254, 255, 100, 7]);
    invert(&mut img);
    assert_eq!(img.data, vec![255, 254, 1, 0, 155, 248]);
}

#[test]
fn weighted_grayscale_rounds_and_keeps_alpha() {
    let mut data = vec![255, 0, 0, 7, 0, 255, 0, 8, 10, 20, 30, 9];
    weighted_grayscale(&mut data);
    // 76.245 -> 76, 149.685 -> 150, 2.99 + 11.74 + 3.42 = 18.15 -> 18.
    assert_eq!(data, vec![76, 76, 76, 7, 150, 150, 150, 8, 18, 18, 18, 9]);
}

#[test]
fn add_sums() {
    assert_eq!(add(2, 3), 5);
    assert_eq!(add(-7, 3), -4);
}
