use image_contours::bmp::{decode_bmp, encode_bmp, BMPImage, BmpError};

fn le32(v: u32) -> [u8; 4] {
    v.to_le_bytes()
}

/// A 2 x 2 file with a 30-byte header; rows stored bottom-up, padded to 8 bytes.
fn two_by_two() -> Vec<u8> {
    let mut b = vec![0u8; 30];
    b[0] = b'B';
    b[1] = b'M';
    b[10..14].copy_from_slice(&le32(30));
    b[18..22].copy_from_slice(&le32(2));
    b[22..26].copy_from_slice(&le32(2));
    b[28] = 24;
    // bottom row: (B,G,R) = (1,2,3), (4,5,6), padding
    b.extend_from_slice(&[1, 2, 3, 4, 5, 6, 0, 0]);
    // top row
    b.extend_from_slice(&[7, 8, 9, 10, 11, 12, 0, 0]);
    b
}

#[test]
fn decode_flips_rows_and_channels() {
    let img = decode_bmp(&two_by_two()).unwrap();
    assert_eq!((img.width, img.height, img.pixel_offset), (2, 2, 30));
    assert_eq!(img.data, vec![9, 8, 7, 12, 11, 10, 3, 2, 1, 6, 5, 4]);
    assert_eq!(img.header, two_by_two()[..30].to_vec());
}

#[test]
fn encode_round_trips_the_file() {
    let bytes = two_by_two();
    let img = decode_bmp(&bytes).unwrap();
    assert_eq!(encode_bmp(&img), bytes);
}

#[test]
fn encode_pads_rows_with_zeros() {
    let img = BMPImage { width: 1, height: 1, data: vec![1, 2, 3], header: vec![9], pixel_offset: 1 };
    assert_eq!(encode_bmp(&img), vec![9, 3, 2, 1, 0]);
}

#[test]
fn decode_errors() {
    assert_eq!(decode_bmp(&vec![b'B']).err(), Some(BmpError::NotBmp));
    let mut wrong = two_by_two();
    wrong[1] = b'X';
    assert_eq!(decode_bmp(&wrong).err(), Some(BmpError::NotBmp));
    assert_eq!(decode_bmp(&two_by_two()[..20].to_vec()).err(), Some(BmpError::Truncated));
    let mut deep = two_by_two();
    deep[28] = 32;
    assert_eq!(decode_bmp(&deep).err(), Some(BmpError::Unsupported));
    let mut negative = two_by_two();
    negative[18..22].copy_from_slice(&(-2i32).to_le_bytes());
    assert_eq!(decode_bmp(&negative).err(), Some(BmpError::TooLarge));
    // The last row needs no padding, but its pixels must be there.
    assert!(decode_bmp(&two_by_two()[..44].to_vec()).is_ok());
    assert_eq!(decode_bmp(&two_by_two()[..43].to_vec()).err(), Some(BmpError::Truncated));
}

#[test]
fn encode_ignores_bytes_past_the_pixels() {
    let img = BMPImage { width: 1, height: 1, data: vec![1, 2, 3, 4, 5], header: vec![], pixel_offset: 0 };
    assert_eq!(encode_bmp(&img), vec![3, 2, 1, 0]);
}
