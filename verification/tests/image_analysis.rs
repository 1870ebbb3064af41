use psf_guard::image_analysis::{samples_from_i32, samples_from_u32, FitsImage};

#[test]
fn eight_bit_conversion() {
    let img = FitsImage { width: 2, height: 1, bit_depth: 16, data: vec![0x0fff, 0x8000] };
    assert_eq!(img.convert_to_8bit(), vec![0x0f, 0x80]);
}

#[test]
fn binomial_blur_keeps_border() {
    let data = vec![
        16, 16, 16,
        16, 32, 16,
        16, 16, 16,
    ];
    let r = FitsImage::gaussian_blur_3x3(&data, 3, 3);
    // (16 * 12 + 32 * 4) / 16 = 20 at the centre; border copied.
    assert_eq!(r, vec![16, 16, 16, 16, 20, 16, 16, 16, 16]);
}

#[test]
fn blur_clears_entries_past_the_grid() {
    let data = vec![1u8, 2, 3];
    assert_eq!(FitsImage::gaussian_blur_3x3(&data, 1, 2), vec![1, 2, 0]);
}

#[test]
fn interior_dilation() {
    let data = vec![
        0, 0, 0, 0,
        0, 0, 0, 0,
        0, 0, 0, 9,
        0, 0, 0, 0,
    ];
    let r = FitsImage::binary_dilation_3x3(&data, 4, 4);
    assert_eq!(r, vec![
        0, 0, 0, 0,
        0, 0, 255, 0,
        0, 0, 255, 0,
        0, 0, 0, 0,
    ]);
}

#[test]
fn flood_fill_groups_eight_connected_pixels() {
    let img = vec![
        1, 0, 0, 1,
        0, 1, 0, 1,
        0, 0, 0, 0,
        1, 0, 0, 0,
    ];
    let blobs = FitsImage::find_blobs(&img, 4, 4);
    assert_eq!(blobs.len(), 3);
    assert_eq!(blobs[0].pixels, vec![(0, 0), (1, 1)]);
    assert_eq!((blobs[0].bounds.x, blobs[0].bounds.y, blobs[0].bounds.width, blobs[0].bounds.height), (0, 0, 1, 1));
    assert_eq!(blobs[1].pixels, vec![(3, 0), (3, 1)]);
    assert_eq!((blobs[1].bounds.x, blobs[1].bounds.y, blobs[1].bounds.width, blobs[1].bounds.height), (3, 0, 0, 1));
    assert_eq!(blobs[2].pixels, vec![(0, 3)]);
    assert_eq!((blobs[2].bounds.x, blobs[2].bounds.y, blobs[2].bounds.width, blobs[2].bounds.height), (0, 3, 0, 0));
}

#[test]
fn flood_fill_breadth_first_order() {
    let img = vec![
        1, 1, 1,
        1, 0, 0,
        1, 0, 0,
    ];
    let blobs = FitsImage::find_blobs(&img, 3, 3);
    assert_eq!(blobs.len(), 1);
    assert_eq!(blobs[0].pixels, vec![(0, 0), (1, 0), (0, 1), (2, 0), (0, 2)]);
    assert!(FitsImage::find_blobs(&[0u8; 4], 2, 2).is_empty());
}

#[test]
fn samples_and_image_records() {
    assert_eq!(samples_from_i32(&[Some(-32768), Some(0), Some(40000), Some(-40000), None]), vec![0, 32768, 65535, 0, 0]);
    assert_eq!(samples_from_u32(&[Some(5), Some(70000), None]), vec![5, 65535, 0]);
    let img = FitsImage::from_samples(2, 2, 16, vec![1, 2, 3, 4]).unwrap();
    assert_eq!(img.width, 2);
    assert_eq!(img.data, vec![1, 2, 3, 4]);
    assert_eq!(
        FitsImage::from_samples(2, 2, 16, vec![1, 2, 3]).err(),
        Some("Data size mismatch: expected 4 pixels, got 3".to_string())
    );
}
