use psf_guard::union_find::find_root;
use psf_guard::accord_imaging::{BinaryDilation3x3, BlobCounter, ImageUtility, Median, NoBlurCannyEdgeDetector, SISThreshold};

#[test]
fn test_binary_dilation() {
    // The single set pixel is the centre of the 3x3 block checked below.
    let mut image = vec![
        0, 0, 0, 0, 0,
        0, 0, 0, 0, 0,
        0, 0, 255, 0, 0,
        0, 0, 0, 0, 0,
        0, 0, 0, 0, 0,
    ];

    let dilation = BinaryDilation3x3;
    dilation.apply_in_place(&mut image, 5, 5);

    assert_eq!(image[1 * 5 + 1], 255);
    assert_eq!(image[1 * 5 + 2], 255);
    assert_eq!(image[1 * 5 + 3], 255);
    assert_eq!(image[2 * 5 + 1], 255);
    assert_eq!(image[2 * 5 + 2], 255);
    assert_eq!(image[2 * 5 + 3], 255);
    assert_eq!(image[3 * 5 + 1], 255);
    assert_eq!(image[3 * 5 + 2], 255);
    assert_eq!(image[3 * 5 + 3], 255);
}

#[test]
fn test_median_filter() {
    let image = vec![
        0, 0, 0, 0, 0,
        0, 10, 20, 30, 0,
        0, 40, 255, 50, 0,
        0, 60, 70, 80, 0,
        0, 0, 0, 0, 0,
    ];

    let median = Median;
    let result = median.apply(&image, 5, 5);

    assert!(result[2 * 5 + 2] < 100);
}

#[test]
fn test_blob_counter() {
    let image = vec![
        0, 0, 0, 0, 0, 0, 0,
        0, 255, 255, 0, 0, 0, 0,
        0, 255, 255, 0, 0, 0, 0,
        0, 0, 0, 0, 255, 255, 0,
        0, 0, 0, 0, 255, 255, 0,
        0, 0, 0, 0, 0, 0, 0,
        0, 0, 0, 0, 0, 0, 0,
    ];

    let mut counter = BlobCounter::new();
    counter.process_image(&image, 7, 7);

    let blobs = counter.get_objects_information();
    assert_eq!(blobs.len(), 2);

    for blob in blobs {
        assert_eq!(blob.rectangle.width, 2);
        assert_eq!(blob.rectangle.height, 2);
        assert_eq!(blob.area, 4);
    }
}

#[test]
fn binary_dilation_of_pixel_in_second_row() {
    let mut image = vec![
        0, 0, 0, 0, 0,
        0, 0, 255, 0, 0,
        0, 0, 0, 0, 0,
        0, 0, 0, 0, 0,
        0, 0, 0, 0, 0,
    ];
    BinaryDilation3x3.apply_in_place(&mut image, 5, 5);
    let expected = vec![
        0, 255, 255, 255, 0,
        0, 255, 255, 255, 0,
        0, 255, 255, 255, 0,
        0, 0, 0, 0, 0,
        0, 0, 0, 0, 0,
    ];
    assert_eq!(image, expected);
}

#[test]
fn binary_dilation_sets_whole_window_and_clears_elsewhere() {
    let mut image = vec![0u8; 25];
    image[0] = 7;
    BinaryDilation3x3.apply_in_place(&mut image, 5, 5);
    let expected = vec![
        255, 255, 0, 0, 0,
        255, 255, 0, 0, 0,
        0, 0, 0, 0, 0,
        0, 0, 0, 0, 0,
        0, 0, 0, 0, 0,
    ];
    assert_eq!(image, expected);
}

#[test]
fn binary_dilation_leaves_entries_past_the_grid() {
    let mut image = vec![0u8, 9, 0, 0, 42, 0];
    BinaryDilation3x3.apply_in_place(&mut image, 2, 2);
    assert_eq!(image, vec![255, 255, 255, 255, 42, 0]);
}

#[test]
fn median_is_middle_of_sorted_window() {
    let image = vec![
        0, 0, 0, 0, 0,
        0, 10, 20, 30, 0,
        0, 40, 255, 50, 0,
        0, 60, 70, 80, 0,
        0, 0, 0, 0, 0,
    ];
    let result = Median.apply(&image, 5, 5);
    assert_eq!(result[2 * 5 + 2], 50);
    // Corner window: 0, 0, 0, 10 -> sorted [0, 0, 0, 10], position 2.
    assert_eq!(result[0], 0);
    // Top edge window of (2, 0): 0 0 0 / 10 20 30 -> sorted position 3 is 10.
    assert_eq!(result[2], 10);
}

#[test]
fn convert_16bpp_keeps_high_byte() {
    let data = vec![0u16, 255, 256, 0x1234, 0xffff];
    assert_eq!(ImageUtility::convert_16bpp_to_8bpp(&data), vec![0, 0, 1, 0x12, 0xff]);
}

#[test]
fn sis_threshold_uses_weighted_mean() {
    // Interior pixel (1, 1) has value 100 and weight max(|0 - 0|, |200 - 0|) = 200,
    // so the threshold is 100 and only the 200 entry exceeds it.
    let mut image = vec![
        0, 0, 0,
        0, 100, 0,
        0, 200, 0,
    ];
    SISThreshold.apply_in_place(&mut image, 3, 3);
    assert_eq!(image, vec![0, 0, 0, 0, 0, 0, 0, 255, 0]);
}

#[test]
fn sis_threshold_is_zero_without_gradients() {
    let mut image = vec![5u8, 0, 5, 0, 5, 0];
    SISThreshold.apply_in_place(&mut image, 2, 3);
    assert_eq!(image, vec![255, 0, 255, 0, 255, 0]);
}

#[test]
fn blob_counter_uses_four_connectivity() {
    let image = vec![
        255, 0, 0,
        0, 255, 0,
        0, 0, 0,
    ];
    let mut counter = BlobCounter::new();
    counter.process_image(&image, 3, 3);
    let blobs = counter.get_objects_information();
    assert_eq!(blobs.len(), 2);
    assert!(blobs.iter().all(|b| b.area == 1 && b.rectangle.width == 1 && b.rectangle.height == 1));
    assert!(blobs[0].id < blobs[1].id);
}

#[test]
fn blob_counter_merges_u_shape() {
    // The two arms get different provisional labels that meet on the bottom row.
    let image = vec![
        1, 0, 1,
        1, 0, 1,
        1, 1, 1,
    ];
    let mut counter = BlobCounter::new();
    counter.process_image(&image, 3, 3);
    let blobs = counter.get_objects_information();
    assert_eq!(blobs.len(), 1);
    assert_eq!(blobs[0].area, 7);
    assert_eq!(blobs[0].rectangle.x, 0);
    assert_eq!(blobs[0].rectangle.y, 0);
    assert_eq!(blobs[0].rectangle.width, 3);
    assert_eq!(blobs[0].rectangle.height, 3);
}

#[test]
fn blob_counter_empty_image_has_no_blobs() {
    let mut counter = BlobCounter::new();
    counter.process_image(&[0u8; 12], 4, 3);
    assert!(counter.get_objects_information().is_empty());
    let edge = counter.get_blobs_edge_points(&psf_guard::accord_imaging::Blob {
        rectangle: psf_guard::accord_imaging::Rectangle { x: 0, y: 0, width: 1, height: 1 },
        id: 1,
        area: 1,
    });
    assert!(edge.is_empty());
}

#[test]
fn canny_without_blur_on_flat_image_finds_no_edges() {
    let mut image = vec![80u8; 25];
    NoBlurCannyEdgeDetector::new(10, 80).apply_in_place(&mut image, 5, 5);
    assert!(image.iter().all(|&p| p == 0));
}

#[test]
fn canny_without_blur_marks_a_strong_step() {
    // A vertical step from 0 to 200 between columns 1 and 2 of a 5x5 image.
    let mut image = vec![
        0, 0, 200, 200, 200,
        0, 0, 200, 200, 200,
        0, 0, 200, 200, 200,
        0, 0, 200, 200, 200,
        0, 0, 200, 200, 200,
    ];
    NoBlurCannyEdgeDetector::new(10, 80).apply_in_place(&mut image, 5, 5);
    // Border pixels never carry a gradient.
    for x in 0..5 {
        assert_eq!(image[x], 0);
        assert_eq!(image[20 + x], 0);
    }
    // The interior pixels next to the step are strong edges.
    for y in 1..4 {
        assert_eq!(image[y * 5 + 1], 255);
        assert_eq!(image[y * 5 + 2], 255);
        assert_eq!(image[y * 5 + 3], 0);
    }
}

#[test]
fn root_of_a_chain_beside_a_cycle() {
    let map = vec![0u32, 0, 3, 2, 1];
    assert_eq!(find_root(&map, 4), 0);
    assert_eq!(find_root(&map, 1), 0);
    assert_eq!(find_root(&map, 0), 0);
}
