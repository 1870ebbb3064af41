use psf_guard::hocus_focus_star_detection::{apply_erosion, bool_to_u8, u8_to_bool};
use psf_guard::opencv_morphology::{MorphKernelType, OpenCVMorphology};

#[test]
fn test_morphology_operations() {
    let mut image = vec![0u8; 25];

    image[12] = 255;

    let morph = OpenCVMorphology::new_ellipse(3);

    morph.dilate_in_place(&mut image, 5, 5).unwrap();

    assert!(image[12] == 255);
}

#[test]
fn test_hot_pixel_filtering() {
    let mut image = vec![0u8; 25];

    image[2] = 255;
    image[11] = 255;
    image[12] = 255;
    image[13] = 255;

    let morph = OpenCVMorphology::new_ellipse(3);
    morph.hot_pixel_filter_in_place(&mut image, 5, 5).unwrap();

    assert!(image[12] == 255);
}

#[test]
fn opening_removes_a_lone_pixel_and_erosion_shrinks() {
    let mut base = vec![0u8; 25];
    base[12] = 255;
    let morph = OpenCVMorphology::new_rectangle(5);
    assert_eq!(morph.kernel_size(), 5);
    assert_eq!(morph.kernel_type(), MorphKernelType::Rectangle);
    let mut opened = base.clone();
    OpenCVMorphology::new_ellipse(3).opening_in_place(&mut opened, 5, 5).unwrap();
    assert_eq!(opened, vec![0u8; 25]);

    let mut block = vec![0u8; 25];
    for i in [6, 7, 8, 11, 12, 13, 16, 17, 18] {
        block[i] = 255;
    }
    let mut eroded = block.clone();
    OpenCVMorphology::new_ellipse(3).erode_in_place(&mut eroded, 5, 5).unwrap();
    assert_eq!(eroded, base);
    let mut kept = block.clone();
    OpenCVMorphology::new_ellipse(3).opening_in_place(&mut kept, 5, 5).unwrap();
    let mut cross = vec![0u8; 25];
    for i in [7, 11, 12, 13, 17] {
        cross[i] = 255;
    }
    assert_eq!(kept, cross);
}

#[test]
fn closing_fills_a_gap_and_kernels_differ() {
    let mut gap = vec![0u8; 25];
    gap[11] = 255;
    gap[13] = 255;
    let mut closed = gap.clone();
    OpenCVMorphology::new_rectangle(3).closing_in_place(&mut closed, 5, 5).unwrap();
    assert_eq!((closed[11], closed[12], closed[13], closed[0]), (255, 255, 255, 0));

    let mut square = vec![0u8; 25];
    square[12] = 255;
    let mut plus = square.clone();
    OpenCVMorphology::new_rectangle(3).dilate_in_place(&mut square, 5, 5).unwrap();
    OpenCVMorphology::new_ellipse(3).dilate_in_place(&mut plus, 5, 5).unwrap();
    assert_eq!((square[6], square[7]), (255, 255));
    assert_eq!((plus[6], plus[7], plus[11]), (0, 255, 255));

    let mut wide = vec![0u8; 49];
    wide[24] = 255;
    OpenCVMorphology::new_ellipse(5).dilate_in_place(&mut wide, 7, 7).unwrap();
    assert_eq!((wide[10], wide[8], wide[22], wide[16]), (255, 0, 255, 255));
}

#[test]
fn erosion_of_a_binary_map() {
    let mut map = vec![false; 9];
    map[4] = true;
    assert_eq!(apply_erosion(&map, 3, 3).unwrap(), vec![false; 9]);
    assert_eq!(apply_erosion(&[true; 9], 3, 3).unwrap(), vec![true; 9]);
    let mut plus = vec![false; 9];
    for i in [1, 3, 4, 5, 7] {
        plus[i] = true;
    }
    let mut centre = vec![false; 9];
    centre[4] = true;
    assert_eq!(apply_erosion(&plus, 3, 3).unwrap(), centre);
}

#[test]
fn binary_maps_round_trip() {
    let map = vec![true, false, false, true];
    let bytes = bool_to_u8(&map);
    assert_eq!(bytes, vec![255, 0, 0, 255]);
    assert_eq!(u8_to_bool(&bytes), map);
    assert_eq!(u8_to_bool(&[127, 128, 0, 255]), vec![false, true, false, true]);
}
