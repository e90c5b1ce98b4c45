use mtg::vision::detect::{background_level, corners_of, foreground_mask, largest_region, DEFAULT_CONTRAST, WORKING_WIDTH};

/// A `width` by `height` frame of one shade with a rectangle of another.
fn frame(width: u32, height: u32, background: u8, rect: (u32, u32, u32, u32), value: u8) -> Vec<u8> {
    let mut pixels = vec![background; (width * height) as usize];
    let (x0, y0, w, h) = rect;
    for y in y0..y0 + h {
        for x in x0..x0 + w {
            pixels[(y * width + x) as usize] = value;
        }
    }
    pixels
}

#[test]
fn the_background_is_read_off_the_border() {
    let pixels = frame(40, 30, 128, (10, 8, 20, 14), 240);
    assert_eq!(background_level(&pixels, 40, 30), 128);
}

#[test]
fn the_background_is_the_median_so_a_bright_corner_does_not_drag_it() {
    // A 4x4 frame: the border band is one pixel wide, twelve samples. Three are bright.
    let mut pixels = vec![100u8; 16];
    pixels[0] = 250;
    pixels[1] = 250;
    pixels[4] = 250;
    assert_eq!(background_level(&pixels, 4, 4), 100);
    // Sorted samples [10, 20, 30, 40, ...]: the middle of four is the third.
    let pixels = vec![40, 10, 30, 20];
    assert_eq!(background_level(&pixels, 2, 2), 30);
}

#[test]
fn a_frame_with_no_pixels_has_a_black_background() {
    assert_eq!(background_level(&[], 0, 0), 0);
}

#[test]
fn the_mask_marks_what_stands_out_from_the_background() {
    let mask = foreground_mask(&[100, 124, 76, 123, 77, 255], 100, DEFAULT_CONTRAST);
    assert_eq!(mask, vec![false, true, true, false, false, true]);
    assert_eq!(WORKING_WIDTH, 320);
}

#[test]
fn the_largest_blob_wins_and_blobs_join_only_through_sides() {
    // 6 x 4: a blob of three at the left, a blob of four at the right, and a pixel touching
    // the right blob only at a corner.
    let mask = vec![
        true,  false, false, false, true,  true,
        true,  false, false, false, true,  true,
        true,  false, false, true,  false, false,
        false, false, false, false, false, false,
    ];
    let region = largest_region(&mask, 6, 4).expect("a region");
    let mut points = region.clone();
    points.sort();
    assert_eq!(points, vec![(4, 0), (4, 1), (5, 0), (5, 1)]);
    assert_eq!(region[0], (4, 0), "the fill starts from the blob's first pixel in scan order");
}

#[test]
fn equally_large_blobs_go_to_the_one_found_first() {
    let mask = vec![true, false, true, true, false, true];
    let region = largest_region(&mask, 3, 2).expect("a region");
    assert_eq!(region[0], (0, 0));
    assert_eq!(region.len(), 2);
}

#[test]
fn an_empty_mask_has_no_region() {
    assert!(largest_region(&[false; 12], 4, 3).is_none());
    assert!(largest_region(&[], 0, 0).is_none());
}

#[test]
fn the_corners_are_the_extreme_points_first_found() {
    let region = vec![(5, 5), (2, 3), (9, 3), (2, 8), (9, 8), (3, 2)];
    assert_eq!(corners_of(&region), [(2, 3), (9, 3), (9, 8), (2, 8)]);
    // (2, 3) and (3, 2) tie on x + y; the first found is kept.
    assert_eq!(corners_of(&[(4, 4)]), [(4, 4); 4]);
}
