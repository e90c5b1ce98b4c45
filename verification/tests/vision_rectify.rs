use mtg::vision::rectify::{crop, crop_artwork, GrayImage, RECTIFIED_HEIGHT, RECTIFIED_WIDTH};

#[test]
fn the_rectified_size_matches_scryfalls_normal_image() {
    let card_aspect_ratio: f32 = 63.0 / 88.0;
    assert_eq!(RECTIFIED_WIDTH, 488);
    assert_eq!(RECTIFIED_HEIGHT, 680);
    let ratio = RECTIFIED_WIDTH as f32 / RECTIFIED_HEIGHT as f32;
    assert!((ratio - card_aspect_ratio).abs() < 0.02, "{ratio}");
}

#[test]
fn the_artwork_crop_is_inset_from_the_card_edges() {
    let card = GrayImage::new(RECTIFIED_WIDTH, RECTIFIED_HEIGHT);
    let art = crop_artwork(&card.view());

    assert!(art.width < RECTIFIED_WIDTH);
    assert!(art.height < RECTIFIED_HEIGHT / 2, "art occupies the upper half");
    assert!(art.width > RECTIFIED_WIDTH / 2, "but is not a tiny sliver");
}

#[test]
fn the_artwork_crop_takes_the_region_it_claims() {
    let mut card = GrayImage::new(RECTIFIED_WIDTH, RECTIFIED_HEIGHT);
    let inside_y = (RECTIFIED_HEIGHT as f32 * 0.3) as u32;
    let outside_y = (RECTIFIED_HEIGHT as f32 * 0.8) as u32;
    for x in 0..RECTIFIED_WIDTH {
        card.pixels[(inside_y * RECTIFIED_WIDTH + x) as usize] = 200;
        card.pixels[(outside_y * RECTIFIED_WIDTH + x) as usize] = 200;
    }

    let art = crop_artwork(&card.view());
    let bright: u32 = art.pixels.iter().filter(|p| **p == 200).count() as u32;
    assert!(bright > 0 && bright < art.width * 2, "{bright} bright pixels");
}

#[test]
fn cropping_a_zero_sized_image_does_not_panic() {
    let empty = GrayImage::new(0, 0);
    let art = crop_artwork(&empty.view());
    assert_eq!(art.width, 1);
    assert_eq!(art.height, 1);
}

#[test]
fn the_art_window_of_a_standard_card() {
    // 9% to 91% of 488 is 43 to 444; 11% to 56% of 680 is 74 to 380.
    let card = GrayImage::new(RECTIFIED_WIDTH, RECTIFIED_HEIGHT);
    let art = crop_artwork(&card.view());
    assert_eq!(art.width, 444 - 43);
    assert_eq!(art.height, 380 - 74);
}

#[test]
fn a_crop_copies_its_region_and_clamps_past_the_edge() {
    let mut image = GrayImage::new(3, 2);
    image.pixels = vec![1, 2, 3, 4, 5, 6];
    let part = crop(&image.view(), 1, 0, 3, 2);
    assert_eq!(part.pixels, vec![2, 3, 3, 5, 6, 6]);
}
