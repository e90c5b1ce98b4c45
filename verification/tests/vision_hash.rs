use mtg::vision::hash::{hash_gray, rgba_to_gray, ArtHash, GrayView, HASH_BITS, HASH_BYTES};

fn gradient(width: u32, height: u32, reversed: bool) -> Vec<u8> {
    (0..height)
        .flat_map(|_| {
            (0..width).map(move |x| {
                let value = (x * 255 / width.max(1)) as u8;
                if reversed {
                    255 - value
                } else {
                    value
                }
            })
        })
        .collect()
}

fn noise(width: u32, height: u32, seed: u64) -> Vec<u8> {
    let mut state = seed;
    (0..width * height)
        .map(|_| {
            state = state.wrapping_mul(6_364_136_223_846_793_005).wrapping_add(1);
            (state >> 33) as u8
        })
        .collect()
}

#[test]
fn a_hash_is_two_hundred_and_fifty_six_bits() {
    assert_eq!(HASH_BITS, 256);
    assert_eq!(HASH_BYTES, 32);
}

#[test]
fn an_image_matches_itself_exactly() {
    let pixels = noise(200, 280, 7);
    let view = GrayView::new(&pixels, 200, 280).expect("view");
    let hash = hash_gray(&view);
    assert_eq!(hash.distance(&hash), 0);
    assert_eq!(hash, hash_gray(&view));
}

#[test]
fn two_different_images_are_far_apart() {
    let a = noise(200, 280, 1);
    let b = noise(200, 280, 2);
    let distance = hash_gray(&GrayView::new(&a, 200, 280).expect("a"))
        .distance(&hash_gray(&GrayView::new(&b, 200, 280).expect("b")));
    assert!(distance > 80, "unrelated images were {distance} bits apart");
}

#[test]
fn the_same_image_at_a_different_size_hashes_close() {
    let small = gradient(120, 168, false);
    let large = gradient(480, 672, false);
    let distance = hash_gray(&GrayView::new(&small, 120, 168).expect("small"))
        .distance(&hash_gray(&GrayView::new(&large, 480, 672).expect("large")));
    assert!(distance <= 8, "same image at two scales was {distance} bits apart");
}

#[test]
fn brightness_changes_barely_move_the_hash() {
    let base = noise(200, 280, 5);
    let brighter: Vec<u8> = base.iter().map(|p| p.saturating_add(40)).collect();

    let distance = hash_gray(&GrayView::new(&base, 200, 280).expect("base"))
        .distance(&hash_gray(&GrayView::new(&brighter, 200, 280).expect("brighter")));
    assert!(distance < 25, "a brightness shift moved {distance} bits");
}

#[test]
fn a_mirrored_image_hashes_differently() {
    let forward = gradient(200, 280, false);
    let reversed = gradient(200, 280, true);
    let distance = hash_gray(&GrayView::new(&forward, 200, 280).expect("a"))
        .distance(&hash_gray(&GrayView::new(&reversed, 200, 280).expect("b")));
    assert!(distance > 100, "a mirrored gradient was only {distance} bits away");
}

#[test]
fn a_flat_image_hashes_to_zero() {
    let flat = vec![128u8; 200 * 280];
    assert_eq!(hash_gray(&GrayView::new(&flat, 200, 280).expect("view")), ArtHash::zero());
}

#[test]
fn an_empty_or_undersized_buffer_is_handled_rather_than_panicking() {
    assert!(GrayView::new(&[], 100, 100).is_none());
    assert!(GrayView::new(&[0u8; 10], 100, 100).is_none());

    let empty = GrayView::new(&[], 0, 0).expect("zero-sized view is valid");
    assert_eq!(hash_gray(&empty), ArtHash::zero());
}

#[test]
fn hex_round_trips() {
    let pixels = noise(64, 64, 11);
    let hash = hash_gray(&GrayView::new(&pixels, 64, 64).expect("view"));

    let hex = hash.to_hex();
    assert_eq!(hex.len(), HASH_BYTES * 2);
    assert_eq!(ArtHash::from_hex(&hex), Some(hash));
}

#[test]
fn malformed_hex_is_rejected() {
    assert_eq!(ArtHash::from_hex(""), None);
    assert_eq!(ArtHash::from_hex("00"), None);
    assert_eq!(ArtHash::from_hex(&"z".repeat(HASH_BYTES * 2)), None);
}

#[test]
fn distance_is_symmetric_and_zero_only_for_equals() {
    let a = hash_gray(&GrayView::new(&noise(64, 64, 1), 64, 64).expect("a"));
    let b = hash_gray(&GrayView::new(&noise(64, 64, 2), 64, 64).expect("b"));

    assert_eq!(a.distance(&b), b.distance(&a));
    assert_eq!(a.distance(&a), 0);
    assert!(a.distance(&b) > 0);
    assert!(a.distance(&b) <= HASH_BITS as u32);
}

#[test]
fn rgba_conversion_weights_for_perceived_brightness() {
    let mut gray = Vec::new();
    rgba_to_gray(&[255, 0, 0, 255, 0, 255, 0, 255, 0, 0, 255, 255], &mut gray);

    assert_eq!(gray.len(), 3);
    assert!(gray[1] > gray[0], "green should read brightest");
    assert!(gray[0] > gray[2], "red should read brighter than blue");
}

#[test]
fn rgba_conversion_handles_a_truncated_buffer() {
    let mut gray = Vec::new();
    rgba_to_gray(&[255, 255, 255, 255, 1, 2, 3], &mut gray);
    assert_eq!(gray.len(), 1);
}

#[test]
fn grey_levels_are_the_weighted_sum() {
    let mut gray = vec![9, 9, 9];
    rgba_to_gray(&[255, 0, 0, 0, 0, 255, 0, 0, 0, 0, 255, 0, 255, 255, 255, 0], &mut gray);
    // 255·77/256, 255·150/256, 255·29/256 and white, rounded down; earlier contents are gone.
    assert_eq!(gray, vec![76, 149, 28, 255]);
}

#[test]
fn hex_is_lower_case_and_plus_signs_read_as_unsigned_numbers() {
    let mut bytes = [0u8; HASH_BYTES];
    bytes[0] = 0xab;
    bytes[31] = 0x0f;
    let hash = ArtHash(bytes);
    let hex = hash.to_hex();
    assert!(hex.starts_with("ab00"));
    assert!(hex.ends_with("0f"));
    assert_eq!(ArtHash::from_hex(&hex.to_uppercase()), Some(hash));
    let mut plus = hex.clone();
    plus.replace_range(62..64, "+f");
    assert_eq!(ArtHash::from_hex(&plus), Some(hash));
    assert_eq!(hash.as_bytes(), &bytes);
}

#[test]
fn a_view_reads_pixels_clamped_to_its_edges() {
    let pixels = [1u8, 2, 3, 4, 5, 6];
    let view = GrayView::new(&pixels, 3, 2).expect("view");
    assert_eq!(view.at(0, 0), 1);
    assert_eq!(view.at(2, 1), 6);
    assert_eq!(view.at(9, 0), 3);
    assert_eq!(view.at(0, 9), 4);
    assert!(!view.is_empty());
}
