use pdf_merge::pixels::convert_rgba_to_rgb_with_white_bg;

fn blended(c: u8, a: u8) -> u8 {
    convert_rgba_to_rgb_with_white_bg(&[c, c, c, a])[0]
}

fn blended_in_single_precision(c: u8, a: u8) -> u8 {
    let alpha = a as f32 / 255.0;
    (c as f32 * alpha + 255.0 * (1.0 - alpha)) as u8
}

#[test]
fn opaque_pixels_keep_their_colour() {
    let rgba = [10, 20, 30, 255, 0, 128, 255, 255];
    assert_eq!(convert_rgba_to_rgb_with_white_bg(&rgba), vec![10, 20, 30, 0, 128, 255]);
}

#[test]
fn transparent_pixels_become_white() {
    let rgba = [10, 20, 30, 0, 0, 0, 0, 0];
    assert_eq!(convert_rgba_to_rgb_with_white_bg(&rgba), vec![255, 255, 255, 255, 255, 255]);
}

#[test]
fn blending_gives_the_bytes_of_single_precision_arithmetic() {
    for c in 0..=255u8 {
        for a in 0..=255u8 {
            assert_eq!(blended(c, a), blended_in_single_precision(c, a), "c = {}, a = {}", c, a);
        }
    }
}

#[test]
fn blending_gives_known_values() {
    assert_eq!(blended(200, 100), 233);
    assert_eq!(blended(10, 200), 62);
    assert_eq!(blended(10, 100), 158);
    assert_eq!(blended(128, 128), 191);
    assert_eq!(blended(1, 1), 254);
    assert_eq!(blended(254, 254), 254);
}

#[test]
fn blending_rounds_as_single_precision_does() {
    // The exact value is 127 and 1/255; 255 · (1 − 128/255) falls just short
    // of 127 in single precision.
    assert_eq!(blended(0, 128), 126);
    // The exact values are 190, 255 and 185.
    assert_eq!(blended(0, 65), 189);
    assert_eq!(blended(255, 65), 254);
    assert_eq!(blended(17, 75), 184);
}

#[test]
fn blending_stays_within_one_of_the_exact_weighted_mean() {
    for c in 0..=255u32 {
        for a in 0..=255u32 {
            let exact = (c * a + 255 * (255 - a)) / 255;
            let b = blended(c as u8, a as u8) as u32;
            assert!(b == exact || b + 1 == exact, "c = {}, a = {}", c, a);
        }
    }
}

#[test]
fn channels_of_a_pixel_are_blended_separately() {
    assert_eq!(convert_rgba_to_rgb_with_white_bg(&[200, 10, 255, 100]), vec![233, 158, 255]);
}

#[test]
fn bytes_after_the_last_whole_pixel_are_dropped() {
    assert_eq!(convert_rgba_to_rgb_with_white_bg(&[1, 2, 3, 255, 9, 9]), vec![1, 2, 3]);
    assert_eq!(convert_rgba_to_rgb_with_white_bg(&[1, 2, 3]), Vec::<u8>::new());
}

#[test]
fn no_pixels_give_no_bytes() {
    assert_eq!(convert_rgba_to_rgb_with_white_bg(&[]), Vec::<u8>::new());
}

#[test]
fn three_bytes_come_out_for_every_four() {
    let rgba = vec![7u8; 4 * 1000 + 3];
    assert_eq!(convert_rgba_to_rgb_with_white_bg(&rgba).len(), 3000);
}
