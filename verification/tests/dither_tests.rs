use rip::dither::floyd_steinberg;

#[test]
fn all_white_stays_white() {
    let mut pixels = vec![255u8; 4 * 4];
    floyd_steinberg(&mut pixels, 4, 4);
    assert!(pixels.iter().all(|&p| p == 255));
}

#[test]
fn all_black_stays_black() {
    let mut pixels = vec![0u8; 4 * 4];
    floyd_steinberg(&mut pixels, 4, 4);
    assert!(pixels.iter().all(|&p| p == 0));
}

#[test]
fn output_is_binary() {
    // 50% gray should produce a mix of 0s and 255s
    let mut pixels = vec![128u8; 8 * 8];
    floyd_steinberg(&mut pixels, 8, 8);
    assert!(pixels.iter().all(|&p| p == 0 || p == 255));
    // Should have roughly half black and half white
    let black_count = pixels.iter().filter(|&&p| p == 0).count();
    assert!(black_count > 16 && black_count < 48, "Expected ~32 black pixels, got {}", black_count);
}

#[test]
fn gradient_preserves_density() {
    // A gradient from black to white should have decreasing black pixel density
    let mut pixels = Vec::with_capacity(256 * 1);
    for x in 0..256 {
        pixels.push(x as u8);
    }
    floyd_steinberg(&mut pixels, 256, 1);
    assert!(pixels.iter().all(|&p| p == 0 || p == 255));

    // Left side (dark) should have more black pixels than right side (bright)
    let left_black = pixels[..128].iter().filter(|&&p| p == 0).count();
    let right_black = pixels[128..].iter().filter(|&&p| p == 0).count();
    assert!(left_black > right_black, "Left ({left_black}) should have more black than right ({right_black})");
}

#[test]
fn dither_empty_image_is_untouched() {
    let mut pixels: Vec<u8> = Vec::new();
    floyd_steinberg(&mut pixels, 0, 5);
    assert!(pixels.is_empty());
}

#[test]
fn dither_single_pixels_round_to_nearest() {
    let mut dark = vec![100u8];
    floyd_steinberg(&mut dark, 1, 1);
    assert_eq!(dark, vec![0]);
    let mut light = vec![200u8];
    floyd_steinberg(&mut light, 1, 1);
    assert_eq!(light, vec![255]);
}

#[test]
fn first_pixel_is_plain_threshold() {
    for first in [0u8, 100, 127, 128, 200, 255] {
        let mut pixels = vec![first, 90, 180, 60];
        floyd_steinberg(&mut pixels, 2, 2);
        assert_eq!(pixels[0], if first < 128 { 0 } else { 255 });
    }
}
