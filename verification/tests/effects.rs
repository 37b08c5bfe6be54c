use photon_rs::effects::{
    adjust_contrast, colorize, halftone, horizontal_strips, inc_brightness, kuwahara,
    multiple_offsets, offset, offset_blue, offset_green, offset_red, primary, solarize,
    solarize_retimg, tint, vertical_strips,
};
use photon_rs::PhotonImage;

/// A `w x h` image whose pixel `(x, y)` is produced by `f(x, y)`.
fn image_from(w: u32, h: u32, f: impl Fn(u32, u32) -> [u8; 4]) -> PhotonImage {
    let mut pixels = Vec::new();
    for y in 0..h {
        for x in 0..w {
            pixels.extend_from_slice(&f(x, y));
        }
    }
    PhotonImage::new(pixels, w, h)
}

fn pixel(img: &PhotonImage, x: u32, y: u32) -> [u8; 4] {
    let i = (4 * (y * img.width + x)) as usize;
    [
        img.raw_pixels[i],
        img.raw_pixels[i + 1],
        img.raw_pixels[i + 2],
        img.raw_pixels[i + 3],
    ]
}

#[test]
fn solarize_rule_values() {
    // Red 50 reflects to 150; 200 and 210 are kept (200 - r is not positive).
    let mut img = image_from(3, 1, |x, _| [[50, 1, 2, 3], [200, 4, 5, 6], [210, 7, 8, 9]][x as usize]);
    solarize(&mut img);
    assert_eq!(pixel(&img, 0, 0), [150, 1, 2, 3]);
    assert_eq!(pixel(&img, 1, 0), [200, 4, 5, 6]);
    assert_eq!(pixel(&img, 2, 0), [210, 7, 8, 9]);
}

#[test]
fn solarize_retimg_matches_and_keeps_source() {
    let img = image_from(2, 2, |x, y| [(60 * (x + y)) as u8, 10, 20, 30]);
    let before = img.raw_pixels.clone();
    let out = solarize_retimg(&img);
    assert_eq!(img.raw_pixels, before);
    assert_eq!(out.width, 2);
    assert_eq!(out.height, 2);
    assert_eq!(pixel(&out, 0, 0), [200, 10, 20, 30]);
    assert_eq!(pixel(&out, 1, 0), [140, 10, 20, 30]);
    assert_eq!(pixel(&out, 1, 1), [80, 10, 20, 30]);
}

#[test]
fn brightness_zero_is_identity() {
    let mut img = image_from(3, 2, |x, y| [x as u8, y as u8, (x + y) as u8, 200]);
    let before = img.raw_pixels.clone();
    inc_brightness(&mut img, 0);
    assert_eq!(img.raw_pixels, before);
}

#[test]
fn brightness_all_black_end_to_end() {
    // A 4 x 4 all-black image brightened by 100 turns every pixel
    // (100, 100, 100) with its alpha kept.
    let mut img = image_from(4, 4, |x, y| [0, 0, 0, (x + 4 * y) as u8]);
    inc_brightness(&mut img, 100);
    for y in 0..4 {
        for x in 0..4 {
            assert_eq!(pixel(&img, x, y), [100, 100, 100, (x + 4 * y) as u8]);
        }
    }
}

#[test]
fn brightness_saturates() {
    let mut img = image_from(1, 1, |_, _| [200, 155, 156, 7]);
    inc_brightness(&mut img, 100);
    assert_eq!(pixel(&img, 0, 0), [255, 255, 255, 7]);
}

#[test]
fn offset_zero_is_identity() {
    let mut img = image_from(12, 12, |x, y| [(x + y) as u8, x as u8, y as u8, 255]);
    let before = img.raw_pixels.clone();
    offset(&mut img, 0, 0);
    assert_eq!(img.raw_pixels, before);
    offset(&mut img, 1, 0);
    assert_eq!(img.raw_pixels, before);
    offset(&mut img, 2, 0);
    assert_eq!(img.raw_pixels, before);
}

#[test]
fn offset_copies_inside_margin() {
    // On a 12 x 12 image only x, y in [0, 2) are visited; with offset 1 the
    // red channel copies from one pixel right and down.
    let mut img = image_from(12, 12, |x, y| [(10 * x + y) as u8, x as u8, y as u8, 9]);
    offset_red(&mut img, 1);
    assert_eq!(pixel(&img, 0, 0), [11, 0, 0, 9]);
    assert_eq!(pixel(&img, 1, 1), [22, 1, 1, 9]);
    // Outside the two-column margin nothing changes.
    assert_eq!(pixel(&img, 2, 2), [22, 2, 2, 9]);
    assert_eq!(pixel(&img, 11, 11), [121, 11, 11, 9]);
}

#[test]
fn offset_green_and_blue_touch_their_channel() {
    let mut img = image_from(12, 12, |x, y| [x as u8, (10 * x + y) as u8, (x + 100 * y) as u8, 1]);
    offset_green(&mut img, 1);
    assert_eq!(pixel(&img, 0, 0), [0, 11, 0, 1]);
    let mut img2 = image_from(12, 12, |x, y| [x as u8, (10 * x + y) as u8, (x + 10 * y) as u8, 1]);
    offset_blue(&mut img2, 1);
    assert_eq!(pixel(&img2, 0, 0), [0, 0, 11, 1]);
}

#[test]
fn multiple_offsets_copies_both_channels() {
    // 4 x 4, offset 1, red copies from the right, green from the left.
    let mut img = image_from(4, 4, |x, y| [(10 * (y * 4 + x)) as u8, (100 + y * 4 + x) as u8, 0, 5]);
    multiple_offsets(&mut img, 1, 0, 1);
    // Red guard: x + 1 < 3 and y + 1 < 3.
    assert_eq!(pixel(&img, 0, 0)[0], 10); // from (1, 0)
    assert_eq!(pixel(&img, 1, 1)[0], 60); // from (2, 1)
    assert_eq!(pixel(&img, 2, 0)[0], 20); // guard fails: kept
    // Green guard: x > 1 and y > 1. (2, 2) takes green of (1, 2); (3, 2)
    // then takes the rewritten (2, 2), so the original (1, 2) again.
    assert_eq!(pixel(&img, 2, 2)[1], 109);
    assert_eq!(pixel(&img, 3, 2)[1], 109);
    assert_eq!(pixel(&img, 1, 2)[1], 109);
}

#[test]
fn primary_collapses_to_first_pixel_thresholds() {
    // Every pixel collapses by the first pixel's channel values:
    // 200 > 128, 50 <= 128, 130 > 128.
    let mut img = image_from(2, 2, |x, y| {
        if x == 0 && y == 0 {
            [200, 50, 130, 40]
        } else {
            [1, 2, 3, 44]
        }
    });
    primary(&mut img);
    assert_eq!(pixel(&img, 0, 0), [255, 0, 255, 40]);
    assert_eq!(pixel(&img, 1, 0), [255, 0, 255, 44]);
    assert_eq!(pixel(&img, 1, 1), [255, 0, 255, 44]);
}

#[test]
fn colorize_near_and_far_from_cyan() {
    let mut img = image_from(2, 1, |x, _| {
        if x == 0 {
            [0, 255, 255, 17] // cyan itself: distance 0
        } else {
            [255, 0, 0, 18] // red: far beyond the threshold
        }
    });
    colorize(&mut img);
    // r and b halve, g grows by a quarter saturating at 255.
    assert_eq!(pixel(&img, 0, 0), [0, 255, 127, 17]);
    assert_eq!(pixel(&img, 1, 0), [255, 0, 0, 18]);
}

#[test]
fn colorize_scales_inside_threshold() {
    // (100, 200, 210): distance to cyan is 100^2 + 55^2 + 45^2 = 15050 < 48400.
    let mut img = image_from(1, 1, |_, _| [100, 200, 210, 3]);
    colorize(&mut img);
    // 100 / 2 = 50, 5 * 200 / 4 = 250, 210 / 2 = 105.
    assert_eq!(pixel(&img, 0, 0), [50, 250, 105, 3]);
}

#[test]
fn contrast_zero_is_identity() {
    let mut img = image_from(4, 1, |x, _| [(60 * x) as u8, 255 - (60 * x) as u8, 128, 9]);
    let before = img.raw_pixels.clone();
    adjust_contrast(&mut img, 0);
    assert_eq!(img.raw_pixels, before);
}

#[test]
fn contrast_exact_value() {
    // contrast 30: factor = 259 * 285 / (255 * 229); input 100 maps to
    // floor((100 - 128) * 73815 / 58395) + 128 = -36 + 128 = 92.
    let mut img = image_from(1, 1, |_, _| [100, 100, 100, 31]);
    adjust_contrast(&mut img, 30);
    assert_eq!(pixel(&img, 0, 0), [92, 92, 92, 31]);
}

#[test]
fn contrast_clamps_parameter() {
    let mut a = image_from(2, 1, |x, _| [(100 + x) as u8, 50, 200, 1]);
    let mut b = image_from(2, 1, |x, _| [(100 + x) as u8, 50, 200, 1]);
    adjust_contrast(&mut a, 300);
    adjust_contrast(&mut b, 255);
    assert_eq!(a.raw_pixels, b.raw_pixels);
}

#[test]
fn contrast_table_monotone_on_image() {
    // Increasing inputs stay non-decreasing through the lookup table.
    let mut img = image_from(16, 1, |x, _| [(16 * x) as u8, 0, 0, 0]);
    adjust_contrast(&mut img, 80);
    for x in 1..16 {
        assert!(pixel(&img, x - 1, 0)[0] <= pixel(&img, x, 0)[0]);
    }
}

#[test]
fn tint_adds_and_saturates() {
    let mut img = image_from(1, 1, |_, _| [250, 10, 20, 60]);
    tint(&mut img, 10, 245, 3);
    assert_eq!(pixel(&img, 0, 0), [255, 255, 23, 60]);
}

#[test]
fn tint_sum_at_exactly_255_saturates() {
    let mut img = image_from(1, 1, |_, _| [155, 0, 0, 0]);
    tint(&mut img, 100, 0, 0);
    assert_eq!(pixel(&img, 0, 0)[0], 255);
}

#[test]
fn halftone_writes_only_top_left() {
    // 2 x 2 white/black/black/white: the average saturation is 127.5, in
    // the band above 95, so the one committed pixel — the top-left — turns
    // white; the other three keep their values.
    let mut img = image_from(2, 2, |x, y| {
        if (x + y) % 2 == 0 {
            [255, 255, 255, 80]
        } else {
            [0, 0, 0, 81]
        }
    });
    halftone(&mut img);
    assert_eq!(pixel(&img, 0, 0), [255, 255, 255, 80]);
    assert_eq!(pixel(&img, 1, 0), [0, 0, 0, 81]);
    assert_eq!(pixel(&img, 0, 1), [0, 0, 0, 81]);
    assert_eq!(pixel(&img, 1, 1), [255, 255, 255, 80]);
}

#[test]
fn halftone_dark_block_goes_black() {
    let mut img = image_from(2, 2, |_, _| [50, 50, 50, 2]);
    halftone(&mut img);
    assert_eq!(pixel(&img, 0, 0), [0, 0, 0, 2]);
    assert_eq!(pixel(&img, 1, 1), [50, 50, 50, 2]);
}

#[test]
fn halftone_skips_trailing_odd_column() {
    let mut img = image_from(3, 2, |_, _| [255, 255, 255, 1]);
    halftone(&mut img);
    // Column 2 anchors no complete block and is untouched.
    assert_eq!(pixel(&img, 2, 0), [255, 255, 255, 1]);
    assert_eq!(pixel(&img, 2, 1), [255, 255, 255, 1]);
}

#[test]
fn strips_one_is_identity() {
    let mut img = image_from(5, 7, |x, y| [x as u8, y as u8, 0, 200]);
    let before = img.raw_pixels.clone();
    horizontal_strips(&mut img, 1);
    assert_eq!(img.raw_pixels, before);
    vertical_strips(&mut img, 1);
    assert_eq!(img.raw_pixels, before);
}

#[test]
fn horizontal_strips_paint_middle_band() {
    // 4 x 3 with two strips: three bands of height one; the middle row
    // turns white, alpha included.
    let mut img = image_from(4, 3, |_, _| [1, 2, 3, 4]);
    horizontal_strips(&mut img, 2);
    for x in 0..4 {
        assert_eq!(pixel(&img, x, 0), [1, 2, 3, 4]);
        assert_eq!(pixel(&img, x, 1), [255, 255, 255, 255]);
        assert_eq!(pixel(&img, x, 2), [1, 2, 3, 4]);
    }
}

#[test]
fn vertical_strips_paint_middle_band() {
    let mut img = image_from(3, 4, |_, _| [1, 2, 3, 4]);
    vertical_strips(&mut img, 2);
    for y in 0..4 {
        assert_eq!(pixel(&img, 0, y), [1, 2, 3, 4]);
        assert_eq!(pixel(&img, 1, y), [255, 255, 255, 255]);
        assert_eq!(pixel(&img, 2, y), [1, 2, 3, 4]);
    }
}

#[test]
fn horizontal_strips_leave_remainder_rows() {
    // Height 7 with two strips: band height 2, rows 2 and 3 painted, the
    // remainder row 6 untouched.
    let mut img = image_from(2, 7, |_, _| [9, 9, 9, 9]);
    horizontal_strips(&mut img, 2);
    assert_eq!(pixel(&img, 0, 1), [9, 9, 9, 9]);
    assert_eq!(pixel(&img, 0, 2), [255, 255, 255, 255]);
    assert_eq!(pixel(&img, 0, 3), [255, 255, 255, 255]);
    assert_eq!(pixel(&img, 0, 4), [9, 9, 9, 9]);
    assert_eq!(pixel(&img, 0, 6), [9, 9, 9, 9]);
}

#[test]
fn kuwahara_zero_is_identity() {
    let mut img = image_from(3, 3, |x, y| [(x * 37) as u8, (y * 53) as u8, (x * y) as u8, 77]);
    let before = img.raw_pixels.clone();
    kuwahara(&mut img, 0);
    assert_eq!(img.raw_pixels, before);
}

#[test]
fn kuwahara_single_window_averages() {
    // 2 x 2 with extent 1: the only window is the whole image, so every
    // pixel takes the rounded-down channel means; alpha is kept.
    let vals = [[10u8, 20, 30, 1], [20, 40, 60, 2], [30, 60, 90, 3], [40, 81, 121, 4]];
    let mut img = image_from(2, 2, |x, y| vals[(y * 2 + x) as usize]);
    kuwahara(&mut img, 1);
    // Means: r 100/4 = 25, g 201/4 = 50, b 301/4 = 75.
    assert_eq!(pixel(&img, 0, 0), [25, 50, 75, 1]);
    assert_eq!(pixel(&img, 1, 0), [25, 50, 75, 2]);
    assert_eq!(pixel(&img, 0, 1), [25, 50, 75, 3]);
    assert_eq!(pixel(&img, 1, 1), [25, 50, 75, 4]);
}

#[test]
fn kuwahara_prefers_flat_window() {
    // 4 x 2, extent 1: windows are 2 x 2. The left window is perfectly
    // flat, the others vary, so pixel (1, 1) — touched by windows at
    // anchors (0, 0) and (1, 0) — takes the flat left window's mean.
    let mut img = image_from(4, 2, |x, _| {
        if x < 2 {
            [100, 100, 100, 5]
        } else {
            [0, 200, 0, 5]
        }
    });
    kuwahara(&mut img, 1);
    assert_eq!(pixel(&img, 1, 1), [100, 100, 100, 5]);
    assert_eq!(pixel(&img, 0, 0), [100, 100, 100, 5]);
}

#[test]
fn empty_image_effects_are_no_ops() {
    let mut img = PhotonImage::new(Vec::new(), 0, 0);
    solarize(&mut img);
    inc_brightness(&mut img, 10);
    tint(&mut img, 1, 2, 3);
    colorize(&mut img);
    adjust_contrast(&mut img, 10);
    halftone(&mut img);
    multiple_offsets(&mut img, 3, 0, 2);
    kuwahara(&mut img, 0);
    assert_eq!(img.raw_pixels.len(), 0);
    assert_eq!(img.width, 0);
    assert_eq!(img.height, 0);
}
