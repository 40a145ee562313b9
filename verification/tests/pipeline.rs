use terminal_artist::ansi::{ansi256, bg, fg};
use terminal_artist::dither::quantize_plane;
use terminal_artist::glyphs::{resolve, PRESETS};
use terminal_artist::raster::{Image, Rgba};
use terminal_artist::scale::{downscale, is_line_art, min_pool, resize};
use terminal_artist::tone::{contrast_bounds, luminance, stretch};
use terminal_artist::ColorMode;

/// A luminance plane in 1/256 units from whole luminance levels.
fn lum(v: &[u8]) -> Vec<u16> {
    v.iter().map(|&x| x as u16 * 256).collect()
}

fn gray(v: u8) -> Rgba {
    Rgba { r: v, g: v, b: v, a: 255 }
}

#[test]
fn resolve_presets_and_custom() {
    assert_eq!(resolve("standard"), " .:-=+*#%@");
    assert_eq!(resolve("blocks"), " ░▒▓█");
    assert_eq!(resolve("binary"), " .#");
    assert_eq!(resolve("moon"), "🌑🌒🌓🌔🌕");
    assert_eq!(resolve("detailed").chars().count(), 70);
    assert_eq!(resolve("xyz"), "xyz");
    assert_eq!(resolve(""), "");
    for name in PRESETS {
        assert_ne!(resolve(name), name);
    }
}

#[test]
fn luminance_rec601() {
    assert_eq!(luminance(gray(0)), 0);
    assert_eq!(luminance(gray(255)), 255);
    assert_eq!(luminance(Rgba { r: 255, g: 0, b: 0, a: 0 }), 76);
    assert_eq!(luminance(Rgba { r: 0, g: 255, b: 0, a: 0 }), 149);
    assert_eq!(luminance(Rgba { r: 0, g: 0, b: 255, a: 0 }), 29);
    assert_eq!(luminance(gray(128)), 128);
}

#[test]
fn stretch_maps_range() {
    for l in 0..=255u8 {
        assert_eq!(stretch(l, (0, 255)), l);
    }
    assert_eq!(stretch(15, (10, 20)), 127);
    assert_eq!(stretch(5, (10, 20)), 0);
    assert_eq!(stretch(10, (10, 20)), 0);
    assert_eq!(stretch(20, (10, 20)), 255);
    assert_eq!(stretch(25, (10, 20)), 255);
}

fn ramp_image() -> Image {
    // 100 gray pixels of luma 0..99.
    let mut im = Image::new(10, 10);
    for y in 0..10u32 {
        for x in 0..10u32 {
            im.put_pixel(x, y, gray((y * 10 + x) as u8));
        }
    }
    im
}

#[test]
fn contrast_bounds_are_percentiles() {
    // 2% of 100 pixels is 2: the low bound skips one pixel, the high bound one.
    assert_eq!(contrast_bounds(&ramp_image()), (1, 98));
}

#[test]
fn contrast_bounds_fall_back_to_full_range() {
    let mut im = Image::new(10, 10);
    for y in 0..10 {
        for x in 0..10 {
            im.put_pixel(x, y, gray(128));
        }
    }
    assert_eq!(contrast_bounds(&im), (0, 255));
    assert_eq!(contrast_bounds(&Image::new(0, 0)), (0, 255));
}

#[test]
fn quantize_without_dither_rounds_to_nearest() {
    let out = quantize_plane(&lum(&[0, 128, 255, 64]), 4, 1, 3, false);
    assert_eq!(out, vec![0, 1, 2, 1]);
    // a single level: every cell is level 0, with or without dithering
    assert_eq!(quantize_plane(&lum(&[0, 200, 255]), 3, 1, 1, false), vec![0, 0, 0]);
    assert_eq!(quantize_plane(&lum(&[0, 200, 255]), 3, 1, 1, true), vec![0, 0, 0]);
}

#[test]
fn quantize_reads_the_first_cells_of_a_longer_plane() {
    let out = quantize_plane(&lum(&[0, 255, 128, 7, 9]), 2, 1, 2, false);
    assert_eq!(out, vec![0, 1]);
    assert!(quantize_plane(&lum(&[3, 4]), 0, 5, 2, true).is_empty());
}

#[test]
fn quantize_dither_carries_small_errors() {
    // The last cell collects 127.55 of luminance, past the midpoint 127.5.
    assert_eq!(quantize_plane(&lum(&[5, 0, 13, 120]), 2, 2, 2, true), vec![0, 0, 0, 1]);
    // Fractional tones count: 127.5 rounds up, 127.49 down.
    assert_eq!(quantize_plane(&vec![32640, 32637], 2, 1, 2, false), vec![1, 0]);
    // Anything above full white is full white.
    assert_eq!(quantize_plane(&vec![65535], 1, 1, 2, true), vec![1]);
}

#[test]
fn quantize_with_dither_diffuses_error() {
    // 128 rounds up to white; its error pushes the right neighbour to black.
    assert_eq!(quantize_plane(&lum(&[128, 128]), 2, 1, 2, true), vec![1, 0]);
    // A mid-gray 4×4 field becomes a checkered mix of both levels.
    let out = quantize_plane(&lum(&[128; 16]), 4, 4, 2, true);
    let on = out.iter().filter(|&&v| v == 1).count();
    assert!(on > 4 && on < 12);
}

#[test]
fn quantize_extremes_unchanged_by_dither() {
    let plane = lum(&[0, 255, 255, 0, 0, 255]);
    assert_eq!(
        quantize_plane(&plane, 3, 2, 10, true),
        quantize_plane(&plane, 3, 2, 10, false)
    );
    assert_eq!(quantize_plane(&plane, 3, 2, 10, true), vec![0, 9, 9, 0, 0, 9]);
}

#[test]
fn quantize_saturates_large_ramps() {
    assert_eq!(quantize_plane(&lum(&[255]), 1, 1, 1000, false), vec![255]);
}

#[test]
fn min_pool_keeps_darkest() {
    let mut im = Image::new(4, 4);
    for y in 0..4 {
        for x in 0..4 {
            im.put_pixel(x, y, gray(200));
        }
    }
    im.put_pixel(3, 2, gray(10));
    im.put_pixel(2, 3, gray(5));
    let out = min_pool(&im, 2, 2);
    assert_eq!(out.dimensions(), (2, 2));
    assert_eq!(out.get_pixel(0, 0), gray(200));
    assert_eq!(out.get_pixel(1, 1), gray(5));
    // zero sizes count as one
    assert_eq!(min_pool(&im, 0, 0).dimensions(), (1, 1));
    assert_eq!(min_pool(&im, 0, 0).get_pixel(0, 0), gray(5));
}

#[test]
fn resize_averages() {
    let mut im = Image::new(2, 2);
    im.put_pixel(0, 0, gray(0));
    im.put_pixel(1, 0, gray(255));
    im.put_pixel(0, 1, gray(0));
    im.put_pixel(1, 1, gray(255));
    let out = resize(&im, 1, 1);
    assert_eq!(out.dimensions(), (1, 1));
    let p = out.get_pixel(0, 0);
    assert!(p.r > 0 && p.r < 255);
    // same size is a copy
    let same = resize(&im, 2, 2);
    assert_eq!(same.as_raw(), im.as_raw());
}

#[test]
fn line_art_detection() {
    let mut flat = Image::new(4, 4);
    for y in 0..4 {
        for x in 0..4 {
            flat.put_pixel(x, y, gray(if x < 2 { 0 } else { 255 }));
        }
    }
    assert!(is_line_art(&flat));
    let mut photo = Image::new(16, 16);
    for y in 0..16u32 {
        for x in 0..16u32 {
            photo.put_pixel(x, y, gray((y * 16 + x) as u8));
        }
    }
    assert!(!is_line_art(&photo));
    assert!(!is_line_art(&Image::new(0, 0)));
    // detection picks pooling for flat art
    let small = downscale(&flat, 2, 2, None);
    assert_eq!(small.get_pixel(0, 0), gray(0));
}

#[test]
fn four_tones_are_line_art() {
    let tones = [10u8, 90, 170, 250];
    let mut img = Image::new(8, 8);
    for y in 0..8u32 {
        for x in 0..8u32 {
            img.put_pixel(x, y, gray(tones[((x + y) % 4) as usize]));
        }
    }
    assert!(is_line_art(&img));
    let mut five = Image::new(5, 1);
    for x in 0..5u32 {
        five.put_pixel(x, 0, gray((x * 60) as u8));
    }
    // five equally filled bins: the four fullest hold 80% > 75%
    assert!(is_line_art(&five));
    let mut six = Image::new(6, 1);
    for x in 0..6u32 {
        six.put_pixel(x, 0, gray((x * 50) as u8));
    }
    // six bins: the four fullest hold 66% < 75%
    assert!(!is_line_art(&six));
}

#[test]
fn color_escapes() {
    let p = Rgba { r: 1, g: 22, b: 255, a: 0 };
    assert_eq!(fg(p, ColorMode::TrueColor), "\x1b[38;2;1;22;255m");
    assert_eq!(bg(p, ColorMode::TrueColor), "\x1b[48;2;1;22;255m");
    assert_eq!(fg(p, ColorMode::Plain), "");
    assert_eq!(bg(p, ColorMode::Plain), "");
    assert_eq!(ansi256(gray(0)), 16);
    assert_eq!(ansi256(gray(255)), 231);
    assert_eq!(ansi256(Rgba { r: 255, g: 0, b: 0, a: 0 }), 196);
    assert_eq!(fg(gray(255), ColorMode::Ansi256), "\x1b[38;5;231m");
    assert_eq!(bg(gray(0), ColorMode::Ansi256), "\x1b[48;5;16m");
}

#[test]
fn image_from_raw_checks_length() {
    assert!(Image::from_raw(2, 2, vec![0; 16]).is_some());
    assert!(Image::from_raw(2, 2, vec![0; 15]).is_none());
    let im = Image::from_raw(1, 1, vec![1, 2, 3, 4]).unwrap();
    assert_eq!(im.get_pixel(0, 0), Rgba { r: 1, g: 2, b: 3, a: 4 });
}
