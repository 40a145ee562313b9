use terminal_artist::raster::{Image, Rgba};
use terminal_artist::{render, ColorMode, Options, Renderer};

fn split(s: &str) -> Vec<String> {
    s.lines().map(str::to_string).collect()
}

fn gray(v: u8) -> Rgba {
    Rgba { r: v, g: v, b: v, a: 255 }
}

// A 4×4 image: left half black, right half white.
fn half_img() -> Image {
    let mut im = Image::new(4, 4);
    for y in 0..4 {
        for x in 0..4 {
            let v = if x < 2 { 0 } else { 255 };
            im.put_pixel(x, y, gray(v));
        }
    }
    im
}

#[test]
fn ascii_maps_dark_to_first_glyph() {
    let opts = Options { width: 4, char_aspect: 1_000_000, ..Default::default() };
    let lines = split(&render(&half_img(), &opts));
    // ramp " .:-=+*#%@": black->space, white->@
    assert!(lines[0].starts_with(' '));
    assert!(lines[0].ends_with('@'));
}

#[test]
fn ascii_invert_flips() {
    let opts = Options { width: 4, char_aspect: 1_000_000, invert: true, ..Default::default() };
    let lines = split(&render(&half_img(), &opts));
    assert!(lines[0].starts_with('@'));
    assert!(lines[0].ends_with(' '));
}

#[test]
fn braille_all_on_is_full_cell() {
    // Solid white, threshold below 255 → every dot on → U+28FF.
    let mut im = Image::new(2, 4);
    for y in 0..4 {
        for x in 0..2 {
            im.put_pixel(x, y, Rgba { r: 255, g: 255, b: 255, a: 255 });
        }
    }
    let opts = Options {
        width: 1,
        renderer: Renderer::Braille,
        threshold: 128,
        ..Default::default()
    };
    let out = render(&im, &opts);
    assert!(out.starts_with('⣿')); // U+28FF, all 8 dots
}

#[test]
fn halfblocks_forces_color() {
    let opts = Options {
        width: 2,
        renderer: Renderer::HalfBlocks,
        color: ColorMode::Plain,
        ..Default::default()
    };
    let out = render(&half_img(), &opts);
    assert!(out.contains('▀'));
    assert!(out.contains("\x1b[38;2;")); // coerced to truecolor
}

#[test]
fn ascii_full_output_of_half_image() {
    let opts = Options { width: 4, char_aspect: 1_000_000, ..Default::default() };
    let out = render(&half_img(), &opts);
    assert_eq!(out, "  @@\n  @@\n  @@\n  @@\n");
}

#[test]
fn ascii_height_follows_char_aspect() {
    // 4×4 image at width 4 with aspect 0.5: 2 rows.
    let opts = Options { width: 4, ..Default::default() };
    let out = render(&half_img(), &opts);
    assert_eq!(split(&out).len(), 2);
    assert!(out.ends_with('\n'));
}

#[test]
fn ascii_plain_has_no_escapes() {
    let opts = Options { width: 4, char_aspect: 1_000_000, ..Default::default() };
    let out = render(&half_img(), &opts);
    assert!(!out.contains('\x1b'));
}

#[test]
fn ascii_colored_rows_end_with_reset() {
    let opts = Options {
        width: 4,
        char_aspect: 1_000_000,
        color: ColorMode::TrueColor,
        ..Default::default()
    };
    let out = render(&half_img(), &opts);
    let lines = split(&out);
    assert_eq!(lines.len(), 4);
    assert_eq!(
        lines[0],
        "\x1b[38;2;0;0;0m \x1b[38;2;0;0;0m \x1b[38;2;255;255;255m@\x1b[38;2;255;255;255m@\x1b[0m"
    );
}

#[test]
fn ascii_ansi256_colors_the_cube() {
    let opts = Options {
        width: 4,
        char_aspect: 1_000_000,
        color: ColorMode::Ansi256,
        ..Default::default()
    };
    let out = render(&half_img(), &opts);
    assert!(out.starts_with("\x1b[38;5;16m "));
    assert!(out.contains("\x1b[38;5;231m@"));
}

#[test]
fn ascii_line_art_pools_darkest_pixel() {
    // A single dark pixel in a white 4×4 image survives pooling to 2×2.
    let mut im = Image::new(4, 4);
    for y in 0..4 {
        for x in 0..4 {
            im.put_pixel(x, y, gray(255));
        }
    }
    im.put_pixel(1, 1, gray(0));
    let opts = Options {
        width: 2,
        char_aspect: 1_000_000,
        line_art: Some(true),
        dither: false,
        ..Default::default()
    };
    let out = render(&im, &opts);
    assert_eq!(out, " @\n@@\n");
}

#[test]
fn ascii_custom_ramp() {
    let opts = Options {
        width: 4,
        char_aspect: 1_000_000,
        glyphs: String::from("ab"),
        ..Default::default()
    };
    let out = render(&half_img(), &opts);
    assert_eq!(split(&out)[0], "aabb");
}

#[test]
fn gamma_curve_is_applied() {
    // A curve mapping everything to black makes the whole image dark.
    let opts = Options {
        width: 4,
        char_aspect: 1_000_000,
        gamma: Some(vec![0u16; 256]),
        ..Default::default()
    };
    let out = render(&half_img(), &opts);
    assert_eq!(split(&out)[0], "    ");
}

#[test]
fn braille_blank_when_dark() {
    let im = Image::new(2, 4);
    let opts = Options {
        width: 1,
        renderer: Renderer::Braille,
        dither: false,
        auto_contrast: false,
        ..Default::default()
    };
    let out = render(&im, &opts);
    assert_eq!(out, "\u{2800}\n");
}

#[test]
fn braille_threshold_selects_dots() {
    // Left column white, right column black: dots 1, 2, 3, 7 (mask 0x47).
    let mut im = Image::new(2, 4);
    for y in 0..4 {
        im.put_pixel(0, y, gray(255));
        im.put_pixel(1, y, gray(0));
    }
    let opts = Options {
        width: 1,
        renderer: Renderer::Braille,
        dither: false,
        ..Default::default()
    };
    let out = render(&im, &opts);
    assert_eq!(out, "\u{2847}\n");
}

#[test]
fn braille_colors_with_average_of_lit_dots() {
    let mut im = Image::new(2, 4);
    for y in 0..4 {
        im.put_pixel(0, y, Rgba { r: 200, g: 100, b: 50, a: 255 });
        im.put_pixel(1, y, Rgba { r: 0, g: 0, b: 0, a: 255 });
    }
    let opts = Options {
        width: 1,
        renderer: Renderer::Braille,
        dither: false,
        threshold: 100,
        color: ColorMode::TrueColor,
        ..Default::default()
    };
    let out = render(&im, &opts);
    assert_eq!(out, "\x1b[38;2;200;100;50m\u{2847}\x1b[0m\n");
}

#[test]
fn halfblocks_rows_and_colors() {
    let mut im = Image::new(1, 2);
    im.put_pixel(0, 0, Rgba { r: 1, g: 2, b: 3, a: 255 });
    im.put_pixel(0, 1, Rgba { r: 4, g: 5, b: 6, a: 255 });
    let opts = Options {
        width: 1,
        renderer: Renderer::HalfBlocks,
        color: ColorMode::TrueColor,
        ..Default::default()
    };
    let out = render(&im, &opts);
    assert_eq!(out, "\x1b[38;2;1;2;3m\x1b[48;2;4;5;6m▀\x1b[0m\n");
}

#[test]
fn options_default_values() {
    let o = Options::default();
    assert_eq!(o.width, 80);
    assert_eq!(o.renderer, Renderer::Ascii);
    assert_eq!(o.color, ColorMode::Plain);
    assert_eq!(o.glyphs, " .:-=+*#%@");
    assert!(!o.invert);
    assert_eq!(o.char_aspect, 500_000);
    assert_eq!(o.threshold, 128);
    assert!(o.auto_contrast);
    assert!(o.dither);
    assert!(o.gamma.is_none());
    assert_eq!(o.line_art, Some(false));
}

#[test]
fn ascii_height_with_fine_aspect() {
    // A square image 10000 cells wide at aspect 0.0004: 4 rows.
    let img = Image::new(10, 10);
    let opts = Options { width: 10000, char_aspect: 400, ..Default::default() };
    assert_eq!(terminal_artist::art::ramp_height(opts.width, 10, 10, opts.char_aspect), 4);
    let out = render(&img, &Options { width: 100, char_aspect: 40_000, ..Default::default() });
    assert_eq!(split(&out).len(), 4);
}

#[test]
fn braille_threshold_sees_fractional_tones() {
    let mut im = Image::new(2, 4);
    for y in 0..4 {
        for x in 0..2 {
            im.put_pixel(x, y, gray(128));
        }
    }
    let base = Options {
        width: 1,
        renderer: Renderer::Braille,
        threshold: 128,
        dither: false,
        auto_contrast: false,
        ..Default::default()
    };
    // At exactly 128 every dot is on.
    assert!(render(&im, &base).starts_with('⣿'));
    // A curve that leaves 128 just short of it (127.996) turns them off.
    let mut curve: Vec<u16> = (0..=255u16).map(|l| l * 256).collect();
    curve[128] = 128 * 256 - 1;
    let dim = Options { gamma: Some(curve), ..base };
    assert!(render(&im, &dim).starts_with('\u{2800}'));
}
