//! The three renderers: glyph ramp, half blocks, Braille.

use vstd::prelude::*;

use crate::ansi::{bg, bg_code, fg, fg_code, push_char, push_reset, push_str, reset_code};
use crate::dither::{quantize_plane, quantized};
use crate::raster::{Image, ImageView, Rgba};
use crate::scale::{
    at_least_one, averaged, downscale, downscale_fits, downscaled, line_art_for, resize, resize_fits,
};
use crate::tone::{curve, curve_ok, lum_plane, tone_plane};
use crate::{ColorMode, Options};

verus! {

/// `n / d` rounded to nearest, halves away from zero (`n >= 0`, `d > 0`).
pub open spec fn round_div(n: int, d: int) -> int {
    (2 * n + d) / (2 * d)
}

/// `v` saturated to `u32`.
pub open spec fn saturate(v: int) -> u32 {
    if v > u32::MAX {
        u32::MAX
    } else {
        v as u32
    }
}

/// Rows of the glyph-ramp renderer: `width × (ih / iw) × aspect`, rounded
/// (`aspect` in millionths); 0 for an image without columns.
pub open spec fn ramp_rows(width: u32, iw: u32, ih: u32, aspect: u32) -> u32 {
    if iw == 0 {
        0
    } else {
        saturate(round_div(width * ih * aspect, iw * 1000000))
    }
}

/// Rows of the half-block and Braille renderers: `width × (ih / iw) / 2`,
/// rounded, at least 1.
pub open spec fn cell_rows(width: u32, iw: u32, ih: u32) -> u32 {
    if iw == 0 {
        1
    } else {
        at_least_one(saturate(round_div(width * ih, iw * 2)))
    }
}

pub fn ramp_height(width: u32, iw: u32, ih: u32, aspect: u32) -> (r: u32)
    ensures
        r == ramp_rows(width, iw, ih, aspect),
{
    if iw == 0 {
        return 0;
    }
    assert((width as int) * (ih as int) <= 0xffff_ffff * 0xffff_ffff) by (nonlinear_arith)
        requires
            width <= 0xffff_ffff,
            ih <= 0xffff_ffff,
    ;
    assert((width as int) * (ih as int) * (aspect as int) <= 0xffff_ffff * 0xffff_ffff
        * 0xffff_ffff) by (nonlinear_arith)
        requires
            (width as int) * (ih as int) <= 0xffff_ffff * 0xffff_ffff,
            (width as int) * (ih as int) >= 0,
            aspect <= 0xffff_ffff,
    ;
    let n: u128 = (width as u128) * (ih as u128) * (aspect as u128);
    let d: u128 = (iw as u128) * 1000000;
    let r: u128 = (2 * n + d) / (2 * d);
    if r > 0xffff_ffff {
        0xffff_ffff
    } else {
        r as u32
    }
}

pub fn cell_height(width: u32, iw: u32, ih: u32) -> (r: u32)
    ensures
        r == cell_rows(width, iw, ih),
        r >= 1,
{
    if iw == 0 {
        return 1;
    }
    assert((width as int) * (ih as int) <= 0xffff_ffff * 0xffff_ffff) by (nonlinear_arith)
        requires
            width <= 0xffff_ffff,
            ih <= 0xffff_ffff,
    ;
    let n: u128 = (width as u128) * (ih as u128);
    let d: u128 = (iw as u128) * 2;
    let r: u128 = (2 * n + d) / (2 * d);
    if r > 0xffff_ffff {
        0xffff_ffff
    } else if r == 0 {
        1
    } else {
        r as u32
    }
}

/// The characters of a string, in order.
pub fn chars_of(s: &str) -> (v: Vec<char>)
    ensures
        v@ == s@,
{
    let n = s.unicode_len();
    let mut v: Vec<char> = Vec::new();
    let mut i: usize = 0;
    while i < n
        invariant
            n == s@.len(),
            i <= n,
            v@ == s@.subrange(0, i as int),
        decreases n - i,
    {
        v.push(s.get_char(i));
        i = i + 1;
        assert(v@ =~= s@.subrange(0, i as int));
    }
    assert(s@.subrange(0, n as int) =~= s@);
    v
}

/// The row terminator: a color reset when colored, then a newline.
pub open spec fn row_end(color: ColorMode) -> Seq<char> {
    (if color != ColorMode::Plain {
        reset_code()
    } else {
        Seq::empty()
    }).push('\n')
}

fn push_row_end(out: &mut String, color: ColorMode)
    ensures
        final(out)@ == old(out)@ + row_end(color),
{
    if color != ColorMode::Plain {
        push_reset(out);
    }
    push_char(out, '\n');
    assert(final(out)@ =~= old(out)@ + row_end(color));
}

// ---------------------------------------------------------------------------
// Glyph ramp

/// The ramp entry for level index `k`: the index, capped at the ramp's end.
pub open spec fn ramp_glyph(ramp: Seq<char>, k: u8) -> char {
    if k as int > ramp.len() - 1 {
        ramp[ramp.len() - 1]
    } else {
        ramp[k as int]
    }
}

/// Cells `0..x` of row `y`: each the pixel's color escape, then its glyph.
pub open spec fn ramp_cells(
    small: ImageView,
    idx: Seq<u8>,
    ramp: Seq<char>,
    color: ColorMode,
    y: int,
    x: int,
) -> Seq<char>
    decreases x,
{
    if x <= 0 {
        Seq::empty()
    } else {
        ramp_cells(small, idx, ramp, color, y, x - 1) + fg_code(small.pixel(x - 1, y), color).push(
            ramp_glyph(ramp, idx[y * small.width + x - 1]),
        )
    }
}

/// Rows `0..y` of glyph-ramp art.
pub open spec fn ramp_lines(
    small: ImageView,
    idx: Seq<u8>,
    ramp: Seq<char>,
    color: ColorMode,
    y: int,
) -> Seq<char>
    decreases y,
{
    if y <= 0 {
        Seq::empty()
    } else {
        ramp_lines(small, idx, ramp, color, y - 1) + ramp_cells(
            small,
            idx,
            ramp,
            color,
            y - 1,
            small.width as int,
        ) + row_end(color)
    }
}

/// The downscaled image the glyph-ramp renderer works on.
pub open spec fn ramp_grid(img: ImageView, opts: Options) -> ImageView {
    let h = ramp_rows(opts.width, img.width, img.height, opts.char_aspect);
    downscaled(img, opts.width, h, line_art_for(img, opts.line_art))
}

/// Glyph-ramp art: each cell's tone-mapped luminance is quantized (with
/// optional dithering) to an index into the ramp, dark to light.
pub open spec fn ramp_art(img: ImageView, opts: Options) -> Seq<char> {
    let ramp = opts.glyphs@;
    let small = ramp_grid(img, opts);
    let plane = tone_plane(small, opts.auto_contrast, curve(opts.gamma), opts.invert);
    let idx = quantized(
        plane,
        small.width as int,
        small.height as int,
        ramp.len() as int,
        opts.dither,
    );
    ramp_lines(small, idx, ramp, opts.color, small.height as int)
}

fn push_ramp_row(
    out: &mut String,
    small: &Image,
    idx: &Vec<u8>,
    ramp: &Vec<char>,
    color: ColorMode,
    y: u32,
)
    requires
        y < small@.height,
        idx@.len() == small@.len(),
        ramp@.len() >= 1,
    ensures
        final(out)@ == old(out)@ + ramp_cells(
            small@,
            idx@,
            ramp@,
            color,
            y as int,
            small@.width as int,
        ),
{
    let w = small.width();
    let n = idx.len();
    let mut x: u32 = 0;
    while x < w
        invariant
            w == small@.width,
            y < small@.height,
            x <= w,
            n == idx@.len(),
            idx@.len() == small@.len(),
            ramp@.len() >= 1,
            out@ == old(out)@ + ramp_cells(small@, idx@, ramp@, color, y as int, x as int),
        decreases w - x,
    {
        proof {
            crate::raster::lemma_index_in_grid(x as int, y as int, w as int, small@.height as int);
        }
        let i: usize = (y as usize) * (w as usize) + (x as usize);
        let k = idx[i];
        let g: usize = if (k as usize) > ramp.len() - 1 {
            ramp.len() - 1
        } else {
            k as usize
        };
        let code = fg(small.get_pixel(x, y), color);
        push_str(out, code.as_str());
        push_char(out, ramp[g]);
        x = x + 1;
        assert(out@ =~= old(out)@ + ramp_cells(small@, idx@, ramp@, color, y as int, x as int));
    }
}

/// Glyph-ramp renderer: brightness to glyph.
pub fn render_ascii(img: &Image, opts: &Options) -> (out: String)
    requires
        opts.glyphs@.len() >= 1,
        curve_ok(opts.gamma),
        downscale_fits(
            img@,
            opts.width,
            ramp_rows(opts.width, img@.width, img@.height, opts.char_aspect),
            line_art_for(img@, opts.line_art),
        ),
    ensures
        out@ == ramp_art(img@, *opts),
{
    let ramp = chars_of(opts.glyphs.as_str());
    let (iw, ih) = img.dimensions();
    let h = ramp_height(opts.width, iw, ih, opts.char_aspect);
    let small = downscale(img, opts.width, h, opts.line_art);
    let (w, hh) = small.dimensions();
    let plane = lum_plane(&small, opts);
    proof {
        crate::raster::lemma_index_in_grid(0, 0, 1, 1);
    }
    let idx = quantize_plane(&plane, w as usize, hh as usize, ramp.len(), opts.dither);
    let ghost grid = small@;
    let ghost ix = idx@;
    let mut out = String::new();
    let mut y: u32 = 0;
    while y < hh
        invariant
            hh == small@.height,
            grid == small@,
            ix == idx@,
            y <= hh,
            idx@.len() == small@.len(),
            ramp@.len() >= 1,
            out@ == ramp_lines(grid, ix, ramp@, opts.color, y as int),
        decreases hh - y,
    {
        push_ramp_row(&mut out, &small, &idx, &ramp, opts.color, y);
        push_row_end(&mut out, opts.color);
        y = y + 1;
    }
    out
}

// ---------------------------------------------------------------------------
// Half blocks

/// Half blocks need color: plain output is shown in truecolor.
pub open spec fn half_color(color: ColorMode) -> ColorMode {
    if color == ColorMode::Plain {
        ColorMode::TrueColor
    } else {
        color
    }
}

/// Cells `0..x` of half-block row `r`: top pixel as foreground, bottom
/// pixel as background, then `▀`.
pub open spec fn half_cells(small: ImageView, color: ColorMode, r: int, x: int) -> Seq<char>
    decreases x,
{
    if x <= 0 {
        Seq::empty()
    } else {
        half_cells(small, color, r, x - 1) + fg_code(small.pixel(x - 1, 2 * r), color) + bg_code(
            small.pixel(x - 1, 2 * r + 1),
            color,
        ) + seq!['▀']
    }
}

/// Half-block rows `0..r`, each closed by a reset and a newline.
pub open spec fn half_lines(small: ImageView, color: ColorMode, r: int) -> Seq<char>
    decreases r,
{
    if r <= 0 {
        Seq::empty()
    } else {
        half_lines(small, color, r - 1) + half_cells(small, color, r - 1, small.width as int)
            + reset_code() + seq!['\n']
    }
}

/// The resampled image the half-block renderer works on: two pixel rows per cell.
pub open spec fn half_grid(img: ImageView, opts: Options) -> ImageView {
    let rows = cell_rows(opts.width, img.width, img.height);
    averaged(img, opts.width, (rows * 2) as u32)
}

/// Half-block art: each cell stacks two vertical pixels, top = fg, bottom = bg.
pub open spec fn half_art(img: ImageView, opts: Options) -> Seq<char> {
    let rows = cell_rows(opts.width, img.width, img.height);
    half_lines(half_grid(img, opts), half_color(opts.color), rows as int)
}

fn push_half_row(out: &mut String, small: &Image, color: ColorMode, r: u32)
    requires
        2 * r + 1 < small@.height,
    ensures
        final(out)@ == old(out)@ + half_cells(small@, color, r as int, small@.width as int),
{
    let w = small.width();
    let mut x: u32 = 0;
    while x < w
        invariant
            w == small@.width,
            2 * r + 1 < small@.height,
            x <= w,
            out@ == old(out)@ + half_cells(small@, color, r as int, x as int),
        decreases w - x,
    {
        let top = small.get_pixel(x, r * 2);
        let bot = small.get_pixel(x, r * 2 + 1);
        let f = fg(top, color);
        push_str(out, f.as_str());
        let b = bg(bot, color);
        push_str(out, b.as_str());
        push_char(out, '▀');
        x = x + 1;
        assert(out@ =~= old(out)@ + half_cells(small@, color, r as int, x as int));
    }
}

/// Half-block renderer. Always colored: plain output becomes truecolor.
pub fn render_halfblocks(img: &Image, opts: &Options) -> (out: String)
    requires
        2 * cell_rows(opts.width, img@.width, img@.height) <= u32::MAX,
        resize_fits(
            img@,
            opts.width,
            (2 * cell_rows(opts.width, img@.width, img@.height)) as u32,
        ),
    ensures
        out@ == half_art(img@, *opts),
{
    // Each cell stacks two vertical pixels: top = fg, bottom = bg.
    let color = if opts.color == ColorMode::Plain {
        ColorMode::TrueColor  // half-blocks are meaningless without color
    } else {
        opts.color
    };
    let (iw, ih) = img.dimensions();
    let rows = cell_height(opts.width, iw, ih);
    let small = resize(img, opts.width, rows * 2);
    let ghost grid = small@;
    let mut out = String::new();
    let mut r: u32 = 0;
    while r < rows
        invariant
            grid == small@,
            small@.height == 2 * rows,
            r <= rows,
            color == half_color(opts.color),
            out@ == half_lines(grid, color, r as int),
        decreases rows - r,
    {
        push_half_row(&mut out, &small, color, r);
        push_reset(&mut out);
        push_char(&mut out, '\n');
        r = r + 1;
    }
    out
}

// ---------------------------------------------------------------------------
// Braille

/// `char::from_u32`: the character with code point `code`, if it is a
/// Unicode scalar value.
///
/// Trusted: `Some` of that character below the surrogate range and between
/// it and `0x10FFFF`, `None` on surrogates and beyond `0x10FFFF`, as the
/// function's documentation says.
#[verifier::external_body]
fn char_from_u32(code: u32) -> (c: Option<char>)
    ensures
        code < 0xD800 || (0xE000 <= code <= 0x10FFFF) ==> c == Some(code as char),
        (0xD800 <= code <= 0xDFFF) || code > 0x10FFFF ==> c is None,
{
    char::from_u32(code)
}

/// Column of dot `p` (0..8, row-major, two per row) of cell column `cc`.
pub open spec fn dot_x(cc: int, p: int) -> int {
    cc * 2 + p % 2
}

/// Row of dot `p` of cell row `cr`.
pub open spec fn dot_y(cr: int, p: int) -> int {
    cr * 4 + p / 2
}

/// Braille dot bit of dot `p` in Unicode order:
/// `(0,0)=0x01 (1,0)=0x08 (0,1)=0x02 (1,1)=0x10 (0,2)=0x04 (1,2)=0x20 (0,3)=0x40 (1,3)=0x80`.
pub open spec fn dot_bit(p: int) -> int {
    if p == 0 {
        0x01
    } else if p == 1 {
        0x08
    } else if p == 2 {
        0x02
    } else if p == 3 {
        0x10
    } else if p == 4 {
        0x04
    } else if p == 5 {
        0x20
    } else if p == 6 {
        0x40
    } else {
        0x80
    }
}

/// Bits of all dots `0..k`.
pub open spec fn all_bits(k: int) -> int {
    if k <= 0 {
        0
    } else if k == 1 {
        0x01
    } else if k == 2 {
        0x09
    } else if k == 3 {
        0x0b
    } else if k == 4 {
        0x1b
    } else if k == 5 {
        0x1f
    } else if k == 6 {
        0x3f
    } else if k == 7 {
        0x7f
    } else {
        0xff
    }
}

/// Whether dot `p` of cell `(cc, cr)` is on, in a dot plane `pw` wide.
pub open spec fn dot_on(dots: Seq<bool>, pw: int, cc: int, cr: int, p: int) -> bool {
    dots[dot_y(cr, p) * pw + dot_x(cc, p)]
}

/// Dot mask of the lit dots among `0..k` of cell `(cc, cr)`.
pub open spec fn cell_mask(dots: Seq<bool>, pw: int, cc: int, cr: int, k: int) -> int
    decreases k,
{
    if k <= 0 {
        0
    } else {
        cell_mask(dots, pw, cc, cr, k - 1) + if dot_on(dots, pw, cc, cr, k - 1) {
            dot_bit(k - 1)
        } else {
            0
        }
    }
}

/// Number of lit dots among `0..k` of cell `(cc, cr)`.
pub open spec fn cell_lit(dots: Seq<bool>, pw: int, cc: int, cr: int, k: int) -> int
    decreases k,
{
    if k <= 0 {
        0
    } else {
        cell_lit(dots, pw, cc, cr, k - 1) + if dot_on(dots, pw, cc, cr, k - 1) {
            1int
        } else {
            0
        }
    }
}

/// Sum of channel `c` over the lit dots among `0..k` of cell `(cc, cr)`.
pub open spec fn cell_total(
    small: ImageView,
    dots: Seq<bool>,
    cc: int,
    cr: int,
    k: int,
    c: int,
) -> int
    decreases k,
{
    if k <= 0 {
        0
    } else {
        cell_total(small, dots, cc, cr, k - 1, c) + if dot_on(
            dots,
            small.width as int,
            cc,
            cr,
            k - 1,
        ) {
            crate::raster::channel(small.pixel(dot_x(cc, k - 1), dot_y(cr, k - 1)), c) as int
        } else {
            0
        }
    }
}

/// Average color of the lit dots of a cell, opaque.
pub open spec fn lit_average(small: ImageView, dots: Seq<bool>, cc: int, cr: int) -> Rgba {
    let on = cell_lit(dots, small.width as int, cc, cr, 8);
    Rgba {
        r: (cell_total(small, dots, cc, cr, 8, 0) / on) as u8,
        g: (cell_total(small, dots, cc, cr, 8, 1) / on) as u8,
        b: (cell_total(small, dots, cc, cr, 8, 2) / on) as u8,
        a: 255,
    }
}

/// The Braille character with dot mask `mask`: `U+2800 + mask`.
pub open spec fn braille_glyph(mask: int) -> char {
    (0x2800 + mask) as char
}

/// One Braille cell: the average color of its lit dots when colored and
/// any dot is lit, then its glyph.
pub open spec fn braille_cell(small: ImageView, dots: Seq<bool>, color: ColorMode, cc: int, cr: int) -> Seq<
    char,
> {
    let pw = small.width as int;
    let on = cell_lit(dots, pw, cc, cr, 8);
    (if color != ColorMode::Plain && on > 0 {
        fg_code(lit_average(small, dots, cc, cr), color)
    } else {
        Seq::empty()
    }).push(braille_glyph(cell_mask(dots, pw, cc, cr, 8)))
}

/// Cells `0..cc` of Braille row `cr`.
pub open spec fn braille_cells(
    small: ImageView,
    dots: Seq<bool>,
    color: ColorMode,
    cr: int,
    cc: int,
) -> Seq<char>
    decreases cc,
{
    if cc <= 0 {
        Seq::empty()
    } else {
        braille_cells(small, dots, color, cr, cc - 1) + braille_cell(small, dots, color, cc - 1, cr)
    }
}

/// Braille rows `0..cr`, `cols` cells each.
pub open spec fn braille_lines(
    small: ImageView,
    dots: Seq<bool>,
    color: ColorMode,
    cols: int,
    cr: int,
) -> Seq<char>
    decreases cr,
{
    if cr <= 0 {
        Seq::empty()
    } else {
        braille_lines(small, dots, color, cols, cr - 1) + braille_cells(
            small,
            dots,
            color,
            cr - 1,
            cols,
        ) + row_end(color)
    }
}

/// The downscaled image the Braille renderer works on: 2 × 4 dots per cell.
pub open spec fn braille_grid(img: ImageView, opts: Options) -> ImageView {
    let rows = cell_rows(opts.width, img.width, img.height);
    downscaled(
        img,
        (opts.width * 2) as u32,
        (rows * 4) as u32,
        line_art_for(img, opts.line_art),
    )
}

/// Which dots are on: quantized to on/off with error diffusion when
/// dithering, else a plain threshold cut.
pub open spec fn braille_dots(small: ImageView, opts: Options) -> Seq<bool> {
    let plane = tone_plane(small, opts.auto_contrast, curve(opts.gamma), opts.invert);
    if opts.dither {
        let q = quantized(plane, small.width as int, small.height as int, 2, true);
        Seq::new(q.len(), |i: int| q[i] == 1)
    } else {
        Seq::new(plane.len(), |i: int| plane[i] >= opts.threshold * 256)
    }
}

/// Braille art: `width` cells per row, each a 2 × 4 dot matrix.
pub open spec fn braille_art(img: ImageView, opts: Options) -> Seq<char> {
    let small = braille_grid(img, opts);
    let rows = cell_rows(opts.width, img.width, img.height);
    braille_lines(small, braille_dots(small, opts), opts.color, opts.width as int, rows as int)
}

fn push_braille_cell(
    out: &mut String,
    small: &Image,
    dots: &Vec<bool>,
    color: ColorMode,
    cc: u32,
    cr: u32,
)
    requires
        2 * cc + 2 <= small@.width,
        4 * cr + 4 <= small@.height,
        dots@.len() == small@.len(),
    ensures
        final(out)@ == old(out)@ + braille_cell(small@, dots@, color, cc as int, cr as int),
{
    let pw = small.width();
    let ph = small.height();
    let n = dots.len();
    let ghost s = small@;
    let mut mask: u32 = 0;
    let mut rsum: u32 = 0;
    let mut gsum: u32 = 0;
    let mut bsum: u32 = 0;
    let mut on: u32 = 0;
    let mut p: u32 = 0;
    while p < 8
        invariant
            s == small@,
            pw == s.width,
            ph == s.height,
            n == dots@.len(),
            n == s.len(),
            2 * cc + 2 <= pw,
            4 * cr + 4 <= ph,
            p <= 8,
            mask == cell_mask(dots@, pw as int, cc as int, cr as int, p as int),
            mask <= all_bits(p as int),
            on == cell_lit(dots@, pw as int, cc as int, cr as int, p as int),
            on <= p,
            rsum == cell_total(s, dots@, cc as int, cr as int, p as int, 0),
            gsum == cell_total(s, dots@, cc as int, cr as int, p as int, 1),
            bsum == cell_total(s, dots@, cc as int, cr as int, p as int, 2),
            rsum <= 255 * on,
            gsum <= 255 * on,
            bsum <= 255 * on,
        decreases 8 - p,
    {
        let x = cc * 2 + p % 2;
        let y = cr * 4 + p / 2;
        proof {
            crate::raster::lemma_index_in_grid(x as int, y as int, pw as int, ph as int);
        }
        let px = small.get_pixel(x, y);
        let i: usize = (y as usize) * (pw as usize) + (x as usize);
        if dots[i] {
            let bit: u32 = if p == 0 {
                0x01
            } else if p == 1 {
                0x08
            } else if p == 2 {
                0x02
            } else if p == 3 {
                0x10
            } else if p == 4 {
                0x04
            } else if p == 5 {
                0x20
            } else if p == 6 {
                0x40
            } else {
                0x80
            };
            mask = mask + bit;
            rsum = rsum + px.r as u32;
            gsum = gsum + px.g as u32;
            bsum = bsum + px.b as u32;
            on = on + 1;
        }
        p = p + 1;
    }
    if color != ColorMode::Plain && on > 0 {
        let avg = Rgba { r: (rsum / on) as u8, g: (gsum / on) as u8, b: (bsum / on) as u8, a: 255 };
        assert(avg == lit_average(s, dots@, cc as int, cr as int));
        let f = fg(avg, color);
        push_str(out, f.as_str());
    }
    // 0x2800 is the blank Braille cell; add the dot mask.
    let glyph = char_from_u32(0x2800 + mask).unwrap();
    push_char(out, glyph);
    assert(final(out)@ =~= old(out)@ + braille_cell(small@, dots@, color, cc as int, cr as int));
}

fn push_braille_row(
    out: &mut String,
    small: &Image,
    dots: &Vec<bool>,
    color: ColorMode,
    cols: u32,
    cr: u32,
)
    requires
        2 * cols <= small@.width,
        4 * cr + 4 <= small@.height,
        dots@.len() == small@.len(),
    ensures
        final(out)@ == old(out)@ + braille_cells(small@, dots@, color, cr as int, cols as int),
{
    let mut cc: u32 = 0;
    while cc < cols
        invariant
            2 * cols <= small@.width,
            4 * cr + 4 <= small@.height,
            dots@.len() == small@.len(),
            cc <= cols,
            out@ == old(out)@ + braille_cells(small@, dots@, color, cr as int, cc as int),
        decreases cols - cc,
    {
        push_braille_cell(out, small, dots, color, cc, cr);
        cc = cc + 1;
        assert(out@ =~= old(out)@ + braille_cells(small@, dots@, color, cr as int, cc as int));
    }
}

/// Which dots of the downscaled image are on.
fn dot_plane(small: &Image, opts: &Options) -> (dots: Vec<bool>)
    requires
        curve_ok(opts.gamma),
    ensures
        dots@ == braille_dots(small@, *opts),
{
    let (pw, ph) = small.dimensions();
    let plane = lum_plane(small, opts);
    let ghost want = braille_dots(small@, *opts);
    let mut dots: Vec<bool> = Vec::new();
    if opts.dither {
        // Dithered: quantize dots to on/off with error diffusion (photo-friendly).
        let q = quantize_plane(&plane, pw as usize, ph as usize, 2, true);
        let mut i: usize = 0;
        while i < q.len()
            invariant
                i <= q@.len(),
                opts.dither,
                want == braille_dots(small@, *opts),
                q@ == quantized(plane@, pw as int, ph as int, 2, true),
                plane@ == tone_plane(
                    small@,
                    opts.auto_contrast,
                    curve(opts.gamma),
                    opts.invert,
                ),
                pw == small@.width,
                ph == small@.height,
                dots@.len() == i,
                forall|j: int| 0 <= j < i ==> dots@[j] == #[trigger] want[j],
            decreases q@.len() - i,
        {
            dots.push(q[i] == 1);
            i = i + 1;
        }
        assert(dots@ =~= want);
    } else {
        // Undithered: plain threshold cut (crisp, for line art).
        let mut i: usize = 0;
        while i < plane.len()
            invariant
                i <= plane@.len(),
                !opts.dither,
                want == braille_dots(small@, *opts),
                plane@ == tone_plane(
                    small@,
                    opts.auto_contrast,
                    curve(opts.gamma),
                    opts.invert,
                ),
                dots@.len() == i,
                forall|j: int| 0 <= j < i ==> dots@[j] == #[trigger] want[j],
            decreases plane@.len() - i,
        {
            dots.push(plane[i] >= (opts.threshold as u16) * 256);
            i = i + 1;
        }
        assert(dots@ =~= want);
    }
    dots
}

/// Braille renderer: 2 × 4 dots per cell, highest spatial detail.
pub fn render_braille(img: &Image, opts: &Options) -> (out: String)
    requires
        curve_ok(opts.gamma),
        2 * opts.width <= u32::MAX,
        4 * cell_rows(opts.width, img@.width, img@.height) <= u32::MAX,
        downscale_fits(
            img@,
            (2 * opts.width) as u32,
            (4 * cell_rows(opts.width, img@.width, img@.height)) as u32,
            line_art_for(img@, opts.line_art),
        ),
    ensures
        out@ == braille_art(img@, *opts),
{
    let (iw, ih) = img.dimensions();
    // Cells are 2 dots wide × 4 tall.
    let cols = opts.width;
    let rows = cell_height(cols, iw, ih);
    let small = downscale(img, cols * 2, rows * 4, opts.line_art);
    let dots = dot_plane(&small, opts);
    let ghost grid = small@;
    let ghost lit = dots@;
    let mut out = String::new();
    let mut cr: u32 = 0;
    while cr < rows
        invariant
            grid == small@,
            lit == dots@,
            dots@.len() == small@.len(),
            small@.height == 4 * rows,
            2 * cols <= small@.width,
            cr <= rows,
            out@ == braille_lines(grid, lit, opts.color, cols as int, cr as int),
        decreases rows - cr,
    {
        push_braille_row(&mut out, &small, &dots, opts.color, cols, cr);
        push_row_end(&mut out, opts.color);
        cr = cr + 1;
    }
    out
}

// ---------------------------------------------------------------------------
// Laws

/// A Braille cell with all eight dots on is the full cell `⣿` (U+28FF);
/// with none on, the blank cell U+2800.
pub proof fn lemma_braille_full_and_blank(dots: Seq<bool>, pw: int, cc: int, cr: int)
    ensures
        (forall|p: int| 0 <= p < 8 ==> #[trigger] dot_on(dots, pw, cc, cr, p)) ==> cell_mask(
            dots,
            pw,
            cc,
            cr,
            8,
        ) == 0xff,
        (forall|p: int| 0 <= p < 8 ==> !#[trigger] dot_on(dots, pw, cc, cr, p)) ==> cell_mask(
            dots,
            pw,
            cc,
            cr,
            8,
        ) == 0,
{
    reveal_with_fuel(cell_mask, 9);
    if forall|p: int| 0 <= p < 8 ==> #[trigger] dot_on(dots, pw, cc, cr, p) {
        assert(dot_on(dots, pw, cc, cr, 0) && dot_on(dots, pw, cc, cr, 1) && dot_on(dots, pw, cc, cr, 2)
            && dot_on(dots, pw, cc, cr, 3) && dot_on(dots, pw, cc, cr, 4) && dot_on(dots, pw, cc, cr, 5)
            && dot_on(dots, pw, cc, cr, 6) && dot_on(dots, pw, cc, cr, 7));
    }
    if forall|p: int| 0 <= p < 8 ==> !#[trigger] dot_on(dots, pw, cc, cr, p) {
        assert(!dot_on(dots, pw, cc, cr, 0) && !dot_on(dots, pw, cc, cr, 1) && !dot_on(
            dots,
            pw,
            cc,
            cr,
            2,
        ) && !dot_on(dots, pw, cc, cr, 3) && !dot_on(dots, pw, cc, cr, 4) && !dot_on(
            dots,
            pw,
            cc,
            cr,
            5,
        ) && !dot_on(dots, pw, cc, cr, 6) && !dot_on(dots, pw, cc, cr, 7));
    }
}

/// Half blocks are never plain: without a color mode they use truecolor.
pub proof fn lemma_half_blocks_colored(color: ColorMode)
    ensures
        half_color(color) != ColorMode::Plain,
        color != ColorMode::Plain ==> half_color(color) == color,
{
}

/// Text without the escape character `ESC`.
pub open spec fn escape_free(s: Seq<char>) -> bool {
    forall|i: int| 0 <= i < s.len() ==> #[trigger] s[i] != '\x1b'
}

proof fn lemma_escape_free_concat(a: Seq<char>, b: Seq<char>)
    requires
        escape_free(a),
        escape_free(b),
    ensures
        escape_free(a + b),
{
    assert forall|i: int| 0 <= i < (a + b).len() implies #[trigger] (a + b)[i] != '\x1b' by {
        if i < a.len() {
            assert((a + b)[i] == a[i]);
        } else {
            assert((a + b)[i] == b[i - a.len()]);
        }
    }
}

proof fn lemma_plain_ramp_cells(
    small: ImageView,
    idx: Seq<u8>,
    ramp: Seq<char>,
    y: int,
    x: int,
)
    requires
        ramp.len() >= 1,
        escape_free(ramp),
    ensures
        escape_free(ramp_cells(small, idx, ramp, ColorMode::Plain, y, x)),
    decreases x,
{
    if x > 0 {
        lemma_plain_ramp_cells(small, idx, ramp, y, x - 1);
        let g = ramp_glyph(ramp, idx[y * small.width + x - 1]);
        assert(g != '\x1b');
        assert(fg_code(small.pixel(x - 1, y), ColorMode::Plain) == Seq::<char>::empty());
        assert(Seq::<char>::empty().push(g) =~= seq![g]);
        lemma_escape_free_concat(ramp_cells(small, idx, ramp, ColorMode::Plain, y, x - 1), seq![g]);
    }
}

proof fn lemma_plain_ramp_lines(small: ImageView, idx: Seq<u8>, ramp: Seq<char>, y: int)
    requires
        ramp.len() >= 1,
        escape_free(ramp),
    ensures
        escape_free(ramp_lines(small, idx, ramp, ColorMode::Plain, y)),
    decreases y,
{
    if y > 0 {
        lemma_plain_ramp_lines(small, idx, ramp, y - 1);
        lemma_plain_ramp_cells(small, idx, ramp, y - 1, small.width as int);
        assert(row_end(ColorMode::Plain) =~= seq!['\n']);
        lemma_escape_free_concat(
            ramp_lines(small, idx, ramp, ColorMode::Plain, y - 1),
            ramp_cells(small, idx, ramp, ColorMode::Plain, y - 1, small.width as int),
        );
        lemma_escape_free_concat(
            ramp_lines(small, idx, ramp, ColorMode::Plain, y - 1) + ramp_cells(
                small,
                idx,
                ramp,
                ColorMode::Plain,
                y - 1,
                small.width as int,
            ),
            row_end(ColorMode::Plain),
        );
    }
}

/// Without a color mode the glyph-ramp renderer emits no escapes: only
/// glyphs of the ramp and newlines.
pub proof fn lemma_plain_ramp_art_has_no_escapes(img: ImageView, opts: Options)
    requires
        opts.color == ColorMode::Plain,
        opts.glyphs@.len() >= 1,
        escape_free(opts.glyphs@),
    ensures
        escape_free(ramp_art(img, opts)),
{
    let small = ramp_grid(img, opts);
    let plane = tone_plane(small, opts.auto_contrast, curve(opts.gamma), opts.invert);
    let idx = quantized(
        plane,
        small.width as int,
        small.height as int,
        opts.glyphs@.len() as int,
        opts.dither,
    );
    lemma_plain_ramp_lines(small, idx, opts.glyphs@, small.height as int);
}

proof fn lemma_lines_end(prefix: Seq<char>, mid: Seq<char>, end: Seq<char>)
    requires
        end.len() >= 1,
        end.last() == '\n',
    ensures
        (prefix + mid + end).len() >= 1,
        (prefix + mid + end).last() == '\n',
{
}

/// Every renderer's output is whole lines: it is never empty and ends with
/// a newline.
pub proof fn lemma_art_ends_with_newline(img: ImageView, opts: Options)
    ensures
        crate::art(img, opts).len() >= 1,
        crate::art(img, opts).last() == '\n',
{
    let rows = cell_rows(opts.width, img.width, img.height);
    assert(row_end(opts.color).last() == '\n');
    match opts.renderer {
        crate::Renderer::Ascii => {
            let small = ramp_grid(img, opts);
            let h = ramp_rows(opts.width, img.width, img.height, opts.char_aspect);
            let la = line_art_for(img, opts.line_art);
            assert(small.height == at_least_one(h)) by {
                if la {
                    crate::raster::lemma_from_pixels(
                        at_least_one(opts.width),
                        at_least_one(h),
                        |i: int|
                            crate::scale::pooled_pixel(
                                img,
                                at_least_one(opts.width) as int,
                                at_least_one(h) as int,
                                i % (at_least_one(opts.width) as int),
                                i / (at_least_one(opts.width) as int),
                            ),
                    );
                }
            }
            let ramp = opts.glyphs@;
            let plane = tone_plane(small, opts.auto_contrast, curve(opts.gamma), opts.invert);
            let idx = quantized(
                plane,
                small.width as int,
                small.height as int,
                ramp.len() as int,
                opts.dither,
            );
            let y = small.height as int;
            lemma_lines_end(
                ramp_lines(small, idx, ramp, opts.color, y - 1),
                ramp_cells(small, idx, ramp, opts.color, y - 1, small.width as int),
                row_end(opts.color),
            );
        },
        crate::Renderer::HalfBlocks => {
            let small = half_grid(img, opts);
            let color = half_color(opts.color);
            let r = rows as int;
            lemma_lines_end(
                half_lines(small, color, r - 1),
                half_cells(small, color, r - 1, small.width as int),
                reset_code() + seq!['\n'],
            );
            assert(half_lines(small, color, r - 1) + half_cells(
                small,
                color,
                r - 1,
                small.width as int,
            ) + reset_code() + seq!['\n'] =~= half_lines(small, color, r - 1) + half_cells(
                small,
                color,
                r - 1,
                small.width as int,
            ) + (reset_code() + seq!['\n']));
        },
        crate::Renderer::Braille => {
            let small = braille_grid(img, opts);
            let dots = braille_dots(small, opts);
            let r = rows as int;
            lemma_lines_end(
                braille_lines(small, dots, opts.color, opts.width as int, r - 1),
                braille_cells(small, dots, opts.color, r - 1, opts.width as int),
                row_end(opts.color),
            );
        },
    }
}

/// The unsaturated count `(2n + d) / (2d)` is the integer nearest to `n / d`.
proof fn lemma_round_div_nearest(n: int, d: int)
    requires
        n >= 0,
        d > 0,
    ensures
        round_div(n, d) >= 0,
        -d < 2 * round_div(n, d) * d - 2 * n <= d,
{
    let k = round_div(n, d);
    vstd::arithmetic::div_mod::lemma_fundamental_div_mod(2 * n + d, 2 * d);
    vstd::arithmetic::div_mod::lemma_div_pos_is_pos(2 * n + d, 2 * d);
    let r = (2 * n + d) % (2 * d);
    assert(2 * n + d == (2 * d) * k + r);
    assert(0 <= r < 2 * d);
    assert(2 * k * d == (2 * d) * k) by (nonlinear_arith);
}

/// Glyph-ramp rows are `width × (ih / iw) × aspect` (aspect in millionths)
/// rounded to the nearest integer: `2 · rows · iw · 10^6` lies within
/// `iw · 10^6` of `2 · width · ih · aspect`, unless the count saturates at
/// `u32::MAX`, which happens only when the exact count is at least that.
pub proof fn lemma_ramp_rows_nearest(width: u32, iw: u32, ih: u32, aspect: u32)
    requires
        iw > 0,
    ensures
        ({
            let rows = ramp_rows(width, iw, ih, aspect) as int;
            let d = iw * 1000000;
            let n = width * ih * aspect;
            &&& rows < u32::MAX ==> -d < 2 * rows * d - 2 * n <= d
            &&& rows == u32::MAX ==> 2 * n + d >= 2 * u32::MAX * d
        }),
{
    let d = iw * 1000000;
    let n = width * ih * aspect;
    assert(n >= 0) by (nonlinear_arith)
        requires
            n == width * ih * aspect,
    ;
    lemma_round_div_nearest(n, d);
    let k = round_div(n, d);
    let rows = ramp_rows(width, iw, ih, aspect) as int;
    assert(rows == saturate(k));
    if k > u32::MAX {
        assert(2 * k * d - 2 * n <= d);
        assert(2 * u32::MAX * d <= 2 * k * d) by (nonlinear_arith)
            requires
                k >= u32::MAX + 1,
                d > 0,
        ;
        assert(rows == u32::MAX);
    } else {
        assert(rows == k);
        assert(2 * rows * d == 2 * k * d);
    }
}

/// The row count of glyph-ramp art never shrinks as the image gets taller.
pub proof fn lemma_ramp_rows_grow_with_height(width: u32, iw: u32, ih1: u32, ih2: u32, aspect: u32)
    requires
        ih1 <= ih2,
    ensures
        ramp_rows(width, iw, ih1, aspect) <= ramp_rows(width, iw, ih2, aspect),
{
    if iw > 0 {
        let d = iw * 1000000;
        let n1 = width * ih1 * aspect;
        let n2 = width * ih2 * aspect;
        assert(0 <= n1 <= n2) by (nonlinear_arith)
            requires
                n1 == width * ih1 * aspect,
                n2 == width * ih2 * aspect,
                0 <= ih1 <= ih2,
        ;
        vstd::arithmetic::div_mod::lemma_div_is_ordered(2 * n1 + d, 2 * n2 + d, 2 * d);
    }
}

/// The row count of glyph-ramp art never grows as the image gets wider.
pub proof fn lemma_ramp_rows_shrink_with_width(width: u32, iw1: u32, iw2: u32, ih: u32, aspect: u32)
    requires
        0 < iw1 <= iw2,
    ensures
        ramp_rows(width, iw1, ih, aspect) >= ramp_rows(width, iw2, ih, aspect),
{
    let d1 = iw1 * 1000000;
    let d2 = iw2 * 1000000;
    let n = width * ih * aspect;
    assert(n >= 0) by (nonlinear_arith)
        requires
            n == width * ih * aspect,
    ;
    lemma_round_div_nearest(n, d1);
    lemma_round_div_nearest(n, d2);
    let k1 = round_div(n, d1);
    let k2 = round_div(n, d2);
    if k2 > k1 {
        assert(false) by (nonlinear_arith)
            requires
                2 * k1 * d1 - 2 * n > -d1,
                2 * k2 * d2 - 2 * n <= d2,
                k2 >= k1 + 1,
                k1 >= 0,
                0 < d1 <= d2,
        ;
    }
}

/// The Unicode Braille bit of the dot in column `dx` (0..2) and row `dy`
/// (0..4) of a cell: dots 1–3 run down the left column and 4–6 down the
/// right one, dots 7 and 8 sit below them, and dot `n` is bit `2^(n-1)`.
pub open spec fn unicode_dot_bit(dx: int, dy: int) -> int {
    if dy < 3 {
        vstd::arithmetic::power2::pow2((dy + 3 * dx) as nat) as int
    } else {
        vstd::arithmetic::power2::pow2((6 + dx) as nat) as int
    }
}

/// A Braille cell whose only lit dot is the one in column `dx`, row `dy`
/// is the glyph `U+2800` plus that dot's Unicode bit.
pub proof fn lemma_braille_single_dot(
    small: ImageView,
    dots: Seq<bool>,
    color: ColorMode,
    cc: int,
    cr: int,
    dx: int,
    dy: int,
)
    requires
        0 <= dx < 2,
        0 <= dy < 4,
        0 <= cc,
        0 <= cr,
        2 * cc + 2 <= small.width,
        forall|x: int, y: int|
            2 * cc <= x < 2 * cc + 2 && 4 * cr <= y < 4 * cr + 4 ==> (#[trigger] dots[y
                * small.width + x] <==> (x == 2 * cc + dx && y == 4 * cr + dy)),
    ensures
        cell_mask(dots, small.width as int, cc, cr, 8) == unicode_dot_bit(dx, dy),
        braille_cell(small, dots, color, cc, cr).last() == (0x2800 + unicode_dot_bit(dx, dy)) as char,
{
    let pw = small.width as int;
    vstd::arithmetic::power2::lemma2_to64();
    reveal_with_fuel(cell_mask, 9);
    assert forall|p: int| 0 <= p < 8 implies #[trigger] dot_on(dots, pw, cc, cr, p) == (p == 2 * dy
        + dx) by {
        let x = dot_x(cc, p);
        let y = dot_y(cr, p);
        assert(2 * cc <= x < 2 * cc + 2 && 4 * cr <= y < 4 * cr + 4);
        assert(dots[y * pw + x] <==> (x == 2 * cc + dx && y == 4 * cr + dy));
    }
    assert(dot_on(dots, pw, cc, cr, 0) == (0 == 2 * dy + dx));
    assert(dot_on(dots, pw, cc, cr, 1) == (1 == 2 * dy + dx));
    assert(dot_on(dots, pw, cc, cr, 2) == (2 == 2 * dy + dx));
    assert(dot_on(dots, pw, cc, cr, 3) == (3 == 2 * dy + dx));
    assert(dot_on(dots, pw, cc, cr, 4) == (4 == 2 * dy + dx));
    assert(dot_on(dots, pw, cc, cr, 5) == (5 == 2 * dy + dx));
    assert(dot_on(dots, pw, cc, cr, 6) == (6 == 2 * dy + dx));
    assert(dot_on(dots, pw, cc, cr, 7) == (7 == 2 * dy + dx));
}

/// Each half-block cell `x` of row `r` shows pixel `(x, 2r)` as its
/// foreground and the pixel right below it, `(x, 2r + 1)`, as its
/// background, followed by the half block.
pub proof fn lemma_half_cell_pixels(small: ImageView, color: ColorMode, r: int, x: int)
    requires
        0 <= x,
    ensures
        half_cells(small, color, r, x + 1) == half_cells(small, color, r, x) + fg_code(
            small.pixel(x, 2 * r),
            color,
        ) + bg_code(small.pixel(x, 2 * r + 1), color) + seq!['▀'],
{
}

/// A half-block row depends only on its own two pixel rows: images that
/// agree on rows `2r` and `2r + 1` give the same row `r`.
pub proof fn lemma_half_row_reads_its_pixel_pair(
    a: ImageView,
    b: ImageView,
    color: ColorMode,
    r: int,
    x: int,
)
    requires
        0 <= x,
        forall|i: int|
            0 <= i < x ==> #[trigger] a.pixel(i, 2 * r) == b.pixel(i, 2 * r) && a.pixel(i, 2 * r + 1)
                == b.pixel(i, 2 * r + 1),
    ensures
        half_cells(a, color, r, x) == half_cells(b, color, r, x),
    decreases x,
{
    if x > 0 {
        lemma_half_row_reads_its_pixel_pair(a, b, color, r, x - 1);
        assert(a.pixel(x - 1, 2 * r) == b.pixel(x - 1, 2 * r));
    }
}

/// The bit that the dot in column `dx`, row `dy` of cell `(cc, cr)` adds
/// to the cell's mask: its Unicode bit when lit, else nothing.
pub open spec fn lit_bit(dots: Seq<bool>, pw: int, cc: int, cr: int, dx: int, dy: int) -> int {
    if dots[(4 * cr + dy) * pw + 2 * cc + dx] {
        unicode_dot_bit(dx, dy)
    } else {
        0
    }
}

/// A Braille cell's dot mask is the sum of the Unicode bits of its lit
/// dots, read from the 2 × 4 block of the dot plane at `(2cc, 4cr)`.
pub proof fn lemma_braille_mask(dots: Seq<bool>, pw: int, cc: int, cr: int)
    ensures
        cell_mask(dots, pw, cc, cr, 8) == lit_bit(dots, pw, cc, cr, 0, 0) + lit_bit(
            dots,
            pw,
            cc,
            cr,
            1,
            0,
        ) + lit_bit(dots, pw, cc, cr, 0, 1) + lit_bit(dots, pw, cc, cr, 1, 1) + lit_bit(
            dots,
            pw,
            cc,
            cr,
            0,
            2,
        ) + lit_bit(dots, pw, cc, cr, 1, 2) + lit_bit(dots, pw, cc, cr, 0, 3) + lit_bit(
            dots,
            pw,
            cc,
            cr,
            1,
            3,
        ),
{
    vstd::arithmetic::power2::lemma2_to64();
    reveal_with_fuel(cell_mask, 9);
    assert(dot_on(dots, pw, cc, cr, 0) == dots[(4 * cr + 0) * pw + 2 * cc + 0]);
    assert(dot_on(dots, pw, cc, cr, 1) == dots[(4 * cr + 0) * pw + 2 * cc + 1]);
    assert(dot_on(dots, pw, cc, cr, 2) == dots[(4 * cr + 1) * pw + 2 * cc + 0]);
    assert(dot_on(dots, pw, cc, cr, 3) == dots[(4 * cr + 1) * pw + 2 * cc + 1]);
    assert(dot_on(dots, pw, cc, cr, 4) == dots[(4 * cr + 2) * pw + 2 * cc + 0]);
    assert(dot_on(dots, pw, cc, cr, 5) == dots[(4 * cr + 2) * pw + 2 * cc + 1]);
    assert(dot_on(dots, pw, cc, cr, 6) == dots[(4 * cr + 3) * pw + 2 * cc + 0]);
    assert(dot_on(dots, pw, cc, cr, 7) == dots[(4 * cr + 3) * pw + 2 * cc + 1]);
}

/// Half-block art grows one row at a time, top to bottom: row `r` is the
/// cells of pixel rows `2r` and `2r + 1` across the whole width, then a
/// reset and a newline.
pub proof fn lemma_half_rows_in_order(small: ImageView, color: ColorMode, r: int)
    requires
        0 <= r,
    ensures
        half_lines(small, color, r + 1) == half_lines(small, color, r) + half_cells(
            small,
            color,
            r,
            small.width as int,
        ) + reset_code() + seq!['\n'],
{
}

} // verus!
