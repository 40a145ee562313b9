//! Terminal Artist: turn images into terminal art.
//!
//! A single [`render`] call maps an RGBA raster to a string of terminal art
//! using one of the [`Renderer`] modes and an optional [`ColorMode`] of ANSI
//! escapes. Every stage of the pipeline (downscale, luminance, tone mapping,
//! quantization with error diffusion, glyph and color selection) is stated
//! as a specification and proved.

pub mod raster;
pub mod ansi;
pub mod glyphs;
pub mod dither;
pub mod tone;
pub mod scale;
pub mod art;
pub mod svg;
pub mod cli;

pub use crate::raster::{Image, Rgba};

use vstd::prelude::*;

use crate::art::{
    braille_art, cell_height, cell_rows, half_art, ramp_art, ramp_height, ramp_rows, render_ascii,
    render_braille, render_halfblocks,
};
use crate::raster::ImageView;
use crate::scale::{can_downscale, can_resize, downscale_fits, line_art_for, resize_fits};
use crate::tone::{curve_in_range, curve_ok};

verus! {

/// How color from the source image is encoded into the output.
#[derive(Clone, Copy, Debug, PartialEq, Eq, Structural)]
pub enum ColorMode {
    /// No escapes: plain characters only.
    Plain,
    /// ANSI 256-color palette (6×6×6 cube).
    Ansi256,
    /// 24-bit truecolor (`38;2;r;g;b`).
    TrueColor,
}

/// Output style. Each renderer maps pixels to a different glyph family.
#[derive(Clone, Copy, Debug, PartialEq, Eq, Structural)]
pub enum Renderer {
    /// Brightness to glyph ramp (ASCII or any custom or emoji ramp).
    Ascii,
    /// `▀` with fg/bg color: doubles vertical resolution. Always colored.
    HalfBlocks,
    /// 2×4 Braille dot matrix: highest spatial detail.
    Braille,
}

/// Rendering configuration. Sensible defaults via [`Options::default`].
#[derive(Clone, Debug)]
pub struct Options {
    /// Output width in terminal cells.
    pub width: u32,
    pub renderer: Renderer,
    pub color: ColorMode,
    /// Glyph ramp (dark to light) for [`Renderer::Ascii`].
    pub glyphs: String,
    /// Flip brightness to glyph mapping.
    pub invert: bool,
    /// Font cell height/width ratio in millionths (500000 = 0.5); corrects
    /// for tall monospace cells.
    pub char_aspect: u32,
    /// Luminance cutoff for a Braille dot to turn on (0–255).
    pub threshold: u8,
    /// Stretch the brightness range to full contrast (helps flat or
    /// low-contrast photos).
    pub auto_contrast: bool,
    /// Floyd–Steinberg error diffusion: smooth gradients become halftone
    /// texture instead of flat bands.
    pub dither: bool,
    /// Midtone gamma as a tone curve of 256 entries: luminance `l` becomes
    /// `curve[l] / 256` (entries at most `255 * 256`, so fractional tones
    /// are kept). `None` is gamma 1 (no change).
    pub gamma: Option<Vec<u16>>,
    /// Downscale by darkest pixel instead of averaging, which keeps thin dark
    /// strokes solid. `None` detects flat-color art from the histogram.
    pub line_art: Option<bool>,
}

impl Default for Options {
    fn default() -> (o: Self)
        ensures
            o.width == 80,
            o.renderer == Renderer::Ascii,
            o.color == ColorMode::Plain,
            o.glyphs@ == glyphs::ramp_for("standard"@),
            !o.invert,
            o.char_aspect == 500000,
            o.threshold == 128,
            o.auto_contrast,
            o.dither,
            o.gamma is None,
            o.line_art == Some(false),
    {
        Options {
            width: 80,
            renderer: Renderer::Ascii,
            color: ColorMode::Plain,
            glyphs: glyphs::resolve("standard"),
            invert: false,
            char_aspect: 500000,
            threshold: 128,
            auto_contrast: true,
            dither: true,
            gamma: None,
            line_art: Some(false),
        }
    }
}

/// The terminal art for an image: the chosen renderer's output.
pub open spec fn art(img: ImageView, opts: Options) -> Seq<char> {
    match opts.renderer {
        Renderer::Ascii => ramp_art(img, opts),
        Renderer::HalfBlocks => half_art(img, opts),
        Renderer::Braille => braille_art(img, opts),
    }
}

/// What rendering needs: a non-empty ramp for the glyph renderer, a full
/// gamma curve, an image with columns unless the requested art would have
/// no height to compute (the row count is then undefined), a source pixel
/// in every cell for darkest-pixel pooling, and a grid whose sizes fit.
pub open spec fn renderable(img: ImageView, opts: Options) -> bool {
    let rows = cell_rows(opts.width, img.width, img.height);
    &&& curve_ok(opts.gamma)
    &&& img.width == 0 && img.height > 0 && opts.width > 0 ==> opts.renderer == Renderer::Ascii
        && opts.char_aspect == 0
    &&& match opts.renderer {
        Renderer::Ascii => {
            &&& opts.glyphs@.len() >= 1
            &&& downscale_fits(
                img,
                opts.width,
                ramp_rows(opts.width, img.width, img.height, opts.char_aspect),
                line_art_for(img, opts.line_art),
            )
        },
        Renderer::HalfBlocks => {
            &&& 2 * rows <= u32::MAX
            &&& resize_fits(img, opts.width, (2 * rows) as u32)
        },
        Renderer::Braille => {
            &&& 2 * opts.width <= u32::MAX
            &&& 4 * rows <= u32::MAX
            &&& downscale_fits(
                img,
                (2 * opts.width) as u32,
                (4 * rows) as u32,
                line_art_for(img, opts.line_art),
            )
        },
    }
}

/// Whether [`render`] can render this image with these options
/// (see [`renderable`]).
pub fn can_render(img: &Image, opts: &Options) -> (r: bool)
    ensures
        r == renderable(img@, *opts),
{
    let (iw, ih) = img.dimensions();
    let curve_fits = match &opts.gamma {
        Some(t) => curve_in_range(t),
        None => true,
    };
    if !curve_fits {
        return false;
    }
    if iw == 0 && ih > 0 && opts.width > 0 && !(opts.renderer == Renderer::Ascii
        && opts.char_aspect == 0) {
        return false;
    }
    let rows = cell_height(opts.width, iw, ih);
    match opts.renderer {
        Renderer::Ascii => {
            if opts.glyphs.as_str().unicode_len() == 0 {
                return false;
            }
            let h = ramp_height(opts.width, iw, ih, opts.char_aspect);
            can_downscale(img, opts.width, h, opts.line_art)
        },
        Renderer::HalfBlocks => {
            if rows > 0x7fff_ffff {
                return false;
            }
            can_resize(img, opts.width, 2 * rows)
        },
        Renderer::Braille => {
            if opts.width > 0x7fff_ffff || rows > 0x3fff_ffff {
                return false;
            }
            can_downscale(img, 2 * opts.width, 4 * rows, opts.line_art)
        },
    }
}

/// Render an image to a block of terminal art (trailing newline included).
pub fn render(img: &Image, opts: &Options) -> (s: String)
    requires
        renderable(img@, *opts),
    ensures
        s@ == art(img@, *opts),
{
    match opts.renderer {
        Renderer::Ascii => render_ascii(img, opts),
        Renderer::HalfBlocks => render_halfblocks(img, opts),
        Renderer::Braille => render_braille(img, opts),
    }
}

} // verus!
