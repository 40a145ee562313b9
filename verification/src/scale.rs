//! Downscaling to the output grid: averaging (triangle filter) for photos,
//! darkest-pixel pooling for line art, and the histogram test that tells
//! them apart.

use vstd::prelude::*;

use crate::dither::clamp;
use crate::raster::{from_pixels, lemma_view_from_pixels, resize_exact,
    triangle_resized, Image, ImageView, Rgba};
use crate::tone::{luma, luminance};

verus! {

/// `max(v, 1)`.
pub open spec fn at_least_one(v: u32) -> u32 {
    if v == 0 {
        1
    } else {
        v
    }
}

/// A `max(w, 1) × max(h, 1)` RGBA buffer can be allocated (its byte count
/// fits in `usize`).
pub open spec fn grid_fits(w: u32, h: u32) -> bool {
    4 * (at_least_one(w) * at_least_one(h)) <= usize::MAX
}

/// Resampling to `max(w, 1) × max(h, 1)` can allocate its buffers: the
/// result, and (unless the source is empty or already that size) the
/// filter's intermediate of the source width by the new height, four
/// channels per pixel.
pub open spec fn resize_fits(img: ImageView, w: u32, h: u32) -> bool {
    &&& grid_fits(w, h)
    &&& img.len() > 0 && !(at_least_one(w) == img.width && at_least_one(h) == img.height) ==> 4 * (
    img.width * at_least_one(h)) <= usize::MAX
}

/// Downscaling can run: pooling needs a source pixel in every cell and
/// room for the result; resampling needs room for its buffers.
pub open spec fn downscale_fits(img: ImageView, w: u32, h: u32, line_art: bool) -> bool {
    if line_art {
        grid_fits(w, h) && img.width >= 1 && img.height >= 1
    } else {
        resize_fits(img, w, h)
    }
}

fn fits_in_memory(w: u64, h: u64) -> (r: bool)
    ensures
        r == (4 * (w * h) <= usize::MAX),
{
    assert((w as int) * (h as int) <= 0xffff_ffff_ffff_ffff * 0xffff_ffff_ffff_ffff) by (
    nonlinear_arith)
        requires
            w <= 0xffff_ffff_ffff_ffff,
            h <= 0xffff_ffff_ffff_ffff,
    ;
    let n: u128 = (w as u128) * (h as u128);
    if n > 0x1_0000_0000_0000_0000 {
        return false;
    }
    4 * n <= usize::MAX as u128
}

/// Whether [`resize`] can allocate its buffers (see [`resize_fits`]).
pub fn can_resize(img: &Image, w: u32, h: u32) -> (r: bool)
    ensures
        r == resize_fits(img@, w, h),
{
    let (iw, ih) = img.dimensions();
    let w1: u32 = if w == 0 {
        1
    } else {
        w
    };
    let h1: u32 = if h == 0 {
        1
    } else {
        h
    };
    if !fits_in_memory(w1 as u64, h1 as u64) {
        return false;
    }
    let n = img.as_raw().len() / 4;
    if n > 0 && !(w1 == iw && h1 == ih) {
        fits_in_memory(iw as u64, h1 as u64)
    } else {
        true
    }
}

/// Whether [`downscale`] can run (see [`downscale_fits`]).
pub fn can_downscale(img: &Image, w: u32, h: u32, line_art: Option<bool>) -> (r: bool)
    ensures
        r == downscale_fits(img@, w, h, line_art_for(img@, line_art)),
{
    let pool = match line_art {
        Some(b) => b,
        None => is_line_art(img),
    };
    if pool {
        let (iw, ih) = img.dimensions();
        let w1: u64 = if w == 0 {
            1
        } else {
            w as u64
        };
        let h1: u64 = if h == 0 {
            1
        } else {
            h as u64
        };
        fits_in_memory(w1, h1) && iw >= 1 && ih >= 1
    } else {
        can_resize(img, w, h)
    }
}

/// First source column (or row) of output cell `x` when `src` source pixels
/// are split over `n` cells.
pub open spec fn cell_start(x: int, src: int, n: int) -> int {
    x * src / n
}

/// One past the last source column (or row) of output cell `x`: at least one
/// pixel, never past the edge.
pub open spec fn cell_end(x: int, src: int, n: int) -> int {
    clamp((x + 1) * src / n, x * src / n + 1, src)
}

/// The darker of two pixels, keeping `best` on a tie.
pub open spec fn darker(best: Rgba, p: Rgba) -> Rgba {
    if luma(p) < luma(best) {
        p
    } else {
        best
    }
}

/// Scan row `y` from column `x` to `x1`, keeping the first darkest pixel.
pub open spec fn darkest_in_row(img: ImageView, y: int, x: int, x1: int, best: Rgba) -> Rgba
    decreases x1 - x,
{
    if x >= x1 {
        best
    } else {
        darkest_in_row(img, y, x + 1, x1, darker(best, img.pixel(x, y)))
    }
}

/// Scan rows `y..y1`, columns `x0..x1`, row-major, keeping the first darkest pixel.
pub open spec fn darkest_in_rows(
    img: ImageView,
    y: int,
    y1: int,
    x0: int,
    x1: int,
    best: Rgba,
) -> Rgba
    decreases y1 - y,
{
    if y >= y1 {
        best
    } else {
        darkest_in_rows(img, y + 1, y1, x0, x1, darkest_in_row(img, y, x0, x1, best))
    }
}

/// The darkest source pixel (first in row-major order) of output cell `(x, y)`
/// of a `w × h` grid.
pub open spec fn pooled_pixel(img: ImageView, w: int, h: int, x: int, y: int) -> Rgba {
    let x0 = cell_start(x, img.width as int, w);
    let x1 = cell_end(x, img.width as int, w);
    let y0 = cell_start(y, img.height as int, h);
    let y1 = cell_end(y, img.height as int, h);
    darkest_in_rows(img, y0, y1, x0, x1, img.pixel(x0, y0))
}

/// The image downscaled to `w × h` (each at least 1) by keeping the darkest
/// pixel of each cell.
pub open spec fn pooled(img: ImageView, w: u32, h: u32) -> ImageView {
    let w1 = at_least_one(w);
    let h1 = at_least_one(h);
    from_pixels(
        w1,
        h1,
        |i: int| pooled_pixel(img, w1 as int, h1 as int, i % (w1 as int), i / (w1 as int)),
    )
}

/// The image resampled to `w × h` (each at least 1) with the triangle filter.
pub open spec fn averaged(img: ImageView, w: u32, h: u32) -> ImageView {
    let w1 = at_least_one(w);
    let h1 = at_least_one(h);
    ImageView {
        width: w1,
        height: h1,
        data: triangle_resized(img.data, img.width, img.height, w1, h1),
    }
}

/// Cell `x` of `n` covers a non-empty run of source pixels inside the image.
proof fn lemma_cell(x: int, src: int, n: int)
    requires
        0 <= x < n,
        src >= 1,
    ensures
        0 <= cell_start(x, src, n) < cell_end(x, src, n) <= src,
{
    assert(0 <= x * src / n < src) by (nonlinear_arith)
        requires
            0 <= x < n,
            src >= 1,
    ;
}

fn cell_bounds(x: u32, src: u32, n: u32) -> (r: (u32, u32))
    requires
        x < n,
        src >= 1,
    ensures
        r.0 == cell_start(x as int, src as int, n as int),
        r.1 == cell_end(x as int, src as int, n as int),
        r.0 < r.1 <= src,
{
    proof {
        lemma_cell(x as int, src as int, n as int);
    }
    assert((x as int + 1) * (src as int) <= 0x1_0000_0000 * 0xffff_ffff) by (nonlinear_arith)
        requires
            x < n <= 0xffff_ffff,
            src <= 0xffff_ffff,
    ;
    assert((x as int) * (src as int) <= (x as int + 1) * (src as int)) by (nonlinear_arith)
        requires
            src >= 0,
    ;
    let start: u64 = (x as u64) * (src as u64) / (n as u64);
    let end0: u64 = ((x as u64) + 1) * (src as u64) / (n as u64);
    let end: u64 = if end0 < start + 1 {
        start + 1
    } else if end0 > src as u64 {
        src as u64
    } else {
        end0
    };
    (start as u32, end as u32)
}

/// The first darkest pixel of cell `[x0, x1) × [y0, y1)`.
fn darkest_in_cell(img: &Image, x0: u32, x1: u32, y0: u32, y1: u32) -> (p: Rgba)
    requires
        x0 < x1 <= img@.width,
        y0 < y1 <= img@.height,
    ensures
        p == darkest_in_rows(
            img@,
            y0 as int,
            y1 as int,
            x0 as int,
            x1 as int,
            img@.pixel(x0 as int, y0 as int),
        ),
{
    let ghost want = darkest_in_rows(
        img@,
        y0 as int,
        y1 as int,
        x0 as int,
        x1 as int,
        img@.pixel(x0 as int, y0 as int),
    );
    let mut best = img.get_pixel(x0, y0);
    let mut best_l = luminance(best);
    let mut sy = y0;
    while sy < y1
        invariant
            x0 < x1 <= img@.width,
            y0 <= sy <= y1 <= img@.height,
            best_l == luma(best),
            darkest_in_rows(img@, sy as int, y1 as int, x0 as int, x1 as int, best) == want,
        decreases y1 - sy,
    {
        let mut sx = x0;
        while sx < x1
            invariant
                x0 <= sx <= x1 <= img@.width,
                y0 <= sy < y1 <= img@.height,
                best_l == luma(best),
                darkest_in_rows(
                    img@,
                    sy + 1,
                    y1 as int,
                    x0 as int,
                    x1 as int,
                    darkest_in_row(img@, sy as int, sx as int, x1 as int, best),
                ) == want,
            decreases x1 - sx,
        {
            let p = img.get_pixel(sx, sy);
            let l = luminance(p);
            if l < best_l {
                best = p;
                best_l = l;
            }
            sx = sx + 1;
        }
        sy = sy + 1;
    }
    best
}

/// Downscale by keeping the *darkest* source pixel per cell. Averaging washes
/// a thin black stroke out to grey; min-pooling keeps every cell the stroke
/// touches fully dark.
pub fn min_pool(img: &Image, w: u32, h: u32) -> (out: Image)
    requires
        img@.width >= 1,
        img@.height >= 1,
        grid_fits(w, h),
    ensures
        out@ == pooled(img@, w, h),
{
    let (iw, ih) = img.dimensions();
    let w1: u32 = if w == 0 {
        1
    } else {
        w
    };
    let h1: u32 = if h == 0 {
        1
    } else {
        h
    };
    let ghost f = |i: int| pooled_pixel(img@, w1 as int, h1 as int, i % (w1 as int), i / (w1 as int));
    let mut out = Image::new(w1, h1);
    let mut y: u32 = 0;
    while y < h1
        invariant
            iw == img@.width,
            ih == img@.height,
            iw >= 1,
            ih >= 1,
            w1 == at_least_one(w),
            h1 == at_least_one(h),
            y <= h1,
            out@.width == w1,
            out@.height == h1,
            out@.wf(),
            f == (|i: int|
                pooled_pixel(img@, w1 as int, h1 as int, i % (w1 as int), i / (w1 as int))),
            forall|i: int| 0 <= i < y * w1 ==> #[trigger] out@.at(i) == f(i),
        decreases h1 - y,
    {
        let (y0, y1) = cell_bounds(y, ih, h1);
        let mut x: u32 = 0;
        while x < w1
            invariant
                iw == img@.width,
                ih == img@.height,
                iw >= 1,
                ih >= 1,
                w1 == at_least_one(w),
                h1 == at_least_one(h),
                y < h1,
                x <= w1,
                y0 == cell_start(y as int, ih as int, h1 as int),
                y1 == cell_end(y as int, ih as int, h1 as int),
                y0 < y1 <= ih,
                out@.width == w1,
                out@.height == h1,
                out@.wf(),
                f == (|i: int|
                    pooled_pixel(img@, w1 as int, h1 as int, i % (w1 as int), i / (w1 as int))),
                forall|i: int| 0 <= i < y * w1 + x ==> #[trigger] out@.at(i) == f(i),
            decreases w1 - x,
        {
            let (x0, x1) = cell_bounds(x, iw, w1);
            let p = darkest_in_cell(img, x0, x1, y0, y1);
            proof {
                crate::raster::lemma_index_in_grid(x as int, y as int, w1 as int, h1 as int);
                vstd::arithmetic::div_mod::lemma_fundamental_div_mod_converse(
                    y * w1 + x,
                    w1 as int,
                    y as int,
                    x as int,
                );
                assert(p == f(y * w1 + x));
            }
            out.put_pixel(x, y, p);
            x = x + 1;
        }
        assert(y * w1 + w1 == (y + 1) * w1) by (nonlinear_arith);
        y = y + 1;
    }
    proof {
        assert(out@.width * out@.height == y * w1) by (nonlinear_arith)
            requires
                out@.width == w1,
                out@.height == h1,
                y == h1,
        ;
        lemma_view_from_pixels(out@, f);
    }
    out
}

/// Coarse brightness bin (32 bins of 8 luma levels each) of a pixel.
pub open spec fn coarse_bin(p: Rgba) -> int {
    (luma(p) / 8) as int
}

/// How many of the first `n` pixels fall in coarse bin `b`.
pub open spec fn bin_count(px: Seq<Rgba>, n: int, b: int) -> nat
    decreases n,
{
    if n <= 0 {
        0
    } else {
        bin_count(px, n - 1, b) + if coarse_bin(px[n - 1]) == b {
            1nat
        } else {
            0nat
        }
    }
}

/// The 32-bin coarse luminance histogram.
pub open spec fn coarse_histogram(px: Seq<Rgba>) -> Seq<nat> {
    Seq::new(32, |b: int| bin_count(px, px.len() as int, b))
}

/// Index of the first largest entry of `s` at or after `from`, given the
/// best index `best` found so far.
pub open spec fn first_max_from(s: Seq<nat>, from: int, best: int) -> int
    decreases s.len() - from,
{
    if from >= s.len() {
        best
    } else if s[from] > s[best] {
        first_max_from(s, from + 1, from)
    } else {
        first_max_from(s, from + 1, best)
    }
}

/// Index of the first largest entry of a non-empty sequence.
pub open spec fn first_max(s: Seq<nat>) -> int {
    first_max_from(s, 1, 0)
}

/// Sum of the `k` largest entries.
pub open spec fn top_sum(s: Seq<nat>, k: nat) -> nat
    decreases k,
{
    if k == 0 || s.len() == 0 {
        0
    } else {
        let i = first_max(s);
        s[i] + top_sum(s.remove(i), (k - 1) as nat)
    }
}

/// Flat-color art concentrates its luminance histogram into a few spikes:
/// the 4 fullest of 32 coarse bins hold over 75% of the pixels.
pub open spec fn looks_like_line_art(px: Seq<Rgba>) -> bool {
    4 * top_sum(coarse_histogram(px), 4) > 3 * px.len()
}

proof fn lemma_first_max_from(s: Seq<nat>, from: int, best: int)
    requires
        0 <= best < s.len(),
        best < from <= s.len(),
    ensures
        0 <= first_max_from(s, from, best) < s.len(),
    decreases s.len() - from,
{
    if from < s.len() {
        if s[from] > s[best] {
            lemma_first_max_from(s, from + 1, from);
        } else {
            lemma_first_max_from(s, from + 1, best);
        }
    }
}

/// Index of the first largest entry.
fn argmax(v: &Vec<u64>) -> (r: usize)
    requires
        v@.len() >= 1,
    ensures
        r == first_max(v@.map_values(|c: u64| c as nat)),
        r < v@.len(),
{
    let ghost s = v@.map_values(|c: u64| c as nat);
    let mut best: usize = 0;
    let mut i: usize = 1;
    while i < v.len()
        invariant
            s == v@.map_values(|c: u64| c as nat),
            1 <= i <= v@.len(),
            best < i,
            first_max_from(s, i as int, best as int) == first_max(s),
        decreases v@.len() - i,
    {
        if v[i] > v[best] {
            best = i;
        }
        i = i + 1;
    }
    best
}

/// Whether the image looks like flat-color line art (see [`looks_like_line_art`]).
pub fn is_line_art(img: &Image) -> (r: bool)
    ensures
        r == looks_like_line_art(img@.pixels()),
{
    let n: usize = img.as_raw().len() / 4;
    let ghost px = img@.pixels();
    let mut bins: Vec<u64> = vec![0u64; 32];
    let mut i: usize = 0;
    while i < n
        invariant
            n == px.len(),
            px == img@.pixels(),
            img@.wf(),
            i <= n,
            bins@.len() == 32,
            forall|b: int| 0 <= b < 32 ==> #[trigger] bins@[b] == bin_count(px, i as int, b),
            forall|b: int| 0 <= b < 32 ==> #[trigger] bins@[b] <= i,
        decreases n - i,
    {
        let b = (luminance(img.at(i)) / 8) as usize;
        let c = bins[b];
        bins.set(b, c + 1);
        i = i + 1;
        assert forall|b: int| 0 <= b < 32 implies #[trigger] bins@[b] == bin_count(
            px,
            i as int,
            b,
        ) by {
            assert(px[i - 1] == img@.at(i - 1));
        }
    }
    let ghost hist = coarse_histogram(px);
    assert(bins@.map_values(|c: u64| c as nat) =~= hist);
    let mut rest = bins;
    let mut top: u128 = 0;
    let mut k: usize = 0;
    while k < 4
        invariant
            k <= 4,
            rest@.len() == 32 - k,
            top <= k * 0xffff_ffff_ffff_ffff,
            top + top_sum(rest@.map_values(|c: u64| c as nat), (4 - k) as nat) == top_sum(hist, 4),
        decreases 4 - k,
    {
        let ghost s = rest@.map_values(|c: u64| c as nat);
        let j = argmax(&rest);
        let c = rest.remove(j);
        top = top + c as u128;
        assert(rest@.map_values(|c: u64| c as nat) =~= s.remove(j as int));
        k = k + 1;
    }
    assert(top == top_sum(hist, 4)) by {
        assert(top_sum(rest@.map_values(|c: u64| c as nat), 0) == 0);
    }
    4 * top > 3 * (n as u128)
}

/// Whether to pool by darkest pixel: the caller's choice, or detected.
pub open spec fn line_art_for(img: ImageView, choice: Option<bool>) -> bool {
    match choice {
        Some(b) => b,
        None => looks_like_line_art(img.pixels()),
    }
}

/// The downscaler that matches the source: averaging for photos,
/// darkest-pixel for line art.
pub open spec fn downscaled(img: ImageView, w: u32, h: u32, line_art: bool) -> ImageView {
    if line_art {
        pooled(img, w, h)
    } else {
        averaged(img, w, h)
    }
}

/// Resample with the triangle filter to `max(w, 1) × max(h, 1)`.
pub fn resize(img: &Image, w: u32, h: u32) -> (out: Image)
    requires
        resize_fits(img@, w, h),
    ensures
        out@ == averaged(img@, w, h),
{
    let w1: u32 = if w == 0 {
        1
    } else {
        w
    };
    let h1: u32 = if h == 0 {
        1
    } else {
        h
    };
    resize_exact(img, w1, h1)
}

/// Pick the downscaler that matches the source: averaging for photos,
/// darkest-pixel for line art (decided by `line_art_for`).
pub fn downscale(img: &Image, w: u32, h: u32, line_art: Option<bool>) -> (out: Image)
    requires
        downscale_fits(img@, w, h, line_art_for(img@, line_art)),
    ensures
        out@ == downscaled(img@, w, h, line_art_for(img@, line_art)),
{
    let pool = match line_art {
        Some(b) => b,
        None => is_line_art(img),
    };
    if pool {
        min_pool(img, w, h)
    } else {
        resize(img, w, h)
    }
}

proof fn lemma_darkest_in_row(img: ImageView, y: int, x: int, x1: int, best: Rgba)
    requires
        x <= x1,
    ensures
        ({
            let q = darkest_in_row(img, y, x, x1, best);
            &&& q == best || exists|sx: int| x <= sx < x1 && q == #[trigger] img.pixel(sx, y)
            &&& luma(q) <= luma(best)
            &&& forall|sx: int| x <= sx < x1 ==> luma(q) <= luma(#[trigger] img.pixel(sx, y))
        }),
    decreases x1 - x,
{
    if x < x1 {
        let b2 = darker(best, img.pixel(x, y));
        lemma_darkest_in_row(img, y, x + 1, x1, b2);
        let q = darkest_in_row(img, y, x, x1, best);
        assert(q == darkest_in_row(img, y, x + 1, x1, b2));
        if q != best {
            if q == b2 {
                assert(q == img.pixel(x, y));
            }
        }
    }
}

proof fn lemma_darkest_in_rows(img: ImageView, y: int, y1: int, x0: int, x1: int, best: Rgba)
    requires
        y <= y1,
        x0 <= x1,
    ensures
        ({
            let q = darkest_in_rows(img, y, y1, x0, x1, best);
            &&& q == best || exists|sx: int, sy: int|
                x0 <= sx < x1 && y <= sy < y1 && q == #[trigger] img.pixel(sx, sy)
            &&& luma(q) <= luma(best)
            &&& forall|sx: int, sy: int|
                x0 <= sx < x1 && y <= sy < y1 ==> luma(q) <= luma(#[trigger] img.pixel(sx, sy))
        }),
    decreases y1 - y,
{
    if y < y1 {
        let b2 = darkest_in_row(img, y, x0, x1, best);
        lemma_darkest_in_row(img, y, x0, x1, best);
        lemma_darkest_in_rows(img, y + 1, y1, x0, x1, b2);
        let q = darkest_in_rows(img, y, y1, x0, x1, best);
        assert(q == darkest_in_rows(img, y + 1, y1, x0, x1, b2));
        if q != best && q == b2 {
            let sx = choose|sx: int| x0 <= sx < x1 && b2 == #[trigger] img.pixel(sx, y);
            assert(x0 <= sx < x1 && y <= y < y1 && q == img.pixel(sx, y));
        }
        assert forall|sx: int, sy: int|
            x0 <= sx < x1 && y <= sy < y1 implies luma(q) <= luma(#[trigger] img.pixel(sx, sy)) by {
            if sy == y {
                assert(luma(b2) <= luma(img.pixel(sx, y)));
            }
        }
    }
}

/// Darkest-pixel pooling keeps, for every output cell, a pixel of that
/// cell's source block that no other pixel of the block is darker than.
pub proof fn lemma_pooled_is_darkest(img: ImageView, w: int, h: int, x: int, y: int)
    requires
        img.width >= 1,
        img.height >= 1,
        0 <= x < w,
        0 <= y < h,
    ensures
        ({
            let p = pooled_pixel(img, w, h, x, y);
            let x0 = cell_start(x, img.width as int, w);
            let x1 = cell_end(x, img.width as int, w);
            let y0 = cell_start(y, img.height as int, h);
            let y1 = cell_end(y, img.height as int, h);
            &&& 0 <= x0 < x1 <= img.width
            &&& 0 <= y0 < y1 <= img.height
            &&& exists|sx: int, sy: int|
                x0 <= sx < x1 && y0 <= sy < y1 && p == #[trigger] img.pixel(sx, sy)
            &&& forall|sx: int, sy: int|
                x0 <= sx < x1 && y0 <= sy < y1 ==> luma(p) <= luma(#[trigger] img.pixel(sx, sy))
        }),
{
    let x0 = cell_start(x, img.width as int, w);
    let x1 = cell_end(x, img.width as int, w);
    let y0 = cell_start(y, img.height as int, h);
    let y1 = cell_end(y, img.height as int, h);
    lemma_cell(x, img.width as int, w);
    lemma_cell(y, img.height as int, h);
    lemma_darkest_in_rows(img, y0, y1, x0, x1, img.pixel(x0, y0));
    let p = pooled_pixel(img, w, h, x, y);
    if p == img.pixel(x0, y0) {
        assert(x0 <= x0 < x1 && y0 <= y0 < y1 && p == img.pixel(x0, y0));
    }
}

/// Sum of the entries.
pub open spec fn seq_sum(s: Seq<nat>) -> nat
    decreases s.len(),
{
    if s.len() == 0 {
        0
    } else {
        seq_sum(s.drop_last()) + s.last()
    }
}

/// Number of non-zero entries.
pub open spec fn occupied(s: Seq<nat>) -> nat
    decreases s.len(),
{
    if s.len() == 0 {
        0
    } else {
        occupied(s.drop_last()) + if s.last() > 0 {
            1nat
        } else {
            0nat
        }
    }
}

proof fn lemma_first_max_from_is_max(s: Seq<nat>, from: int, best: int)
    requires
        0 <= best < s.len(),
        best < from <= s.len(),
        forall|j: int| 0 <= j < from ==> #[trigger] s[j] <= s[best],
    ensures
        0 <= first_max_from(s, from, best) < s.len(),
        forall|j: int| 0 <= j < s.len() ==> #[trigger] s[j] <= s[first_max_from(s, from, best)],
    decreases s.len() - from,
{
    if from < s.len() {
        if s[from] > s[best] {
            lemma_first_max_from_is_max(s, from + 1, from);
        } else {
            lemma_first_max_from_is_max(s, from + 1, best);
        }
    }
}

proof fn lemma_sum_remove(s: Seq<nat>, i: int)
    requires
        0 <= i < s.len(),
    ensures
        seq_sum(s) == s[i] + seq_sum(s.remove(i)),
        s[i] > 0 ==> occupied(s) == occupied(s.remove(i)) + 1,
        s[i] == 0 ==> occupied(s) == occupied(s.remove(i)),
    decreases s.len(),
{
    if i == s.len() - 1 {
        assert(s.remove(i) =~= s.drop_last());
    } else {
        lemma_sum_remove(s.drop_last(), i);
        assert(s.remove(i).drop_last() =~= s.drop_last().remove(i));
        assert(s.remove(i).last() == s.last());
    }
}

proof fn lemma_unoccupied_sum(s: Seq<nat>)
    requires
        occupied(s) == 0,
    ensures
        seq_sum(s) == 0,
    decreases s.len(),
{
    if s.len() > 0 {
        lemma_unoccupied_sum(s.drop_last());
    }
}

/// When at most `k` entries are non-zero, the `k` largest hold everything.
proof fn lemma_top_sum_all(s: Seq<nat>, k: nat)
    requires
        occupied(s) <= k,
    ensures
        top_sum(s, k) == seq_sum(s),
    decreases k,
{
    if k == 0 || s.len() == 0 {
        lemma_unoccupied_sum(s);
    } else {
        let i = first_max(s);
        lemma_first_max_from_is_max(s, 1, 0);
        let r = s.remove(i);
        lemma_sum_remove(s, i);
        if s[i] == 0 {
            assert forall|j: int| 0 <= j < r.len() implies r[j] == 0 by {
                if j < i {
                    assert(r[j] == s[j]);
                } else {
                    assert(r[j] == s[j + 1]);
                }
            }
            assert(occupied(r) == 0) by {
                lemma_zero_unoccupied(r);
            }
        }
        lemma_top_sum_all(r, (k - 1) as nat);
    }
}

proof fn lemma_zero_unoccupied(s: Seq<nat>)
    requires
        forall|j: int| 0 <= j < s.len() ==> s[j] == 0,
    ensures
        occupied(s) == 0,
    decreases s.len(),
{
    if s.len() > 0 {
        lemma_zero_unoccupied(s.drop_last());
    }
}

/// The coarse histogram of the first `n` pixels.
pub open spec fn coarse_histogram_upto(px: Seq<Rgba>, n: int) -> Seq<nat> {
    Seq::new(32, |b: int| bin_count(px, n, b))
}

proof fn lemma_sum_bump(s: Seq<nat>, j: int)
    requires
        0 <= j < s.len(),
    ensures
        seq_sum(s.update(j, s[j] + 1)) == seq_sum(s) + 1,
    decreases s.len(),
{
    let t = s.update(j, s[j] + 1);
    if j == s.len() - 1 {
        assert(t.drop_last() =~= s.drop_last());
    } else {
        lemma_sum_bump(s.drop_last(), j);
        assert(t.drop_last() =~= s.drop_last().update(j, s[j] + 1));
    }
}

/// Every pixel falls in exactly one coarse bin.
proof fn lemma_coarse_total(px: Seq<Rgba>, n: int)
    requires
        0 <= n <= px.len(),
    ensures
        seq_sum(coarse_histogram_upto(px, n)) == n,
    decreases n,
{
    if n == 0 {
        lemma_zero_unoccupied(coarse_histogram_upto(px, 0));
        lemma_unoccupied_sum(coarse_histogram_upto(px, 0));
    } else {
        lemma_coarse_total(px, n - 1);
        let prev = coarse_histogram_upto(px, n - 1);
        let b0 = coarse_bin(px[n - 1]);
        assert(0 <= b0 < 32);
        lemma_sum_bump(prev, b0);
        assert(coarse_histogram_upto(px, n) =~= prev.update(b0, prev[b0] + 1));
    }
}

/// Flat-color art is line art: when the pixels fall into at most 4 of the
/// 32 coarse luminance bins, the 4 fullest bins hold all of them.
pub proof fn lemma_few_tones_are_line_art(px: Seq<Rgba>)
    requires
        px.len() > 0,
        occupied(coarse_histogram(px)) <= 4,
    ensures
        looks_like_line_art(px),
{
    let h = coarse_histogram(px);
    assert(h =~= coarse_histogram_upto(px, px.len() as int));
    lemma_coarse_total(px, px.len() as int);
    lemma_top_sum_all(h, 4);
}

/// Whether a pixel's luma lies in coarse bin `b`: `8b <= luma < 8b + 8`.
pub open spec fn in_bin(b: int) -> spec_fn(Rgba) -> bool {
    |p: Rgba| 8 * b <= luma(p) < 8 * b + 8
}

proof fn lemma_bin_count_filter(px: Seq<Rgba>, n: int, b: int)
    requires
        0 <= n <= px.len(),
    ensures
        bin_count(px, n, b) == px.take(n).filter(in_bin(b)).len(),
    decreases n,
{
    if n == 0 {
        assert(px.take(0) =~= Seq::<Rgba>::empty());
        reveal(Seq::filter);
    } else {
        lemma_bin_count_filter(px, n - 1, b);
        assert(px.take(n) =~= px.take(n - 1).push(px[n - 1]));
        px.take(n - 1).lemma_filter_len_push(in_bin(b), px[n - 1]);
        let l = luma(px[n - 1]) as int;
        vstd::arithmetic::div_mod::lemma_fundamental_div_mod(l, 8);
        assert((coarse_bin(px[n - 1]) == b) == (8 * b <= l < 8 * b + 8));
    }
}

/// The coarse histogram has 32 bins of 8 luma levels each: bin `b` counts
/// exactly the pixels whose luma lies in `8b .. 8b + 8`.
pub proof fn lemma_coarse_bins(px: Seq<Rgba>, b: int)
    requires
        0 <= b < 32,
    ensures
        coarse_histogram(px).len() == 32,
        coarse_histogram(px)[b] == px.filter(in_bin(b)).len(),
{
    lemma_bin_count_filter(px, px.len() as int, b);
    assert(px.take(px.len() as int) =~= px);
}

/// Pixels whose lumas are 8 or more apart never share a coarse bin, and
/// every bin lies in `0..32`.
pub proof fn lemma_distant_lumas_split(p: Rgba, q: Rgba)
    requires
        luma(p) + 8 <= luma(q),
    ensures
        coarse_bin(p) != coarse_bin(q),
        0 <= coarse_bin(p) < 32,
        0 <= coarse_bin(q) < 32,
{
    vstd::arithmetic::div_mod::lemma_fundamental_div_mod(luma(p) as int, 8);
    vstd::arithmetic::div_mod::lemma_fundamental_div_mod(luma(q) as int, 8);
}

proof fn lemma_top_sum_bounded(s: Seq<nat>, k: nat, m: nat)
    requires
        forall|j: int| 0 <= j < s.len() ==> #[trigger] s[j] <= m,
    ensures
        top_sum(s, k) <= k * m,
    decreases k,
{
    if k > 0 && s.len() > 0 {
        let i = first_max(s);
        lemma_first_max_from(s, 1, 0);
        let r = s.remove(i);
        assert forall|j: int| 0 <= j < r.len() implies #[trigger] r[j] <= m by {
            if j < i {
                assert(r[j] == s[j]);
            } else {
                assert(r[j] == s[j + 1]);
            }
        }
        lemma_top_sum_bounded(r, (k - 1) as nat, m);
        assert(s[i] + (k - 1) * m <= k * m) by (nonlinear_arith)
            requires
                s[i] <= m,
                k >= 1,
        ;
        assert(top_sum(s, k) == s[i] + top_sum(r, (k - 1) as nat));
        assert((k - 1) as nat * m == (k - 1) * m);
    }
}

/// Spread-out tones are not line art: when no coarse bin holds more than
/// 3/16 of the pixels, the 4 fullest hold at most 75% of them. For example
/// `n` pixels spread evenly over 8 or more bins.
pub proof fn lemma_spread_tones_are_not_line_art(px: Seq<Rgba>)
    requires
        forall|b: int| 0 <= b < 32 ==> 16 * #[trigger] px.filter(in_bin(b)).len() <= 3 * px.len(),
    ensures
        !looks_like_line_art(px),
{
    let h = coarse_histogram(px);
    let m = (3 * px.len() / 16) as nat;
    assert forall|j: int| 0 <= j < h.len() implies #[trigger] h[j] <= m by {
        lemma_coarse_bins(px, j);
        assert(16 * h[j] <= 3 * px.len());
    }
    lemma_top_sum_bounded(h, 4, m);
    assert(16 * m <= 3 * px.len());
}

} // verus!
