//! Luminance and tone mapping: Rec. 601 luma, auto-contrast from the
//! 2nd/98th brightness percentiles, gamma curve, inversion.

use vstd::prelude::*;

use crate::raster::{Image, ImageView, Rgba};
use crate::Options;

verus! {

/// Rec. 601 luma `0.299 R + 0.587 G + 0.114 B`, truncated; alpha is ignored.
pub open spec fn luma(p: Rgba) -> u8 {
    ((299 * p.r + 587 * p.g + 114 * p.b) / 1000) as u8
}

pub fn luminance(p: Rgba) -> (l: u8)
    ensures
        l == luma(p),
{
    let s: u32 = 299 * (p.r as u32) + 587 * (p.g as u32) + 114 * (p.b as u32);
    (s / 1000) as u8
}

/// How many of the first `n` pixels have luma `v`.
pub open spec fn lum_count(px: Seq<Rgba>, n: int, v: int) -> nat
    decreases n,
{
    if n <= 0 {
        0
    } else {
        lum_count(px, n - 1, v) + if luma(px[n - 1]) == v {
            1nat
        } else {
            0nat
        }
    }
}

/// Number of pixels at each luma `0..=255`.
pub open spec fn histogram(px: Seq<Rgba>) -> Seq<nat> {
    Seq::new(256, |v: int| lum_count(px, px.len() as int, v))
}

/// `h[0] + … + h[n - 1]`.
pub open spec fn prefix_sum(h: Seq<nat>, n: int) -> nat
    decreases n,
{
    if n <= 0 {
        0
    } else {
        prefix_sum(h, n - 1) + h[n - 1]
    }
}

/// `h[k] + … + h[255]`.
pub open spec fn suffix_sum(h: Seq<nat>, k: int) -> nat
    decreases 256 - k,
{
    if k >= 256 || k < 0 {
        0
    } else {
        h[k] + suffix_sum(h, k + 1)
    }
}

/// The first luma `l >= from` (at most 255) at which `cut` pixels are
/// reached counting up from black.
pub open spec fn low_cut(h: Seq<nat>, cut: nat, l: int) -> int
    decreases 255 - l,
{
    if l >= 255 {
        255
    } else if prefix_sum(h, l + 1) >= cut {
        l
    } else {
        low_cut(h, cut, l + 1)
    }
}

/// The last luma `k <= from` (at least 0) at which `cut` pixels are reached
/// counting down from white.
pub open spec fn high_cut(h: Seq<nat>, cut: nat, k: int) -> int
    decreases k,
{
    if k <= 0 {
        0
    } else if suffix_sum(h, k) >= cut {
        k
    } else {
        high_cut(h, cut, k - 1)
    }
}

/// Two percent of `n` pixels, rounded down.
pub open spec fn percentile_cut(n: nat) -> nat {
    n * 2 / 100
}

/// The 2nd/98th luma percentiles of the pixels: the range to stretch to
/// 0–255; the full range when they do not leave a gap.
pub open spec fn contrast_range(px: Seq<Rgba>) -> (u8, u8) {
    let h = histogram(px);
    let cut = percentile_cut(px.len());
    let lo = low_cut(h, cut, 0);
    let hi = high_cut(h, cut, 255);
    if hi <= lo {
        (0u8, 255u8)
    } else {
        (lo as u8, hi as u8)
    }
}

pub proof fn lemma_cuts_in_range(h: Seq<nat>, cut: nat, l: int, k: int)
    requires
        0 <= l <= 255,
        0 <= k <= 255,
    ensures
        l <= low_cut(h, cut, l) <= 255,
        0 <= high_cut(h, cut, k) <= k,
    decreases 255 - l + k,
{
    if l < 255 {
        lemma_cuts_in_range(h, cut, l + 1, k);
    }
    if k > 0 {
        lemma_cuts_in_range(h, cut, l, k - 1);
    }
}

/// 2nd/98th brightness percentiles of an image: the range to stretch to 0–255.
/// Percentiles (not min/max) so a few stray pixels don't flatten the stretch.
pub fn contrast_bounds(img: &Image) -> (r: (u8, u8))
    ensures
        r == contrast_range(img@.pixels()),
        r.0 < r.1,
{
    let n: usize = img.as_raw().len() / 4;
    let ghost px = img@.pixels();
    assert(n == px.len());
    let mut hist: Vec<u64> = vec![0u64; 256];
    let mut i: usize = 0;
    while i < n
        invariant
            n == px.len(),
            px == img@.pixels(),
            img@.wf(),
            i <= n,
            hist@.len() == 256,
            forall|v: int| 0 <= v < 256 ==> #[trigger] hist@[v] == lum_count(px, i as int, v),
            forall|v: int| 0 <= v < 256 ==> #[trigger] hist@[v] <= i,
        decreases n - i,
    {
        let l = luminance(img.at(i));
        let c = hist[l as usize];
        hist.set(l as usize, c + 1);
        i = i + 1;
        assert forall|v: int| 0 <= v < 256 implies #[trigger] hist@[v] == lum_count(
            px,
            i as int,
            v,
        ) by {
            assert(px[i - 1] == img@.at(i - 1));
        }
    }
    let ghost h = histogram(px);
    assert forall|v: int| 0 <= v < 256 implies #[trigger] hist@[v] == h[v] by {}
    let cut: u64 = (n / 50) as u64;
    assert(cut == percentile_cut(px.len()));
    let mut lo: usize = 0;
    let mut acc: u128 = 0;
    while lo < 255 && acc + (hist[lo] as u128) < (cut as u128)
        invariant
            lo <= 255,
            hist@.len() == 256,
            h == histogram(px),
            forall|v: int| 0 <= v < 256 ==> #[trigger] hist@[v] == h[v],
            acc == prefix_sum(h, lo as int),
            acc <= lo * 0xffff_ffff_ffff_ffff,
            low_cut(h, cut as nat, 0) == low_cut(h, cut as nat, lo as int),
        decreases 255 - lo,
    {
        acc = acc + (hist[lo] as u128);
        lo = lo + 1;
    }
    let mut hi: usize = 255;
    let mut acc: u128 = 0;
    while hi > 0 && acc + (hist[hi] as u128) < (cut as u128)
        invariant
            hi <= 255,
            hist@.len() == 256,
            h == histogram(px),
            forall|v: int| 0 <= v < 256 ==> #[trigger] hist@[v] == h[v],
            acc == suffix_sum(h, hi + 1),
            acc <= (255 - hi) * 0xffff_ffff_ffff_ffff,
            high_cut(h, cut as nat, 255) == high_cut(h, cut as nat, hi as int),
        decreases hi,
    {
        acc = acc + (hist[hi] as u128);
        hi = hi - 1;
    }
    if hi <= lo {
        (0, 255)
    } else {
        (lo as u8, hi as u8)
    }
}

/// Rescale a luminance so `lo..hi` maps to `0..255`, clamping outside.
pub open spec fn stretched(l: u8, lo: u8, hi: u8) -> u8 {
    if l <= lo {
        0
    } else if l >= hi {
        255
    } else {
        ((l - lo) * 255 / (hi - lo)) as u8
    }
}

/// Rescale a luminance so `lo..hi` maps to `0..255`.
pub fn stretch(lum: u8, bounds: (u8, u8)) -> (r: u8)
    requires
        bounds.0 < bounds.1,
    ensures
        r == stretched(lum, bounds.0, bounds.1),
{
    let (lo, hi) = bounds;
    if lum <= lo {
        0
    } else if lum >= hi {
        255
    } else {
        let num: u32 = ((lum - lo) as u32) * 255;
        let den: u32 = (hi - lo) as u32;
        assert(num / den < 255) by (nonlinear_arith)
            requires
                num == (lum - lo) * 255,
                den == hi - lo,
                0 < lum - lo < hi - lo,
        ;
        (num / den) as u8
    }
}

/// The gamma curve of the options, as a sequence.
pub open spec fn curve(g: Option<Vec<u16>>) -> Option<Seq<u16>> {
    match g {
        Some(t) => Some(t@),
        None => None,
    }
}

/// A gamma curve covers every luminance, and maps each to a tone (in
/// 1/256 units) no brighter than full white.
pub open spec fn curve_ok(g: Option<Vec<u16>>) -> bool {
    match g {
        Some(t) => t@.len() == 256 && forall|i: int| 0 <= i < 256 ==> #[trigger] t@[i] <= 65280,
        None => true,
    }
}

/// Whether `t` is a usable gamma curve (see [`curve_ok`]).
pub fn curve_in_range(t: &Vec<u16>) -> (r: bool)
    ensures
        r == curve_ok(Some(*t)),
{
    if t.len() != 256 {
        return false;
    }
    let mut i: usize = 0;
    while i < 256
        invariant
            t@.len() == 256,
            i <= 256,
            forall|j: int| 0 <= j < i ==> #[trigger] t@[j] <= 65280,
        decreases 256 - i,
    {
        if t[i] > 65280 {
            return false;
        }
        i = i + 1;
    }
    true
}

/// The stretch range: auto-contrast percentiles, or the identity range.
pub open spec fn range_for(px: Seq<Rgba>, auto_contrast: bool) -> (u8, u8) {
    if auto_contrast {
        contrast_range(px)
    } else {
        (0u8, 255u8)
    }
}

/// One luminance through stretch, gamma and inversion, in 1/256 units
/// (full white is `255 * 256 = 65280`).
pub open spec fn tone_of(l: u8, range: (u8, u8), gamma: Option<Seq<u16>>, invert: bool) -> u16 {
    let s = stretched(l, range.0, range.1);
    let g: int = match gamma {
        Some(t) => t[s as int] as int,
        None => s * 256,
    };
    if invert {
        (65280 - g) as u16
    } else {
        g as u16
    }
}

/// The tone-mapped luminance of every pixel, in 1/256 units.
pub open spec fn tone_plane(
    img: ImageView,
    auto_contrast: bool,
    gamma: Option<Seq<u16>>,
    invert: bool,
) -> Seq<u16> {
    let range = range_for(img.pixels(), auto_contrast);
    Seq::new(img.len(), |i: int| tone_of(luma(img.at(i)), range, gamma, invert))
}

/// Contrast bounds for `img`, or the identity range when auto-contrast is off.
pub fn bounds_for(img: &Image, opts: &Options) -> (r: (u8, u8))
    ensures
        r == range_for(img@.pixels(), opts.auto_contrast),
        r.0 < r.1,
{
    if opts.auto_contrast {
        contrast_bounds(img)
    } else {
        (0, 255)
    }
}

/// Stretched, gamma-mapped and optionally inverted luminance plane of an
/// image, in 1/256 units.
pub fn lum_plane(img: &Image, opts: &Options) -> (r: Vec<u16>)
    requires
        curve_ok(opts.gamma),
    ensures
        r@ == tone_plane(img@, opts.auto_contrast, curve(opts.gamma), opts.invert),
{
    let bounds = bounds_for(img, opts);
    let n: usize = img.as_raw().len() / 4;
    let ghost want = tone_plane(img@, opts.auto_contrast, curve(opts.gamma), opts.invert);
    let mut out: Vec<u16> = Vec::new();
    let mut i: usize = 0;
    while i < n
        invariant
            n == img@.len(),
            img@.wf(),
            i <= n,
            bounds == range_for(img@.pixels(), opts.auto_contrast),
            bounds.0 < bounds.1,
            curve_ok(opts.gamma),
            want == tone_plane(img@, opts.auto_contrast, curve(opts.gamma), opts.invert),
            out@.len() == i,
            forall|j: int| 0 <= j < i ==> out@[j] == #[trigger] want[j],
        decreases n - i,
    {
        let s = stretch(luminance(img.at(i)), bounds);
        let g: u16 = match &opts.gamma {
            Some(t) => t[s as usize],
            None => (s as u16) * 256,
        };
        let l: u16 = if opts.invert {
            65280 - g
        } else {
            g
        };
        out.push(l);
        i = i + 1;
    }
    assert(out@ =~= want);
    out
}

proof fn lemma_low_cut_share(h: Seq<nat>, cut: nat, l: int)
    requires
        0 <= l <= 255,
        prefix_sum(h, l) <= cut,
    ensures
        prefix_sum(h, low_cut(h, cut, l)) <= cut,
    decreases 255 - l,
{
    if l < 255 && prefix_sum(h, l + 1) < cut {
        lemma_low_cut_share(h, cut, l + 1);
    }
}

proof fn lemma_high_cut_share(h: Seq<nat>, cut: nat, k: int)
    requires
        0 <= k <= 255,
        suffix_sum(h, k + 1) <= cut,
    ensures
        suffix_sum(h, high_cut(h, cut, k) + 1) <= cut,
    decreases k,
{
    if k > 0 && suffix_sum(h, k) < cut {
        lemma_high_cut_share(h, cut, k - 1);
    }
}

/// Auto-contrast stretches between percentiles: the range is never empty,
/// at most 2% of the pixels are darker than its low end, and at most 2%
/// brighter than its high end.
pub proof fn lemma_percentile_range(px: Seq<Rgba>)
    ensures
        contrast_range(px).0 < contrast_range(px).1,
        prefix_sum(histogram(px), contrast_range(px).0 as int) <= percentile_cut(px.len()),
        suffix_sum(histogram(px), contrast_range(px).1 + 1) <= percentile_cut(px.len()),
{
    let h = histogram(px);
    let cut = percentile_cut(px.len());
    lemma_cuts_in_range(h, cut, 0, 255);
    lemma_low_cut_share(h, cut, 0);
    lemma_high_cut_share(h, cut, 255);
    assert(suffix_sum(h, 256) == 0);
}

/// With the identity range, stretching changes nothing.
pub proof fn lemma_stretch_identity(l: u8)
    ensures
        stretched(l, 0, 255) == l,
{
    if 0 < l < 255 {
        vstd::arithmetic::div_mod::lemma_div_by_multiple(l as int, 255);
        assert((l - 0) * 255 == (l as int) * 255);
    }
}

/// Stretching keeps the order of luminances.
pub proof fn lemma_stretch_monotone(a: u8, b: u8, lo: u8, hi: u8)
    requires
        a <= b,
        lo < hi,
    ensures
        stretched(a, lo, hi) <= stretched(b, lo, hi),
{
    if lo < a && b < hi {
        assert((a - lo) * 255 <= (b - lo) * 255) by (nonlinear_arith)
            requires
                lo < a <= b,
        ;
        vstd::arithmetic::div_mod::lemma_div_is_ordered(
            (a - lo) * 255,
            (b - lo) * 255,
            (hi - lo) as int,
        );
    }
    if lo < a < hi {
        assert((a - lo) * 255 / ((hi - lo) as int) < 255) by (nonlinear_arith)
            requires
                0 < a - lo < hi - lo,
        ;
    }
    if lo < b < hi {
        assert((b - lo) * 255 / ((hi - lo) as int) < 255) by (nonlinear_arith)
            requires
                0 < b - lo < hi - lo,
        ;
    }
}

/// The low end of the range maps to black, the high end to white.
pub proof fn lemma_stretch_ends(lo: u8, hi: u8)
    requires
        lo < hi,
    ensures
        stretched(lo, lo, hi) == 0,
        stretched(hi, lo, hi) == 255,
{
}

/// Inversion flips the tone: `255 - l`, that is `65280 - l` in 1/256 units.
pub proof fn lemma_invert_flips(l: u8, range: (u8, u8), gamma: Option<Seq<u16>>)
    requires
        gamma matches Some(t) ==> t.len() == 256 && forall|i: int|
            0 <= i < 256 ==> #[trigger] t[i] <= 65280,
    ensures
        tone_of(l, range, gamma, true) == 65280 - tone_of(l, range, gamma, false),
{
}

/// Tone mapping goes stretch, then gamma, then inversion: with a curve
/// `t`, a pixel's tone is `t` applied to the tone it has without a curve
/// (the stretched luminance), then inverted if asked.
pub proof fn lemma_gamma_after_stretch(l: u8, range: (u8, u8), t: Seq<u16>)
    requires
        t.len() == 256,
        forall|i: int| 0 <= i < 256 ==> #[trigger] t[i] <= 65280,
    ensures
        tone_of(l, range, None, false) % 256 == 0,
        tone_of(l, range, Some(t), false) == t[(tone_of(l, range, None, false) / 256) as int],
        tone_of(l, range, Some(t), true) == 65280 - t[(tone_of(l, range, None, false) / 256) as int],
{
    let s = stretched(l, range.0, range.1);
    assert(tone_of(l, range, None, false) == s * 256);
}

/// The identity curve (`t[i] = 256 i`) changes no tone, whatever the
/// stretch range and inversion.
pub proof fn lemma_identity_curve(img: ImageView, auto_contrast: bool, t: Seq<u16>, invert: bool)
    requires
        t.len() == 256,
        forall|i: int| 0 <= i < 256 ==> #[trigger] t[i] == 256 * i,
    ensures
        tone_plane(img, auto_contrast, Some(t), invert) == tone_plane(
            img,
            auto_contrast,
            None,
            invert,
        ),
{
    let range = range_for(img.pixels(), auto_contrast);
    assert forall|i: int| 0 <= i < img.len() implies #[trigger] tone_plane(
        img,
        auto_contrast,
        Some(t),
        invert,
    )[i] == tone_plane(img, auto_contrast, None, invert)[i] by {
        let s = stretched(luma(img.at(i)), range.0, range.1);
        assert(t[s as int] == 256 * s);
    }
    assert(tone_plane(img, auto_contrast, Some(t), invert) =~= tone_plane(
        img,
        auto_contrast,
        None,
        invert,
    ));
}

/// Without a curve, the ends of the stretch range become black and full
/// white (65280 in 1/256 units), so the contrast stretch always applies.
pub proof fn lemma_tone_range_ends(range: (u8, u8))
    requires
        range.0 < range.1,
    ensures
        tone_of(range.0, range, None, false) == 0,
        tone_of(range.1, range, None, false) == 65280,
{
}

} // verus!
