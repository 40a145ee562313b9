//! Quantizing a luminance plane to a number of levels, with optional
//! Floyd–Steinberg error diffusion.
//!
//! The input luminance comes in 1/256 units (full white is `255 * 256 =
//! 65280`). Values are held in fixed point: one luminance unit is
//! `2^20 * steps` fixed-point units, where `steps` is the number of gaps
//! between levels.
//! Level `k` then sits exactly at `k * 267386880` units (`255 * 2^20`), so
//! the quantization error of a cell is exact; each neighbour's share of it
//! (7/16, 3/16, 5/16, 1/16) is truncated toward zero, which loses less than
//! `2^-20` of a luminance unit per share.

use vstd::prelude::*;

verus! {

/// Gaps between adjacent levels: `levels - 1`, at least 1.
pub open spec fn steps(levels: int) -> int {
    if levels - 1 > 1 {
        levels - 1
    } else {
        1
    }
}

/// Fixed-point units per 1/256 of a luminance unit, the grain of the input.
pub open spec fn sub_unit(levels: int) -> int {
    4096 * steps(levels)
}

/// An input luminance in 1/256 units, with anything above full white
/// (`255 * 256 = 65280`) counted as full white.
pub open spec fn fine(l: u16) -> int {
    if l > 65280 {
        65280
    } else {
        l as int
    }
}

/// Full white (luminance 255) in fixed point.
pub open spec fn top(levels: int) -> int {
    267386880 * steps(levels)
}

pub open spec fn clamp(v: int, lo: int, hi: int) -> int {
    if v < lo {
        lo
    } else if v > hi {
        hi
    } else {
        v
    }
}

/// The level nearest to `v` (ties upward) after clamping to the luminance range.
pub open spec fn level_of(v: int, levels: int) -> int {
    (clamp(v, 0, top(levels)) + 133693440) / 267386880
}

/// What `v` misses its level by.
pub open spec fn error_of(v: int, levels: int) -> int {
    v - level_of(v, levels) * 267386880
}

/// `k/16` of an error, truncated toward zero.
pub open spec fn share(e: int, k: int) -> int {
    if e >= 0 {
        e * k / 16
    } else {
        -((-e) * k / 16)
    }
}

/// What cell `j` receives from cell `i` of a `w`-wide, `h`-tall plane when
/// the error of `i` is `e`: 7/16 right, 3/16 down-left, 5/16 down, 1/16 down-right.
pub open spec fn gain(i: int, j: int, w: int, h: int, e: int) -> int {
    let x = i % w;
    let y = i / w;
    (if j == i + 1 && x + 1 < w {
        share(e, 7)
    } else {
        0
    }) + (if j == i + w - 1 && y + 1 < h && x > 0 {
        share(e, 3)
    } else {
        0
    }) + (if j == i + w && y + 1 < h {
        share(e, 5)
    } else {
        0
    }) + (if j == i + w + 1 && y + 1 < h && x + 1 < w {
        share(e, 1)
    } else {
        0
    })
}

/// The plane after cell `i` hands its error to its unprocessed neighbours.
pub open spec fn diffuse(v: Seq<int>, i: int, w: int, h: int, levels: int) -> Seq<int> {
    let e = error_of(v[i], levels);
    Seq::new(v.len(), |j: int| v[j] + gain(i, j, w, h, e))
}

/// The fixed-point plane before any diffusion.
pub open spec fn start_plane(lum: Seq<u16>, levels: int) -> Seq<int> {
    Seq::new(lum.len(), |i: int| fine(lum[i]) * sub_unit(levels))
}

/// The plane after the first `k` cells (row-major) have diffused their error.
pub open spec fn diffused(lum: Seq<u16>, w: int, h: int, levels: int, k: int) -> Seq<int>
    decreases k,
{
    if k <= 0 {
        start_plane(lum, levels)
    } else {
        diffuse(diffused(lum, w, h, levels, k - 1), k - 1, w, h, levels)
    }
}

/// The value cell `i` holds when it is quantized.
pub open spec fn value_at(lum: Seq<u16>, w: int, h: int, levels: int, dither: bool, i: int) -> int {
    if dither {
        diffused(lum, w, h, levels, i)[i]
    } else {
        start_plane(lum, levels)[i]
    }
}

/// The level index of each of the first `w * h` cells, saturated at 255.
/// A single level leaves nothing to choose: every cell is level 0.
pub open spec fn quantized(lum: Seq<u16>, w: int, h: int, levels: int, dither: bool) -> Seq<u8> {
    let plane = lum.take(w * h);
    Seq::new(
        (w * h) as nat,
        |i: int|
            {
                let k = level_of(value_at(plane, w, h, levels, dither, i), levels);
                if levels <= 1 {
                    0u8
                } else if k > 255 {
                    255u8
                } else {
                    k as u8
                }
            },
    )
}

/// How far cell `j` may have drifted from its start value once cells `0..k`
/// are done, when no error exceeds `t`: `t` times the weight, in sixteenths,
/// of the neighbours among `0..k` that hand it a share.
pub open spec fn received(j: int, k: int, w: int, t: int) -> int {
    let a = j % w;
    (if a >= 1 && j - 1 < k {
        7 * t
    } else {
        0
    }) + (if j >= w && j - w < k {
        5 * t
    } else {
        0
    }) + (if j >= w && a + 1 < w && j - w + 1 < k {
        3 * t
    } else {
        0
    }) + (if j >= w && a >= 1 && j - w - 1 < k {
        t
    } else {
        0
    })
}

pub open spec fn abs(v: int) -> int {
    if v < 0 {
        -v
    } else {
        v
    }
}

proof fn lemma_level_bounds(v: int, levels: int)
    requires
        levels >= 1,
    ensures
        0 <= level_of(v, levels) <= steps(levels),
        0 <= level_of(v, levels) * 267386880 <= top(levels),
        0 <= v <= top(levels) ==> abs(error_of(v, levels)) <= 133693440,
        v > top(levels) ==> error_of(v, levels) == v - top(levels),
        v < 0 ==> error_of(v, levels) == v,
{
    let m = steps(levels);
    let c = clamp(v, 0, top(levels));
    assert((c + 133693440) / 267386880 <= m) by {
        assert(c + 133693440 < 267386880 * (m + 1));
        vstd::arithmetic::div_mod::lemma_div_is_ordered(c + 133693440, 267386880 * (m + 1) - 1, 267386880);
        vstd::arithmetic::div_mod::lemma_div_by_multiple(m + 1, 267386880);
        assert((267386880 * (m + 1) - 1) / 267386880 == m) by {
            vstd::arithmetic::div_mod::lemma_fundamental_div_mod_converse(
                267386880 * (m + 1) - 1,
                267386880,
                m,
                267386879,
            );
        }
    }
    let k = (c + 133693440) / 267386880;
    vstd::arithmetic::div_mod::lemma_fundamental_div_mod(c + 133693440, 267386880);
    if v > top(levels) {
        assert(k == m) by {
            vstd::arithmetic::div_mod::lemma_fundamental_div_mod_converse(
                c + 133693440,
                267386880,
                m,
                133693440,
            );
        }
    }
}

/// The error a cell hands on is never more than one full luminance range.
proof fn lemma_error_bound(v: int, s: int, levels: int)
    requires
        levels >= 1,
        0 <= s <= top(levels),
        abs(v - s) <= top(levels),
    ensures
        abs(error_of(v, levels)) <= top(levels),
{
    lemma_level_bounds(v, levels);
}

proof fn lemma_share_bound(e: int, k: int)
    requires
        0 <= k <= 16,
    ensures
        16 * abs(share(e, k)) <= abs(e) * k,
{
    let a = abs(e);
    assert(a * k >= 0) by (nonlinear_arith)
        requires
            a >= 0,
            k >= 0,
    ;
    vstd::arithmetic::div_mod::lemma_fundamental_div_mod(a * k, 16);
    if e >= 0 {
        assert(share(e, k) == a * k / 16);
    } else {
        assert(share(e, k) == -(a * k / 16));
    }
}

/// Column bookkeeping for the neighbours of cell `k` in a `w`-wide plane.
proof fn lemma_cols(k: int, w: int, h: int)
    requires
        w >= 1,
        0 <= k,
    ensures
        k == (k / w) * w + k % w,
        0 <= k % w < w,
        (k + 1) % w == (if k % w + 1 < w {
            k % w + 1
        } else {
            0
        }),
        (k + w) % w == k % w,
        (k + w + 1) % w == (if k % w + 1 < w {
            k % w + 1
        } else {
            0
        }),
        k % w >= 1 ==> (k + w - 1) % w == k % w - 1,
        k % w == 0 ==> (k + w - 1) % w == w - 1,
        k + w - k % w < w * h ==> k / w + 1 < h,
{
    let x = k % w;
    let y = k / w;
    assert((y + 1) * w == y * w + w && (y + 2) * w == y * w + w + w) by (nonlinear_arith);
    vstd::arithmetic::div_mod::lemma_fundamental_div_mod(k, w);
    vstd::arithmetic::div_mod::lemma_mod_pos_bound(k, w);
    vstd::arithmetic::mul::lemma_mul_is_commutative(w, y);
    assert(k == y * w + x);
    if x + 1 < w {
        vstd::arithmetic::div_mod::lemma_fundamental_div_mod_converse(k + 1, w, y, x + 1);
        vstd::arithmetic::div_mod::lemma_fundamental_div_mod_converse(k + w + 1, w, y + 1, x + 1);
    } else {
        vstd::arithmetic::div_mod::lemma_fundamental_div_mod_converse(k + 1, w, y + 1, 0);
        vstd::arithmetic::div_mod::lemma_fundamental_div_mod_converse(k + w + 1, w, y + 2, 0);
    }
    vstd::arithmetic::div_mod::lemma_fundamental_div_mod_converse(k + w, w, y + 1, x);
    if x >= 1 {
        vstd::arithmetic::div_mod::lemma_fundamental_div_mod_converse(k + w - 1, w, y + 1, x - 1);
    } else {
        vstd::arithmetic::div_mod::lemma_fundamental_div_mod_converse(k + w - 1, w, y, w - 1);
    }
    if k + w - x < w * h {
        assert(y + 1 < h) by (nonlinear_arith)
            requires
                k == y * w + x,
                k + w - x < w * h,
                w >= 1,
        ;
    }
}

/// Every unprocessed cell has drifted from its start value by at most the
/// weight it has received times the largest error.
proof fn lemma_diffused_bound(lum: Seq<u16>, w: int, h: int, levels: int, k: int)
    requires
        w >= 1,
        h >= 0,
        lum.len() == w * h,
        levels >= 1,
        0 <= k <= lum.len(),
    ensures
        diffused(lum, w, h, levels, k).len() == lum.len(),
        forall|j: int|
            k <= j < lum.len() ==> 16 * abs(
                #[trigger] diffused(lum, w, h, levels, k)[j] - start_plane(lum, levels)[j],
            ) <= received(j, k, w, top(levels)),
    decreases k,
{
    let s = start_plane(lum, levels);
    let t = top(levels);
    if k > 0 {
        let p = k - 1;
        lemma_diffused_bound(lum, w, h, levels, p);
        let d = diffused(lum, w, h, levels, p);
        let e = error_of(d[p], levels);
        assert(0 <= s[p] <= t) by {
            assert(s[p] == fine(lum[p]) * sub_unit(levels));
            assert(0 <= fine(lum[p]) * sub_unit(levels) <= 65280 * sub_unit(levels)) by (
            nonlinear_arith)
                requires
                    0 <= fine(lum[p]) <= 65280,
                    sub_unit(levels) >= 4096,
            ;
        }
        vstd::arithmetic::div_mod::lemma_mod_pos_bound(p, w);
        lemma_error_bound(d[p], s[p], levels);
        lemma_cols(p, w, h);
        lemma_share_bound(e, 7);
        lemma_share_bound(e, 5);
        lemma_share_bound(e, 3);
        lemma_share_bound(e, 1);
        let dk = diffused(lum, w, h, levels, k);
        assert(dk == diffuse(d, p, w, h, levels));
        assert forall|j: int| k <= j < lum.len() implies 16 * abs(#[trigger] dk[j] - s[j])
            <= received(j, k, w, t) by {
            let g = gain(p, j, w, h, e);
            assert(dk[j] == d[j] + g);
            vstd::arithmetic::div_mod::lemma_mod_pos_bound(j, w);
            if j == p + 1 {
            } else if j == p + w - 1 {
            } else if j == p + w {
            } else if j == p + w + 1 {
            } else {
                assert(g == 0);
            }
        }
    }
}

/// `k/16` of `e`, truncated toward zero.
fn share_of(e: i128, k: i128) -> (r: i128)
    requires
        0 <= k <= 16,
        -0x1_0000_0000_0000_0000_0000_0000 <= e <= 0x1_0000_0000_0000_0000_0000_0000,
    ensures
        r == share(e as int, k as int),
        16 * abs(r as int) <= abs(e as int) * k,
{
    proof {
        lemma_share_bound(e as int, k as int);
    }
    if e >= 0 {
        assert(0 <= e * k <= 0x10_0000_0000_0000_0000_0000_0000) by (nonlinear_arith)
            requires
                0 <= k <= 16,
                0 <= e <= 0x1_0000_0000_0000_0000_0000_0000,
        ;
        e * k / 16
    } else {
        assert(0 <= (-e) * k <= 0x10_0000_0000_0000_0000_0000_0000) by (nonlinear_arith)
            requires
                0 <= k <= 16,
                0 < -e <= 0x1_0000_0000_0000_0000_0000_0000,
        ;
        -((-e) * k / 16)
    }
}

/// The largest `top` that the fixed-point plane may use without overflow.
pub open spec fn top_limit() -> int {
    0x1_0000_0000_0000_0000_0000_0000
}

/// Hand the error `e` of cell `k = y * w + x` to its unprocessed neighbours.
fn spread_error(v: &mut Vec<i128>, k: usize, x: usize, y: usize, w: usize, h: usize, e: i128, t: i128)
    requires
        old(v)@.len() == w * h,
        w * h <= usize::MAX,
        w >= 1,
        x < w,
        y < h,
        k == y * w + x,
        k as int % w as int == x,
        k as int / w as int == y,
        0 <= t <= top_limit(),
        abs(e as int) <= t,
        forall|j: int| k < j < old(v)@.len() ==> -2 * t <= #[trigger] old(v)@[j] <= 2 * t,
    ensures
        final(v)@.len() == old(v)@.len(),
        forall|j: int|
            0 <= j < old(v)@.len() ==> #[trigger] final(v)@[j] == old(v)@[j] + gain(
                k as int,
                j,
                w as int,
                h as int,
                e as int,
            ),
{
    let ghost d = v@;
    if x + 1 < w {
        proof {
            crate::raster::lemma_index_in_grid(x + 1, y as int, w as int, h as int);
        }
        let s = share_of(e, 7);
        let old_v = v[k + 1];
        v.set(k + 1, old_v + s);
    }
    let ghost d1 = v@;
    if y + 1 < h {
        assert(k + w < w * h) by (nonlinear_arith)
            requires
                k == y * w + x,
                y + 1 < h,
                x < w,
        ;
        if x > 0 {
            let s = share_of(e, 3);
            let old_v = v[k + w - 1];
            v.set(k + w - 1, old_v + s);
        }
        let s = share_of(e, 5);
        let old_v = v[k + w];
        v.set(k + w, old_v + s);
        if x + 1 < w {
            assert(k + w + 1 < w * h) by (nonlinear_arith)
                requires
                    k == y * w + x,
                    y + 1 < h,
                    x + 1 < w,
            ;
            let s = share_of(e, 1);
            let old_v = v[k + w + 1];
            v.set(k + w + 1, old_v + s);
        }
    }
    assert forall|j: int| 0 <= j < d.len() implies #[trigger] v@[j] == d[j] + gain(
        k as int,
        j,
        w as int,
        h as int,
        e as int,
    ) by {}
}

/// Facts about cell `k = y * w + x` when it is reached: its place in the
/// grid, and how far the plane can have drifted.
proof fn lemma_at_cell(lum: Seq<u16>, w: int, h: int, levels: int, k: int, x: int, y: int)
    requires
        w >= 1,
        lum.len() == w * h,
        levels >= 1,
        0 <= x < w,
        0 <= y < h,
        k == y * w + x,
    ensures
        0 <= k < lum.len(),
        k % w == x,
        k / w == y,
        0 <= start_plane(lum, levels)[k] <= top(levels),
        diffused(lum, w, h, levels, k).len() == lum.len(),
        forall|j: int|
            k <= j < lum.len() ==> -2 * top(levels) <= #[trigger] diffused(
                lum,
                w,
                h,
                levels,
                k,
            )[j] <= 2 * top(levels),
        abs(error_of(diffused(lum, w, h, levels, k)[k], levels)) <= top(levels),
        abs(error_of(start_plane(lum, levels)[k], levels)) <= top(levels),
{
    crate::raster::lemma_index_in_grid(x, y, w, h);
    vstd::arithmetic::div_mod::lemma_fundamental_div_mod_converse(k, w, y, x);
    lemma_diffused_bound(lum, w, h, levels, k);
    let s = start_plane(lum, levels);
    let d = diffused(lum, w, h, levels, k);
    assert forall|j: int| 0 <= j < lum.len() implies 0 <= #[trigger] s[j] <= top(levels) by {
        assert(0 <= fine(lum[j]) * sub_unit(levels) <= 65280 * sub_unit(levels)) by (
        nonlinear_arith)
            requires
                0 <= fine(lum[j]) <= 65280,
                sub_unit(levels) >= 4096,
        ;
    }
    assert forall|j: int| k <= j < lum.len() implies -2 * top(levels) <= #[trigger] d[j] <= 2
        * top(levels) by {
        assert(16 * abs(d[j] - s[j]) <= received(j, k, w, top(levels)));
        assert(0 <= s[j] <= top(levels));
    }
    assert(16 * abs(d[k] - s[k]) <= received(k, k, w, top(levels)));
    lemma_error_bound(d[k], s[k], levels);
    lemma_error_bound(s[k], s[k], levels);
}

/// Quantize a luminance plane (in 1/256 units; `w` wide, `h` tall,
/// row-major: the first `w * h` entries of `lum`) to `levels` steps, optionally diffusing each
/// cell's quantization error to its unprocessed neighbours
/// (Floyd–Steinberg). Returns each cell's level index, saturated at 255.
pub fn quantize_plane(lum: &Vec<u16>, w: usize, h: usize, levels: usize, dither: bool) -> (out: Vec<
    u8,
>)
    requires
        w * h <= lum@.len(),
        levels >= 1,
    ensures
        out@ == quantized(lum@, w as int, h as int, levels as int, dither),
{
    let ghost wi = w as int;
    let ghost hi = h as int;
    let ghost li = levels as int;
    let total = lum.len();
    assert(w * h <= total);
    let n: usize = w * h;
    let ghost p = lum@.take(n as int);
    if levels == 1 {
        let mut zeros: Vec<u8> = Vec::new();
        let mut i: usize = 0;
        while i < n
            invariant
                i <= n,
                zeros@.len() == i,
                forall|j: int| 0 <= j < i ==> zeros@[j] == 0u8,
            decreases n - i,
        {
            zeros.push(0u8);
            i = i + 1;
        }
        assert(zeros@ =~= quantized(lum@, wi, hi, li, dither));
        return zeros;
    }
    let ghost start = start_plane(p, li);
    let m: i128 = (levels - 1) as i128;
    assert(m == steps(li));
    let unit_v: i128 = 4096 * m;
    let top_v: i128 = 267386880 * m;
    let mut v: Vec<i128> = Vec::new();
    let mut i: usize = 0;
    while i < n
        invariant
            n == p.len(),
            n <= lum@.len(),
            p == lum@.take(n as int),
            i <= n,
            v@.len() == i,
            unit_v == sub_unit(li),
            li == levels,
            start == start_plane(p, li),
            0 < unit_v <= 4096 * 0x1_0000_0000_0000_0000,
            forall|j: int| 0 <= j < i ==> v@[j] == start[j],
        decreases n - i,
    {
        let l: u16 = if lum[i] > 65280 {
            65280
        } else {
            lum[i]
        };
        assert(0 <= l * unit_v <= 65280 * 4096 * 0x1_0000_0000_0000_0000) by (nonlinear_arith)
            requires
                0 <= l <= 65280,
                0 < unit_v <= 4096 * 0x1_0000_0000_0000_0000,
        ;
        v.push((l as i128) * unit_v);
        i = i + 1;
    }
    let mut out: Vec<u8> = Vec::new();
    if w == 0 {
        assert(out@ =~= quantized(lum@, wi, hi, li, dither));
        return out;
    }
    let mut k: usize = 0;
    let mut y: usize = 0;
    while y < h
        invariant
            n == p.len(),
            p == lum@.take(wi * hi),
            li >= 2,
            n == w * h,
            w >= 1,
            y <= h,
            k == y * w,
            v@.len() == n,
            out@.len() == k,
            m == steps(li),
            top_v == top(li),
            li >= 1,
            wi == w,
            hi == h,
            li == levels,
            start == start_plane(p, li),
            forall|j: int|
                0 <= j < k ==> out@[j] == #[trigger] quantized(lum@, wi, hi, li, dither)[j],
            dither ==> forall|j: int|
                0 <= j < n ==> v@[j] == #[trigger] diffused(p, wi, hi, li, k as int)[j],
            !dither ==> forall|j: int| 0 <= j < n ==> v@[j] == start[j],
        decreases h - y,
    {
        let mut x: usize = 0;
        while x < w
            invariant
                n == p.len(),
            p == lum@.take(wi * hi),
            li >= 2,
                n == w * h,
                w >= 1,
                y < h,
                x <= w,
                k == y * w + x,
                v@.len() == n,
                out@.len() == k,
                m == steps(li),
                top_v == top(li),
                li >= 1,
                wi == w,
                hi == h,
                li == levels,
                start == start_plane(p, li),
                forall|j: int|
                    0 <= j < k ==> out@[j] == #[trigger] quantized(lum@, wi, hi, li, dither)[j],
                dither ==> forall|j: int|
                    0 <= j < n ==> v@[j] == #[trigger] diffused(p, wi, hi, li, k as int)[j],
                !dither ==> forall|j: int| 0 <= j < n ==> v@[j] == start[j],
            decreases w - x,
        {
            proof {
                lemma_at_cell(p, wi, hi, li, k as int, x as int, y as int);
                lemma_level_bounds(v@[k as int] as int, li);
                assert(v@[k as int] == value_at(p, wi, hi, li, dither, k as int));
            }
            let vk = v[k];
            let c: i128 = if vk < 0 {
                0
            } else if vk > top_v {
                top_v
            } else {
                vk
            };
            let idx: i128 = (c + 133693440) / 267386880;
            assert(idx == level_of(vk as int, li));
            let q: u8 = if idx > 255 {
                255
            } else {
                idx as u8
            };
            out.push(q);
            assert(out@[k as int] == quantized(lum@, wi, hi, li, dither)[k as int]);
            if dither {
                let ghost d = v@;
                let e: i128 = vk - idx * 267386880;
                assert(e == error_of(vk as int, li));
                assert forall|j: int| k < j < n implies -2 * top_v <= #[trigger] v@[j] <= 2
                    * top_v by {
                    assert(v@[j] == diffused(p, wi, hi, li, k as int)[j]);
                }
                spread_error(&mut v, k, x, y, w, h, e, top_v);
                proof {
                    let cur = diffused(p, wi, hi, li, k as int);
                    assert(d =~= cur.map_values(|a: int| a as i128)) by {
                        assert forall|j: int| 0 <= j < n implies d[j] == cur[j] by {
                            assert(d[j] == cur[j]);
                        }
                    }
                    let next = diffused(p, wi, hi, li, k + 1);
                    assert(next == diffuse(cur, k as int, wi, hi, li));
                    assert forall|j: int| 0 <= j < n implies v@[j] == #[trigger] next[j] by {
                        assert(d[j] == cur[j]);
                    }
                }
            }
            k = k + 1;
            x = x + 1;
        }
        assert(k == (y + 1) * w) by (nonlinear_arith)
            requires
                k == y * w + w,
        ;
        y = y + 1;
    }
    assert(k == n) by (nonlinear_arith)
        requires
            k == y * w,
            y == h,
            n == w * h,
    ;
    assert(out@ =~= quantized(lum@, wi, hi, li, dither));
    out
}

/// Every level index is below the number of levels (so a single level
/// gives index 0 everywhere), and never above 255.
pub proof fn lemma_quantized_in_range(lum: Seq<u16>, w: int, h: int, levels: int, dither: bool)
    requires
        levels >= 1,
        0 <= w,
        0 <= h,
    ensures
        quantized(lum, w, h, levels, dither).len() == w * h,
        forall|i: int|
            0 <= i < w * h ==> #[trigger] quantized(lum, w, h, levels, dither)[i] < levels,
{
    assert(0 <= w * h) by (nonlinear_arith)
        requires
            0 <= w,
            0 <= h,
    ;
    assert forall|i: int| 0 <= i < w * h implies #[trigger] quantized(
        lum,
        w,
        h,
        levels,
        dither,
    )[i] < levels by {
        lemma_level_bounds(value_at(lum.take(w * h), w, h, levels, dither, i), levels);
    }
}

/// Without dithering, each cell takes the level nearest to its luminance
/// `l` (in 1/256 units, at most full white): `round(l × (levels - 1) / 65280)`,
/// halves rounded up.
pub proof fn lemma_undithered_nearest(lum: Seq<u16>, w: int, h: int, levels: int)
    requires
        levels >= 2,
        0 <= w,
        0 <= h,
        w * h <= lum.len(),
    ensures
        forall|i: int|
            0 <= i < w * h ==> #[trigger] quantized(lum, w, h, levels, false)[i] as int == {
                let k = (2 * fine(lum[i]) * (levels - 1) + 65280) / 130560;
                if k > 255 {
                    255
                } else {
                    k
                }
            },
{
    assert forall|i: int| 0 <= i < w * h implies #[trigger] quantized(
        lum,
        w,
        h,
        levels,
        false,
    )[i] as int == {
        let k = (2 * fine(lum[i]) * (levels - 1) + 65280) / 130560;
        if k > 255 {
            255
        } else {
            k
        }
    } by {
        let m = steps(levels);
        assert(m == levels - 1);
        let l = fine(lum[i]);
        assert(lum.take(w * h)[i] == lum[i]);
        let v = l * sub_unit(levels);
        assert(0 <= v <= top(levels)) by (nonlinear_arith)
            requires
                0 <= l <= 65280,
                v == l * sub_unit(levels),
                sub_unit(levels) == 4096 * m,
                top(levels) == 267386880 * m,
                m >= 1,
        ;
        assert(v + 133693440 == 2048 * (2 * l * m + 65280)) by (nonlinear_arith)
            requires
                v == l * (4096 * m),
        ;
        assert((v + 133693440) / 267386880 == (2 * l * m + 65280) / 130560) by {
            vstd::arithmetic::div_mod::lemma_div_denominator(v + 133693440, 2048, 130560);
            assert((v + 133693440) / 2048 == 2 * l * m + 65280) by {
                vstd::arithmetic::div_mod::lemma_div_by_multiple(2 * l * m + 65280, 2048);
            }
        }
    }
}

/// A cell whose value sits exactly on a level hands on no error.
proof fn lemma_exact_no_error(l: int, levels: int)
    requires
        levels >= 1,
        l == 0 || l == 65280,
    ensures
        error_of(l * sub_unit(levels), levels) == 0,
{
    let m = steps(levels);
    if l == 65280 {
        assert(65280 * sub_unit(levels) == top(levels));
        lemma_level_bounds(top(levels), levels);
        assert((top(levels) + 133693440) / 267386880 == m) by {
            vstd::arithmetic::div_mod::lemma_fundamental_div_mod_converse(
                top(levels) + 133693440,
                267386880,
                m,
                133693440,
            );
        }
    }
}

/// Pure black and pure white (65280 and above) sit exactly on the first and
/// last level, so a plane of only those is quantized the same with or
/// without dithering: no error is ever diffused.
pub proof fn lemma_extremes_exact(lum: Seq<u16>, w: int, h: int, levels: int)
    requires
        levels >= 1,
        0 <= w,
        0 <= h,
        w * h <= lum.len(),
        forall|i: int| 0 <= i < lum.len() ==> #[trigger] lum[i] == 0 || lum[i] >= 65280,
    ensures
        quantized(lum, w, h, levels, true) == quantized(lum, w, h, levels, false),
{
    let p = lum.take(w * h);
    assert(0 <= w * h) by (nonlinear_arith)
        requires
            0 <= w,
            0 <= h,
    ;
    assert forall|i: int| 0 <= i < p.len() implies #[trigger] p[i] == 0 || p[i] >= 65280 by {
        assert(p[i] == lum[i]);
    }
    assert forall|k: int| 0 <= k <= p.len() implies #[trigger] diffused(p, w, h, levels, k)
        == start_plane(p, levels) by {
        lemma_diffused_unchanged(p, w, h, levels, k);
    }
    assert(quantized(lum, w, h, levels, true) =~= quantized(lum, w, h, levels, false)) by {
        assert forall|i: int| 0 <= i < w * h implies quantized(lum, w, h, levels, true)[i]
            == quantized(lum, w, h, levels, false)[i] by {
            assert(diffused(p, w, h, levels, i) == start_plane(p, levels));
        }
    }
}

proof fn lemma_diffused_unchanged(lum: Seq<u16>, w: int, h: int, levels: int, k: int)
    requires
        levels >= 1,
        0 <= k <= lum.len(),
        forall|i: int| 0 <= i < lum.len() ==> #[trigger] lum[i] == 0 || lum[i] >= 65280,
    ensures
        diffused(lum, w, h, levels, k) == start_plane(lum, levels),
    decreases k,
{
    if k > 0 {
        lemma_diffused_unchanged(lum, w, h, levels, k - 1);
        let s = start_plane(lum, levels);
        lemma_exact_no_error(fine(lum[k - 1]), levels);
        assert(error_of(s[k - 1], levels) == 0);
        assert(share(0, 7) == 0 && share(0, 5) == 0 && share(0, 3) == 0 && share(0, 1) == 0);
        assert(diffuse(s, k - 1, w, h, levels) =~= s);
    }
}

} // verus!
