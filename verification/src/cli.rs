//! The decisions of the `tartist` command line: options from arguments,
//! output format, GIF frame delays and animation playback.

use vstd::prelude::*;

use crate::glyphs::{ramp_for, resolve};
use crate::{ColorMode, Options, Renderer};

verus! {

/// ASCII lowercase of a character.
pub open spec fn ascii_lower(c: char) -> char {
    if 'A' <= c <= 'Z' {
        ((c as int) + 32) as char
    } else {
        c
    }
}

/// Whether two strings are equal ignoring ASCII case (like
/// `str::eq_ignore_ascii_case`).
pub open spec fn same_ignoring_case(a: Seq<char>, b: Seq<char>) -> bool {
    a.len() == b.len() && forall|i: int| 0 <= i < a.len() ==> ascii_lower(#[trigger] a[i])
        == ascii_lower(b[i])
}

fn lower(c: char) -> (r: char)
    ensures
        r == ascii_lower(c),
{
    if 'A' <= c && c <= 'Z' {
        let code = (c as u8) + 32;
        code as char
    } else {
        c
    }
}

/// Whether a file extension names the given format, ignoring ASCII case.
pub fn extension_is(ext: &str, want: &str) -> (r: bool)
    ensures
        r == same_ignoring_case(ext@, want@),
{
    let n = ext.unicode_len();
    if n != want.unicode_len() {
        return false;
    }
    let mut i: usize = 0;
    while i < n
        invariant
            n == ext@.len(),
            n == want@.len(),
            i <= n,
            forall|j: int| 0 <= j < i ==> ascii_lower(#[trigger] ext@[j]) == ascii_lower(want@[j]),
        decreases n - i,
    {
        if lower(ext.get_char(i)) != lower(want.get_char(i)) {
            return false;
        }
        i = i + 1;
    }
    true
}

/// Font aspect (in millionths) when none is given: 1.0 for the square
/// emoji "moon" ramp, 0.525 for SVG (cells are exactly 8.4 × 16 px), else 0.5.
pub open spec fn default_aspect(glyphs_name: Seq<char>, svg: bool) -> u32 {
    if glyphs_name == "moon"@ {
        1000000
    } else if svg {
        525000
    } else {
        500000
    }
}

/// `--lineart` forces darkest-pixel downscaling, `--no-lineart` forces
/// averaging; neither leaves it to detection.
pub open spec fn line_art_choice(lineart: bool, no_lineart: bool) -> Option<bool> {
    if lineart {
        Some(true)
    } else if no_lineart {
        Some(false)
    } else {
        None
    }
}

/// The rendering options the command line asks for.
pub fn options_from_args(
    width: u32,
    renderer: Renderer,
    color: ColorMode,
    glyphs_name: &str,
    char_aspect: Option<u32>,
    threshold: u8,
    invert: bool,
    no_contrast: bool,
    no_dither: bool,
    gamma: Option<Vec<u16>>,
    lineart: bool,
    no_lineart: bool,
    svg: bool,
) -> (o: Options)
    ensures
        o.width == width,
        o.renderer == renderer,
        o.color == color,
        o.glyphs@ == ramp_for(glyphs_name@),
        o.invert == invert,
        o.char_aspect == match char_aspect {
            Some(a) => a,
            None => default_aspect(glyphs_name@, svg),
        },
        o.threshold == threshold,
        o.auto_contrast == !no_contrast,
        o.dither == !no_dither,
        o.gamma == gamma,
        o.line_art == line_art_choice(lineart, no_lineart),
{
    // SVG cells are exactly 8.4×16 px, so aspect 0.525 keeps proportions
    // faithful; terminal cells vary, 0.5 is the common ratio.
    let aspect: u32 = match char_aspect {
        Some(a) => a,
        None => if crate::glyphs::same_text(glyphs_name, "moon") {
            1000000
        } else if svg {
            525000
        } else {
            500000
        },
    };
    let line_art = if lineart {
        Some(true)
    } else if no_lineart {
        Some(false)
    } else {
        None
    };
    Options {
        width,
        renderer,
        color,
        glyphs: resolve(glyphs_name),
        invert,
        char_aspect: aspect,
        threshold,
        auto_contrast: !no_contrast,
        dither: !no_dither,
        gamma,
        line_art,
    }
}

/// SVG carries color as per-glyph fills: any color is rendered as truecolor
/// so that it can be parsed back exactly.
pub open spec fn output_color_for(svg: bool, color: ColorMode) -> ColorMode {
    if svg && color != ColorMode::Plain {
        ColorMode::TrueColor
    } else {
        color
    }
}

pub fn output_color(svg: bool, color: ColorMode) -> (r: ColorMode)
    ensures
        r == output_color_for(svg, color),
{
    if svg && color != ColorMode::Plain {
        ColorMode::TrueColor
    } else {
        color
    }
}

/// A GIF is played in place only when writing to the terminal, not asked
/// for one frame, and it has more than one frame.
pub fn should_animate(is_gif: bool, once: bool, to_file: bool, frames: usize) -> (r: bool)
    ensures
        r == (is_gif && !once && !to_file && frames > 1),
{
    is_gif && !once && !to_file && frames > 1
}

/// A frame's display time in milliseconds from its delay `num / den`:
/// 100 ms when the denominator is 0, never less than 20 ms.
pub open spec fn delay_ms(num: u32, den: u32) -> u64 {
    let ms: u64 = if den == 0 {
        100
    } else {
        (num / den) as u64
    };
    if ms < 20 {
        20
    } else {
        ms
    }
}

pub fn frame_delay_ms(num: u32, den: u32) -> (r: u64)
    ensures
        r == delay_ms(num, den),
{
    let ms: u64 = match num.checked_div(den) {
        Some(q) => q as u64,
        None => 100,
    };
    if ms < 20 {
        20
    } else {
        ms
    }
}

/// Playback: after step `frame` of pass `pass` (of `frames` frames), the
/// next step and pass, or `None` when `loops` passes (0 = forever) are done.
/// A step shows its frame when `frame < frames`; a pass over no frames is a
/// single step that shows nothing.
pub open spec fn next_step(frame: int, pass: int, frames: int, loops: int) -> Option<(int, int)> {
    if frame < frames && frame + 1 < frames {
        Some((frame + 1, pass))
    } else {
        let p = if pass < u32::MAX {
            pass + 1
        } else {
            pass
        };
        if loops != 0 && p >= loops {
            None
        } else {
            Some((0, p))
        }
    }
}

/// Steps in one pass: one per frame, and one (showing nothing) for no frames.
pub open spec fn pass_len(frames: int) -> int {
    if frames >= 1 {
        frames
    } else {
        1
    }
}

pub fn next_frame(frame: usize, pass: u32, frames: usize, loops: u32) -> (r: Option<(usize, u32)>)
    ensures
        match next_step(frame as int, pass as int, frames as int, loops as int) {
            Some((f, p)) => r == Some((f as usize, p as u32)),
            None => r is None,
        },
{
    if frame < frames && frame + 1 < frames {
        Some((frame + 1, pass))
    } else {
        let p = if pass < u32::MAX {
            pass + 1
        } else {
            pass
        };
        if loops != 0 && p >= loops {
            None
        } else {
            Some((0, p))
        }
    }
}

/// The frame and pass shown at step `k` of playback from the first frame,
/// or `None` once playback has stopped.
pub open spec fn playback(frames: int, loops: int, k: int) -> Option<(int, int)>
    decreases k,
{
    if k <= 0 {
        Some((0, 0))
    } else {
        match playback(frames, loops, k - 1) {
            Some((f, p)) => next_step(f, p, frames, loops),
            None => None,
        }
    }
}

/// Playback shows the frames in order, pass after pass: with `loops`
/// passes it takes exactly `loops` passes and stops; with 0 it never stops.
/// Step `k` shows frame `k % frames`; with no frames, each pass is one step
/// that shows nothing.
pub proof fn lemma_playback(frames: int, loops: int, k: int)
    requires
        frames >= 0,
        0 <= loops <= u32::MAX,
        k >= 0,
    ensures
        ({
            let s = pass_len(frames);
            &&& loops >= 1 && k < s * loops ==> playback(frames, loops, k) == Some(
                (k % s, k / s),
            )
            &&& loops >= 1 && k >= s * loops ==> playback(frames, loops, k) is None
            &&& loops == 0 ==> playback(frames, loops, k) is Some && playback(
                frames,
                loops,
                k,
            ).unwrap().0 == k % s
            &&& frames == 0 ==> (playback(frames, loops, k) is Some ==> playback(
                frames,
                loops,
                k,
            ).unwrap().0 >= frames)
        }),
    decreases k,
{
    let s = pass_len(frames);
    vstd::arithmetic::div_mod::lemma_fundamental_div_mod(k, s);
    if k == 0 {
        assert(0int % s == 0 && 0int / s == 0) by {
            vstd::arithmetic::div_mod::lemma_fundamental_div_mod_converse(0, s, 0, 0);
        }
        if loops >= 1 {
            assert(s * loops >= 1) by (nonlinear_arith)
                requires
                    s >= 1,
                    loops >= 1,
            ;
        }
    } else {
        let j = k - 1;
        lemma_playback(frames, loops, j);
        vstd::arithmetic::div_mod::lemma_fundamental_div_mod(j, s);
        let f = j % s;
        let q = j / s;
        assert(0 <= f < s);
        assert(j == q * s + f);
        if f + 1 < s {
            vstd::arithmetic::div_mod::lemma_fundamental_div_mod_converse(k, s, q, f + 1);
        } else {
            assert(k == (q + 1) * s + 0) by (nonlinear_arith)
                requires
                    j == q * s + f,
                    f + 1 == s,
                    k == j + 1,
            ;
            vstd::arithmetic::div_mod::lemma_fundamental_div_mod_converse(k, s, q + 1, 0);
        }
        if loops >= 1 {
            if j < s * loops {
                assert(q < loops) by (nonlinear_arith)
                    requires
                        j == s * q + f,
                        0 <= f,
                        j < s * loops,
                        s >= 1,
                ;
                if f + 1 == s {
                    assert(k == s * (q + 1)) by (nonlinear_arith)
                        requires
                            j == s * q + f,
                            f + 1 == s,
                            k == j + 1,
                    ;
                    if q + 1 >= loops {
                        assert(q + 1 == loops);
                        assert(k >= s * loops);
                    } else {
                        assert(k < s * loops) by (nonlinear_arith)
                            requires
                                k == s * (q + 1),
                                q + 1 < loops,
                                s >= 1,
                        ;
                    }
                } else {
                    assert(k < s * loops) by (nonlinear_arith)
                        requires
                            j == s * q + f,
                            f + 1 < s,
                            k == j + 1,
                            q < loops,
                            s >= 1,
                    ;
                }
            }
        }
    }
}

} // verus!
