//! ANSI SGR color escapes and the text helpers that build them.

use vstd::prelude::*;

use crate::raster::Rgba;
use crate::ColorMode;

verus! {

/// `String::push`: appends one character.
#[verifier::external_body]
pub(crate) fn push_char(s: &mut String, c: char)
    ensures
        final(s)@ == old(s)@.push(c),
{
    s.push(c);
}

/// The ASCII digit for `d` in `0..10`.
pub open spec fn digit(d: int) -> char {
    (48 + d) as char
}

/// The lowercase hexadecimal digit for `d` in `0..16`.
pub open spec fn hex_digit(d: int) -> char {
    if d < 10 {
        (48 + d) as char
    } else {
        (87 + d) as char
    }
}

/// Decimal notation of `n`, no leading zeros.
pub open spec fn decimal(n: nat) -> Seq<char>
    decreases n,
{
    if n < 10 {
        seq![digit(n as int)]
    } else {
        decimal(n / 10).push(digit((n % 10) as int))
    }
}

/// Two lowercase hexadecimal digits of a byte.
pub open spec fn hex2(n: u8) -> Seq<char> {
    seq![hex_digit((n / 16) as int), hex_digit((n % 16) as int)]
}

pub fn digit_char(d: u8) -> (c: char)
    requires
        d < 10,
    ensures
        c == digit(d as int),
{
    let c = (48u8 + d) as char;
    c
}

pub fn hex_char(d: u8) -> (c: char)
    requires
        d < 16,
    ensures
        c == hex_digit(d as int),
{
    if d < 10 {
        (48u8 + d) as char
    } else {
        (87u8 + d) as char
    }
}

/// Append the decimal notation of `n`.
pub fn push_decimal(out: &mut String, n: u64)
    ensures
        final(out)@ == old(out)@ + decimal(n as nat),
    decreases n,
{
    if n >= 10 {
        push_decimal(out, n / 10);
    }
    let d = (n % 10) as u8;
    push_char(out, digit_char(d));
    proof {
        if n >= 10 {
            assert(old(out)@ + decimal(n as nat) == old(out)@ + decimal((n / 10) as nat) + seq![
                digit((n % 10) as int),
            ]);
        } else {
            assert(decimal(n as nat) == seq![digit(n as int)]);
        }
    }
}

/// Append two lowercase hexadecimal digits of `n`.
pub fn push_hex2(out: &mut String, n: u8)
    ensures
        final(out)@ == old(out)@ + hex2(n),
{
    push_char(out, hex_char(n / 16));
    push_char(out, hex_char(n % 16));
}

/// Append a string.
pub fn push_str(out: &mut String, s: &str)
    ensures
        final(out)@ == old(out)@ + s@,
{
    out.append(s);
}

/// Index into the ANSI 256-color 6×6×6 cube: `16 + 36r' + 6g' + b'`,
/// each channel quantized to `0..=5` as `c * 5 / 255`.
pub open spec fn cube_index(p: Rgba) -> u8 {
    (16 + 36 * (p.r * 5 / 255) + 6 * (p.g * 5 / 255) + (p.b * 5 / 255)) as u8
}

pub fn ansi256(p: Rgba) -> (r: u8)
    ensures
        r == cube_index(p),
        16 <= r <= 231,
{
    let q = |c: u8| -> (r: u16)
        ensures
            r == c * 5 / 255,
            r <= 5,
        { (c as u16) * 5 / 255 };
    (16 + 36 * q(p.r) + 6 * q(p.g) + q(p.b)) as u8
}

/// SGR select-graphic-rendition opening `ESC [`.
pub open spec fn csi() -> Seq<char> {
    seq!['\x1b', '[']
}

/// The escape that sets a color; `layer` is 38 for foreground, 48 for background.
pub open spec fn color_code(layer: nat, p: Rgba, mode: ColorMode) -> Seq<char> {
    match mode {
        ColorMode::Plain => Seq::empty(),
        ColorMode::Ansi256 => csi() + decimal(layer) + seq![';', '5', ';'] + decimal(
            cube_index(p) as nat,
        ) + seq!['m'],
        ColorMode::TrueColor => csi() + decimal(layer) + seq![';', '2', ';'] + decimal(p.r as nat)
            + seq![';'] + decimal(p.g as nat) + seq![';'] + decimal(p.b as nat) + seq!['m'],
    }
}

/// Foreground escape of a pixel's color (empty under [`ColorMode::Plain`]).
pub open spec fn fg_code(p: Rgba, mode: ColorMode) -> Seq<char> {
    color_code(38, p, mode)
}

/// Background escape of a pixel's color (empty under [`ColorMode::Plain`]).
pub open spec fn bg_code(p: Rgba, mode: ColorMode) -> Seq<char> {
    color_code(48, p, mode)
}

/// The SGR reset `ESC [ 0 m`.
pub open spec fn reset_code() -> Seq<char> {
    seq!['\x1b', '[', '0', 'm']
}

fn push_color(out: &mut String, layer: u64, p: Rgba, mode: ColorMode)
    ensures
        final(out)@ == old(out)@ + color_code(layer as nat, p, mode),
{
    match mode {
        ColorMode::Plain => {
            assert(old(out)@ + Seq::<char>::empty() == old(out)@);
        },
        ColorMode::Ansi256 => {
            push_char(out, '\x1b');
            push_char(out, '[');
            push_decimal(out, layer);
            push_char(out, ';');
            push_char(out, '5');
            push_char(out, ';');
            let n = ansi256(p);
            push_decimal(out, n as u64);
            push_char(out, 'm');
            assert(final(out)@ == old(out)@ + color_code(layer as nat, p, mode));
        },
        ColorMode::TrueColor => {
            push_char(out, '\x1b');
            push_char(out, '[');
            push_decimal(out, layer);
            push_char(out, ';');
            push_char(out, '2');
            push_char(out, ';');
            push_decimal(out, p.r as u64);
            push_char(out, ';');
            push_decimal(out, p.g as u64);
            push_char(out, ';');
            push_decimal(out, p.b as u64);
            push_char(out, 'm');
            assert(final(out)@ == old(out)@ + color_code(layer as nat, p, mode));
        },
    }
}

/// Foreground escape for a pixel under the given color mode (empty for `Plain`).
pub fn fg(p: Rgba, mode: ColorMode) -> (s: String)
    ensures
        s@ == fg_code(p, mode),
{
    let mut s = String::new();
    push_color(&mut s, 38, p, mode);
    assert(s@ == Seq::<char>::empty() + fg_code(p, mode));
    s
}

/// Background escape for a pixel under the given color mode (empty for `Plain`).
pub fn bg(p: Rgba, mode: ColorMode) -> (s: String)
    ensures
        s@ == bg_code(p, mode),
{
    let mut s = String::new();
    push_color(&mut s, 48, p, mode);
    assert(s@ == Seq::<char>::empty() + bg_code(p, mode));
    s
}

/// Append the SGR reset.
pub fn push_reset(out: &mut String)
    ensures
        final(out)@ == old(out)@ + reset_code(),
{
    push_char(out, '\x1b');
    push_char(out, '[');
    push_char(out, '0');
    push_char(out, 'm');
    assert(final(out)@ == old(out)@ + reset_code());
}

} // verus!
