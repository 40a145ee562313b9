//! SVG export: the glyph grid as monospaced `<text>` runs, with the colors
//! parsed back out of the ANSI truecolor escapes.

use vstd::prelude::*;

use crate::ansi::{decimal, hex2, push_char, push_decimal, push_hex2};
use crate::art::chars_of;

verus! {

/// `s` split at every `sep` (like `str::split`): always at least one piece.
pub open spec fn split_on(s: Seq<char>, sep: char) -> Seq<Seq<char>>
    decreases s.len(),
{
    if s.len() == 0 {
        seq![Seq::empty()]
    } else {
        let prev = split_on(s.drop_last(), sep);
        if s.last() == sep {
            prev.push(Seq::empty())
        } else {
            prev.update(prev.len() - 1, prev.last().push(s.last()))
        }
    }
}

proof fn lemma_split_nonempty(s: Seq<char>, sep: char)
    ensures
        split_on(s, sep).len() >= 1,
    decreases s.len(),
{
    if s.len() > 0 {
        lemma_split_nonempty(s.drop_last(), sep);
    }
}

/// Split a character sequence at every `sep`.
pub fn split_chars(s: &Vec<char>, sep: char) -> (r: Vec<Vec<char>>)
    ensures
        r@.len() == split_on(s@, sep).len(),
        forall|i: int| 0 <= i < r@.len() ==> #[trigger] r@[i]@ == split_on(s@, sep)[i],
{
    let mut done: Vec<Vec<char>> = Vec::new();
    let mut cur: Vec<char> = Vec::new();
    let mut i: usize = 0;
    while i < s.len()
        invariant
            i <= s@.len(),
            done@.len() + 1 == split_on(s@.subrange(0, i as int), sep).len(),
            forall|j: int|
                0 <= j < done@.len() ==> #[trigger] done@[j]@ == split_on(
                    s@.subrange(0, i as int),
                    sep,
                )[j],
            cur@ == split_on(s@.subrange(0, i as int), sep).last(),
        decreases s@.len() - i,
    {
        let ghost prev = split_on(s@.subrange(0, i as int), sep);
        proof {
            lemma_split_nonempty(s@.subrange(0, i as int), sep);
            assert(s@.subrange(0, i + 1).drop_last() =~= s@.subrange(0, i as int));
        }
        let c = s[i];
        if c == sep {
            let mut piece: Vec<char> = Vec::new();
            std::mem::swap(&mut piece, &mut cur);
            done.push(piece);
        } else {
            cur.push(c);
        }
        i = i + 1;
    }
    proof {
        assert(s@.subrange(0, s@.len() as int) =~= s@);
    }
    done.push(cur);
    done
}

pub open spec fn is_digit(c: char) -> bool {
    '0' <= c <= '9'
}

/// Value of a string of decimal digits.
pub open spec fn digits_value(s: Seq<char>) -> int
    decreases s.len(),
{
    if s.len() == 0 {
        0
    } else {
        digits_value(s.drop_last()) * 10 + (s.last() as int - 48)
    }
}

/// The digits part of an unsigned number: without one leading `+`.
pub open spec fn unsigned_digits(s: Seq<char>) -> Seq<char> {
    if s.len() > 0 && s[0] == '+' {
        s.drop_first()
    } else {
        s
    }
}

pub open spec fn all_digits(d: Seq<char>) -> bool {
    forall|i: int| 0 <= i < d.len() ==> is_digit(#[trigger] d[i])
}

/// What `u8::from_str` makes of a string: an optional `+`, then one or more
/// decimal digits whose value is at most 255.
pub open spec fn parse_u8(s: Seq<char>) -> Option<u8> {
    let d = unsigned_digits(s);
    if d.len() == 0 || !all_digits(d) {
        None
    } else if digits_value(d) > 255 {
        None
    } else {
        Some(digits_value(d) as u8)
    }
}

proof fn lemma_digits_grow(s: Seq<char>, k: int)
    requires
        0 <= k <= s.len(),
        forall|i: int| 0 <= i < s.len() ==> is_digit(#[trigger] s[i]),
    ensures
        digits_value(s.subrange(0, k)) <= digits_value(s),
        digits_value(s) >= 0,
    decreases s.len(),
{
    if s.len() > 0 {
        let t = s.drop_last();
        assert forall|i: int| 0 <= i < t.len() implies is_digit(#[trigger] t[i]) by {
            assert(t[i] == s[i]);
        }
        if k < s.len() {
            lemma_digits_grow(t, k);
            assert(t.subrange(0, k) =~= s.subrange(0, k));
        } else {
            lemma_digits_grow(t, 0);
            assert(s.subrange(0, k) =~= s);
        }
        assert(is_digit(s[s.len() - 1]));
    } else {
        assert(s.subrange(0, k) =~= s);
    }
}

/// Parse a byte the way `u8::from_str` does.
pub fn parse_byte(s: &Vec<char>) -> (r: Option<u8>)
    ensures
        r == parse_u8(s@),
{
    let start: usize = if s.len() > 0 && s[0] == '+' {
        1
    } else {
        0
    };
    let ghost d = unsigned_digits(s@);
    assert(d =~= s@.subrange(start as int, s@.len() as int));
    if start == s.len() {
        return None;
    }
    let mut v: u32 = 0;
    let mut i: usize = start;
    while i < s.len()
        invariant
            start <= i <= s@.len(),
            start < s@.len(),
            d == unsigned_digits(s@),
            d =~= s@.subrange(start as int, s@.len() as int),
            forall|j: int| 0 <= j < i - start ==> is_digit(#[trigger] d[j]),
            v == digits_value(d.subrange(0, i - start)),
            v <= 255,
        decreases s@.len() - i,
    {
        let c = s[i];
        assert(d[i - start] == c);
        if !('0' <= c && c <= '9') {
            assert(!is_digit(d[i - start]));
            assert(!all_digits(d));
            return None;
        }
        assert(d.subrange(0, i + 1 - start).drop_last() =~= d.subrange(0, i - start));
        assert(d.subrange(0, i + 1 - start).last() == c);
        let nv: u32 = v * 10 + ((c as u32) - 48);
        i = i + 1;
        assert(nv == digits_value(d.subrange(0, i - start)));
        if nv > 255 {
            proof {
                if all_digits(d) {
                    lemma_digits_grow(d, i - start);
                }
            }
            return None;
        }
        v = nv;
    }
    assert(d.subrange(0, d.len() as int) =~= d);
    assert(all_digits(d));
    Some(v as u8)
}

/// The color a truecolor foreground SGR code (`38;2;r;g;b`) sets; `None`
/// for any other code.
pub open spec fn sgr_fill(code: Seq<char>) -> Option<[u8; 3]> {
    let p = split_on(code, ';');
    if p.len() >= 5 && p[0] == seq!['3', '8'] && p[1] == seq!['2'] {
        match (parse_u8(p[2]), parse_u8(p[3]), parse_u8(p[4])) {
            (Some(r), Some(g), Some(b)) => Some([r, g, b]),
            _ => None,
        }
    } else {
        None
    }
}

fn fill_of(code: &Vec<char>) -> (r: Option<[u8; 3]>)
    ensures
        r == sgr_fill(code@),
{
    let p = split_chars(code, ';');
    if p.len() >= 5 && p[0].len() == 2 && p[0][0] == '3' && p[0][1] == '8' && p[1].len() == 1
        && p[1][0] == '2' {
        assert(p@[0]@ =~= seq!['3', '8']);
        assert(p@[1]@ =~= seq!['2']);
        let r = parse_byte(&p[2]);
        let g = parse_byte(&p[3]);
        let b = parse_byte(&p[4]);
        match (r, g, b) {
            (Some(r), Some(g), Some(b)) => Some([r, g, b]),
            _ => None,
        }
    } else {
        proof {
            let q = split_on(code@, ';');
            if q.len() >= 5 && q[0] == seq!['3', '8'] && q[1] == seq!['2'] {
                assert(p@[0]@ == q[0]);
                assert(p@[1]@ == q[1]);
                assert(q[0].len() == 2 && q[0][0] == '3' && q[0][1] == '8');
            }
        }
        None
    }
}

/// The truecolor foreground an SGR code sets (`38;2;r;g;b`), if that is
/// what it is.
pub fn parse_fg(code: &str) -> (r: Option<[u8; 3]>)
    ensures
        r == sgr_fill(code@),
{
    let chars = chars_of(code);
    fill_of(&chars)
}

/// Where the row scanner stands: in text, just after an `ESC`, or inside
/// an escape code collected so far.
pub enum Scan {
    Text,
    Escape,
    Code(Seq<char>),
}

/// The runs found so far, the current fill, and where the scanner stands.
pub struct RowScan {
    pub runs: Seq<(Option<[u8; 3]>, Seq<char>)>,
    pub cur: Option<[u8; 3]>,
    pub scan: Scan,
}

/// Append a text character under fill `cur`: to the last run when it has
/// that fill, else as a new run.
pub open spec fn add_char(
    runs: Seq<(Option<[u8; 3]>, Seq<char>)>,
    cur: Option<[u8; 3]>,
    c: char,
) -> Seq<(Option<[u8; 3]>, Seq<char>)> {
    if runs.len() > 0 && runs.last().0 == cur {
        runs.update(runs.len() - 1, (cur, runs.last().1.push(c)))
    } else {
        runs.push((cur, seq![c]))
    }
}

/// One character of the row scanner. An `ESC` starts an escape; a `[`
/// right after it is skipped; the code runs to the next `m`, which sets the
/// fill (only truecolor foreground is recognized; anything else clears it).
pub open spec fn scan_step(st: RowScan, c: char) -> RowScan {
    match st.scan {
        Scan::Text => if c == '\x1b' {
            RowScan { scan: Scan::Escape, ..st }
        } else {
            RowScan { runs: add_char(st.runs, st.cur, c), ..st }
        },
        Scan::Escape => if c == '[' {
            RowScan { scan: Scan::Code(Seq::empty()), ..st }
        } else if c == 'm' {
            RowScan { cur: sgr_fill(Seq::empty()), scan: Scan::Text, ..st }
        } else {
            RowScan { scan: Scan::Code(seq![c]), ..st }
        },
        Scan::Code(code) => if c == 'm' {
            RowScan { cur: sgr_fill(code), scan: Scan::Text, ..st }
        } else {
            RowScan { scan: Scan::Code(code.push(c)), ..st }
        },
    }
}

/// The scanner after reading all of `s`.
pub open spec fn scan_row(s: Seq<char>) -> RowScan
    decreases s.len(),
{
    if s.len() == 0 {
        RowScan { runs: Seq::empty(), cur: None, scan: Scan::Text }
    } else {
        scan_step(scan_row(s.drop_last()), s.last())
    }
}

/// One line split into runs of `(fill, text)`, the ANSI escapes consumed.
pub open spec fn ansi_runs(s: Seq<char>) -> Seq<(Option<[u8; 3]>, Seq<char>)> {
    scan_row(s).runs
}

/// Runs with their text as character sequences.
pub open spec fn runs_view(r: Seq<(Option<[u8; 3]>, String)>) -> Seq<(Option<[u8; 3]>, Seq<char>)> {
    r.map_values(|x: (Option<[u8; 3]>, String)| (x.0, x.1@))
}

fn same_fill(a: &Option<[u8; 3]>, b: &Option<[u8; 3]>) -> (r: bool)
    ensures
        r == (*a == *b),
{
    match (a, b) {
        (Some(x), Some(y)) => {
            if x[0] == y[0] && x[1] == y[1] && x[2] == y[2] {
                assert(x@ =~= y@);
                assert(*x == *y);
                true
            } else {
                false
            }
        },
        (None, None) => true,
        _ => false,
    }
}

/// Split one line into runs of `(fill, text)`.
fn runs_of(line: &Vec<char>) -> (r: Vec<(Option<[u8; 3]>, String)>)
    ensures
        runs_view(r@) == ansi_runs(line@),
{
    let mut done: Vec<(Option<[u8; 3]>, String)> = Vec::new();
    let mut pending_fill: Option<[u8; 3]> = None;
    let mut pending = String::new();
    let mut has_pending = false;
    let mut cur: Option<[u8; 3]> = None;
    // 0: text, 1: just after ESC, 2: inside a code
    let mut state: u8 = 0;
    let mut code: Vec<char> = Vec::new();
    let mut i: usize = 0;
    while i < line.len()
        invariant
            i <= line@.len(),
            !has_pending ==> done@.len() == 0,
            ({
                let st = scan_row(line@.subrange(0, i as int));
                &&& runs_view(done@) + (if has_pending {
                    seq![(pending_fill, pending@)]
                } else {
                    Seq::empty()
                }) == st.runs
                &&& cur == st.cur
                &&& state <= 2
                &&& (state == 0 <==> st.scan is Text)
                &&& (state == 1 <==> st.scan is Escape)
                &&& (state == 2 ==> st.scan == Scan::Code(code@))
            }),
        decreases line@.len() - i,
    {
        let c = line[i];
        proof {
            assert(line@.subrange(0, i + 1).drop_last() =~= line@.subrange(0, i as int));
            assert(line@.subrange(0, i + 1).last() == c);
        }
        let ghost before = runs_view(done@) + (if has_pending {
            seq![(pending_fill, pending@)]
        } else {
            Seq::empty()
        });
        if state == 0 {
            if c == '\x1b' {
                state = 1;
            } else if has_pending && same_fill(&pending_fill, &cur) {
                push_char(&mut pending, c);
                assert(runs_view(done@) + seq![(pending_fill, pending@)] =~= add_char(
                    before,
                    cur,
                    c,
                ));
            } else {
                if has_pending {
                    let mut text = String::new();
                    std::mem::swap(&mut text, &mut pending);
                    done.push((pending_fill, text));
                }
                pending_fill = cur;
                let mut fresh = String::new();
                push_char(&mut fresh, c);
                pending = fresh;
                has_pending = true;
                assert(runs_view(done@) + seq![(pending_fill, pending@)] =~= add_char(
                    before,
                    cur,
                    c,
                ));
            }
        } else if state == 1 {
            if c == '[' {
                code = Vec::new();
                state = 2;
            } else if c == 'm' {
                let empty: Vec<char> = Vec::new();
                cur = fill_of(&empty);
                state = 0;
            } else {
                code = Vec::new();
                code.push(c);
                state = 2;
                assert(code@ =~= seq![c]);
            }
        } else {
            if c == 'm' {
                cur = fill_of(&code);
                state = 0;
            } else {
                code.push(c);
            }
        }
        i = i + 1;
    }
    if has_pending {
        done.push((pending_fill, pending));
    }
    assert(line@.subrange(0, line@.len() as int) =~= line@);
    assert(runs_view(done@) =~= ansi_runs(line@));
    done
}

/// Split one line into runs of `(fill, text)`, consuming ANSI SGR escapes.
/// Only truecolor (`38;2;r;g;b`) is recognized, matching what the renderers
/// emit; any other code (such as a reset) clears the color.
pub fn parse_ansi_row(line: &str) -> (r: Vec<(Option<[u8; 3]>, String)>)
    ensures
        runs_view(r@) == ansi_runs(line@),
{
    let chars = chars_of(line);
    runs_of(&chars)
}

/// A line without one trailing carriage return.
pub open spec fn strip_cr(l: Seq<char>) -> Seq<char> {
    if l.len() > 0 && l.last() == '\r' {
        l.drop_last()
    } else {
        l
    }
}

/// The lines of a text (like `str::lines`): split at `\n`, a `\r` before
/// each `\n` removed, no empty line after a final `\n`.
pub open spec fn text_lines(s: Seq<char>) -> Seq<Seq<char>> {
    let p = split_on(s, '\n');
    let n = p.len() as int;
    if p[n - 1].len() == 0 {
        Seq::new((n - 1) as nat, |i: int| strip_cr(p[i]))
    } else {
        Seq::new(
            n as nat,
            |i: int|
                if i < n - 1 {
                    strip_cr(p[i])
                } else {
                    p[i]
                },
        )
    }
}

/// Characters of runs `0..k`.
pub open spec fn run_width(runs: Seq<(Option<[u8; 3]>, Seq<char>)>, k: int) -> int
    decreases k,
{
    if k <= 0 {
        0
    } else {
        run_width(runs, k - 1) + runs[k - 1].1.len()
    }
}

/// The widest of rows `0..k`, in characters.
pub open spec fn widest(rows: Seq<Seq<(Option<[u8; 3]>, Seq<char>)>>, k: int) -> int
    decreases k,
{
    if k <= 0 {
        0
    } else {
        let w = run_width(rows[k - 1], rows[k - 1].len() as int);
        let m = widest(rows, k - 1);
        if w > m {
            w
        } else {
            m
        }
    }
}

/// Cells are exactly 8.4 px wide: the pixel column of character column `col`.
pub open spec fn cell_x(col: int) -> u32 {
    crate::art::saturate(col * 42 / 5)
}

/// Image width for `cols` characters: `ceil(cols × 8.4)`, at least 1.
pub open spec fn svg_width(cols: int) -> u32 {
    let w = (cols * 42 + 4) / 5;
    crate::art::saturate(
        if w < 1 {
            1
        } else {
            w
        },
    )
}

/// One character, escaped for XML text.
pub open spec fn xml_char(c: char) -> Seq<char> {
    if c == '&' {
        "&amp;"@
    } else if c == '<' {
        "&lt;"@
    } else if c == '>' {
        "&gt;"@
    } else {
        seq![c]
    }
}

/// Text escaped for XML (`&`, `<`, `>`).
pub open spec fn xml_text(t: Seq<char>) -> Seq<char>
    decreases t.len(),
{
    if t.len() == 0 {
        Seq::empty()
    } else {
        xml_text(t.drop_last()) + xml_char(t.last())
    }
}

/// One `<text>` element: a run at pixel `(x, y)`, with its fill when colored.
pub open spec fn svg_text(x: u32, y: int, fill: Option<[u8; 3]>, text: Seq<char>) -> Seq<char> {
    "<text x=\""@ + decimal(x as nat) + "\" y=\""@ + decimal(y as nat) + "\""@ + match fill {
        Some(c) => " fill=\"#"@ + hex2(c[0]) + hex2(c[1]) + hex2(c[2]) + "\""@,
        None => Seq::empty(),
    } + ">"@ + xml_text(text) + "</text>\n"@
}

/// The `<text>` elements of runs `0..k` of a row at baseline `y`.
pub open spec fn svg_runs(runs: Seq<(Option<[u8; 3]>, Seq<char>)>, y: int, k: int) -> Seq<char>
    decreases k,
{
    if k <= 0 {
        Seq::empty()
    } else {
        svg_runs(runs, y, k - 1) + svg_text(
            cell_x(run_width(runs, k - 1)),
            y,
            runs[k - 1].0,
            runs[k - 1].1,
        )
    }
}

/// The `<text>` elements of rows `0..k`; row `i` sits at baseline `16 (i + 1)`.
pub open spec fn svg_rows(rows: Seq<Seq<(Option<[u8; 3]>, Seq<char>)>>, k: int) -> Seq<char>
    decreases k,
{
    if k <= 0 {
        Seq::empty()
    } else {
        svg_rows(rows, k - 1) + svg_runs(rows[k - 1], 16 * k, rows[k - 1].len() as int)
    }
}

/// The SVG prologue: size, white background, monospaced 14 px black text.
pub open spec fn svg_head(w: u32, h: int) -> Seq<char> {
    "<svg xmlns=\"http://www.w3.org/2000/svg\" width=\""@ + decimal(w as nat) + "\" height=\""@
        + decimal(h as nat) + "\" viewBox=\"0 0 "@ + decimal(w as nat) + " "@ + decimal(h as nat)
        + "\">\n<rect width=\"100%\" height=\"100%\" fill=\"white\"/>\n<g font-family=\"monospace\" font-size=\"14\" fill=\"black\" xml:space=\"preserve\">\n"@
}

/// The runs of every line of some art.
pub open spec fn art_rows(art: Seq<char>) -> Seq<Seq<(Option<[u8; 3]>, Seq<char>)>> {
    text_lines(art).map_values(|l: Seq<char>| ansi_runs(l))
}

/// The art as an SVG document: one row of `<text>` runs per line, 16 px
/// apart, 8.4 px per character.
pub open spec fn svg_doc(art: Seq<char>) -> Seq<char> {
    let rows = art_rows(art);
    let w = svg_width(widest(rows, rows.len() as int));
    let h = 16 * rows.len() as int + 8;
    svg_head(w, h) + svg_rows(rows, rows.len() as int) + "</g>\n</svg>\n"@
}

proof fn lemma_widths(rows: Seq<Seq<(Option<[u8; 3]>, Seq<char>)>>, k: int)
    requires
        0 <= k <= rows.len(),
    ensures
        widest(rows, k) >= 0,
    decreases k,
{
    if k > 0 {
        lemma_widths(rows, k - 1);
    }
}

proof fn lemma_run_width_nonneg(runs: Seq<(Option<[u8; 3]>, Seq<char>)>, k: int)
    ensures
        run_width(runs, k) >= 0,
    decreases k,
{
    if k > 0 {
        lemma_run_width_nonneg(runs, k - 1);
    }
}

/// The lines of some text, as characters.
fn lines_of(text: &Vec<char>) -> (r: Vec<Vec<char>>)
    ensures
        r@.len() == text_lines(text@).len(),
        forall|i: int| 0 <= i < r@.len() ==> #[trigger] r@[i]@ == text_lines(text@)[i],
{
    let pieces = split_chars(text, '\n');
    proof {
        lemma_split_nonempty(text@, '\n');
    }
    let ghost want = text_lines(text@);
    let n = pieces.len();
    let count: usize = if pieces[n - 1].len() == 0 {
        n - 1
    } else {
        n
    };
    let mut out: Vec<Vec<char>> = Vec::new();
    let mut i: usize = 0;
    while i < count
        invariant
            n == pieces@.len(),
            n == split_on(text@, '\n').len(),
            forall|j: int| 0 <= j < n ==> #[trigger] pieces@[j]@ == split_on(text@, '\n')[j],
            count == want.len(),
            want == text_lines(text@),
            count <= n,
            i <= count,
            out@.len() == i,
            forall|j: int| 0 <= j < i ==> #[trigger] out@[j]@ == want[j],
        decreases count - i,
    {
        let p = &pieces[i];
        let keep_cr = i == n - 1;
        let mut line: Vec<char> = Vec::new();
        let len = p.len();
        let end: usize = if !keep_cr && len > 0 && p[len - 1] == '\r' {
            len - 1
        } else {
            len
        };
        let mut j: usize = 0;
        while j < end
            invariant
                end <= len,
                len == p@.len(),
                j <= end,
                line@ == p@.subrange(0, j as int),
            decreases end - j,
        {
            line.push(p[j]);
            j = j + 1;
            assert(line@ =~= p@.subrange(0, j as int));
        }
        assert(line@ =~= want[i as int]);
        out.push(line);
        i = i + 1;
    }
    out
}

/// Append `t` escaped for XML.
fn push_xml_text(out: &mut String, t: &str)
    ensures
        final(out)@ == old(out)@ + xml_text(t@),
{
    let chars = chars_of(t);
    let mut i: usize = 0;
    while i < chars.len()
        invariant
            chars@ == t@,
            i <= chars@.len(),
            out@ == old(out)@ + xml_text(chars@.subrange(0, i as int)),
        decreases chars@.len() - i,
    {
        let c = chars[i];
        let ghost prefix = chars@.subrange(0, i + 1);
        assert(prefix.drop_last() =~= chars@.subrange(0, i as int));
        if c == '&' {
            crate::ansi::push_str(out, "&amp;");
        } else if c == '<' {
            crate::ansi::push_str(out, "&lt;");
        } else if c == '>' {
            crate::ansi::push_str(out, "&gt;");
        } else {
            push_char(out, c);
        }
        i = i + 1;
        assert(out@ =~= old(out)@ + xml_text(chars@.subrange(0, i as int)));
    }
    assert(chars@.subrange(0, chars@.len() as int) =~= t@);
}

fn push_svg_text(out: &mut String, x: u32, y: u64, fill: &Option<[u8; 3]>, text: &String)
    ensures
        final(out)@ == old(out)@ + svg_text(x, y as int, *fill, text@),
{
    crate::ansi::push_str(out, "<text x=\"");
    push_decimal(out, x as u64);
    crate::ansi::push_str(out, "\" y=\"");
    push_decimal(out, y);
    crate::ansi::push_str(out, "\"");
    match fill {
        Some(c) => {
            crate::ansi::push_str(out, " fill=\"#");
            push_hex2(out, c[0]);
            push_hex2(out, c[1]);
            push_hex2(out, c[2]);
            crate::ansi::push_str(out, "\"");
        },
        None => {},
    }
    crate::ansi::push_str(out, ">");
    push_xml_text(out, text.as_str());
    crate::ansi::push_str(out, "</text>\n");
    assert(final(out)@ =~= old(out)@ + svg_text(x, y as int, *fill, text@));
}

/// `v` saturated to `u32`.
fn saturate_u128(v: u128) -> (r: u32)
    ensures
        r == crate::art::saturate(v as int),
{
    if v > 0xffff_ffff {
        0xffff_ffff
    } else {
        v as u32
    }
}

/// A character count large enough that 8.4 px per character is past `u32::MAX`.
pub open spec fn width_cap() -> int {
    0x100_0000_0000
}

pub open spec fn capped(v: int) -> int {
    if v > width_cap() {
        width_cap()
    } else {
        v
    }
}

fn add_capped(acc: u128, len: usize) -> (r: u128)
    requires
        acc <= width_cap(),
    ensures
        r == capped(acc + len),
{
    if acc + (len as u128) > 0x100_0000_0000 {
        0x100_0000_0000
    } else {
        acc + (len as u128)
    }
}

fn push_svg_row(out: &mut String, runs: &Vec<(Option<[u8; 3]>, String)>, y: u64)
    ensures
        final(out)@ == old(out)@ + svg_runs(runs_view(runs@), y as int, runs@.len() as int),
{
    let ghost rv = runs_view(runs@);
    let mut col: u128 = 0;
    let mut k: usize = 0;
    while k < runs.len()
        invariant
            rv == runs_view(runs@),
            k <= runs@.len(),
            col == capped(run_width(rv, k as int)),
            out@ == old(out)@ + svg_runs(rv, y as int, k as int),
        decreases runs@.len() - k,
    {
        proof {
            lemma_run_width_nonneg(rv, k as int);
        }
        let x = saturate_u128(col * 42 / 5);
        let (fill, text) = &runs[k];
        push_svg_text(out, x, y, fill, text);
        let len = text.as_str().unicode_len();
        col = add_capped(col, len);
        k = k + 1;
        assert(out@ =~= old(out)@ + svg_runs(rv, y as int, k as int));
    }
}

/// Whether [`to_svg`] can size the document: the height, 16 px per line
/// plus 8, must fit in a `u32`.
pub fn svg_fits(art: &str) -> (r: bool)
    ensures
        r == (16 * text_lines(art@).len() + 8 <= u32::MAX),
{
    let chars = chars_of(art);
    let lines = lines_of(&chars);
    (lines.len() as u128) * 16 + 8 <= 0xffff_ffff
}

/// Render terminal art (with optional ANSI truecolor) as a monospaced SVG: a
/// scalable image that never wraps. Uncolored glyphs are black on white;
/// truecolor escapes become per-glyph fills.
pub fn to_svg(art: &str) -> (s: String)
    requires
        16 * text_lines(art@).len() + 8 <= u32::MAX,
    ensures
        s@ == svg_doc(art@),
{
    let chars = chars_of(art);
    let lines = lines_of(&chars);
    let ghost rows = art_rows(art@);
    let mut parsed: Vec<Vec<(Option<[u8; 3]>, String)>> = Vec::new();
    let mut cols: u128 = 0;
    let mut i: usize = 0;
    while i < lines.len()
        invariant
            chars@ == art@,
            rows == art_rows(art@),
            lines@.len() == rows.len(),
            forall|j: int| 0 <= j < lines@.len() ==> #[trigger] lines@[j]@ == text_lines(art@)[j],
            i <= lines@.len(),
            parsed@.len() == i,
            forall|j: int| 0 <= j < i ==> runs_view(#[trigger] parsed@[j]@) == rows[j],
            cols == capped(widest(rows, i as int)),
        decreases lines@.len() - i,
    {
        let runs = runs_of(&lines[i]);
        let ghost rv = runs_view(runs@);
        let mut width: u128 = 0;
        let mut k: usize = 0;
        while k < runs.len()
            invariant
                rv == runs_view(runs@),
                k <= runs@.len(),
                width == capped(run_width(rv, k as int)),
            decreases runs@.len() - k,
        {
            proof {
                lemma_run_width_nonneg(rv, k as int);
            }
            width = add_capped(width, runs[k].1.as_str().unicode_len());
            k = k + 1;
        }
        proof {
            lemma_widths(rows, i as int);
            lemma_run_width_nonneg(rv, rv.len() as int);
        }
        if width > cols {
            cols = width;
        }
        parsed.push(runs);
        i = i + 1;
    }
    let n = lines.len();
    let w = saturate_u128(if (cols * 42 + 4) / 5 < 1 {
        1
    } else {
        (cols * 42 + 4) / 5
    });
    let h: u64 = 16 * (n as u64) + 8;
    let mut out = String::new();
    crate::ansi::push_str(&mut out, "<svg xmlns=\"http://www.w3.org/2000/svg\" width=\"");
    push_decimal(&mut out, w as u64);
    crate::ansi::push_str(&mut out, "\" height=\"");
    push_decimal(&mut out, h);
    crate::ansi::push_str(&mut out, "\" viewBox=\"0 0 ");
    push_decimal(&mut out, w as u64);
    crate::ansi::push_str(&mut out, " ");
    push_decimal(&mut out, h);
    crate::ansi::push_str(
        &mut out,
        "\">\n<rect width=\"100%\" height=\"100%\" fill=\"white\"/>\n<g font-family=\"monospace\" font-size=\"14\" fill=\"black\" xml:space=\"preserve\">\n",
    );
    let ghost head = out@;
    assert(head =~= svg_head(w, h as int));
    let mut r: usize = 0;
    while r < n
        invariant
            n == parsed@.len(),
            n == rows.len(),
            16 * n + 8 <= u32::MAX,
            r <= n,
            forall|j: int| 0 <= j < n ==> runs_view(#[trigger] parsed@[j]@) == rows[j],
            out@ == head + svg_rows(rows, r as int),
        decreases n - r,
    {
        push_svg_row(&mut out, &parsed[r], 16 * (r as u64 + 1));
        r = r + 1;
        assert(out@ =~= head + svg_rows(rows, r as int));
    }
    crate::ansi::push_str(&mut out, "</g>\n</svg>\n");
    assert(out@ =~= svg_doc(art@));
    out
}

// ---------------------------------------------------------------------------
// Laws

/// Decimal notation is digits only, never empty, and reads back as its value.
pub proof fn lemma_decimal_digits(n: nat)
    ensures
        decimal(n).len() >= 1,
        all_digits(decimal(n)),
        digits_value(decimal(n)) == n,
    decreases n,
{
    let k = (n % 10) as int;
    assert(((48 + k) as char) as int == 48 + k);
    if n < 10 {
        let e = decimal(n);
        assert(e == seq![crate::ansi::digit(n as int)]);
        assert(e.drop_last() =~= Seq::<char>::empty());
        assert(digits_value(e.drop_last()) == 0);
        assert(e.last() as int == 48 + n);
        assert(digits_value(e) == n);
    }
    if n >= 10 {
        vstd::arithmetic::div_mod::lemma_fundamental_div_mod(n as int, 10);
        lemma_decimal_digits(n / 10);
        let d = decimal(n / 10);
        let e = decimal(n);
        assert(e == d.push(crate::ansi::digit((n % 10) as int)));
        assert(e.drop_last() =~= d);
        assert(e.last() as int == 48 + k);
        assert(digits_value(e) == digits_value(d) * 10 + k);
        assert forall|i: int| 0 <= i < e.len() implies is_digit(#[trigger] e[i]) by {
            if i < d.len() {
                assert(e[i] == d[i]);
            }
        }
    }
}

/// A byte written in decimal parses back as that byte.
pub proof fn lemma_parse_decimal(n: u8)
    ensures
        parse_u8(decimal(n as nat)) == Some(n),
{
    lemma_decimal_digits(n as nat);
    let d = decimal(n as nat);
    assert(is_digit(d[0]));
    assert(unsigned_digits(d) == d);
}

/// Splitting at a separator splits the two sides independently.
pub proof fn lemma_split_concat(a: Seq<char>, b: Seq<char>, sep: char)
    ensures
        split_on(a + seq![sep] + b, sep) == split_on(a, sep) + split_on(b, sep),
    decreases b.len(),
{
    lemma_split_nonempty(a, sep);
    lemma_split_nonempty(b, sep);
    if b.len() == 0 {
        assert(a + seq![sep] + b =~= a + seq![sep]);
        assert((a + seq![sep]).drop_last() =~= a);
        assert(split_on(a + seq![sep] + b, sep) =~= split_on(a, sep) + split_on(b, sep));
    } else {
        let s = a + seq![sep] + b;
        lemma_split_concat(a, b.drop_last(), sep);
        lemma_split_nonempty(b.drop_last(), sep);
        assert(s.drop_last() =~= a + seq![sep] + b.drop_last());
        assert(s.last() == b.last());
        assert(split_on(s, sep) =~= split_on(a, sep) + split_on(b, sep));
    }
}

/// A sequence without the separator is a single piece.
pub proof fn lemma_split_single(t: Seq<char>, sep: char)
    requires
        forall|i: int| 0 <= i < t.len() ==> #[trigger] t[i] != sep,
    ensures
        split_on(t, sep) == seq![t],
    decreases t.len(),
{
    if t.len() > 0 {
        lemma_split_single(t.drop_last(), sep);
        assert(t.drop_last().push(t.last()) =~= t);
    } else {
        assert(t =~= Seq::<char>::empty());
    }
}

/// The parameters of the truecolor foreground escape for `p`.
pub open spec fn truecolor_params(p: crate::raster::Rgba) -> Seq<char> {
    decimal(38) + seq![';', '2', ';'] + decimal(p.r as nat) + seq![';'] + decimal(p.g as nat)
        + seq![';'] + decimal(p.b as nat)
}

proof fn lemma_digits_not(t: Seq<char>, c: char)
    requires
        all_digits(t),
        !is_digit(c),
    ensures
        forall|i: int| 0 <= i < t.len() ==> #[trigger] t[i] != c,
{
    assert forall|i: int| 0 <= i < t.len() implies #[trigger] t[i] != c by {
        assert(is_digit(t[i]));
    }
}

/// The SGR parameters that the renderers write for a truecolor foreground
/// parse back as exactly that color.
pub proof fn lemma_truecolor_params(p: crate::raster::Rgba)
    ensures
        sgr_fill(truecolor_params(p)) == Some([p.r, p.g, p.b]),
{
    let d38 = decimal(38);
    let dr = decimal(p.r as nat);
    let dg = decimal(p.g as nat);
    let db = decimal(p.b as nat);
    lemma_decimal_digits(38);
    lemma_decimal_digits(3);
    lemma_decimal_digits(p.r as nat);
    lemma_decimal_digits(p.g as nat);
    lemma_decimal_digits(p.b as nat);
    assert(d38 =~= seq!['3', '8']);
    lemma_digits_not(dr, ';');
    lemma_digits_not(dg, ';');
    lemma_digits_not(db, ';');
    lemma_split_single(d38, ';');
    lemma_split_single(seq!['2'], ';');
    lemma_split_single(dr, ';');
    lemma_split_single(dg, ';');
    lemma_split_single(db, ';');
    let t4 = dg + seq![';'] + db;
    let t3 = dr + seq![';'] + t4;
    let t2 = seq!['2'] + seq![';'] + t3;
    lemma_split_concat(dg, db, ';');
    lemma_split_concat(dr, t4, ';');
    lemma_split_concat(seq!['2'], t3, ';');
    lemma_split_concat(d38, t2, ';');
    assert(truecolor_params(p) =~= d38 + seq![';'] + t2);
    let parts = split_on(truecolor_params(p), ';');
    assert(parts =~= seq![d38, seq!['2'], dr, dg, db]);
    lemma_parse_decimal(p.r);
    lemma_parse_decimal(p.g);
    lemma_parse_decimal(p.b);
}

/// The scanner state after reading `t` from state `st`.
pub open spec fn scan_from(st: RowScan, t: Seq<char>) -> RowScan
    decreases t.len(),
{
    if t.len() == 0 {
        st
    } else {
        scan_step(scan_from(st, t.drop_last()), t.last())
    }
}

proof fn lemma_scan_row_from(s: Seq<char>)
    ensures
        scan_row(s) == scan_from(RowScan { runs: Seq::empty(), cur: None, scan: Scan::Text }, s),
    decreases s.len(),
{
    if s.len() > 0 {
        lemma_scan_row_from(s.drop_last());
    }
}

proof fn lemma_scan_from_concat(st: RowScan, a: Seq<char>, b: Seq<char>)
    ensures
        scan_from(st, a + b) == scan_from(scan_from(st, a), b),
    decreases b.len(),
{
    if b.len() == 0 {
        assert(a + b =~= a);
    } else {
        lemma_scan_from_concat(st, a, b.drop_last());
        assert((a + b).drop_last() =~= a + b.drop_last());
        assert((a + b).last() == b.last());
    }
}

proof fn lemma_scan_code(st: RowScan, code: Seq<char>, t: Seq<char>)
    requires
        st.scan == Scan::Code(code),
        forall|i: int| 0 <= i < t.len() ==> #[trigger] t[i] != 'm',
    ensures
        scan_from(st, t) == (RowScan { scan: Scan::Code(code + t), ..st }),
    decreases t.len(),
{
    if t.len() == 0 {
        assert(code + t =~= code);
        assert(st == (RowScan { scan: Scan::Code(code + t), ..st }));
    } else {
        lemma_scan_code(st, code, t.drop_last());
        assert(code + t.drop_last() + seq![t.last()] =~= code + t);
        assert((code + t.drop_last()).push(t.last()) =~= code + t);
    }
}

proof fn lemma_params_have_no_m(p: crate::raster::Rgba)
    ensures
        forall|i: int| 0 <= i < truecolor_params(p).len() ==> #[trigger] truecolor_params(p)[i] != 'm',
{
    let d38 = decimal(38);
    let dr = decimal(p.r as nat);
    let dg = decimal(p.g as nat);
    let db = decimal(p.b as nat);
    lemma_decimal_digits(38);
    lemma_decimal_digits(p.r as nat);
    lemma_decimal_digits(p.g as nat);
    lemma_decimal_digits(p.b as nat);
    lemma_digits_not(d38, 'm');
    lemma_digits_not(dr, 'm');
    lemma_digits_not(dg, 'm');
    lemma_digits_not(db, 'm');
}

/// Scanning a truecolor foreground escape from running text sets the fill
/// to its color and leaves the runs as they were.
proof fn lemma_scan_truecolor(st: RowScan, p: crate::raster::Rgba)
    requires
        st.scan is Text,
    ensures
        scan_from(st, crate::ansi::fg_code(p, crate::ColorMode::TrueColor)) == (RowScan {
            cur: Some([p.r, p.g, p.b]),
            scan: Scan::Text,
            ..st
        }),
{
    let params = truecolor_params(p);
    let esc = crate::ansi::fg_code(p, crate::ColorMode::TrueColor);
    let open = seq!['\x1b', '['];
    assert(esc =~= open + (params + seq!['m']));
    lemma_params_have_no_m(p);
    lemma_truecolor_params(p);
    lemma_scan_from_concat(st, open, params + seq!['m']);
    assert(scan_from(st, seq!['\x1b']) == (RowScan { scan: Scan::Escape, ..st })) by {
        assert(seq!['\x1b'].drop_last() =~= Seq::<char>::empty());
        assert(scan_from(st, seq!['\x1b'].drop_last()) == st);
    }
    assert(open.drop_last() =~= seq!['\x1b']);
    let st1 = scan_from(st, open);
    assert(st1 == (RowScan { scan: Scan::Code(Seq::empty()), ..st }));
    lemma_scan_from_concat(st1, params, seq!['m']);
    lemma_scan_code(st1, Seq::empty(), params);
    assert(Seq::<char>::empty() + params =~= params);
    let st2 = scan_from(st1, params);
    assert(st2 == (RowScan { scan: Scan::Code(params), ..st }));
    assert(seq!['m'].drop_last() =~= Seq::<char>::empty());
    assert(scan_from(st2, seq!['m'].drop_last()) == st2);
}

/// Reading back colored art: after a truecolor foreground escape for `p`,
/// the next glyph `c` lands in a run filled with `p`'s color.
pub proof fn lemma_truecolor_read_back(s: Seq<char>, p: crate::raster::Rgba, c: char)
    requires
        scan_row(s).scan is Text,
        c != '\x1b',
    ensures
        ({
            let after = scan_row(s + crate::ansi::fg_code(p, crate::ColorMode::TrueColor) + seq![c]);
            &&& after.scan is Text
            &&& after.cur == Some([p.r, p.g, p.b])
            &&& after.runs.len() >= 1
            &&& after.runs.last().0 == Some([p.r, p.g, p.b])
            &&& after.runs.last().1.len() >= 1
            &&& after.runs.last().1.last() == c
        }),
{
    let init = RowScan { runs: Seq::empty(), cur: None, scan: Scan::Text };
    let st = scan_row(s);
    let esc = crate::ansi::fg_code(p, crate::ColorMode::TrueColor);
    lemma_scan_row_from(s);
    lemma_scan_row_from(s + esc + seq![c]);
    lemma_scan_from_concat(init, s, esc + seq![c]);
    assert(s + esc + seq![c] =~= s + (esc + seq![c]));
    lemma_scan_from_concat(st, esc, seq![c]);
    lemma_scan_truecolor(st, p);
    let st3 = scan_from(st, esc);
    assert(seq![c].drop_last() =~= Seq::<char>::empty());
    assert(scan_from(st3, seq![c].drop_last()) == st3);
    let st4 = scan_from(st3, seq![c]);
    assert(st4 == scan_step(st3, c));
    assert(scan_row(s + esc + seq![c]) == st4);
}

/// A row holding one glyph `c` in a truecolor foreground for `p` reads
/// back as exactly one run: `c` filled with `p`'s color.
pub proof fn lemma_truecolor_glyph_row(p: crate::raster::Rgba, c: char)
    requires
        c != '\x1b',
    ensures
        ansi_runs(crate::ansi::fg_code(p, crate::ColorMode::TrueColor) + seq![c]) == seq![
            (Some([p.r, p.g, p.b]), seq![c]),
        ],
{
    let init = RowScan { runs: Seq::empty(), cur: None, scan: Scan::Text };
    let esc = crate::ansi::fg_code(p, crate::ColorMode::TrueColor);
    lemma_scan_row_from(esc + seq![c]);
    lemma_scan_from_concat(init, esc, seq![c]);
    lemma_scan_truecolor(init, p);
    let st3 = scan_from(init, esc);
    assert(seq![c].drop_last() =~= Seq::<char>::empty());
    assert(scan_from(st3, seq![c].drop_last()) == st3);
    assert(scan_from(st3, seq![c]) == scan_step(st3, c));
    assert(scan_step(st3, c).runs =~= seq![(Some([p.r, p.g, p.b]), seq![c])]);
}

} // verus!
