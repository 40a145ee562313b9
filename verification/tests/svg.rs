use terminal_artist::ansi::fg;
use terminal_artist::cli::{
    extension_is, frame_delay_ms, next_frame, options_from_args, output_color, should_animate,
};
use terminal_artist::svg::{parse_ansi_row, parse_fg, to_svg};
use terminal_artist::{ColorMode, Renderer, Rgba};

#[test]
fn parse_fg_truecolor() {
    assert_eq!(parse_fg("38;2;10;20;30"), Some([10, 20, 30]));
    assert_eq!(parse_fg("38;2;10;20;30;99"), Some([10, 20, 30]));
    assert_eq!(parse_fg("38;2;+7;007;0"), Some([7, 7, 0]));
    assert_eq!(parse_fg("38;5;1"), None);
    assert_eq!(parse_fg("38;2;256;0;0"), None);
    assert_eq!(parse_fg("38;2;-1;0;0"), None);
    assert_eq!(parse_fg("38;2;;0;0"), None);
    assert_eq!(parse_fg("38;2;+;0;0"), None);
    assert_eq!(parse_fg("0"), None);
    assert_eq!(parse_fg(""), None);
}

#[test]
fn parse_ansi_row_runs() {
    let runs = parse_ansi_row("\x1b[38;2;1;2;3mab\x1b[0mc");
    assert_eq!(runs, vec![(Some([1, 2, 3]), "ab".to_string()), (None, "c".to_string())]);
    let plain = parse_ansi_row("hello");
    assert_eq!(plain, vec![(None, "hello".to_string())]);
    assert!(parse_ansi_row("").is_empty());
    // same color twice merges into one run
    let merged = parse_ansi_row("\x1b[38;2;1;2;3ma\x1b[38;2;1;2;3mb");
    assert_eq!(merged, vec![(Some([1, 2, 3]), "ab".to_string())]);
    // an escape without '[' still runs to 'm'
    let odd = parse_ansi_row("x\x1bqmy");
    assert_eq!(odd, vec![(None, "xy".to_string())]);
}

#[test]
fn truecolor_read_back() {
    let p = Rgba { r: 9, g: 80, b: 255, a: 255 };
    let line = format!("{}#", fg(p, ColorMode::TrueColor));
    assert_eq!(parse_ansi_row(&line), vec![(Some([9, 80, 255]), "#".to_string())]);
}

#[test]
fn svg_plain_document() {
    let svg = to_svg("ab\n");
    let want = "<svg xmlns=\"http://www.w3.org/2000/svg\" width=\"17\" height=\"24\" viewBox=\"0 0 17 24\">\n\
<rect width=\"100%\" height=\"100%\" fill=\"white\"/>\n\
<g font-family=\"monospace\" font-size=\"14\" fill=\"black\" xml:space=\"preserve\">\n\
<text x=\"0\" y=\"16\">ab</text>\n\
</g>\n</svg>\n";
    assert_eq!(svg, want);
}

#[test]
fn svg_colored_runs_and_escaping() {
    let svg = to_svg("\x1b[38;2;255;0;16m<&\x1b[0m>x\n\r\nz");
    assert!(svg.contains("<text x=\"0\" y=\"16\" fill=\"#ff0010\">&lt;&amp;</text>\n"));
    assert!(svg.contains("<text x=\"16\" y=\"16\">&gt;x</text>\n"));
    assert!(svg.contains("<text x=\"0\" y=\"48\">z</text>\n"));
    // three lines: 3 × 16 + 8
    assert!(svg.contains("height=\"56\""));
    // widest line is 4 characters: ceil(4 × 8.4) = 34
    assert!(svg.contains("width=\"34\""));
}

#[test]
fn svg_empty_art() {
    let svg = to_svg("");
    assert!(svg.contains("width=\"1\" height=\"8\""));
}

#[test]
fn extension_matching() {
    assert!(extension_is("SVG", "svg"));
    assert!(extension_is("svg", "svg"));
    assert!(extension_is("Gif", "gif"));
    assert!(!extension_is("svgz", "svg"));
    assert!(!extension_is("png", "svg"));
}

#[test]
fn options_from_command_line() {
    let o = options_from_args(
        40,
        Renderer::Braille,
        ColorMode::Ansi256,
        "moon",
        None,
        100,
        true,
        true,
        false,
        None,
        false,
        true,
        false,
    );
    assert_eq!(o.width, 40);
    assert_eq!(o.renderer, Renderer::Braille);
    assert_eq!(o.color, ColorMode::Ansi256);
    assert_eq!(o.glyphs, "🌑🌒🌓🌔🌕");
    assert_eq!(o.char_aspect, 1_000_000);
    assert_eq!(o.threshold, 100);
    assert!(o.invert);
    assert!(!o.auto_contrast);
    assert!(o.dither);
    assert_eq!(o.line_art, Some(false));
    let svg = options_from_args(
        80, Renderer::Ascii, ColorMode::Plain, "standard", None, 128, false, false, false, None,
        false, false, true,
    );
    assert_eq!(svg.char_aspect, 525_000);
    assert_eq!(svg.line_art, None);
    let term = options_from_args(
        80, Renderer::Ascii, ColorMode::Plain, "standard", Some(700_000), 128, false, false, true,
        None, true, false, false,
    );
    assert_eq!(term.char_aspect, 700_000);
    assert_eq!(term.line_art, Some(true));
    assert!(!term.dither);
}

#[test]
fn svg_output_color() {
    assert_eq!(output_color(true, ColorMode::Ansi256), ColorMode::TrueColor);
    assert_eq!(output_color(true, ColorMode::Plain), ColorMode::Plain);
    assert_eq!(output_color(false, ColorMode::Ansi256), ColorMode::Ansi256);
}

#[test]
fn frame_delays() {
    assert_eq!(frame_delay_ms(0, 0), 100);
    assert_eq!(frame_delay_ms(5, 1), 20);
    assert_eq!(frame_delay_ms(150, 1), 150);
    assert_eq!(frame_delay_ms(1000, 10), 100);
}

#[test]
fn playback_runs_loops_times() {
    let mut state = (0usize, 0u32);
    let mut shown = vec![state.0];
    while let Some(next) = next_frame(state.0, state.1, 3, 2) {
        state = next;
        shown.push(state.0);
    }
    assert_eq!(shown, vec![0, 1, 2, 0, 1, 2]);
    // forever: still going after many passes
    let mut s = (0usize, 0u32);
    for _ in 0..100 {
        s = next_frame(s.0, s.1, 2, 0).unwrap();
    }
    assert_eq!(s.0, 0);
}

#[test]
fn animation_decision() {
    assert!(should_animate(true, false, false, 2));
    assert!(!should_animate(true, false, false, 1));
    assert!(!should_animate(true, true, false, 5));
    assert!(!should_animate(true, false, true, 5));
    assert!(!should_animate(false, false, false, 5));
}

#[test]
fn playback_of_no_frames() {
    // no frames, three passes: three steps that show nothing, then stop
    let mut state = (0usize, 0u32);
    let mut steps = vec![state];
    while let Some(next) = next_frame(state.0, state.1, 0, 3) {
        state = next;
        steps.push(state);
    }
    assert_eq!(steps, vec![(0, 0), (0, 1), (0, 2)]);
    // forever: the passes go on, nothing is ever shown
    let mut s = (0usize, 0u32);
    for _ in 0..50 {
        s = next_frame(s.0, s.1, 0, 0).unwrap();
    }
    assert_eq!(s, (0, 50));
}
