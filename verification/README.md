# terminal_artist

Turn images (and GIF frames) into terminal art: glyph ramps, half blocks
or Braille dots, plain or with ANSI 256-color / truecolor escapes, and an
SVG rendering of colored art.

The library under `src/` is verified with Verus:

- `raster`: the RGBA image type, its pixel model, and the triangle-filter
  resize of the `image` crate behind one trusted wrapper.
- `tone`: integer Rec. 601 luminance, percentile contrast bounds, stretch,
  inversion and the gamma curve.
- `dither`: quantization to ramp levels with fixed-point Floyd–Steinberg
  error diffusion.
- `scale`: averaging and darkest-pixel downscaling, and line-art detection.
- `ansi`, `glyphs`: color escapes and glyph ramps.
- `art`: the three renderers, each stated as a specification of its output.
- `svg`: reading back colored art and writing it as an SVG document.
- `cli`: option handling, output color choice and animation playback steps.

`app/` is the command-line program: argument parsing, file and terminal
I/O, GIF decoding and the frame timing loop.
