# ascii-fmt

A verified library for post-processing ASCII/Unicode diagrams: it normalizes
whitespace, shrinks box lines that overflow their frame, converts ASCII
pseudo-graphics (`+ - | / \ v ^ < >`) into box-drawing glyphs, aligns text
inside lines and lays out box-drawing tables. Every function of the library
carries a contract that Verus proves.

Layout:

- `src/` — the library, written in Verus:
  - `parser` splits input into lines, `patterns` classifies the diagram;
  - `grid` analyzes grid columns, normalizes whitespace, shrinks overflowing
    box lines and aligns box borders;
  - `box_drawing` converts pseudo-graphics to box-drawing glyphs;
  - `text_align` trims and centers the text of each line;
  - `tables` detects box-drawing tables and lays out their columns;
  - `formatter` chains the steps; `cli` holds the options;
  - `display_width` measures terminal cells through `unicode-display-width`;
  - `text`, `utils` and `box_align_expand_temp` hold shared helpers.
- `tests/` — tests of the library on concrete diagrams.
- `app/` — the command-line program (argument parsing with `clap`, file I/O).

Alignment guarantees (stated as proof functions in `src/`) speak of display
width, which `unicode-display-width` reports as one cell per character for
text made of printable ASCII and box-drawing glyphs: on such text, laid-out
table columns have one width on every line, aligned box frames share the
widest frame's width, shrunk box lines land between the common width and
their old width, and with the `Minimal` style and a `--width` above 2 every
output line is a multiple of that width wide.
