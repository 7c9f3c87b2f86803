# codimate

Codimate turns a sequence of pictures into an animation: shapes carry stable
names, and two consecutive pictures are reconciled by name into movement.

This crate is the part of Codimate that decides things, written in Verus with
its contracts proved:

- `glob`, `reconcile`, `order` — which motion rule applies to an item, what
  colour, pivot and kind names mean, which shapes a camera frames, and the
  order shapes are drawn in, each paired with its records before and after
  an event;
- `colour`, `math`, `svg_text` — colour names, SVG colours, LaTeX to Typst
  markup, and the labels of an imported SVG;
- `fonts`, `runs`, `glyph` — which font draws each character and how a line
  splits into runs of one font;
- `pixels`, `codecs`, `export` — pixel layouts, premultiplying, glyph
  coverage blending, PNG and JPEG decoding, PNG encoding, and the video
  letterbox filter;
- `arrange`, `builder`, `preview` — checks on column arrangements, the
  explanation builder, and the previewer's command line.

`app/` holds parts of the engine around it that cannot be proved here:
floating-point geometry and timing, the rasterizer, the preview window, file
and process I/O, and the Python bindings. It is not the whole program: the
scene builders and animation combinators, and the drawing of formulas,
images and imported drawings, are not part of it. `tests/` exercises the
library from outside.
