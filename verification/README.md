# VectorMagik

The verified core of a desktop program that turns pictures into clean vectors.

`src/` is the library. Everything the program decides is decided there, and
what each function does is stated in its contract and proved:

- `auto` tells artwork, pixel art and photographs apart from their pixels;
  `recolor`, `nearest` and `field` drop a colour from a picture and fill in what
  it leaves; `process` plans a conversion and the passes that draw its curves.
- `grid`, `tiling`, `lattice`, `dither`, `path_data`, `markup` and `pattern`
  find dithered areas in a drawing and write them as one pattern.
- `dxf` writes a drawing as a DXF file, with splines or with lines that stay
  within a tolerance of every curve; every way of writing it shows one drawing.
- `desktop` is the window's state: opening, converting, cancelling, undoing,
  editing nodes and shapes by hand, saving. `desktop::frame` is one frame of it,
  `desktop::canvas` the pointer on a picture. `hand`, `history` and `settings`
  hold the edits.
- `window`, `cards`, `chrome`, `offer`, `licence`, `prefs`, `platform`,
  `dragout`, `dialog`, `format`, `look`, `colour` and `preview` are the rest of
  what the window says and keeps.

Coordinates of drawings are integers, in millionths of a unit. Values that the
window only keeps and compares, such as a slider's position or a node's place,
are the bits of a floating-point number.

`app/` is the program around the library: the window, its painting, files and
threads. It traces with the command-line program `vector-magic-rebuild` that
stands beside it.
