# rusticker

Sticker-sheet printing: A4 PDF grids of figures (squares, circles,
rectangles, or outlines traced around an image's foreground), batch files
of stickers, and background removal.

- `src/` is the library, verified with Verus:
  - `figure` — figure options and the sizes they resolve to, the supported
    resolutions, and the centred crop of an image;
  - `csv`, `text` — the lines of a batch file;
  - `raster` — images as pixel grids and the flood fill of their background;
  - `contour`, `boundary_graph`, `trace_order` — the traced outline: closed
    loops made of the boundary segments of the foreground, each segment
    taken once, in an order that determines the loops;
  - `rdp` — Ramer–Douglas–Peucker simplification in exact integer arithmetic;
  - `mask` — the three tracers, their complexity limits and the spline
    outline;
  - `model` — the background-removal models and the shape of a gather.
- `app/` is the command-line program around it: argument parsing (clap),
  image files (image), PDF drawing in floating-point page coordinates
  (printpdf), and neural-network inference (tract, ureq).
- `tests/` exercises the library on concrete inputs.
