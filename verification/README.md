# reto_core

Splits scans of 3D film strips into their frames, with the logic verified by Verus.

## Layout

- `src/` — the verified library:
  - `profile.rs`: projection profiles (column and row sums of the luma plane);
  - `gutters.rs`: gutter detection (moving average, percentile threshold,
    maximal runs, selection of the best runs by exact average comparison);
  - `splitting.rs`: the frame layout of a strip and cropping;
  - `geom.rs`: orientation and the integer axis mapping of each orientation;
  - `draw.rs`: boxes, markers and Bresenham lines on an RGBA overlay;
  - `pipeline.rs`: supported file extensions and batch summaries;
  - `imaging.rs`: the calls into the `image` crate and what is known of them;
  - `error.rs`: error types.
- `app/` — the command-line program and what stays outside the verified
  library: file and directory handling, parallel batch processing,
  floating-point geometry (normalized rectangles, coordinate transforms),
  serializable records and error messages.
- `tests/` — tests of the library.

Percentiles are given in millionths (`Percentile { per_million }`); the
program converts fractions given as `f32`.

## What is not here

The feature, match, triplet and face overlays and the diagnostic taps that
render them, the scaled luma strip kept per image (with its accessors on
`ImageItemContext`) and the `{stem}_luma.png` output it was saved to are not
part of this project: they rest on feature matching, face detection, luma
conversion and frame detection modules that the project does not contain.
What of the visualizer remains (frame borders, frame crops, the drawing
primitives) is here: the drawing in `src/draw.rs`, the rest in `app/`.
