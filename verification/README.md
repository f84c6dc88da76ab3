# tileink

The verified core of a tile-based 2D renderer, written in Verus.

- `src/` is the library. Every function there carries a contract that Verus proves:
  pixel bounds (`bounds`), the recorded command tree of a canvas (`commands`) and its
  compilation into draw batches, fused groups and offscreen layers (`compile`), with the
  nesting of those groups (`nesting`), retained identities, frames and damage (`retained`,
  `frame`, `damage_buffer`, `damage_history`) and the propagation of node damage through a
  retained command tree (`propagate`), draw handles (`draws`), the renumbering of appended
  scene records and the backdrop and segment allocation of their paths (`scene`), the frame memory arena (`memory`), backdrop prefix sums
  (`cumsum`), the per-path scan bookkeeping of backdrops, segment counts, ranges and slots
  (`scan`), tile ranges and their chunked prefix sums (`tiles`), per-tile coverage lookups and
  command streams (`coarse`), the fine stage's per-tile clip and group interpreter with its
  integer compositing (`fine`), glyph placement over tiles and sRGB glyph compositing
  (`glyph`), morphology passes with monotone deques (`morphology`), and integer image, mask
  and filter helpers (`image`, `mask`, `filter_ops`).
- `tests/` exercises the library on concrete scenes.
- `app/` holds the floating-point path coverage and morphology glue, and drivers that feed the
  library what they are given: per-path scan plans, per-tile draw coverage, glyph placements,
  and, for the fine stage, a caller's implementation of brush painting, shape coverage and
  colour blending (`FineResources`). Line planning and clipping, brushes, shapes, text layout
  and the canvas and filter front ends are not part of this crate.
