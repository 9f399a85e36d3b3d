# ffrwd

The integer arithmetic of the ffrwd shelf's frame and audio modules, verified
with Verus.

- `src/composite.rs` - frames, rectangles, and the two measures a matte's
  composition is checked by: the per-channel mismatches inside a region,
  worst first, and the per-channel spread of every whole block of a grid.
- `src/shots.rs` - the shot detector's luma grid: the luma of a run of
  pixels, the grid of cell averages, and the total difference of two grids.
- `src/depth.rs` - the depth module's params check, the shape of the map the
  graph returns, and the greyscale map written back as a frame.
- `src/pixel.rs` - the two pixel formats.

`app/` holds what floating point or the host keeps out of the library: the
spans mask, the tone, the depth module's letterbox and tensor, the shot
detector's threshold, and the implied alpha of a composition.
