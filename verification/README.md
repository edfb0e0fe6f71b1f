# ternary_morph

Mathematical morphology on grids of ternary cells (-1, 0, +1), with proofs of
correctness. Every operator is proved equal to a cell-by-cell model, and the
algebraic laws of the library (idempotent opening and closing, opening only
removing cells, thinning keeping every region and its connections, leaving
only endpoints and cut cells and reaching a stable grid, reconstruction giving exactly the region grown from
the marker inside the mask) are proved as lemmas over those models.

Layout of `src/`:

- `four_connected`: erosion, dilation, opening, closing, boundary and
  thinning of one target value with the 4-connected neighbourhood, on a grid
  stored row by row.
- `structuring`: erosion, dilation, opening, closing, gradient, top hat,
  black hat, hit-or-miss, conditional dilation and reconstruction of +1
  regions with a structuring element given as (row, column) offsets.
- `thinning`: 4-connected walks through target cells, and the flood fill
  that lets thinning clear a cell only when its neighbours stay connected.
- `lattice`: erosion and dilation of cell sets over a symmetric neighbour
  relation, and why opening and closing are idempotent.
- `cells`: counting and copying cells.

The tests in `tests/` exercise the library on concrete grids.
