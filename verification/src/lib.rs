//! Mathematical morphology on ternary grids: erosion, dilation, opening,
//! closing, boundaries, thinning, structuring-element operators and
//! morphological reconstruction, each proved against a cell-by-cell model.

pub mod cells;
pub mod lattice;
pub mod four_connected;
pub mod structuring;
pub mod thinning;
pub mod element_laws;
pub mod neighbour_laws;
