//! Staggered-grid storage and the verified bookkeeping of a pressure-projection
//! fluid solver: coordinates, row-major traversal, cell classification,
//! neighbour stencils, batched cell access, force integration, boundary
//! enforcement, the relaxation sweeps of the pressure solve and
//! double-buffer swapping.
//!
//! The scalar type of the cell fields is a parameter: the library moves
//! values around and decides which cells take part in each step, while the
//! floating-point arithmetic is handed in by the caller as closures.
pub mod cell;
pub mod grid;
pub mod index;

pub use cell::{Cell, CellTypes, FrontBackBuffer};
pub use grid::{CellGetter, Grid, RelaxStencil};
pub use index::{GridIndex, GridIndexIterator, Index2};
