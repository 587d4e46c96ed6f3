//! Two-dimensional grids with neighborhood queries, and a step-wise
//! best-first path search over grids of traversable cells.

pub mod const_size_grid;
pub mod direction;
pub mod grid;
pub mod item_grid;
pub mod model;
pub mod neighborhood;
pub mod pathfind;
pub mod text;
