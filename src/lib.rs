//! Edge tiles: 8-bit contact patterns of a unit square (corners at even
//! positions, edge midpoints at odd positions, clockwise from the top-left
//! corner), their validity rule, their grouping under symmetries and the
//! per-direction compatibility table between them.

pub mod adjacency;
pub mod bits;
pub mod groups;
pub mod population;
pub mod text;
pub mod tiles;

