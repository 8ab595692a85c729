//! Two-dimensional Reed-Solomon encoding of a square of field elements, with
//! KZG commitments to every row and column folded into Merkle roots.
//!
//! `rs_line` extends one line by re-evaluating its interpolant on a larger
//! subgroup, `rs_square` runs the row, column, row passes over a grid, and
//! `prover` commits to the extended grid.

pub mod error;
pub mod field;
pub mod poly;
pub mod prover;
pub mod rs_line;
pub mod rs_square;
