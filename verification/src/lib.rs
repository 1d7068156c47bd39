//! Stable-fluids solver on a square grid, with decimal arithmetic.

pub mod advect;
pub mod array;
pub mod boundary;
pub mod error;
pub mod field;
pub mod fluid;
pub mod grid;
pub mod number;
pub mod project;
pub mod solver;
