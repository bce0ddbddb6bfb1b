//! Conway's Game of Life on a finite rectangular grid, with configurable
//! survival and birth thresholds, reproducible random seeding and a plain
//! text snapshot format.
pub mod board;
pub mod random;
pub mod snapshot;
