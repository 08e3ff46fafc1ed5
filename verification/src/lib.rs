//! Square elevation grids: how their cells are laid out, visited and counted.
//!
//! The library holds the arithmetic on indices that three terrain generators
//! and a fractal estimator rest on: the schedule of midpoint displacement, the
//! passes of spectral synthesis, the composition of a noise field, and the
//! counting of boxes. It is generic in the type of a cell. The numeric kernels
//! (drawing a random height, transforming a row, sampling a noise field,
//! fitting a line) are handed in as functions by the caller, and every
//! contract says what the result is in terms of what those functions return.

pub mod bit_reversal;
pub mod fft_utils;
pub mod fractal_analysis;
pub mod grid;
mod lattice;
pub mod noise;
pub mod schedule;
pub mod schedule_laws;
pub mod terrain;

pub use grid::TerrainError;
