//! A continuous-color variant of Conway's Game of Life on fixed-point color grids.
//!
//! Colors are triples of fixed-point channels where `ONE` stands for the
//! intensity 1.0. Each generation is computed from the previous one by
//! comparing the direction of a cell's color with those of its neighbors.
use vstd::prelude::*;

pub mod arith;
pub mod color;
pub mod grid;
pub mod cell;
pub mod config;
pub mod step;
pub mod driver;
