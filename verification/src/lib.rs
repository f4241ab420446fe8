//! A sparse, bounded Game-of-Life board that reports every birth and death.

pub mod board;
pub mod cell;
pub mod coord;
pub mod engine;
pub mod laws;
pub mod neighbourhood;
pub mod rule;
pub mod seed;

pub use board::{Board, Cells};
pub use cell::{Cell, CellEvent, CellView};
pub use coord::Coord;
