//! Cells, borrowed views of them, and the events of a generation.

use crate::coord::Coord;
use vstd::prelude::*;

verus! {

/// A living cell: where it is and what it carries.
#[derive(Debug, PartialEq, Eq, PartialOrd, Ord)]
pub struct Cell<D> {
    pub coords: Coord,
    pub data: D,
}

/// A read-only look at a living cell, borrowed from the board that holds it.
#[derive(Debug, PartialEq)]
pub struct CellView<'a, D> {
    pub coords: &'a Coord,
    pub data: &'a D,
}

/// One transition of one coordinate during a generation.
#[derive(Debug, PartialEq, Eq, PartialOrd, Ord)]
pub enum CellEvent<D> {
    Born(Cell<D>),
    Died(Cell<D>),
}

impl<D> CellEvent<D> {
    /// The cell that the event is about.
    pub open spec fn cell(self) -> Cell<D> {
        match self {
            CellEvent::Born(cell) => cell,
            CellEvent::Died(cell) => cell,
        }
    }
}

/// The view of the cell that `m` holds at `c`.
pub open spec fn view_of<'a, D>(m: Map<Coord, D>, c: Coord) -> CellView<'a, D> {
    CellView { coords: &c, data: &m[c] }
}

} // verus!
