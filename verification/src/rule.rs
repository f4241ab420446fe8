//! The rule of the automaton: which cells die, which are born, and what a
//! report of one generation must hold.

use crate::cell::{CellEvent, CellView};
use crate::coord::Coord;
use crate::neighbourhood::{neighbour_count, neighbour_views};
use vstd::prelude::*;

verus! {

/// The living cell at `c` has fewer than two or more than three living neighbours.
pub open spec fn dies<D>(m: Map<Coord, D>, c: Coord) -> bool {
    m.contains_key(c) && (neighbour_count(m, c) < 2 || neighbour_count(m, c) > 3)
}

/// The dead coordinate `c` has exactly three living neighbours.
pub open spec fn is_born<D>(m: Map<Coord, D>, c: Coord) -> bool {
    !m.contains_key(c) && neighbour_count(m, c) == 3
}

/// The living cell at `c` stays alive.
pub open spec fn survives<D>(m: Map<Coord, D>, c: Coord) -> bool {
    m.contains_key(c) && !dies(m, c)
}

/// `data` is what `fuse` may return for the living neighbours of `c` in `m`.
pub open spec fn fused<D, F: for <'a>Fn(Vec<CellView<'a, D>>) -> D>(
    fuse: F,
    m: Map<Coord, D>,
    c: Coord,
    data: D,
) -> bool {
    exists|views: Vec<CellView<D>>|
        views@ == neighbour_views(m, c) && #[trigger] fuse.ensures((views,), data)
}

/// The coordinates that a sequence of events is about.
pub open spec fn event_coords<D>(events: Seq<CellEvent<D>>) -> Seq<Coord> {
    events.map_values(|e: CellEvent<D>| e.cell().coords)
}

/// `events` tells of every death in `m`, once each, with a clone of the
/// data that the cell had.
pub open spec fn reports_deaths<D: Clone>(m: Map<Coord, D>, events: Seq<CellEvent<D>>) -> bool {
    &&& event_coords(events).no_duplicates()
    &&& forall|c: Coord| #[trigger] event_coords(events).contains(c) <==> dies(m, c)
    &&& forall|i: int|
        0 <= i < events.len() ==> (#[trigger] events[i]) is Died && cloned(
            m[events[i].cell().coords],
            events[i].cell().data,
        )
}

/// `events` tells of every birth in `m`, once each, with the data that
/// `fuse` gave for the three living neighbours.
pub open spec fn reports_births<D, F: for <'a>Fn(Vec<CellView<'a, D>>) -> D>(
    m: Map<Coord, D>,
    fuse: F,
    events: Seq<CellEvent<D>>,
) -> bool {
    &&& event_coords(events).no_duplicates()
    &&& forall|c: Coord| #[trigger] event_coords(events).contains(c) <==> is_born(m, c)
    &&& forall|i: int|
        0 <= i < events.len() ==> (#[trigger] events[i]) is Born && fused(
            fuse,
            m,
            events[i].cell().coords,
            events[i].cell().data,
        )
}

/// `events` is the report of one generation of `m`: the deaths, then the births.
pub open spec fn reports_generation<D: Clone, F: for <'a>Fn(Vec<CellView<'a, D>>) -> D>(
    m: Map<Coord, D>,
    fuse: F,
    events: Seq<CellEvent<D>>,
) -> bool {
    exists|deaths: int|
        0 <= deaths <= events.len() && #[trigger] reports_deaths(m, events.take(deaths))
            && reports_births(m, fuse, events.skip(deaths))
}

/// `next` is the generation after `m` on a board of side `side`, given the
/// events that were reported: the survivors keep their data, and each cell
/// born on the board holds a clone of the data in its event.
pub open spec fn is_next_generation<D: Clone>(
    m: Map<Coord, D>,
    side: usize,
    events: Seq<CellEvent<D>>,
    next: Map<Coord, D>,
) -> bool {
    &&& forall|c: Coord|
        #[trigger] next.contains_key(c) <==> survives(m, c) || (is_born(m, c) && c.within(side))
    &&& forall|c: Coord| survives(m, c) ==> #[trigger] next[c] == m[c]
    &&& forall|i: int|
        0 <= i < events.len() && (#[trigger] events[i]) is Born && events[i].cell().coords.within(
            side,
        ) ==> cloned(events[i].cell().data, next[events[i].cell().coords])
}

} // verus!
