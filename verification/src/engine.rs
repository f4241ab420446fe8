//! The automaton: one call advances the board by one generation and
//! reports what changed.

use crate::board::{Board, Cells};
use crate::cell::{view_of, Cell, CellEvent, CellView};
use crate::coord::Coord;
use crate::laws::{lemma_empty_stays_empty, lemma_one_transition_each};
use crate::neighbourhood::{coords_of, frontier, lemma_neighbour_views, neighbour_views};
use crate::rule::{
    dies, event_coords, fused, is_born, is_next_generation, reports_births, reports_deaths,
    reports_generation,
};
use vstd::prelude::*;

verus! {

impl<D: Clone, F: for <'a>Fn(Vec<CellView<'a, D>>) -> D> Board<D, F> {
    /// The deaths that the rule asks for, computed without touching the board.
    fn deaths(&self) -> (events: Vec<CellEvent<D>>)
        ensures
            reports_deaths(self@, events@),
    {
        let views = self.cells();
        let mut events: Vec<CellEvent<D>> = Vec::new();
        let ghost coords = coords_of(views@);
        for i in 0..views.len()
            invariant
                coords == coords_of(views@),
                coords.no_duplicates(),
                forall|k: int|
                    0 <= k < views@.len() ==> self@.contains_key(#[trigger] coords[k])
                        && views@[k] == view_of(self@, coords[k]),
                event_coords(events@).no_duplicates(),
                forall|j: int|
                    0 <= j < events@.len() ==> coords.take(i as int).contains(
                        #[trigger] event_coords(events@)[j],
                    ),
                forall|k: int|
                    0 <= k < i && dies(self@, #[trigger] coords[k]) ==> event_coords(
                        events@,
                    ).contains(coords[k]),
                forall|j: int|
                    0 <= j < events@.len() ==> (#[trigger] events@[j]) is Died && dies(
                        self@,
                        events@[j].cell().coords,
                    ) && cloned(self@[events@[j].cell().coords], events@[j].cell().data),
        {
            let view = &views[i];
            let neighbours = self.get_neighbours(view.coords);
            let ghost before = events@;
            if neighbours.len() < 2 || neighbours.len() > 3 {
                let data = view.data.clone();
                events.push(CellEvent::Died(Cell { coords: *view.coords, data }));
                proof {
                    assert(event_coords(events@) == event_coords(before).push(coords[i as int]));
                }
            }
            proof {
                broadcast use vstd::seq_lib::lemma_seq_contains_after_push;

                assert(coords.take(i + 1) == coords.take(i as int).push(coords[i as int]));
                assert(!coords.take(i as int).contains(coords[i as int]));
            }
        }
        proof {
            assert(coords.take(views@.len() as int) == coords);
            assert forall|c: Coord| dies(self@, c) implies #[trigger] event_coords(
                events@,
            ).contains(c) by {
                assert(coords.to_set().contains(c));
            }
            assert forall|c: Coord| #[trigger]
                event_coords(events@).contains(c) implies dies(self@, c) by {
                let j = choose|j: int|
                    0 <= j < events@.len() && event_coords(events@)[j] == c;
                assert(events@[j].cell().coords == c);
            }
        }
        events
    }

    /// The births that the rule asks for, computed without touching the board.
    fn births(&self) -> (events: Vec<CellEvent<D>>)
        ensures
            reports_births(self@, self.fusion(), events@),
    {
        let dead = self.all_dead_neighbours();
        let mut events: Vec<CellEvent<D>> = Vec::new();
        for i in 0..dead.len()
            invariant
                dead@.no_duplicates(),
                dead@.to_set() == frontier(self@),
                event_coords(events@).no_duplicates(),
                forall|j: int|
                    0 <= j < events@.len() ==> dead@.take(i as int).contains(
                        #[trigger] event_coords(events@)[j],
                    ),
                forall|k: int|
                    0 <= k < i && is_born(self@, #[trigger] dead@[k]) ==> event_coords(
                        events@,
                    ).contains(dead@[k]),
                forall|j: int|
                    0 <= j < events@.len() ==> (#[trigger] events@[j]) is Born && is_born(
                        self@,
                        events@[j].cell().coords,
                    ) && fused(
                        self.fusion(),
                        self@,
                        events@[j].cell().coords,
                        events@[j].cell().data,
                    ),
        {
            let coords: Coord = dead[i];
            let alive_neighbours = self.get_neighbours(&coords);
            let ghost before = events@;
            proof {
                assert(dead@.to_set().contains(coords));
            }
            if alive_neighbours.len() == 3 {
                let data = self.fuse(alive_neighbours);
                events.push(CellEvent::Born(Cell { coords, data }));
                proof {
                    assert(event_coords(events@) == event_coords(before).push(coords));
                }
            }
            proof {
                broadcast use vstd::seq_lib::lemma_seq_contains_after_push;

                assert(dead@.take(i + 1) == dead@.take(i as int).push(coords));
                assert(!dead@.take(i as int).contains(coords));
            }
        }
        proof {
            assert(dead@.take(dead@.len() as int) == dead@);
            assert forall|c: Coord| is_born(self@, c) implies #[trigger] event_coords(
                events@,
            ).contains(c) by {
                lemma_neighbour_views(self@, c);
                let n = *neighbour_views(self@, c)[0].coords;
                assert(n.adjacent(c));
                assert(frontier(self@).contains(c));
                assert(dead@.contains(c));
            }
            assert forall|c: Coord| #[trigger]
                event_coords(events@).contains(c) implies is_born(self@, c) by {
                let j = choose|j: int|
                    0 <= j < events@.len() && event_coords(events@)[j] == c;
                assert(events@[j].cell().coords == c);
            }
        }
        events
    }

    /// Carries out the events of one generation, in the order in which they
    /// were recorded: a birth by `insert`, which refuses a coordinate off the
    /// board, a death by `remove`.
    fn apply(&mut self, events: &Vec<CellEvent<D>>)
        requires
            reports_generation(old(self)@, old(self).fusion(), events@),
        ensures
            final(self).side() == old(self).side(),
            final(self).fusion() == old(self).fusion(),
            is_next_generation(old(self)@, old(self).side(), events@, final(self)@),
    {
        let ghost start = self@;
        let ghost side = self.side();
        let ghost fuse = self.fusion();
        let ghost coords = event_coords(events@);
        proof {
            lemma_one_transition_each(start, fuse, events@);
        }
        for i in 0..events.len()
            invariant
                self.side() == side,
                self.fusion() == fuse,
                coords == event_coords(events@),
                coords.no_duplicates(),
                forall|j: int|
                    0 <= j < events@.len() ==> match #[trigger] events@[j] {
                        CellEvent::Died(cell) => dies(start, cell.coords),
                        CellEvent::Born(cell) => is_born(start, cell.coords),
                    },
                forall|c: Coord|
                    #[trigger] self@.contains_key(c) <==> (start.contains_key(c) && !(coords.take(
                        i as int,
                    ).contains(c) && dies(start, c))) || (coords.take(i as int).contains(c)
                        && is_born(start, c) && c.within(side)),
                forall|c: Coord|
                    start.contains_key(c) && self@.contains_key(c) ==> #[trigger] self@[c]
                        == start[c],
                forall|j: int|
                    0 <= j < i && (#[trigger] events@[j]) is Born
                        && events@[j].cell().coords.within(side) ==> cloned(
                        events@[j].cell().data,
                        self@[events@[j].cell().coords],
                    ),
        {
            proof {
                broadcast use vstd::seq_lib::lemma_seq_contains_after_push;

                assert(coords.take(i + 1) == coords.take(i as int).push(coords[i as int]));
                assert(coords[i as int] == events@[i as int].cell().coords);
                assert forall|j: int| 0 <= j < i implies events@[j].cell().coords
                    != events@[i as int].cell().coords by {
                    assert(coords[j] == events@[j].cell().coords);
                }
            }
            match &events[i] {
                CellEvent::Born(cell) => {
                    self.insert(cell.coords, cell.data.clone());
                },
                CellEvent::Died(cell) => {
                    self.remove(&cell.coords);
                },
            }
        }
        proof {
            assert(coords.take(events@.len() as int) == coords);
        }
    }

    /// Advances the board by one generation and reports what changed.
    ///
    /// Every living cell with fewer than two or more than three living
    /// neighbours dies; every dead coordinate with exactly three is born, with
    /// the data that the fusion function gives for those three. Both are
    /// decided on the board as it was before the call. The report holds the
    /// deaths first, then the births; a birth off the board is reported but
    /// not carried out. No coordinate is reported both born and dead, and an
    /// empty board reports nothing.
    pub fn tick(&mut self) -> (updates: Vec<CellEvent<D>>)
        ensures
            final(self).side() == old(self).side(),
            final(self).fusion() == old(self).fusion(),
            reports_generation(old(self)@, old(self).fusion(), updates@),
            is_next_generation(old(self)@, old(self).side(), updates@, final(self)@),
            forall|i: int, j: int|
                0 <= i < updates@.len() && 0 <= j < updates@.len()
                    && (#[trigger] updates@[i]) is Born && (#[trigger] updates@[j]) is Died
                    ==> updates@[i].cell().coords != updates@[j].cell().coords,
            (forall|c: Coord| !old(self)@.contains_key(c)) ==> updates@.len() == 0,
    {
        let ghost start = self@;
        let mut updates = self.deaths();
        let mut births = self.births();
        let ghost died = updates@;
        let ghost born = births@;
        updates.append(&mut births);
        proof {
            assert(updates@.take(died.len() as int) == died);
            assert(updates@.skip(died.len() as int) == born);
        }
        self.apply(&updates);
        proof {
            lemma_one_transition_each(start, self.fusion(), updates@);
            if forall|c: Coord| !start.contains_key(c) {
                lemma_empty_stays_empty(start, self.side(), self.fusion(), updates@, self@);
            }
        }
        updates
    }

    /// The board as a report: every living cell once, as a birth that
    /// carries a clone of its data, in no particular order.
    pub fn get_state(&self) -> (state: Vec<CellEvent<D>>)
        ensures
            event_coords(state@).no_duplicates(),
            event_coords(state@).to_set() == self@.dom(),
            forall|i: int|
                0 <= i < state@.len() ==> (#[trigger] state@[i]) is Born && cloned(
                    self@[state@[i].cell().coords],
                    state@[i].cell().data,
                ),
    {
        let views = self.cells();
        let mut state: Vec<CellEvent<D>> = Vec::new();
        for i in 0..views.len()
            invariant
                forall|k: int|
                    0 <= k < views@.len() ==> #[trigger] views@[k] == view_of(
                        self@,
                        *views@[k].coords,
                    ),
                state@.len() == i,
                event_coords(state@) == coords_of(views@).take(i as int),
                forall|j: int|
                    0 <= j < state@.len() ==> (#[trigger] state@[j]) is Born && cloned(
                        self@[state@[j].cell().coords],
                        state@[j].cell().data,
                    ),
        {
            let view = &views[i];
            let data = view.data.clone();
            state.push(CellEvent::Born(Cell { coords: *view.coords, data }));
        }
        proof {
            assert(coords_of(views@).take(views@.len() as int) == coords_of(views@));
        }
        state
    }
}

} // verus!