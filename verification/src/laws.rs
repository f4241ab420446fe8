//! What holds of every generation, proved from the rule and from what a
//! report of a generation must hold.

use crate::cell::{CellEvent, CellView};
use crate::coord::Coord;
use crate::neighbourhood::{
    lemma_neighbour_views, living_around, neighbour_count, neighbour_views,
};
use crate::rule::{
    dies, event_coords, fused, is_born, is_next_generation, reports_births, reports_deaths,
    reports_generation, survives,
};
use vstd::prelude::*;

verus! {

/// The coordinates `(-1, 0)` and `(0, -1)` lie off every board, and so do
/// `(size, 0)` and `(0, size)` off a board of side `size`.
pub proof fn lemma_border_is_off_the_board(size: usize)
    ensures
        !Coord(-1i32, 0).within(size),
        !Coord(0, -1i32).within(size),
        forall|n: i32| n == size ==> !Coord(n, 0).within(size) && !Coord(0, n).within(size),
{
}

/// The rule counts each living neighbour once: a living cell dies when the
/// set of living cells next to it has fewer than two or more than three
/// members, and a dead coordinate is born when that set has exactly three.
pub proof fn lemma_rule_counts_the_living_around<D>(m: Map<Coord, D>, c: Coord)
    ensures
        living_around(m, c).finite(),
        neighbour_count(m, c) == living_around(m, c).len(),
        dies(m, c) <==> m.contains_key(c) && (living_around(m, c).len() < 2 || living_around(
            m,
            c,
        ).len() > 3),
        is_born(m, c) <==> !m.contains_key(c) && living_around(m, c).len() == 3,
        survives(m, c) <==> m.contains_key(c) && 2 <= living_around(m, c).len() <= 3,
{
    lemma_neighbour_views(m, c);
}

/// A cell cannot both die and be born: the first needs it alive, the second dead.
pub proof fn lemma_dies_or_is_born<D>(m: Map<Coord, D>, c: Coord)
    ensures
        !(dies(m, c) && is_born(m, c)),
{
}

/// In the report of a generation no coordinate comes twice, so none is both
/// born and dead in it; the coordinates reported are exactly those that the
/// rule changes; each event carries what the rule says; and every death
/// stands before every birth.
pub proof fn lemma_one_transition_each<D: Clone, F: for <'a>Fn(Vec<CellView<'a, D>>) -> D>(
    m: Map<Coord, D>,
    fuse: F,
    events: Seq<CellEvent<D>>,
)
    requires
        reports_generation(m, fuse, events),
    ensures
        event_coords(events).no_duplicates(),
        forall|c: Coord|
            #[trigger] event_coords(events).contains(c) <==> dies(m, c) || is_born(m, c),
        forall|i: int|
            0 <= i < events.len() ==> match #[trigger] events[i] {
                CellEvent::Died(cell) => dies(m, cell.coords) && cloned(m[cell.coords], cell.data),
                CellEvent::Born(cell) => is_born(m, cell.coords) && fused(
                    fuse,
                    m,
                    cell.coords,
                    cell.data,
                ),
            },
        forall|i: int, j: int|
            0 <= i < events.len() && 0 <= j < events.len() && (#[trigger] events[i]) is Born && (
            #[trigger] events[j]) is Died ==> j < i && events[i].cell().coords
                != events[j].cell().coords,
{
    let split = choose|deaths: int|
        0 <= deaths <= events.len() && #[trigger] reports_deaths(m, events.take(deaths))
            && reports_births(m, fuse, events.skip(deaths));
    let deaths = events.take(split);
    let births = events.skip(split);
    let coords = event_coords(events);
    assert(event_coords(deaths) == coords.take(split));
    assert(event_coords(births) == coords.skip(split));
    assert forall|i: int| 0 <= i < events.len() implies match #[trigger] events[i] {
        CellEvent::Died(cell) => i < split && dies(m, cell.coords) && cloned(
            m[cell.coords],
            cell.data,
        ),
        CellEvent::Born(cell) => split <= i && is_born(m, cell.coords) && fused(
            fuse,
            m,
            cell.coords,
            cell.data,
        ),
    } by {
        if i < split {
            assert(events[i] == deaths[i]);
            assert(event_coords(deaths)[i] == coords[i]);
            assert(event_coords(deaths).contains(coords[i]));
        } else {
            assert(events[i] == births[i - split]);
            assert(event_coords(births)[i - split] == coords[i]);
            assert(event_coords(births).contains(coords[i]));
        }
    }
    assert forall|i: int, j: int| 0 <= i < j < coords.len() implies coords[i] != coords[j] by {
        if j < split {
            assert(event_coords(deaths)[i] == coords[i] && event_coords(deaths)[j] == coords[j]);
        } else if split <= i {
            assert(event_coords(births)[i - split] == coords[i] && event_coords(births)[j
                - split] == coords[j]);
        } else {
            assert(events[i] is Died && events[j] is Born);
            assert(events[i].cell().coords == coords[i] && events[j].cell().coords == coords[j]);
        }
    }
    assert forall|c: Coord| #[trigger] coords.contains(c) <==> dies(m, c) || is_born(m, c) by {
        if coords.contains(c) {
            let i = choose|i: int| 0 <= i < coords.len() && coords[i] == c;
            assert(events[i].cell().coords == c);
        }
        if dies(m, c) {
            assert(event_coords(deaths).contains(c));
            let i = choose|i: int| 0 <= i < split && event_coords(deaths)[i] == c;
            assert(coords[i] == c);
        }
        if is_born(m, c) {
            assert(event_coords(births).contains(c));
            let i = choose|i: int| 0 <= i < births.len() && event_coords(births)[i] == c;
            assert(coords[i + split] == c);
        }
    }
}

/// What one generation does to the coordinate `c`.
///
/// A cell that dies is reported dead, with a clone of its data, and is gone
/// afterwards. A coordinate that is born is reported born, with the fused
/// data of its three neighbours, and is alive afterwards exactly if it lies
/// on the board, then with a clone of the reported data. A cell that
/// survives keeps its data and no event is about it. A dead coordinate that
/// is not born stays dead, and no event is about it.
pub proof fn lemma_fate<D: Clone, F: for <'a>Fn(Vec<CellView<'a, D>>) -> D>(
    m: Map<Coord, D>,
    side: usize,
    fuse: F,
    events: Seq<CellEvent<D>>,
    next: Map<Coord, D>,
    c: Coord,
)
    requires
        reports_generation(m, fuse, events),
        is_next_generation(m, side, events, next),
    ensures
        dies(m, c) ==> !next.contains_key(c) && exists|i: int|
            0 <= i < events.len() && (#[trigger] events[i]) is Died && events[i].cell().coords == c
                && cloned(m[c], events[i].cell().data),
        is_born(m, c) ==> (next.contains_key(c) <==> c.within(side)) && exists|i: int|
            0 <= i < events.len() && (#[trigger] events[i]) is Born && events[i].cell().coords == c
                && fused(fuse, m, c, events[i].cell().data) && (c.within(side) ==> cloned(
                events[i].cell().data,
                next[c],
            )),
        survives(m, c) ==> next.contains_key(c) && next[c] == m[c] && !event_coords(
            events,
        ).contains(c),
        !m.contains_key(c) && !is_born(m, c) ==> !next.contains_key(c) && !event_coords(
            events,
        ).contains(c),
{
    lemma_one_transition_each(m, fuse, events);
    let coords = event_coords(events);
    if dies(m, c) || is_born(m, c) {
        assert(coords.contains(c));
        let i = choose|i: int| 0 <= i < coords.len() && coords[i] == c;
        assert(events[i].cell().coords == c);
    }
    if survives(m, c) {
        assert(next[c] == m[c]);
    }
}

/// On an empty board nothing happens: the report of a generation is empty,
/// and so is the board afterwards.
pub proof fn lemma_empty_stays_empty<D: Clone, F: for <'a>Fn(Vec<CellView<'a, D>>) -> D>(
    m: Map<Coord, D>,
    side: usize,
    fuse: F,
    events: Seq<CellEvent<D>>,
    next: Map<Coord, D>,
)
    requires
        forall|c: Coord| !m.contains_key(c),
        reports_generation(m, fuse, events),
        is_next_generation(m, side, events, next),
    ensures
        events.len() == 0,
        forall|c: Coord| !next.contains_key(c),
{
    lemma_one_transition_each(m, fuse, events);
    assert forall|c: Coord| !dies(m, c) && !is_born(m, c) by {
        lemma_rule_counts_the_living_around(m, c);
        assert(living_around(m, c) =~= Set::<Coord>::empty());
    }
    if events.len() > 0 {
        assert(event_coords(events).contains(event_coords(events)[0]));
    }
}

/// A living cell with no living neighbour, or with exactly one, dies: it is
/// reported dead and is gone afterwards.
pub proof fn lemma_lonely_cell_dies<D: Clone, F: for <'a>Fn(Vec<CellView<'a, D>>) -> D>(
    m: Map<Coord, D>,
    side: usize,
    fuse: F,
    events: Seq<CellEvent<D>>,
    next: Map<Coord, D>,
    c: Coord,
)
    requires
        m.contains_key(c),
        living_around(m, c).len() < 2,
        reports_generation(m, fuse, events),
        is_next_generation(m, side, events, next),
    ensures
        !next.contains_key(c),
        exists|i: int|
            0 <= i < events.len() && (#[trigger] events[i]) is Died && events[i].cell().coords == c
                && cloned(m[c], events[i].cell().data),
{
    lemma_rule_counts_the_living_around(m, c);
    lemma_fate(m, side, fuse, events, next, c);
}

/// A living cell with more than three living neighbours dies: it is
/// reported dead and is gone afterwards.
pub proof fn lemma_crowded_cell_dies<D: Clone, F: for <'a>Fn(Vec<CellView<'a, D>>) -> D>(
    m: Map<Coord, D>,
    side: usize,
    fuse: F,
    events: Seq<CellEvent<D>>,
    next: Map<Coord, D>,
    c: Coord,
)
    requires
        m.contains_key(c),
        living_around(m, c).len() > 3,
        reports_generation(m, fuse, events),
        is_next_generation(m, side, events, next),
    ensures
        !next.contains_key(c),
        exists|i: int|
            0 <= i < events.len() && (#[trigger] events[i]) is Died && events[i].cell().coords == c
                && cloned(m[c], events[i].cell().data),
{
    lemma_rule_counts_the_living_around(m, c);
    lemma_fate(m, side, fuse, events, next, c);
}

/// A board with a single living cell: the one event of its generation is the
/// death of that cell, and the board is empty afterwards.
pub proof fn lemma_single_cell_dies<D: Clone, F: for <'a>Fn(Vec<CellView<'a, D>>) -> D>(
    m: Map<Coord, D>,
    side: usize,
    fuse: F,
    events: Seq<CellEvent<D>>,
    next: Map<Coord, D>,
    c: Coord,
)
    requires
        forall|n: Coord| m.contains_key(n) <==> n == c,
        reports_generation(m, fuse, events),
        is_next_generation(m, side, events, next),
    ensures
        events.len() == 1,
        events[0] is Died,
        events[0].cell().coords == c,
        cloned(m[c], events[0].cell().data),
        forall|n: Coord| !next.contains_key(n),
{
    lemma_one_transition_each(m, fuse, events);
    let coords = event_coords(events);
    assert forall|n: Coord| dies(m, n) || is_born(m, n) <==> n == c by {
        lemma_rule_counts_the_living_around(m, n);
        if n == c {
            assert(living_around(m, n) =~= Set::<Coord>::empty());
        } else {
            assert(living_around(m, n).subset_of(set![c]));
            vstd::set_lib::lemma_len_subset(living_around(m, n), set![c]);
        }
    }
    assert(coords.contains(c));
    assert forall|i: int| 0 <= i < coords.len() implies coords[i] == c by {
        assert(coords.contains(coords[i]));
    }
    if coords.len() > 1 {
        assert(coords[0] == coords[1]);
    }
    assert(events[0].cell().coords == coords[0]);
}

/// `fuse` gives one result for the same neighbours.
pub open spec fn gives_one_result<D, F: for <'a>Fn(Vec<CellView<'a, D>>) -> D>(fuse: F) -> bool {
    forall|first: Vec<CellView<D>>, second: Vec<CellView<D>>, a: D, b: D|
        first@ == second@ && #[trigger] fuse.ensures((first,), a) && #[trigger] fuse.ensures(
            (second,),
            b,
        ) ==> a == b
}

/// A clone of data of type `D` equals what it was cloned from.
pub open spec fn clones_are_equal<D: Clone>() -> bool {
    forall|a: D, b: D| #[trigger] cloned(a, b) ==> a == b
}

/// Two reports of one generation of the same board tell of the same
/// coordinate with the same event.
proof fn lemma_same_event<D: Clone, F: for <'a>Fn(Vec<CellView<'a, D>>) -> D>(
    m: Map<Coord, D>,
    fuse: F,
    first: Seq<CellEvent<D>>,
    second: Seq<CellEvent<D>>,
    i: int,
    j: int,
)
    requires
        gives_one_result(fuse),
        clones_are_equal::<D>(),
        reports_generation(m, fuse, first),
        reports_generation(m, fuse, second),
        0 <= i < first.len(),
        0 <= j < second.len(),
        first[i].cell().coords == second[j].cell().coords,
    ensures
        first[i] == second[j],
{
    lemma_one_transition_each(m, fuse, first);
    lemma_one_transition_each(m, fuse, second);
    let c = first[i].cell().coords;
    match (first[i], second[j]) {
        (CellEvent::Died(a), CellEvent::Died(b)) => {
            assert(cloned(m[c], a.data) && cloned(m[c], b.data));
        },
        (CellEvent::Born(a), CellEvent::Born(b)) => {
            let va = choose|views: Vec<CellView<D>>|
                views@ == neighbour_views(m, c) && #[trigger] fuse.ensures((views,), a.data);
            let vb = choose|views: Vec<CellView<D>>|
                views@ == neighbour_views(m, c) && #[trigger] fuse.ensures((views,), b.data);
            assert(va@ == vb@);
            assert(a.data == b.data);
        },
        _ => {
            assert(dies(m, c) && is_born(m, c));
        },
    }
}

/// The generation of a board depends on nothing but the board: where the
/// fusion function gives one result for the same neighbours and clones of
/// the data are equal to their sources, two reports of one generation of the
/// same cells hold the same events, each as often as in the other, so they
/// differ in order at most; and the boards afterwards hold the same cells.
pub proof fn lemma_generation_is_determined<D: Clone, F: for <'a>Fn(Vec<CellView<'a, D>>) -> D>(
    m: Map<Coord, D>,
    side: usize,
    fuse: F,
    first: Seq<CellEvent<D>>,
    first_next: Map<Coord, D>,
    second: Seq<CellEvent<D>>,
    second_next: Map<Coord, D>,
)
    requires
        gives_one_result(fuse),
        clones_are_equal::<D>(),
        reports_generation(m, fuse, first),
        is_next_generation(m, side, first, first_next),
        reports_generation(m, fuse, second),
        is_next_generation(m, side, second, second_next),
    ensures
        first.to_multiset() == second.to_multiset(),
        first.len() == second.len(),
        first_next == second_next,
{
    broadcast use vstd::seq_lib::to_multiset_contains;

    lemma_one_transition_each(m, fuse, first);
    lemma_one_transition_each(m, fuse, second);
    let first_coords = event_coords(first);
    let second_coords = event_coords(second);
    assert forall|i: int, j: int| 0 <= i < j < first.len() implies first[i] != first[j] by {
        assert(first_coords[i] == first[i].cell().coords);
        assert(first_coords[j] == first[j].cell().coords);
    }
    assert forall|i: int, j: int| 0 <= i < j < second.len() implies second[i] != second[j] by {
        assert(second_coords[i] == second[i].cell().coords);
        assert(second_coords[j] == second[j].cell().coords);
    }
    assert forall|e: CellEvent<D>| first.contains(e) <==> second.contains(e) by {
        if first.contains(e) {
            let i = choose|i: int| 0 <= i < first.len() && first[i] == e;
            assert(first_coords[i] == e.cell().coords);
            assert(first_coords.contains(e.cell().coords));
            assert(second_coords.contains(e.cell().coords));
            let j = choose|j: int|
                0 <= j < second_coords.len() && second_coords[j] == e.cell().coords;
            lemma_same_event(m, fuse, first, second, i, j);
        }
        if second.contains(e) {
            let j = choose|j: int| 0 <= j < second.len() && second[j] == e;
            assert(second_coords[j] == e.cell().coords);
            assert(second_coords.contains(e.cell().coords));
            assert(first_coords.contains(e.cell().coords));
            let i = choose|i: int|
                0 <= i < first_coords.len() && first_coords[i] == e.cell().coords;
            lemma_same_event(m, fuse, first, second, i, j);
        }
    }
    first.lemma_multiset_has_no_duplicates();
    second.lemma_multiset_has_no_duplicates();
    assert forall|e: CellEvent<D>| first.to_multiset().count(e) == second.to_multiset().count(
        e,
    ) by {
        assert(first.contains(e) <==> second.contains(e));
    }
    assert(first.to_multiset() =~= second.to_multiset());
    vstd::seq_lib::to_multiset_len(first);
    vstd::seq_lib::to_multiset_len(second);
    assert forall|c: Coord| first_next.contains_key(c) implies first_next[c]
        == second_next[c] by {
        if survives(m, c) {
            assert(first_next[c] == m[c] && second_next[c] == m[c]);
        } else {
            assert(first_coords.contains(c) && second_coords.contains(c));
            let i = choose|i: int| 0 <= i < first_coords.len() && first_coords[i] == c;
            let j = choose|j: int| 0 <= j < second_coords.len() && second_coords[j] == c;
            assert(first[i].cell().coords == c && second[j].cell().coords == c);
            lemma_same_event(m, fuse, first, second, i, j);
            assert(cloned(first[i].cell().data, first_next[c]));
            assert(cloned(second[j].cell().data, second_next[c]));
        }
    }
    assert forall|c: Coord| first_next.contains_key(c) == second_next.contains_key(c) by {}
    assert(first_next =~= second_next);
}

} // verus!
