//! The living neighbours of a coordinate, as a sequence in visiting order
//! and as a set.

use crate::cell::{view_of, CellView};
use crate::coord::{lemma_steps_are_the_neighbourhood, neighbour_steps, Coord};
use vstd::prelude::*;

verus! {

/// What the step `d` from `c` finds in `m`: a view of the living cell there, if any.
pub open spec fn view_at_step<'a, D>(m: Map<Coord, D>, c: Coord) -> spec_fn((int, int)) -> Option<
    CellView<'a, D>,
> {
    |d: (int, int)|
        match c.step(d) {
            Some(n) => if m.contains_key(n) {
                Some(view_of(m, n))
            } else {
                None
            },
            None => None,
        }
}

/// The views of the living cells around `c`, in the order of [`neighbour_steps`].
pub open spec fn neighbour_views<'a, D>(m: Map<Coord, D>, c: Coord) -> Seq<CellView<'a, D>> {
    neighbour_steps().filter_map(view_at_step(m, c))
}

/// The number of living cells around `c`.
pub open spec fn neighbour_count<D>(m: Map<Coord, D>, c: Coord) -> nat {
    neighbour_views(m, c).len()
}

/// The living cells around `c`, as a set of coordinates.
pub open spec fn living_around<D>(m: Map<Coord, D>, c: Coord) -> Set<Coord> {
    Set::new(|n: Coord| m.contains_key(n) && c.adjacent(n))
}

/// The dead coordinates next to at least one living cell.
pub open spec fn frontier<D>(m: Map<Coord, D>) -> Set<Coord> {
    Set::new(
        |c: Coord|
            !m.contains_key(c) && exists|l: Coord| m.contains_key(l) && #[trigger] l.adjacent(c),
    )
}

/// The coordinates of a sequence of views.
pub open spec fn coords_of<D>(views: Seq<CellView<D>>) -> Seq<Coord> {
    views.map_values(|v: CellView<D>| *v.coords)
}

/// One of the first `k` steps from `c` finds the view `v` in `m`.
spec fn found_within<D>(m: Map<Coord, D>, c: Coord, k: int, v: CellView<D>) -> bool {
    exists|i: int| 0 <= i < k && view_at_step(m, c)(#[trigger] neighbour_steps()[i]) == Some(v)
}

/// What holds of the living neighbours found among the first `k` steps:
/// each was reached by one of those steps, each living cell that one of
/// those steps reaches is among them, and no coordinate comes twice.
proof fn lemma_views_among_steps<D>(m: Map<Coord, D>, c: Coord, k: int)
    requires
        0 <= k <= 8,
    ensures
        ({
            let f = view_at_step(m, c);
            let found = neighbour_steps().take(k).filter_map(f);
            &&& found.len() <= k
            &&& forall|j: int| 0 <= j < found.len() ==> found_within(m, c, k, #[trigger] found[j])
            &&& forall|i: int|
                0 <= i < k && f(neighbour_steps()[i]) is Some ==> found.contains(
                    f(#[trigger] neighbour_steps()[i])->0,
                )
            &&& forall|j1: int, j2: int|
                0 <= j1 < j2 < found.len() ==> *(#[trigger] found[j1]).coords != *(
                #[trigger] found[j2]).coords
        }),
    decreases k,
{
    let f = view_at_step(m, c);
    let steps = neighbour_steps();
    let found = steps.take(k).filter_map(f);
    if k == 0 {
        assert(steps.take(0).len() == 0);
    } else {
        lemma_views_among_steps(m, c, k - 1);
        steps.lemma_filter_map_take_succ(f, k - 1);
        let before = steps.take(k - 1).filter_map(f);
        match f(steps[k - 1]) {
            Some(v) => {
                assert(found == before.push(v));
                assert forall|j: int| 0 <= j < found.len() implies found_within(
                    m,
                    c,
                    k,
                    #[trigger] found[j],
                ) by {
                    if j < before.len() {
                        assert(found_within(m, c, k - 1, before[j]));
                        let i = choose|i: int|
                            0 <= i < k - 1 && f(#[trigger] steps[i]) == Some(before[j]);
                        assert(f(steps[i]) == Some(found[j]));
                    } else {
                        assert(f(steps[k - 1]) == Some(found[j]));
                    }
                }
                assert forall|i: int| 0 <= i < k && f(steps[i]) is Some implies found.contains(
                    f(#[trigger] steps[i])->0,
                ) by {
                    if i < k - 1 {
                        let j = choose|j: int|
                            0 <= j < before.len() && before[j] == f(steps[i])->0;
                        assert(found[j] == f(steps[i])->0);
                    } else {
                        assert(found[before.len() as int] == v);
                    }
                }
                assert forall|j1: int, j2: int| 0 <= j1 < j2 < found.len() implies *(
                #[trigger] found[j1]).coords != *(#[trigger] found[j2]).coords by {
                    if j2 == before.len() {
                        assert(found_within(m, c, k - 1, before[j1]));
                        let i = choose|i: int|
                            0 <= i < k - 1 && f(#[trigger] steps[i]) == Some(before[j1]);
                        assert(steps[i] != steps[k - 1]);
                    } else {
                        assert(found[j1] == before[j1] && found[j2] == before[j2]);
                    }
                }
            },
            None => {
                assert(found == before);
                assert forall|j: int| 0 <= j < found.len() implies found_within(
                    m,
                    c,
                    k,
                    #[trigger] found[j],
                ) by {
                    assert(found_within(m, c, k - 1, before[j]));
                    let i = choose|i: int|
                        0 <= i < k - 1 && f(#[trigger] steps[i]) == Some(before[j]);
                    assert(f(steps[i]) == Some(found[j]));
                }
            },
        }
    }
}

/// The living neighbours of `c` are at most eight, each is a living cell of
/// `m` next to `c` (so none of them is `c` itself), no coordinate is reported
/// twice, and every living cell next to `c` is reported.
pub proof fn lemma_neighbour_views<D>(m: Map<Coord, D>, c: Coord)
    ensures
        neighbour_count(m, c) <= 8,
        forall|j: int|
            0 <= j < neighbour_count(m, c) ==> {
                let v = #[trigger] neighbour_views(m, c)[j];
                &&& m.contains_key(*v.coords)
                &&& c.adjacent(*v.coords)
                &&& *v.coords != c
                &&& v == view_of(m, *v.coords)
            },
        coords_of(neighbour_views(m, c)).no_duplicates(),
        coords_of(neighbour_views(m, c)).to_set() == living_around(m, c),
        living_around(m, c).finite(),
        neighbour_count(m, c) == living_around(m, c).len(),
{
    let f = view_at_step(m, c);
    let steps = neighbour_steps();
    let found = neighbour_views(m, c);
    let coords = coords_of(found);
    lemma_views_among_steps(m, c, 8);
    lemma_steps_are_the_neighbourhood(c);
    assert(steps.take(8) == steps);
    assert forall|j: int| 0 <= j < found.len() implies ({
        let v = #[trigger] found[j];
        &&& m.contains_key(*v.coords)
        &&& c.adjacent(*v.coords)
        &&& *v.coords != c
        &&& v == view_of(m, *v.coords)
    }) by {
        assert(found_within(m, c, 8, found[j]));
        let i = choose|i: int| 0 <= i < 8 && f(#[trigger] steps[i]) == Some(found[j]);
        assert(c.step(steps[i]) == Some(*found[j].coords));
    }
    assert forall|n: Coord| coords.to_set().contains(n) <==> living_around(m, c).contains(
        n,
    ) by {
        if coords.to_set().contains(n) {
            let j = choose|j: int| 0 <= j < coords.len() && coords[j] == n;
            assert(*found[j].coords == n);
        }
        if living_around(m, c).contains(n) {
            let i = choose|i: int| 0 <= i < 8 && c.step(#[trigger] steps[i]) == Some(n);
            assert(f(steps[i]) == Some(view_of(m, n)));
            let j = choose|j: int| 0 <= j < found.len() && found[j] == view_of(m, n);
            assert(coords[j] == n);
        }
    }
    assert(coords.to_set() =~= living_around(m, c));
    coords.unique_seq_to_set();
    vstd::seq_lib::seq_to_set_is_finite(coords);
}

} // verus!
