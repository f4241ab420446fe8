//! The grid store: a bounded, sparse map from coordinates to cell data.

use crate::cell::{view_of, Cell, CellView};
use crate::coord::{lemma_steps_are_the_neighbourhood, neighbour_steps, Coord};
use crate::neighbourhood::{
    coords_of, frontier, lemma_neighbour_views, neighbour_views, view_at_step,
};
use std::collections::{HashMap, HashSet};
use vstd::prelude::*;
use vstd::std_specs::hash::*;
use vstd::std_specs::iter::IteratorSpec;

verus! {

/// A square board of side `size` whose living cells carry data of type `D`.
/// `F` computes the data of a newborn cell from its three living neighbours.
#[verifier::reject_recursive_types(D)]
pub struct Board<
    D: Clone = (),
    F: for <'a>Fn(Vec<CellView<'a, D>>) -> D = fn(Vec<CellView<D>>) -> D,
> {
    cell_map: HashMap<u64, Cell<D>>,
    size: usize,
    new_cell_data: F,
}

/// The operations of a grid store.
pub trait Cells<D> {
    /// The living cells: each living coordinate with the data of its cell.
    spec fn view(&self) -> Map<Coord, D>;

    /// The side of the square `[0, side) x [0, side)` outside which no cell lives.
    spec fn side(&self) -> usize;

    /// Every living cell lies on the board, and the living cells are finitely many.
    proof fn lemma_cells_on_board(&self)
        ensures
            forall|c: Coord| self@.contains_key(c) ==> c.within(self.side()),
            self@.dom().finite(),
    ;

    /// The cell at `coord`, if it is alive.
    fn get(&self, coord: &Coord) -> (r: Option<CellView<D>>)
        ensures
            r == (if self@.contains_key(*coord) {
                Some(view_of(self@, *coord))
            } else {
                None
            }),
    ;

    /// Makes `coord` alive with `data`, replacing what was there; refuses a
    /// coordinate off the board and then changes nothing.
    fn insert(&mut self, coord: Coord, data: D) -> (r: bool)
        ensures
            r == coord.within(old(self).side()),
            final(self).side() == old(self).side(),
            final(self)@ == (if r {
                old(self)@.insert(coord, data)
            } else {
                old(self)@
            }),
    ;

    /// Makes `coord` dead, whether or not it was alive.
    fn remove(&mut self, coord: &Coord)
        ensures
            final(self).side() == old(self).side(),
            final(self)@ == old(self)@.remove(*coord),
    ;

    /// The living cells among the eight around `coord`, in visiting order:
    /// never more than eight, never `coord` itself.
    fn get_neighbours(&self, coord: &Coord) -> (r: Vec<CellView<D>>)
        ensures
            r@ == neighbour_views(self@, *coord),
            r@.len() <= 8,
            forall|i: int| 0 <= i < r@.len() ==> *(#[trigger] r@[i]).coords != *coord,
    ;

    /// Every dead coordinate next to a living cell, once, in no particular
    /// order; coordinates off the board are among them.
    fn all_dead_neighbours(&self) -> (r: Vec<Coord>)
        ensures
            r@.no_duplicates(),
            r@.to_set() == frontier(self@),
    ;

    /// Every living cell, once, in no particular order.
    fn cells(&self) -> (r: Vec<CellView<D>>)
        ensures
            coords_of(r@).no_duplicates(),
            coords_of(r@).to_set() == self@.dom(),
            forall|i: int|
                0 <= i < r@.len() ==> #[trigger] r@[i] == view_of(self@, *r@[i].coords),
    ;
}

/// `fuse` may be called with any three views.
pub open spec fn accepts_three<D, F: for <'a>Fn(Vec<CellView<'a, D>>) -> D>(fuse: F) -> bool {
    forall|views: Vec<CellView<D>>| views@.len() == 3 ==> #[trigger] fuse.requires((views,))
}

impl<D: Clone, F: for <'a>Fn(Vec<CellView<'a, D>>) -> D> Board<D, F> {
    /// Every entry is filed under the key of its own coordinate and lies on the board.
    spec fn filed_in_place(&self) -> bool {
        forall|k: u64| #[trigger]
            self.cell_map@.contains_key(k) ==> self.cell_map@[k].coords.key() == k
                && self.cell_map@[k].coords.within(self.size)
    }

    /// The entries are filed in place, and the fusion function takes any three views.
    #[verifier::type_invariant]
    spec fn well_formed(&self) -> bool {
        self.filed_in_place() && accepts_three(self.new_cell_data)
    }

    /// The function that computes the data of a newborn cell.
    pub closed spec fn fusion(&self) -> F {
        self.new_cell_data
    }

    /// An empty board of side `size` on which `new_cell_data` fuses the
    /// neighbours of each newborn cell.
    pub fn new(size: usize, new_cell_data: F) -> (board: Self)
        requires
            accepts_three(new_cell_data),
        ensures
            board@ == Map::<Coord, D>::empty(),
            board.side() == size,
            board.fusion() == new_cell_data,
    {
        let board = Board { size, cell_map: HashMap::new(), new_cell_data };
        assert(board@ =~= Map::<Coord, D>::empty());
        board
    }

    /// The data of a cell born among the three cells of `views`.
    pub(crate) fn fuse(&self, views: Vec<CellView<D>>) -> (data: D)
        requires
            views@.len() == 3,
        ensures
            self.fusion().ensures((views,), data),
    {
        proof {
            use_type_invariant(self);
        }
        (self.new_cell_data)(views)
    }
}

impl<D: Clone, F: for <'a>Fn(Vec<CellView<'a, D>>) -> D> Cells<D> for Board<D, F> {
    /// Each coordinate on the board that is filed under its own key, with
    /// the data filed there.
    closed spec fn view(&self) -> Map<Coord, D> {
        Map::new(
            |c: Coord|
                c.within(self.size) && self.cell_map@.contains_key(c.key())
                    && self.cell_map@[c.key()].coords == c,
            |c: Coord| self.cell_map@[c.key()].data,
        )
    }

    closed spec fn side(&self) -> usize {
        self.size
    }

    proof fn lemma_cells_on_board(&self) {
        broadcast use group_hash_axioms;

        let filed = self.cell_map@;
        let coords = filed.dom().map(|k: u64| filed[k].coords);
        filed.dom().lemma_map_finite(|k: u64| filed[k].coords);
        assert forall|c: Coord| self@.dom().contains(c) implies coords.contains(c) by {
            assert(filed.dom().contains(c.key()));
        }
        vstd::set_lib::lemma_len_subset(self@.dom(), coords);
    }

    fn get(&self, coord: &Coord) -> (r: Option<CellView<D>>) {
        proof {
            use_type_invariant(self);
            broadcast use group_hash_axioms;
            Coord::lemma_key_injective(*coord, *coord);
        }
        let key: u64 = coord.to_key();
        match self.cell_map.get(&key) {
            Some(cell) => {
                proof {
                    Coord::lemma_key_injective(cell.coords, *coord);
                }
                Some(CellView { coords: &cell.coords, data: &cell.data })
            },
            None => None,
        }
    }

    fn insert(&mut self, coord: Coord, data: D) -> (r: bool)
        ensures
            final(self).fusion() == old(self).fusion(),
    {
        proof {
            use_type_invariant(&*self);
            broadcast use group_hash_axioms;
        }
        if coord.is_within(self.size) {
            let key: u64 = coord.to_key();
            let mut cell_map: HashMap<u64, Cell<D>> = HashMap::new();
            std::mem::swap(&mut cell_map, &mut self.cell_map);
            cell_map.insert(key, Cell { coords: coord, data });
            self.cell_map = cell_map;
            proof {
                assert forall|c: Coord| c.key() == coord.key() implies c == coord by {
                    Coord::lemma_key_injective(c, coord);
                }
                assert(self@ =~= old(self)@.insert(coord, data));
            }
            true
        } else {
            false
        }
    }

    fn get_neighbours(&self, coord: &Coord) -> (r: Vec<CellView<D>>) {
        let mut out: Vec<CellView<D>> = Vec::new();
        let ghost found = view_at_step(self@, *coord);
        for i in 0..8usize
            invariant
                out@ == neighbour_steps().take(i as int).filter_map(found),
                found == view_at_step(self@, *coord),
        {
            proof {
                neighbour_steps().lemma_filter_map_take_succ(found, i as int);
            }
            match coord.neighbour(i) {
                Some(n) => match self.get(&n) {
                    Some(view) => out.push(view),
                    None => {},
                },
                None => {},
            }
        }
        proof {
            assert(neighbour_steps().take(8) == neighbour_steps());
            lemma_neighbour_views(self@, *coord);
        }
        out
    }

    fn all_dead_neighbours(&self) -> (r: Vec<Coord>) {
        proof {
            use_type_invariant(self);
            broadcast use group_hash_axioms;
        }
        let mut seen: HashSet<u64> = HashSet::new();
        let mut out: Vec<Coord> = Vec::new();
        let ghost entries = spec_hash_map_iter(&self.cell_map).remaining();
        let ghost mut done: int = 0;
        for entry in it: self.cell_map.iter()
            invariant
                it.seq() == entries,
                done == it.index(),
                self.well_formed(),
                forall|i: int|
                    0 <= i < entries.len() ==> self.cell_map@.contains_key(
                        *(#[trigger] entries[i]).0,
                    ) && self.cell_map@[*entries[i].0] == *entries[i].1,
                out@.no_duplicates(),
                forall|c: Coord| #[trigger] seen@.contains(c.key()) <==> out@.contains(c),
                forall|j: int| 0 <= j < out@.len() ==> frontier(self@).contains(#[trigger] out@[j]),
                forall|i: int, c: Coord|
                    0 <= i < done && #[trigger] entries[i].1.coords.adjacent(c)
                        && !self@.contains_key(c) ==> out@.contains(c),
        {
            let (_key, cell) = entry;
            let here: Coord = cell.coords;
            proof {
                assert(cell == entries[done].1);
                assert(self.cell_map@.contains_key(*entries[done].0));
                assert(self@.contains_key(here));
                lemma_steps_are_the_neighbourhood(here);
            }
            for i in 0..8usize
                invariant
                    self@.contains_key(here),
                    out@.no_duplicates(),
                    forall|c: Coord| #[trigger] seen@.contains(c.key()) <==> out@.contains(c),
                    forall|j: int|
                        0 <= j < out@.len() ==> frontier(self@).contains(#[trigger] out@[j]),
                    forall|i: int, c: Coord|
                        0 <= i < done && #[trigger] entries[i].1.coords.adjacent(c)
                            && !self@.contains_key(c) ==> out@.contains(c),
                    forall|s: int|
                        0 <= s < i ==> match here.step(#[trigger] neighbour_steps()[s]) {
                            Some(c) => self@.contains_key(c) || out@.contains(c),
                            None => true,
                        },
            {
                match here.neighbour(i) {
                    Some(n) => {
                        if self.get(&n).is_none() {
                            let key: u64 = n.to_key();
                            if !seen.contains(&key) {
                                proof {
                                    broadcast use vstd::seq_lib::lemma_seq_contains_after_push;
                                    lemma_steps_are_the_neighbourhood(here);
                                    assert(here.adjacent(n));
                                    assert forall|c: Coord| c.key() == n.key() implies c == n by {
                                        Coord::lemma_key_injective(c, n);
                                    }
                                }
                                seen.insert(key);
                                out.push(n);
                            }
                        }
                    },
                    None => {},
                }
            }
            proof {
                done = done + 1;
            }
        }
        proof {
            assert forall|c: Coord| frontier(self@).contains(c) implies out@.to_set().contains(
                c,
            ) by {
                let l = choose|l: Coord| self@.contains_key(l) && #[trigger] l.adjacent(c);
                let k = l.key();
                assert(entries.contains((&k, &self.cell_map@[k])));
                let i = choose|i: int|
                    0 <= i < entries.len() && entries[i] == (&k, &self.cell_map@[k]);
                assert(entries[i].1.coords.adjacent(c));
            }
            assert(out@.to_set() =~= frontier(self@));
        }
        out
    }

    fn cells(&self) -> (r: Vec<CellView<D>>) {
        proof {
            use_type_invariant(self);
            broadcast use group_hash_axioms;
        }
        let mut out: Vec<CellView<D>> = Vec::new();
        let ghost entries = spec_hash_map_iter(&self.cell_map).remaining();
        for entry in it: self.cell_map.iter()
            invariant
                it.seq() == entries,
                entries.no_duplicates(),
                out@.len() == it.index(),
                forall|j: int|
                    0 <= j < out@.len() ==> *(#[trigger] out@[j]).coords == entries[j].1.coords
                        && *out@[j].data == entries[j].1.data,
        {
            let (_key, cell) = entry;
            out.push(CellView { coords: &cell.coords, data: &cell.data });
        }
        proof {
            let coords = coords_of(out@);
            let filed = self.cell_map@;
            assert forall|j: int| 0 <= j < out@.len() implies {
                &&& filed.contains_key(coords[j].key())
                &&& *entries[j].0 == coords[j].key()
                &&& filed[coords[j].key()] == *entries[j].1
                &&& self@.contains_key(coords[j])
                &&& #[trigger] out@[j] == view_of(self@, coords[j])
            } by {
                assert(filed.contains_key(*entries[j].0));
            }
            assert forall|i: int, j: int| 0 <= i < j < coords.len() implies coords[i]
                != coords[j] by {
                if coords[i] == coords[j] {
                    assert(coords[i].key() == coords[j].key());
                    assert(entries[i] == entries[j]);
                }
            }
            assert forall|c: Coord| coords.to_set().contains(c) implies self@.contains_key(
                c,
            ) by {
                let j = choose|j: int| 0 <= j < coords.len() && coords[j] == c;
                assert(out@[j] == view_of(self@, coords[j]));
            }
            assert forall|c: Coord| self@.contains_key(c) implies coords.to_set().contains(
                c,
            ) by {
                let k = c.key();
                assert(entries.contains((&k, &filed[k])));
                let j = choose|j: int| 0 <= j < entries.len() && entries[j] == (&k, &filed[k]);
                assert(coords[j] == c);
            }
            assert(coords.to_set() =~= self@.dom());
        }
        out
    }

    fn remove(&mut self, coord: &Coord)
        ensures
            final(self).fusion() == old(self).fusion(),
    {
        proof {
            use_type_invariant(&*self);
            broadcast use group_hash_axioms;
        }
        let key: u64 = coord.to_key();
        let mut cell_map: HashMap<u64, Cell<D>> = HashMap::new();
        std::mem::swap(&mut cell_map, &mut self.cell_map);
        cell_map.remove(&key);
        self.cell_map = cell_map;
        proof {
            assert forall|c: Coord| c.key() == coord.key() implies c == *coord by {
                Coord::lemma_key_injective(c, *coord);
            }
            assert(self@ =~= old(self)@.remove(*coord));
        }
    }
}

} // verus!
