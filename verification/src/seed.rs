//! Seeding a board at random from a generator that the caller holds.
//!
//! A chance is given in parts of 2^32: a cell comes alive when a 32-bit draw
//! is below it. So `0` never makes a cell alive, `1 << 32` always does, and
//! `1 << 31` does for half of all draws.

use crate::board::{Board, Cells};
use crate::cell::CellView;
use crate::coord::Coord;
use rand::rngs::StdRng;
use rand::RngCore;
use vstd::prelude::*;

verus! {

/// rand's `StdRng`, held by the caller and handed in for each seeding; what
/// it holds is not looked at here.
#[verifier::external_type_specification]
#[verifier::external_body]
pub struct ExStdRng(StdRng);

/// The next 32 bits of `rng`, by `RngCore::next_u32` of rand's `StdRng`.
/// Nothing is said of the value drawn nor of the generator afterwards.
#[verifier::external_body]
fn next_draw(rng: &mut StdRng) -> (draw: u32) {
    rng.next_u32()
}

/// The draw makes a cell alive under the chance `alive_chance`.
pub open spec fn comes_alive(draw: u32, alive_chance: u64) -> bool {
    draw < alive_chance
}

/// A coordinate that a seeding of the square of side `size` can change on a
/// board of side `side`.
pub open spec fn in_seeded_square(c: Coord, size: usize, side: usize) -> bool {
    c.within(size) && c.within(side)
}

/// The coordinate `c` is in `after` what it was in `before`: dead in both,
/// or alive in both with the same data.
pub open spec fn same_at<D>(before: Map<Coord, D>, after: Map<Coord, D>, c: Coord) -> bool {
    before.contains_key(c) == after.contains_key(c) && (before.contains_key(c) ==> after[c]
        == before[c])
}

/// The coordinate `c` is in `after` what its draw makes of it: alive with
/// fresh data from `get_default_data` where the draw is below the chance and
/// `c` lies on the board of side `side`, and else what it was in `before`.
pub open spec fn seeded_by<D, G: Fn() -> D>(
    before: Map<Coord, D>,
    after: Map<Coord, D>,
    side: usize,
    c: Coord,
    draw: u32,
    alive_chance: u64,
    get_default_data: G,
) -> bool {
    if comes_alive(draw, alive_chance) && c.within(side) {
        after.contains_key(c) && get_default_data.ensures((), after[c])
    } else {
        same_at(before, after, c)
    }
}

/// The coordinate `c` is in `after` what the seeding of the row `row` from
/// `draws` makes of it: the cell at column `j` of that row is seeded by
/// `draws[j]`, and every other coordinate is what it was in `before`.
pub open spec fn row_seeded_at<D, G: Fn() -> D>(
    before: Map<Coord, D>,
    after: Map<Coord, D>,
    side: usize,
    row: i32,
    draws: Seq<u32>,
    alive_chance: u64,
    get_default_data: G,
    c: Coord,
) -> bool {
    if c.0 == row && 0 <= c.1 < draws.len() {
        seeded_by(before, after, side, c, draws[c.1 as int], alive_chance, get_default_data)
    } else {
        same_at(before, after, c)
    }
}

/// As many draws from `rng` as asked for, in the order in which they were taken.
fn draw_row(rng: &mut StdRng, count: usize) -> (draws: Vec<u32>)
    ensures
        draws@.len() == count,
{
    let mut draws: Vec<u32> = Vec::new();
    for i in 0..count
        invariant
            draws@.len() == i,
    {
        let draw: u32 = next_draw(rng);
        draws.push(draw);
    }
    draws
}

impl<D: Clone, F: for <'a>Fn(Vec<CellView<'a, D>>) -> D> Board<D, F> {
    /// Seeds one coordinate from its draw: the coordinate becomes alive, with
    /// fresh data from `get_default_data`, exactly when the draw is below
    /// `alive_chance` and the coordinate lies on the board.
    pub fn seed<G: Fn() -> D>(
        &mut self,
        coord: Coord,
        draw: u32,
        alive_chance: u64,
        get_default_data: &G,
    ) -> (seeded: bool)
        requires
            get_default_data.requires(()),
        ensures
            seeded == (comes_alive(draw, alive_chance) && coord.within(old(self).side())),
            final(self).side() == old(self).side(),
            final(self).fusion() == old(self).fusion(),
            !seeded ==> final(self)@ == old(self)@,
            seeded ==> get_default_data.ensures((), final(self)@[coord]),
            seeded ==> final(self)@ == old(self)@.insert(coord, final(self)@[coord]),
    {
        if (draw as u64) < alive_chance {
            let data = get_default_data();
            self.insert(coord, data)
        } else {
            false
        }
    }

    /// Seeds one row from its draws: the cell at column `j` of row `row` is
    /// seeded by `draws[j]`, as [`Board::seed`] does it, and no other
    /// coordinate changes. A column past the range of `i32` names no
    /// coordinate, and its draw is left unused.
    pub fn seed_row<G: Fn() -> D>(
        &mut self,
        row: i32,
        draws: &Vec<u32>,
        alive_chance: u64,
        get_default_data: &G,
    )
        requires
            get_default_data.requires(()),
        ensures
            final(self).side() == old(self).side(),
            final(self).fusion() == old(self).fusion(),
            forall|c: Coord|
                #![trigger final(self)@.contains_key(c)]
                #![trigger final(self)@[c]]
                row_seeded_at(
                    old(self)@,
                    final(self)@,
                    old(self).side(),
                    row,
                    draws@,
                    alive_chance,
                    *get_default_data,
                    c,
                ),
    {
        let ghost start = self@;
        let ghost side = self.side();
        let ghost fuse = self.fusion();
        let columns: usize = if draws.len() > i32::MAX as usize {
            i32::MAX as usize + 1
        } else {
            draws.len()
        };
        for j in 0..columns
            invariant
                columns <= draws@.len(),
                columns <= i32::MAX + 1,
                columns == draws@.len() || columns == i32::MAX + 1,
                get_default_data.requires(()),
                self.side() == side,
                self.fusion() == fuse,
                forall|c: Coord|
                    !(c.0 == row && 0 <= c.1 < j) ==> #[trigger] same_at(start, self@, c),
                forall|k: int|
                    0 <= k < j ==> seeded_by(
                        start,
                        self@,
                        side,
                        Coord(row, k as i32),
                        #[trigger] draws@[k],
                        alive_chance,
                        *get_default_data,
                    ),
        {
            let ghost before = self@;
            let here = Coord(row, j as i32);
            self.seed(here, draws[j], alive_chance, get_default_data);
            proof {
                assert forall|c: Coord| !(c.0 == row && 0 <= c.1 < j + 1) implies #[trigger] same_at(
                    start,
                    self@,
                    c,
                ) by {
                    assert(same_at(start, before, c));
                }
                assert forall|k: int| 0 <= k < j + 1 implies seeded_by(
                    start,
                    self@,
                    side,
                    Coord(row, k as i32),
                    #[trigger] draws@[k],
                    alive_chance,
                    *get_default_data,
                ) by {
                    let c = Coord(row, k as i32);
                    if k < j {
                        assert(c != here);
                        assert(seeded_by(
                            start,
                            before,
                            side,
                            c,
                            draws@[k],
                            alive_chance,
                            *get_default_data,
                        ));
                    } else {
                        assert(c == here);
                        assert(same_at(start, before, here));
                    }
                }
            }
        }
        proof {
            assert forall|c: Coord|
                #![trigger self@.contains_key(c)]
                #![trigger self@[c]]
                row_seeded_at(
                    start,
                    self@,
                    side,
                    row,
                    draws@,
                    alive_chance,
                    *get_default_data,
                    c,
                ) by {
                if c.0 == row && 0 <= c.1 < draws@.len() {
                    let k = c.1 as int;
                    assert(c == Coord(row, k as i32));
                    assert(seeded_by(
                        start,
                        self@,
                        side,
                        c,
                        draws@[k],
                        alive_chance,
                        *get_default_data,
                    ));
                } else {
                    assert(same_at(start, self@, c));
                }
            }
        }
    }

    /// Seeds the square `[0, size) x [0, size)`, row by row: for each of its
    /// coordinates one draw is taken from `rng`, in the order of the
    /// columns, and the row is seeded from its draws by [`Board::seed_row`].
    /// A coordinate becomes alive, with fresh data from `get_default_data`,
    /// when its draw is below `alive_chance`.
    ///
    /// So a chance of `0` leaves the board as it is, and one above
    /// `u32::MAX` makes the whole square alive, as far as it lies on the
    /// board; in between, which cells come alive is for the generator to
    /// decide. Cells outside the square stay as they are. Cells inside it
    /// that were alive stay alive, with their old data or with fresh data.
    pub fn randomize<G: Fn() -> D>(
        &mut self,
        size: usize,
        alive_chance: u64,
        get_default_data: G,
        rng: &mut StdRng,
    )
        requires
            get_default_data.requires(()),
        ensures
            final(self).side() == old(self).side(),
            final(self).fusion() == old(self).fusion(),
            forall|c: Coord|
                old(self)@.contains_key(c) ==> #[trigger] final(self)@.contains_key(c),
            forall|c: Coord|
                #[trigger] final(self)@.contains_key(c) ==> {
                    ||| old(self)@.contains_key(c) && final(self)@[c] == old(self)@[c]
                    ||| in_seeded_square(c, size, old(self).side()) && get_default_data.ensures(
                        (),
                        final(self)@[c],
                    )
                },
            alive_chance == 0 ==> final(self)@ == old(self)@,
            alive_chance > u32::MAX ==> forall|c: Coord|
                #![trigger in_seeded_square(c, size, old(self).side())]
                #![trigger final(self)@.contains_key(c)]
                in_seeded_square(c, size, old(self).side()) ==> final(self)@.contains_key(c)
                    && get_default_data.ensures((), final(self)@[c]),
    {
        let ghost start = self@;
        let ghost side = self.side();
        let ghost fuse = self.fusion();
        let reach: usize = if size > i32::MAX as usize {
            i32::MAX as usize + 1
        } else {
            size
        };
        for i in 0..reach
            invariant
                reach <= size,
                reach <= i32::MAX + 1,
                reach == size || reach == i32::MAX + 1,
                get_default_data.requires(()),
                self.side() == side,
                self.fusion() == fuse,
                forall|c: Coord| start.contains_key(c) ==> #[trigger] self@.contains_key(c),
                forall|c: Coord|
                    #[trigger] self@.contains_key(c) ==> {
                        ||| start.contains_key(c) && self@[c] == start[c]
                        ||| in_seeded_square(c, size, side) && c.0 < i
                            && get_default_data.ensures((), self@[c])
                    },
                alive_chance == 0 ==> self@ == start,
                alive_chance > u32::MAX ==> forall|c: Coord| #[trigger]
                    in_seeded_square(c, size, side) && c.0 < i ==> self@.contains_key(c)
                        && get_default_data.ensures((), self@[c]),
        {
            let ghost before = self@;
            let draws = draw_row(rng, reach);
            self.seed_row(i as i32, &draws, alive_chance, &get_default_data);
            proof {
                assert forall|c: Coord| start.contains_key(c) implies #[trigger] self@.contains_key(
                    c,
                ) by {
                    assert(row_seeded_at(
                        before,
                        self@,
                        side,
                        i as i32,
                        draws@,
                        alive_chance,
                        get_default_data,
                        c,
                    ));
                }
                assert forall|c: Coord| #[trigger] self@.contains_key(c) implies {
                    ||| start.contains_key(c) && self@[c] == start[c]
                    ||| in_seeded_square(c, size, side) && c.0 < i + 1
                        && get_default_data.ensures((), self@[c])
                } by {
                    assert(row_seeded_at(
                        before,
                        self@,
                        side,
                        i as i32,
                        draws@,
                        alive_chance,
                        get_default_data,
                        c,
                    ));
                }
                if alive_chance == 0 {
                    assert forall|c: Coord| #[trigger] self@.contains_key(c) == before.contains_key(c)
                        && (before.contains_key(c) ==> self@[c] == before[c]) by {
                        assert(row_seeded_at(
                        before,
                        self@,
                        side,
                        i as i32,
                        draws@,
                        alive_chance,
                        get_default_data,
                        c,
                    ));
                    }
                    assert(self@ =~= before);
                }
                if alive_chance > u32::MAX {
                    assert forall|c: Coord| #[trigger]
                        in_seeded_square(c, size, side) && c.0 < i + 1 implies self@.contains_key(c)
                        && get_default_data.ensures((), self@[c]) by {
                        assert(row_seeded_at(
                        before,
                        self@,
                        side,
                        i as i32,
                        draws@,
                        alive_chance,
                        get_default_data,
                        c,
                    ));
                    }
                }
            }
        }
    }
}

} // verus!
