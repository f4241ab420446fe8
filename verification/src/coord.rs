//! Grid coordinates and the eight-cell neighbourhood around them.

use vstd::prelude::*;

verus! {

/// A cell position: column and row, both signed.
#[derive(Debug, Clone, Copy, PartialEq, Eq, Hash, PartialOrd, Ord, Structural)]
pub struct Coord(pub i32, pub i32);

/// The eight steps from a cell to the cells around it, in the order in which
/// neighbours are visited and reported.
pub open spec fn neighbour_steps() -> Seq<(int, int)> {
    seq![(1, 1), (1, 0), (1, -1), (0, 1), (0, -1), (-1, 1), (-1, 0), (-1, -1)]
}

impl Coord {
    /// `other` lies at Chebyshev distance exactly one from `self`.
    pub open spec fn adjacent(self, other: Coord) -> bool {
        &&& self != other
        &&& -1 <= other.0 - self.0 <= 1
        &&& -1 <= other.1 - self.1 <= 1
    }

    /// The coordinate reached by the step `d`, if both of its components fit in `i32`.
    pub open spec fn step(self, d: (int, int)) -> Option<Coord> {
        let x = self.0 + d.0;
        let y = self.1 + d.1;
        if i32::MIN <= x <= i32::MAX && i32::MIN <= y <= i32::MAX {
            Some(Coord(x as i32, y as i32))
        } else {
            None
        }
    }

    /// Both components lie in `[0, size)`.
    pub open spec fn within(self, size: usize) -> bool {
        0 <= self.0 < size && 0 <= self.1 < size
    }

    /// The number under which a cell at this coordinate is filed: the two
    /// components, shifted to be non-negative, side by side in 64 bits.
    pub(crate) closed spec fn key(self) -> u64 {
        ((self.0 + 0x8000_0000) * 0x1_0000_0000 + (self.1 + 0x8000_0000)) as u64
    }

    /// Different coordinates are filed under different numbers.
    pub(crate) proof fn lemma_key_injective(a: Coord, b: Coord)
        ensures
            a.key() == b.key() <==> a == b,
    {
    }

    /// Computes [`Coord::within`].
    pub fn is_within(&self, size: usize) -> (r: bool)
        ensures
            r == self.within(size),
    {
        self.0 >= 0 && self.1 >= 0 && (self.0 as u64) < (size as u64) && (self.1 as u64) < (
        size as u64)
    }

    /// Computes [`Coord::key`].
    pub(crate) fn to_key(&self) -> (k: u64)
        ensures
            k == self.key(),
    {
        let hi: u64 = (self.0 as i64 + 0x8000_0000i64) as u64;
        let lo: u64 = (self.1 as i64 + 0x8000_0000i64) as u64;
        hi * 0x1_0000_0000u64 + lo
    }

    /// The `i`-th neighbour in visiting order; `None` where it would leave
    /// the range of `i32`, and for `i` past the eighth.
    pub fn neighbour(&self, i: usize) -> (r: Option<Coord>)
        ensures
            r == (if i < 8 {
                self.step(neighbour_steps()[i as int])
            } else {
                None
            }),
    {
        if i >= 8 {
            return None;
        }
        let dx: i64 = if i < 3 {
            1
        } else if i < 5 {
            0
        } else {
            -1
        };
        let dy: i64 = if i == 0 || i == 3 || i == 5 {
            1
        } else if i == 1 || i == 6 {
            0
        } else {
            -1
        };
        let x: i64 = self.0 as i64 + dx;
        let y: i64 = self.1 as i64 + dy;
        let low: i64 = i32::MIN as i64;
        let high: i64 = i32::MAX as i64;
        if x < low || x > high || y < low || y > high {
            None
        } else {
            Some(Coord(x as i32, y as i32))
        }
    }
}

/// The steps are eight, pairwise different, and none of them stays in place;
/// together they reach exactly the cells at Chebyshev distance one.
pub proof fn lemma_steps_are_the_neighbourhood(c: Coord)
    ensures
        neighbour_steps().len() == 8,
        neighbour_steps().no_duplicates(),
        !neighbour_steps().contains((0, 0)),
        forall|n: Coord|
            c.adjacent(n) <==> exists|i: int|
                0 <= i < 8 && c.step(#[trigger] neighbour_steps()[i]) == Some(n),
{
    let s = neighbour_steps();
    assert forall|n: Coord| c.adjacent(n) implies exists|i: int|
        0 <= i < 8 && c.step(#[trigger] s[i]) == Some(n) by {
        let d = (n.0 - c.0, n.1 - c.1);
        let i: int = if d == (1int, 1int) {
            0
        } else if d == (1int, 0int) {
            1
        } else if d == (1int, -1int) {
            2
        } else if d == (0int, 1int) {
            3
        } else if d == (0int, -1int) {
            4
        } else if d == (-1int, 1int) {
            5
        } else if d == (-1int, 0int) {
            6
        } else {
            7
        };
        assert(s[i] == d);
        assert(c.step(s[i]) == Some(n));
    }
}

} // verus!
