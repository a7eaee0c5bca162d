//! Cells, tiles and move directions of the 5x5 grid.
//!
//! A cell is a fixed position, counted row-major (index = 5*row + col).
//! A tile is a puzzle piece; tile 0 is the gap. Tiles move between cells.

use vstd::prelude::*;

verus! {

/// A cell inside a 24-puzzle: one of the 25 fixed grid positions.
///
/// The value is always in the range [0, 25).
#[derive(Clone, Copy, PartialEq, Eq, Structural, Hash, Debug)]
pub struct PuzzleCell {
    v: u8,
}

/// A tile, contained in a cell of a 24-puzzle. Tile 0 is the gap.
///
/// The value is always in the range [0, 25).
#[derive(Clone, Copy, PartialEq, Eq, Structural, Hash, Debug)]
pub struct PuzzleTile {
    v: u8,
}

/// A move direction. The canonical move-generation order is
/// UP, RIGHT, DOWN, LEFT.
#[derive(Clone, Copy, PartialEq, Eq, Structural, Hash, Debug)]
pub enum Dir {
    UP,
    RIGHT,
    DOWN,
    LEFT,
}

impl View for PuzzleCell {
    type V = int;

    closed spec fn view(&self) -> int {
        self.v as int
    }
}

impl View for PuzzleTile {
    type V = int;

    closed spec fn view(&self) -> int {
        self.v as int
    }
}

/// The cell one step in direction `dir` from cell `c`, or `None` at the
/// grid boundary: row 0 has no UP, row 4 has no DOWN, column 0 has no
/// LEFT and column 4 has no RIGHT.
pub open spec fn step_spec(c: int, dir: Dir) -> Option<int> {
    match dir {
        Dir::UP => if c >= 5 { Some(c - 5) } else { None },
        Dir::DOWN => if c < 20 { Some(c + 5) } else { None },
        Dir::LEFT => if c % 5 >= 1 { Some(c - 1) } else { None },
        Dir::RIGHT => if c % 5 < 4 { Some(c + 1) } else { None },
    }
}

/// The opposite direction: UP <-> DOWN, LEFT <-> RIGHT.
pub open spec fn dir_inv_spec(d: Dir) -> Dir {
    match d {
        Dir::UP => Dir::DOWN,
        Dir::RIGHT => Dir::LEFT,
        Dir::DOWN => Dir::UP,
        Dir::LEFT => Dir::RIGHT,
    }
}

impl PuzzleCell {
    /// Builds the cell with index `v`; the index must be in range.
    pub fn from_const(v: u8) -> (r: Self)
        requires
            v < 25,
        ensures
            r@ == v as int,
    {
        PuzzleCell { v }
    }

    /// Builds the cell at column `x` of row `y`.
    pub fn from_xy(x: u8, y: u8) -> (r: Self)
        requires
            x < 5,
            y < 5,
        ensures
            r@ == y * 5 + x,
    {
        PuzzleCell { v: y * 5 + x }
    }

    /// The cell's index, in [0, 25).
    pub fn value(&self) -> (r: u8)
        requires
            0 <= self@ < 25,
        ensures
            r as int == self@,
    {
        self.v
    }

    /// Returns the adjacent cell in the given direction, or `None` at the
    /// grid boundary in that direction.
    pub fn step(&self, dir: Dir) -> (r: Option<Self>)
        requires
            0 <= self@ < 25,
        ensures
            match r {
                Some(c2) => step_spec(self@, dir) == Some(c2@) && 0 <= c2@ < 25,
                None => step_spec(self@, dir) is None,
            },
    {
        match dir {
            Dir::UP => if self.v >= 5 {
                Some(PuzzleCell { v: self.v - 5 })
            } else {
                None
            },
            Dir::DOWN => if self.v < 20 {
                Some(PuzzleCell { v: self.v + 5 })
            } else {
                None
            },
            Dir::LEFT => if self.v % 5 >= 1 {
                Some(PuzzleCell { v: self.v - 1 })
            } else {
                None
            },
            Dir::RIGHT => if self.v % 5 < 4 {
                Some(PuzzleCell { v: self.v + 1 })
            } else {
                None
            },
        }
    }
}

impl PuzzleTile {
    /// Builds the tile with identity `v`; the identity must be in range.
    pub fn from_const(v: u8) -> (r: Self)
        requires
            v < 25,
        ensures
            r@ == v as int,
    {
        PuzzleTile { v }
    }

    /// The gap tile (identity 0).
    pub fn gap() -> (r: Self)
        ensures
            r@ == 0,
    {
        PuzzleTile { v: 0 }
    }

    /// The tile's identity, in [0, 25).
    pub fn value(&self) -> (r: u8)
        requires
            0 <= self@ < 25,
        ensures
            r as int == self@,
    {
        self.v
    }
}

impl Dir {
    /// The opposite direction.
    pub fn inv(&self) -> (r: Dir)
        ensures
            r == dir_inv_spec(*self),
    {
        match self {
            Dir::UP => Dir::DOWN,
            Dir::RIGHT => Dir::LEFT,
            Dir::DOWN => Dir::UP,
            Dir::LEFT => Dir::RIGHT,
        }
    }
}

/// Stepping never leaves the grid: a successful step lands on a cell, and
/// stepping back in the opposite direction returns to the original cell.
pub proof fn lemma_step_inverse(c: int, d: Dir)
    requires
        0 <= c < 25,
        step_spec(c, d) is Some,
    ensures
        0 <= step_spec(c, d)->Some_0 < 25,
        step_spec(step_spec(c, d)->Some_0, dir_inv_spec(d)) == Some(c),
{
}

/// The inverse direction is an involution.
pub proof fn lemma_inv_involutive(d: Dir)
    ensures
        dir_inv_spec(dir_inv_spec(d)) == d,
{
}

} // verus!
