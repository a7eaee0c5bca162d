//! The heuristic interface of the solver, and a simple Manhattan-distance
//! heuristic.
//!
//! The solver is written against this capability, not against the pattern
//! database, so any admissible estimate can be substituted (the Manhattan
//! heuristic here serves small instances and testing).

use vstd::prelude::*;

use crate::grids::{grid_wf, Puzzle24Grid};
use crate::cells::PuzzleCell;

verus! {

/// A full, valid puzzle: every legal tile appears exactly once (so the
/// gap exists and is unique).
#[verifier::opaque]
pub open spec fn puzzle_wf(s: Seq<u8>) -> bool {
    &&& grid_wf(s)
    &&& forall|i: int, j: int| 0 <= i < 25 && 0 <= j < 25 && i != j ==> s[i] != s[j]
    &&& exists|i: int| 0 <= i < 25 && s[i] == 0
}

/// The flat form of the solved puzzle: tile value equals cell index.
pub open spec fn solved_seq() -> Seq<u8> {
    Seq::new(25, |i: int| i as u8)
}

/// A lower bound on the number of moves to the solved puzzle.
///
/// `estimate` is the mathematical value the implementation computes; an
/// implementation whose estimate is 0 only on the solved puzzle lets the
/// search recognise the goal.
pub trait Heuristic {
    /// The well-formedness an implementation needs of its own data (for
    /// instance, sane distance tables).
    spec fn valid(&self) -> bool;

    /// The estimated distance of the puzzle with flat form `s`.
    spec fn estimate(&self, s: Seq<u8>) -> int;

    /// Computes the estimate; it never exceeds one byte, since no
    /// 24-puzzle needs more than 255 moves.
    fn compute<P: Puzzle24Grid>(&self, v: &P) -> (r: u8)
        requires
            self.valid(),
            puzzle_wf(v@),
        ensures
            r as int == self.estimate(v@),
    ;
}

/// The absolute value of an integer.
pub open spec fn iabs(x: int) -> int {
    if x < 0 {
        -x
    } else {
        x
    }
}

/// The Manhattan distance of tile `t` sitting at cell `c` from its home
/// cell (the cell whose index equals `t`).
pub open spec fn manh(t: int, c: int) -> int {
    iabs(t / 5 - c / 5) + iabs(t % 5 - c % 5)
}

/// The summed Manhattan distance of the non-gap tiles in the first `n`
/// cells of `s`.
pub open spec fn manh_sum(s: Seq<u8>, n: int) -> int
    decreases n,
{
    if n <= 0 {
        0
    } else {
        manh_sum(s, n - 1) + (if s[n - 1] == 0 {
            0
        } else {
            manh(s[n - 1] as int, n - 1)
        })
    }
}

/// The summed Manhattan distance of all non-gap tiles: an admissible
/// heuristic for the 24-puzzle.
pub struct ManhattanHeuristic;

impl Heuristic for ManhattanHeuristic {
    open spec fn valid(&self) -> bool {
        true
    }

    open spec fn estimate(&self, s: Seq<u8>) -> int {
        manh_sum(s, 25)
    }

    fn compute<P: Puzzle24Grid>(&self, v: &P) -> (r: u8) {
        proof {
            reveal(puzzle_wf);
        }
        let mut sum: u8 = 0;
        let mut c: u8 = 0;
        while c < 25
            invariant
                c <= 25,
                grid_wf(v@),
                sum as int == manh_sum(v@, c as int),
                sum <= 8 * c,
            decreases 25 - c,
        {
            let t = v.get_tile(PuzzleCell::from_const(c)).value();
            if t != 0 {
                let row_d = if t / 5 >= c / 5 {
                    t / 5 - c / 5
                } else {
                    c / 5 - t / 5
                };
                let col_d = if t % 5 >= c % 5 {
                    t % 5 - c % 5
                } else {
                    c % 5 - t % 5
                };
                proof {
                    assert(row_d + col_d == manh(t as int, c as int));
                    assert(row_d + col_d <= 8);
                }
                sum = sum + row_d + col_d;
            }
            c += 1;
        }
        sum
    }
}

/// In a valid puzzle, the summed Manhattan distance is zero exactly on
/// the solved puzzle: a zero estimate recognises the goal.
pub proof fn lemma_manhattan_zero_is_solved(s: Seq<u8>)
    requires
        puzzle_wf(s),
        manh_sum(s, 25) == 0,
    ensures
        s =~= solved_seq(),
{
    reveal(puzzle_wf);
    lemma_manh_sum_nonneg_parts(s, 25);
    // every non-gap tile is at its home cell
    assert forall|c: int| 0 <= c < 25 && s[c] != 0 implies s[c] == c as u8 by {
        assert(manh(s[c] as int, c) == 0);
    }
    // hence the gap must be at cell 0: any other gap cell would force
    // cell 0 to duplicate value 0
    let g = choose|i: int| 0 <= i < 25 && s[i] == 0;
    if g != 0 {
        assert(s[0] == 0);
        assert(false);
    }
}

/// Each tile's contribution to the sum is nonnegative, so a zero sum
/// zeroes every contribution.
proof fn lemma_manh_sum_nonneg_parts(s: Seq<u8>, n: int)
    requires
        manh_sum(s, n) == 0,
    ensures
        forall|c: int| 0 <= c < n && s[c] != 0 ==> manh(s[c] as int, c) == 0,
    decreases n,
{
    if n > 0 {
        lemma_manh_sum_nonneg(s, n - 1);
        lemma_manh_sum_nonneg_parts(s, n - 1);
    }
}

/// The summed Manhattan distance is never negative.
proof fn lemma_manh_sum_nonneg(s: Seq<u8>, n: int)
    ensures
        manh_sum(s, n) >= 0,
    decreases n,
{
    if n > 0 {
        lemma_manh_sum_nonneg(s, n - 1);
    }
}

} // verus!
