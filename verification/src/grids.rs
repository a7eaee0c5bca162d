//! Grid layouts for the 24-puzzle.
//!
//! A grid is a total mapping from the 25 cells to tiles. Two layouts are
//! offered behind the `Puzzle24Grid` trait: a byte-per-cell array (faster)
//! and a 5-bits-per-cell packed integer (denser, for breadth-first
//! frontiers that hold many states at once). Both views are the flat
//! row-major sequence of tile values.

use vstd::prelude::*;

use crate::cells::{PuzzleCell, PuzzleTile};

verus! {

broadcast use vstd::array::group_array_axioms;

/// Every stored value is a legal tile identity.
pub open spec fn grid_wf(s: Seq<u8>) -> bool {
    &&& s.len() == 25
    &&& forall|i: int| 0 <= i < 25 ==> s[i] < 25
}

/// A 5x5 grid of cells containing the tiles 0..24, tile 0 being the gap.
///
/// The trait allows different internal representations with different
/// performance characteristics behind one capability set, so that the
/// search algorithms can be written once, generically.
pub trait Puzzle24Grid: View<V = Seq<u8>> + Sized {
    /// Builds a grid from a flat row-major array of tile values; every
    /// value must be a legal tile identity.
    fn from_cells_unchecked(cells: [u8; 25]) -> (r: Self)
        requires
            forall|i: int| 0 <= i < 25 ==> cells[i] < 25,
        ensures
            r@ == cells@,
    ;

    /// The tile currently held by `cell`.
    fn get_tile(&self, cell: PuzzleCell) -> (t: PuzzleTile)
        requires
            grid_wf(self@),
            0 <= cell@ < 25,
        ensures
            t@ == self@[cell@] as int,
    ;

    /// Overwrites whatever tile is at `cell` with `tile`.
    fn set_tile(&mut self, cell: PuzzleCell, tile: PuzzleTile)
        requires
            grid_wf(old(self)@),
            0 <= cell@ < 25,
            0 <= tile@ < 25,
        ensures
            final(self)@ == old(self)@.update(cell@, tile@ as u8),
    ;

    /// Sets `cell` to the gap tile; equivalent to writing tile 0, but a
    /// layout may do it more cheaply.
    fn clear_cell(&mut self, cell: PuzzleCell)
        requires
            grid_wf(old(self)@),
            0 <= cell@ < 25,
        ensures
            final(self)@ == old(self)@.update(cell@, 0u8),
    ;

    /// Writes `tile` into a cell that currently holds the gap. The packed
    /// layout can OR the bits in without clearing first, which is only
    /// sound because the 5-bit field starts at zero; the gap precondition
    /// makes that fast path safe.
    fn set_gap_tile_unchecked(&mut self, gap_cell: PuzzleCell, tile: PuzzleTile)
        requires
            grid_wf(old(self)@),
            0 <= gap_cell@ < 25,
            0 <= tile@ < 25,
            old(self)@[gap_cell@] == 0,
        ensures
            final(self)@ == old(self)@.update(gap_cell@, tile@ as u8),
    ;

    /// Returns the first cell containing the gap. This scans all cells,
    /// so callers should cache the gap cell across moves instead of
    /// re-scanning.
    fn find_gap(&self) -> (c: PuzzleCell)
        requires
            grid_wf(self@),
            exists|i: int| 0 <= i < 25 && self@[i] == 0,
        ensures
            0 <= c@ < 25,
            self@[c@] == 0,
            forall|i: int| 0 <= i < c@ ==> self@[i] != 0,
    ;

    /// An explicit copy with the same contents. Search algorithms clone
    /// states rather than mutate shared ones.
    fn clone_grid(&self) -> (r: Self)
        ensures
            r@ == self@,
    ;

    /// The flat row-major array of tile values: the inverse of
    /// `from_cells_unchecked`, so converting to either layout and back
    /// yields the original array.
    fn to_cells(&self) -> (r: [u8; 25])
        requires
            grid_wf(self@),
        ensures
            r@ == self@,
    ;
}

/// One byte per cell, direct indexing: faster, 25 bytes per state.
#[derive(Clone, Copy, PartialEq, Eq, Hash, Debug)]
pub struct ArrayGrid24 {
    cells: [u8; 25],
}

impl View for ArrayGrid24 {
    type V = Seq<u8>;

    closed spec fn view(&self) -> Seq<u8> {
        self.cells@
    }
}

impl Puzzle24Grid for ArrayGrid24 {
    fn from_cells_unchecked(cells: [u8; 25]) -> (r: Self) {
        ArrayGrid24 { cells }
    }

    fn get_tile(&self, cell: PuzzleCell) -> (t: PuzzleTile) {
        let idx = cell.value() as usize;
        PuzzleTile::from_const(self.cells[idx])
    }

    fn set_tile(&mut self, cell: PuzzleCell, tile: PuzzleTile) {
        let idx = cell.value() as usize;
        self.cells[idx] = tile.value();
    }

    fn clear_cell(&mut self, cell: PuzzleCell) {
        let idx = cell.value() as usize;
        self.cells[idx] = 0;
    }

    fn set_gap_tile_unchecked(&mut self, gap_cell: PuzzleCell, tile: PuzzleTile) {
        let idx = gap_cell.value() as usize;
        self.cells[idx] = tile.value();
    }

    fn find_gap(&self) -> (c: PuzzleCell) {
        let mut i: u8 = 0;
        while i < 25
            invariant
                i <= 25,
                grid_wf(self@),
                forall|j: int| 0 <= j < i ==> self@[j] != 0,
            decreases 25 - i,
        {
            if self.cells[i as usize] == 0 {
                return PuzzleCell::from_const(i);
            }
            i += 1;
        }
        proof {
            assert(false);
        }
        PuzzleCell::from_const(0)
    }

    fn clone_grid(&self) -> (r: Self) {
        *self
    }

    fn to_cells(&self) -> (r: [u8; 25]) {
        self.cells
    }
}

/// The tile value stored in 5-bit field `i` of a packed grid.
pub open spec fn nth5(v: u128, i: int) -> u8 {
    ((v >> ((5 * i) as u128)) & 0x1f) as u8
}

/// Cells packed 5 bits each into 125 bits: denser (16 bytes per state),
/// preferable when many states are held in memory at once.
#[derive(Clone, Copy, PartialEq, Eq, Hash, Debug)]
pub struct PackedGrid24 {
    bits: u128,
}

impl View for PackedGrid24 {
    type V = Seq<u8>;

    closed spec fn view(&self) -> Seq<u8> {
        Seq::new(25, |i: int| nth5(self.bits, i))
    }
}

/// Field `j` of the all-zero word is zero.
proof fn lemma_bv_zero_field(j: u128)
    by (bit_vector)
    requires
        j < 25,
    ensures
        ((0u128 >> (5 * j)) & 0x1f) == 0,
{
}

/// OR-ing `t` into a zeroed 5-bit field writes `t` there and leaves every
/// other field unchanged.
proof fn lemma_bv_or_field(v: u128, c: u128, j: u128, t: u128)
    by (bit_vector)
    requires
        c < 25,
        j < 25,
        t < 32,
        ((v >> (5 * c)) & 0x1f) == 0,
    ensures
        (((v | (t << (5 * c))) >> (5 * c)) & 0x1f) == t,
        c != j ==> (((v | (t << (5 * c))) >> (5 * j)) & 0x1f) == ((v >> (5 * j)) & 0x1f),
{
}

/// Masking a field out and OR-ing `t` in writes `t` there and leaves every
/// other field unchanged.
proof fn lemma_bv_set_field(v: u128, c: u128, j: u128, t: u128)
    by (bit_vector)
    requires
        c < 25,
        j < 25,
        t < 32,
    ensures
        ((((v & !(0x1fu128 << (5 * c))) | (t << (5 * c))) >> (5 * c)) & 0x1f) == t,
        c != j ==> ((((v & !(0x1fu128 << (5 * c))) | (t << (5 * c))) >> (5 * j)) & 0x1f) == ((v >> (
        5 * j)) & 0x1f),
{
}

/// Masking a field out zeroes it and leaves every other field unchanged.
proof fn lemma_bv_clear_field(v: u128, c: u128, j: u128)
    by (bit_vector)
    requires
        c < 25,
        j < 25,
    ensures
        (((v & !(0x1fu128 << (5 * c))) >> (5 * c)) & 0x1f) == 0,
        c != j ==> (((v & !(0x1fu128 << (5 * c))) >> (5 * j)) & 0x1f) == ((v >> (5 * j)) & 0x1f),
{
}

/// Reading a field, truncated to a byte before or after the mask, gives
/// the same value, and that value fits in 5 bits.
proof fn lemma_bv_read_field(v: u128, c: u128)
    by (bit_vector)
    requires
        c < 25,
    ensures
        (((v >> (5 * c)) as u8) & 0x1f) == ((v >> (5 * c)) & 0x1f) as u8,
        ((v >> (5 * c)) & 0x1f) < 32,
{
}

impl Puzzle24Grid for PackedGrid24 {
    fn from_cells_unchecked(cells: [u8; 25]) -> (r: Self) {
        let mut out: u128 = 0;
        let mut idx: u8 = 0;
        proof {
            assert forall|j: int| 0 <= j < 25 implies nth5(0u128, j) == 0 by {
                lemma_bv_zero_field(j as u128);
            }
        }
        while idx < 25
            invariant
                idx <= 25,
                forall|i: int| 0 <= i < 25 ==> cells[i] < 25,
                forall|j: int| 0 <= j < idx ==> nth5(out, j) == cells[j],
                forall|j: int| idx <= j < 25 ==> nth5(out, j) == 0,
            decreases 25 - idx,
        {
            let tile = cells[idx as usize];
            let ghost prev = out;
            out = out | ((tile as u128) << (5 * (idx as u128)));
            proof {
                lemma_bv_read_field(prev, idx as u128);
                assert(nth5(prev, idx as int) == 0);
                assert(((prev >> (5 * (idx as u128))) & 0x1f) == 0);
                assert forall|j: int| 0 <= j < 25 implies nth5(out, j) == (if j == idx {
                    cells[j]
                } else {
                    nth5(prev, j)
                }) by {
                    lemma_bv_or_field(prev, idx as u128, j as u128, tile as u128);
                }
            }
            idx += 1;
        }
        let r = PackedGrid24 { bits: out };
        proof {
            assert(r@ =~= cells@);
        }
        r
    }

    fn get_tile(&self, cell: PuzzleCell) -> (t: PuzzleTile) {
        let c = cell.value();
        let sh: u128 = 5 * (c as u128);
        let t = ((self.bits >> sh) as u8) & 0x1f;
        proof {
            lemma_bv_read_field(self.bits, c as u128);
            assert(t == nth5(self.bits, cell@));
            assert(self@[cell@] == nth5(self.bits, cell@));
        }
        PuzzleTile::from_const(t)
    }

    fn set_tile(&mut self, cell: PuzzleCell, tile: PuzzleTile) {
        let c = cell.value();
        let sh: u128 = 5 * (c as u128);
        let zero_mask = !(0x1fu128 << sh);
        let new_tile_val = (tile.value() as u128) << sh;
        let ghost prev = self.bits;
        self.bits = (self.bits & zero_mask) | new_tile_val;
        proof {
            assert forall|j: int| 0 <= j < 25 implies nth5(self.bits, j) == (if j == cell@ {
                tile@ as u8
            } else {
                nth5(prev, j)
            }) by {
                lemma_bv_set_field(prev, c as u128, j as u128, tile@ as u128);
            }
            assert(self@ =~= old(self)@.update(cell@, tile@ as u8));
        }
    }

    fn clear_cell(&mut self, cell: PuzzleCell) {
        let c = cell.value();
        let mask = !(0x1fu128 << (5 * (c as u128)));
        let ghost prev = self.bits;
        self.bits = self.bits & mask;
        proof {
            assert forall|j: int| 0 <= j < 25 implies nth5(self.bits, j) == (if j == cell@ {
                0u8
            } else {
                nth5(prev, j)
            }) by {
                lemma_bv_clear_field(prev, c as u128, j as u128);
            }
            assert(self@ =~= old(self)@.update(cell@, 0u8));
        }
    }

    fn set_gap_tile_unchecked(&mut self, gap_cell: PuzzleCell, tile: PuzzleTile) {
        let c = gap_cell.value();
        let new_tile_val = (tile.value() as u128) << (5 * (c as u128));
        let ghost prev = self.bits;
        // OR-ing into a zeroed field overwrites it; sound only because the
        // cell currently holds the gap, whose field is all zero bits.
        self.bits = self.bits | new_tile_val;
        proof {
            assert(old(self)@[gap_cell@] == nth5(prev, gap_cell@));
            lemma_bv_read_field(prev, c as u128);
            assert(((prev >> (5 * (c as u128))) & 0x1f) == 0);
            assert forall|j: int| 0 <= j < 25 implies nth5(self.bits, j) == (if j == gap_cell@ {
                tile@ as u8
            } else {
                nth5(prev, j)
            }) by {
                lemma_bv_or_field(prev, c as u128, j as u128, tile@ as u128);
            }
            assert(self@ =~= old(self)@.update(gap_cell@, tile@ as u8));
        }
    }

    fn find_gap(&self) -> (c: PuzzleCell) {
        let mut i: u8 = 0;
        while i < 25
            invariant
                i <= 25,
                grid_wf(self@),
                forall|j: int| 0 <= j < i ==> self@[j] != 0,
            decreases 25 - i,
        {
            let cell = PuzzleCell::from_const(i);
            let t = self.get_tile(cell);
            if t.value() == 0 {
                return cell;
            }
            i += 1;
        }
        proof {
            assert(false);
        }
        PuzzleCell::from_const(0)
    }

    fn clone_grid(&self) -> (r: Self) {
        *self
    }

    fn to_cells(&self) -> (r: [u8; 25]) {
        let mut out: [u8; 25] = [0u8; 25];
        let mut i: u8 = 0;
        while i < 25
            invariant
                i <= 25,
                grid_wf(self@),
                out@.len() == 25,
                forall|j: int| 0 <= j < i ==> out@[j] == self@[j],
            decreases 25 - i,
        {
            let t = self.get_tile(PuzzleCell::from_const(i));
            out[i as usize] = t.value();
            i += 1;
        }
        proof {
            assert(out@ =~= self@);
        }
        out
    }
}

} // verus!
