//! The disjoint pattern databases: a reduced 6-tile puzzle, the
//! breadth-first database builder, and the symmetry-folding heuristic
//! that combines the tables.

use vstd::prelude::*;

use crate::bitset::BitSet;
use crate::cells::{Dir, PuzzleCell};
use crate::grids::{ArrayGrid24, Puzzle24Grid};
use crate::heuristic::{puzzle_wf, Heuristic};
use crate::packing::{
    base25, lemma_base25_bound, lemma_base25_update, lemma_pow25_values, pow25, Pattern6Packing,
    Pattern7Packing,
};
use crate::patterns::{
    assign_of, lemma_assign_injective, lemma_assign_valid, lemma_norm_cell_range, mirror,
    mirror_pattern_assign_at, norm_cell, pat2_to_pat1, pat3_to_pat1, pattern_assign_at,
};

verus! {

broadcast use vstd::array::group_array_axioms;

/// A valid reduced pattern state: the gap at `gap`, each tracked tile
/// identity (1..=6) on at most one cell, and every other cell holding
/// the interchangeable non-pattern sentinel 7.
pub open spec fn pat6_wf(s: Seq<u8>, gap: int) -> bool {
    &&& s.len() == 25
    &&& 0 <= gap < 25
    &&& s[gap] == 0
    &&& forall|c: int| 0 <= c < 25 ==> #[trigger] s[c] <= 7
    &&& forall|c: int| 0 <= c < 25 && c != gap ==> #[trigger] s[c] != 0
    &&& forall|c1: int, c2: int|
        0 <= c1 < 25 && 0 <= c2 < 25 && c1 != c2 && 1 <= #[trigger] s[c1] <= 6 ==> s[c1]
            != #[trigger] s[c2]
}

/// Every tracked tile identity is actually on the board; together with
/// `pat6_wf` this is spec for "exactly 6 tracked tiles".
pub open spec fn pat6_complete(s: Seq<u8>) -> bool {
    forall|t: int| 1 <= t <= 6 ==> s[#[trigger] tile_cell(s, t)] == t
}

/// The cell holding tracked tile `t`, or 0 when `t` is absent.
pub open spec fn tile_cell(s: Seq<u8>, t: int) -> int {
    if exists|c: int| 0 <= c < 25 && s[c] == t {
        choose|c: int| 0 <= c < 25 && s[c] == t
    } else {
        0
    }
}

/// The 6-tile packing of a reduced state: digit `j` is the cell of
/// tracked tile `j + 1`. Only this part indexes the distance table (the
/// gap's position does not change the heuristic value).
pub open spec fn pack6_of(s: Seq<u8>) -> int {
    base25(Seq::new(6, |j: int| tile_cell(s, j + 1)))
}

/// The 7-component packing: the 6 tracked tiles and the gap cell. Two
/// reduced states with the same tracked placement but different gap
/// cells are distinct search states, so deduplication keys on this.
pub open spec fn pack7_of(s: Seq<u8>, gap: int) -> int {
    pack6_of(s) + gap * pow25(6)
}

/// A reduced puzzle of 6 tracked tiles plus the gap; all other cells
/// hold the interchangeable sentinel. The byte-array layout is used:
/// faster, and the extra memory is fine for states handled one by one.
#[derive(Clone, Copy)]
pub struct Pattern6Puzzle {
    grid: ArrayGrid24,
    gap_cell: PuzzleCell,
}

impl Pattern6Puzzle {
    /// The flat tile values of the reduced grid.
    pub closed spec fn sview(&self) -> Seq<u8> {
        self.grid@
    }

    /// The cell holding the gap.
    pub closed spec fn gap(&self) -> int {
        self.gap_cell@
    }

    /// The state is a valid reduced pattern state.
    pub open spec fn wf(&self) -> bool {
        pat6_wf(self.sview(), self.gap())
    }

    /// The reduced grid.
    pub fn grid(&self) -> (g: &ArrayGrid24)
        ensures
            g@ == self.sview(),
    {
        &self.grid
    }

    /// The cell holding the gap.
    pub fn gap_cell(&self) -> (c: PuzzleCell)
        ensures
            c@ == self.gap(),
    {
        self.gap_cell
    }

    /// If the gap can move in `inv_dir` (the direction the gap travels,
    /// the inverse of the swapped tile's movement), returns the new state
    /// with a flag telling whether the swapped tile is a tracked pattern
    /// tile (`true`) or the free-moving sentinel (`false`).
    pub fn step_inv(&self, inv_dir: Dir) -> (r: Option<(Self, bool)>)
        requires
            self.wf(),
        ensures
            match r {
                Some(pair) => ({
                    let adj = crate::cells::step_spec(self.gap(), inv_dir)->Some_0;
                    &&& crate::cells::step_spec(self.gap(), inv_dir) is Some
                    &&& pair.0.sview() == self.sview().update(
                        self.gap(),
                        self.sview()[adj],
                    ).update(adj, 0u8)
                    &&& pair.0.gap() == adj
                    &&& pair.0.wf()
                    &&& pair.1 == (self.sview()[adj] != 7)
                }),
                None => crate::cells::step_spec(self.gap(), inv_dir) is None,
            },
    {
        let adj_cell = match self.gap_cell.step(inv_dir) {
            Some(c) => c,
            None => {
                return None;
            },
        };
        // the tile we move into the gap
        let moved_tile = self.grid.get_tile(adj_cell);
        let mut new_grid = self.grid.clone_grid();
        new_grid.set_tile(self.gap_cell, moved_tile);
        new_grid.clear_cell(adj_cell);
        let new_p = Pattern6Puzzle { grid: new_grid, gap_cell: adj_cell };
        proof {
            assert(new_p.wf());
        }
        Some((new_p, moved_tile.value() != 7))
    }

    /// Like `step_inv`, but `dir` is the direction the swapped tile
    /// moves.
    pub fn step(&self, dir: Dir) -> (r: Option<(Self, bool)>)
        requires
            self.wf(),
        ensures
            match r {
                Some(pair) => ({
                    let adj = crate::cells::step_spec(
                        self.gap(),
                        crate::cells::dir_inv_spec(dir),
                    )->Some_0;
                    &&& crate::cells::step_spec(self.gap(), crate::cells::dir_inv_spec(dir))
                        is Some
                    &&& pair.0.sview() == self.sview().update(
                        self.gap(),
                        self.sview()[adj],
                    ).update(adj, 0u8)
                    &&& pair.0.gap() == adj
                    &&& pair.0.wf()
                    &&& pair.1 == (self.sview()[adj] != 7)
                }),
                None => crate::cells::step_spec(self.gap(), crate::cells::dir_inv_spec(dir))
                    is None,
            },
    {
        self.step_inv(dir.inv())
    }

    /// Packs the cells of the 6 tracked tiles into the table index.
    fn to_u32(&self) -> (r: Pattern6Packing)
        requires
            self.wf(),
        ensures
            r@ == pack6_of(self.sview()),
            0 <= r@ < pow25(6),
    {
        let ghost s = self.sview();
        let mut packing = Pattern6Packing::new();
        let ghost slots: Seq<int> = Seq::new(6, |j: int| 0int);
        let mut slots_g: Ghost<Seq<int>> = Ghost(slots);
        let mut cell_idx: u8 = 0;
        proof {
            assert(base25(slots_g@) == 0) by {
                lemma_base25_zero(slots_g@);
            }
        }
        while cell_idx < 25
            invariant
                cell_idx <= 25,
                self.wf(),
                s == self.sview(),
                slots_g@.len() == 6,
                packing@ == base25(slots_g@),
                forall|j: int| 0 <= j < 6 ==> 0 <= #[trigger] slots_g@[j] < 25,
                forall|j: int|
                    0 <= j < 6 ==> (if (exists|c: int|
                        0 <= c < cell_idx && s[c] == j + 1) {
                        0 <= #[trigger] slots_g@[j] < 25 && s[slots_g@[j]] == j + 1
                    } else {
                        slots_g@[j] == 0
                    }),
            decreases 25 - cell_idx,
        {
            let cell = PuzzleCell::from_const(cell_idx);
            let tile = self.grid.get_tile(cell);
            let tile_u8 = tile.value();
            if tile_u8 >= 1 && tile_u8 <= 6 {
                // this tracked tile appears nowhere earlier, so its digit
                // is still unset
                proof {
                    let j = (tile_u8 - 1) as int;
                    if exists|c: int| 0 <= c < cell_idx && s[c] == j + 1 {
                        let w = choose|c: int| 0 <= c < cell_idx && s[c] == j + 1;
                        assert(s[w] == s[cell_idx as int]);
                        assert(false);
                    }
                    assert(slots_g@[j] == 0);
                    lemma_base25_update(slots_g@, j as int, cell_idx as int);
                    lemma_base25_bound(slots_g@.update(j as int, cell_idx as int));
                }
                packing.set_tile_unchecked(tile_u8 - 1, cell);
                proof {
                    slots_g@ = slots_g@.update(tile_u8 - 1, cell_idx as int);
                }
            }
            cell_idx += 1;
        }
        proof {
            assert forall|j: int| 0 <= j < 6 implies slots_g@[j] == tile_cell(s, j + 1) by {
                if exists|c: int| 0 <= c < 25 && s[c] == j + 1 {
                    let w = choose|c: int| 0 <= c < 25 && s[c] == j + 1;
                    assert(s[slots_g@[j]] == j + 1);
                    assert(w == slots_g@[j]);
                } else {
                    assert(slots_g@[j] == 0);
                }
            }
            assert(slots_g@ =~= Seq::new(6, |j: int| tile_cell(s, j + 1)));
            lemma_base25_bound(slots_g@);
        }
        packing
    }
}

/// The goal configuration of pattern `pid`: the gap on cell 0, position
/// `j` of the pattern as tile `j + 1` on its home cell, the sentinel
/// everywhere else (on the solved puzzle, tile identity equals cell).
pub open spec fn default_cells(pid: int, c: int) -> u8 {
    if c == 0 {
        0
    } else if assign_of(false, c).0 == pid {
        (assign_of(false, c).1 + 1) as u8
    } else {
        7
    }
}

/// The goal state of one pattern of the primary partition, from which
/// its database is built.
fn extract_pattern(pattern_id: u8) -> (r: Pattern6Puzzle)
    requires
        pattern_id < 4,
    ensures
        r.wf(),
        pat6_complete(r.sview()),
        r.gap() == 0,
        forall|c: int| 0 <= c < 25 ==> r.sview()[c] == default_cells(pattern_id as int, c),
{
    let mut cells: [u8; 25] = [7u8; 25];
    cells[0] = 0;
    let mut cell_idx: u8 = 1;
    while cell_idx < 25
        invariant
            1 <= cell_idx <= 25,
            cells@.len() == 25,
            cells@[0] == 0,
            forall|c: int| 1 <= c < cell_idx ==> cells@[c] == default_cells(pattern_id as int, c),
            forall|c: int| cell_idx <= c < 25 ==> cells@[c] == 7,
        decreases 25 - cell_idx,
    {
        // on the solved puzzle the tile at a cell equals the cell index
        let (p_id, p_idx) = pattern_assign_at(cell_idx);
        if p_id == pattern_id {
            proof {
                lemma_assign_valid(false, cell_idx as int);
            }
            // positions start at 0, but tile value 0 is the gap
            cells[cell_idx as usize] = p_idx + 1;
        }
        cell_idx += 1;
    }
    proof {
        assert forall|c: int| 0 <= c < 25 implies #[trigger] cells@[c] <= 7 by {
            if 1 <= c {
                assert(cells@[c] == default_cells(pattern_id as int, c));
                lemma_assign_valid(false, c);
            }
        }
        assert forall|c: int| 1 <= c < 25 implies #[trigger] cells@[c] != 0 by {
            assert(cells@[c] == default_cells(pattern_id as int, c));
            lemma_assign_valid(false, c);
        }
        assert forall|c1: int, c2: int|
            0 <= c1 < 25 && 0 <= c2 < 25 && c1 != c2 && 1 <= #[trigger] cells@[c1] <= 6 implies
            cells@[c1] != #[trigger] cells@[c2] by {
            if cells@[c1] == cells@[c2] {
                assert(cells@[c1] == default_cells(pattern_id as int, c1));
                assert(c1 != 0);
                assert(cells@[c2] == default_cells(pattern_id as int, c2));
                assert(c2 != 0);
                lemma_assign_valid(false, c1);
                lemma_assign_valid(false, c2);
                lemma_assign_injective(false, c1, c2);
            }
        }
    }
    let grid = ArrayGrid24::from_cells_unchecked(cells);
    let gap_cell = PuzzleCell::from_const(0);
    let r = Pattern6Puzzle { grid, gap_cell };
    proof {
        // every position's home cell carries its tile
        let ghost rv = r.sview();
        assert forall|t: int| 1 <= t <= 6 implies rv[#[trigger] tile_cell(rv, t)] == t by {
            lemma_pattern_home(pattern_id as int, t - 1);
            let home = pattern_home(pattern_id as int, t - 1);
            assert(rv[home] == default_cells(pattern_id as int, home));
            assert(rv[home] == t);
            assert(exists|c: int| 0 <= c < 25 && rv[c] == t);
            let w2 = choose|c: int| 0 <= c < 25 && rv[c] == t;
            assert(rv[w2] == t);
        }
        assert(pat6_complete(rv));
    }
    r
}

/// The goal state of pattern 0 of the primary partition.
pub fn default_pattern0() -> (r: Pattern6Puzzle)
    ensures
        r.wf(),
        pat6_complete(r.sview()),
        r.gap() == 0,
        forall|c: int| 0 <= c < 25 ==> r.sview()[c] == default_cells(0, c),
{
    extract_pattern(0)
}

/// The goal state of pattern 1 of the primary partition. Patterns 2 and
/// 3 are rotations of pattern 1, so its table serves them too.
pub fn default_pattern1() -> (r: Pattern6Puzzle)
    ensures
        r.wf(),
        pat6_complete(r.sview()),
        r.gap() == 0,
        forall|c: int| 0 <= c < 25 ==> r.sview()[c] == default_cells(1, c),
{
    extract_pattern(1)
}

/// Digit `j` of the sub-pattern index of pattern `pid` under partition
/// `mirrored`: the normalized cell of the tile assigned to position `j`,
/// or 0 when no tile of the puzzle is (never for a valid full puzzle).
pub open spec fn pattern_slot(s: Seq<u8>, mirrored: bool, pid: int, j: int) -> int {
    if exists|c: int|
        0 <= c < 25 && s[c] != 0 && assign_of(mirrored, s[c] as int) == (pid, j) {
        norm_cell(
            mirrored,
            pid,
            choose|c: int|
                0 <= c < 25 && s[c] != 0 && assign_of(mirrored, s[c] as int) == (pid, j),
        )
    } else {
        0
    }
}

/// The packed sub-pattern index of pattern `pid` of the full puzzle `s`
/// under the primary or mirrored partition.
pub open spec fn pack_spec(s: Seq<u8>, mirrored: bool, pid: int) -> int {
    base25(Seq::new(6, |j: int| pattern_slot(s, mirrored, pid, j)))
}

/// Two cells carrying tiles of the same pattern slot are the same cell:
/// tiles are distinct across cells, and each table assigns distinct
/// slots to distinct tiles.
proof fn lemma_pattern_witness_unique(
    s: Seq<u8>,
    mirrored: bool,
    pid: int,
    j: int,
    c1: int,
    c2: int,
)
    requires
        puzzle_wf(s),
        0 <= c1 < 25 && s[c1] != 0 && assign_of(mirrored, s[c1] as int) == (pid, j),
        0 <= c2 < 25 && s[c2] != 0 && assign_of(mirrored, s[c2] as int) == (pid, j),
    ensures
        c1 == c2,
{
    reveal(puzzle_wf);
    if c1 != c2 {
        assert(s[c1] != s[c2]);
        lemma_assign_injective(mirrored, s[c1] as int, s[c2] as int);
    }
}

/// Scanning past a cell that carries no tile of pattern `pid` leaves
/// every digit's characterization unchanged.
proof fn lemma_slots_preserved(s: Seq<u8>, mirrored: bool, pid: int, slots: Seq<int>, n: int)
    requires
        puzzle_wf(s),
        0 <= n < 25,
        s[n] == 0 || assign_of(mirrored, s[n] as int).0 != pid,
        slots.len() == 6,
        forall|j: int|
            0 <= j < 6 ==> (if (exists|c: int|
                0 <= c < n && s[c] != 0 && assign_of(mirrored, s[c] as int) == (pid, j)) {
                #[trigger] slots[j] == norm_cell(
                    mirrored,
                    pid,
                    choose|c: int|
                        0 <= c < n && s[c] != 0 && assign_of(mirrored, s[c] as int) == (pid, j),
                )
            } else {
                slots[j] == 0
            }),
    ensures
        forall|j: int|
            0 <= j < 6 ==> (if (exists|c: int|
                0 <= c < n + 1 && s[c] != 0 && assign_of(mirrored, s[c] as int) == (pid, j)) {
                #[trigger] slots[j] == norm_cell(
                    mirrored,
                    pid,
                    choose|c: int|
                        0 <= c < n + 1 && s[c] != 0 && assign_of(mirrored, s[c] as int) == (
                        pid,
                        j,
                        ),
                )
            } else {
                slots[j] == 0
            }),
{
    assert forall|j: int|
        0 <= j < 6 implies (if (exists|c: int|
        0 <= c < n + 1 && s[c] != 0 && assign_of(mirrored, s[c] as int) == (pid, j)) {
        #[trigger] slots[j] == norm_cell(
            mirrored,
            pid,
            choose|c: int|
                0 <= c < n + 1 && s[c] != 0 && assign_of(mirrored, s[c] as int) == (pid, j),
        )
    } else {
        slots[j] == 0
    }) by {
        if exists|c: int|
            0 <= c < n + 1 && s[c] != 0 && assign_of(mirrored, s[c] as int) == (pid, j) {
            let w = choose|c: int|
                0 <= c < n + 1 && s[c] != 0 && assign_of(mirrored, s[c] as int) == (pid, j);
            assert(w != n);
            assert(exists|c: int|
                0 <= c < n && s[c] != 0 && assign_of(mirrored, s[c] as int) == (pid, j));
            let w0 = choose|c: int|
                0 <= c < n && s[c] != 0 && assign_of(mirrored, s[c] as int) == (pid, j);
            lemma_pattern_witness_unique(s, mirrored, pid, j, w, w0);
        }
    }
}

/// Computes the packed sub-pattern index of one pattern under one
/// partition, reading each cell's tile and writing its normalized cell
/// into the digit of the tile's assigned position.
fn extract_one<P: Puzzle24Grid>(p: &P, pid: u8, mirrored: bool) -> (r: u32)
    requires
        puzzle_wf(p@),
        pid < 4,
    ensures
        r as int == pack_spec(p@, mirrored, pid as int),
        r < 244140625,
{
    let ghost s = p@;
    proof {
        reveal(puzzle_wf);
    }
    let mut packing = Pattern6Packing::new();
    let ghost slots: Seq<int> = Seq::new(6, |j: int| 0int);
    let mut slots_g: Ghost<Seq<int>> = Ghost(slots);
    let mut cell_idx: u8 = 0;
    proof {
        lemma_base25_zero(slots_g@);
    }
    while cell_idx < 25
        invariant
            cell_idx <= 25,
            pid < 4,
            puzzle_wf(s),
            crate::grids::grid_wf(s),
            s == p@,
            slots_g@.len() == 6,
            packing@ == base25(slots_g@),
            forall|j: int| 0 <= j < 6 ==> 0 <= #[trigger] slots_g@[j] < 25,
            forall|j: int|
                0 <= j < 6 ==> (if (exists|c: int|
                    0 <= c < cell_idx && s[c] != 0 && assign_of(mirrored, s[c] as int) == (
                    pid as int,
                    j,
                )) {
                    #[trigger] slots_g@[j] == norm_cell(
                        mirrored,
                        pid as int,
                        choose|c: int|
                            0 <= c < cell_idx && s[c] != 0 && assign_of(mirrored, s[c] as int)
                                == (pid as int, j),
                    )
                } else {
                    slots_g@[j] == 0
                }),
        decreases 25 - cell_idx,
    {
        let cell = PuzzleCell::from_const(cell_idx);
        let tile = p.get_tile(cell);
        let tile_u8 = tile.value();
        if tile_u8 != 0 {
            let (p_id, p_idx) = if mirrored {
                mirror_pattern_assign_at(tile_u8)
            } else {
                pattern_assign_at(tile_u8)
            };
            if p_id == pid {
                proof {
                    lemma_assign_valid(mirrored, tile_u8 as int);
                }
                // rotate (and mirror) the coordinates back into the
                // orientation of the pattern's own table
                let x = cell_idx % 5;
                let y = cell_idx / 5;
                let xy = if mirrored {
                    mirror((x, y))
                } else {
                    (x, y)
                };
                let nxy = if pid == 2 {
                    pat2_to_pat1(xy)
                } else if pid == 3 {
                    pat3_to_pat1(xy)
                } else {
                    xy
                };
                let ncell_idx = nxy.1 * 5 + nxy.0;
                let ncell = PuzzleCell::from_const(ncell_idx);
                proof {
                    assert(ncell_idx as int == norm_cell(mirrored, pid as int, cell_idx as int));
                    let j = p_idx as int;
                    // the digit of this slot is still unset: no earlier
                    // cell carries a tile of the same slot
                    if exists|c: int|
                        0 <= c < cell_idx && s[c] != 0 && assign_of(mirrored, s[c] as int) == (
                        pid as int,
                        j,
                    ) {
                        let w = choose|c: int|
                            0 <= c < cell_idx && s[c] != 0 && assign_of(mirrored, s[c] as int)
                                == (pid as int, j);
                        lemma_pattern_witness_unique(
                            s,
                            mirrored,
                            pid as int,
                            j,
                            w,
                            cell_idx as int,
                        );
                        assert(false);
                    }
                    assert(slots_g@[j] == 0);
                    lemma_base25_update(slots_g@, j, ncell_idx as int);
                    lemma_norm_cell_range(mirrored, pid as int, cell_idx as int);
                    lemma_base25_bound(slots_g@.update(j, ncell_idx as int));
                }
                packing.set_tile_unchecked(p_idx, ncell);
                proof {
                    slots_g@ = slots_g@.update(p_idx as int, ncell_idx as int);
                    assert forall|j: int|
                        0 <= j < 6 implies (if (exists|c: int|
                        0 <= c < cell_idx + 1 && s[c] != 0 && assign_of(mirrored, s[c] as int)
                            == (pid as int, j)) {
                        #[trigger] slots_g@[j] == norm_cell(
                            mirrored,
                            pid as int,
                            choose|c: int|
                                0 <= c < cell_idx + 1 && s[c] != 0 && assign_of(
                                    mirrored,
                                    s[c] as int,
                                ) == (pid as int, j),
                        )
                    } else {
                        slots_g@[j] == 0
                    }) by {
                        if exists|c: int|
                            0 <= c < cell_idx + 1 && s[c] != 0 && assign_of(mirrored, s[c] as int)
                                == (pid as int, j) {
                            let w = choose|c: int|
                                0 <= c < cell_idx + 1 && s[c] != 0 && assign_of(
                                    mirrored,
                                    s[c] as int,
                                ) == (pid as int, j);
                            if j == p_idx as int {
                                lemma_pattern_witness_unique(
                                    s,
                                    mirrored,
                                    pid as int,
                                    j,
                                    w,
                                    cell_idx as int,
                                );
                            } else {
                                assert(w != cell_idx as int);
                                assert(exists|c: int|
                                    0 <= c < cell_idx && s[c] != 0 && assign_of(
                                        mirrored,
                                        s[c] as int,
                                    ) == (pid as int, j));
                                let w0 = choose|c: int|
                                    0 <= c < cell_idx && s[c] != 0 && assign_of(
                                        mirrored,
                                        s[c] as int,
                                    ) == (pid as int, j);
                                lemma_pattern_witness_unique(
                                    s,
                                    mirrored,
                                    pid as int,
                                    j,
                                    w,
                                    w0,
                                );
                            }
                        }
                    }
                }
            }
        }
        proof {
            if s[cell_idx as int] == 0 || assign_of(mirrored, s[cell_idx as int] as int).0
                != pid as int {
                lemma_slots_preserved(s, mirrored, pid as int, slots_g@, cell_idx as int);
            }
        }
        cell_idx += 1;
    }
    proof {
        assert(slots_g@ =~= Seq::new(6, |j: int| pattern_slot(s, mirrored, pid as int, j))) by {
            assert forall|j: int| 0 <= j < 6 implies slots_g@[j] == pattern_slot(
                s,
                mirrored,
                pid as int,
                j,
            ) by {
                if exists|c: int|
                    0 <= c < 25 && s[c] != 0 && assign_of(mirrored, s[c] as int) == (
                    pid as int,
                    j,
                ) {
                    let w25 = choose|c: int|
                        0 <= c < 25 && s[c] != 0 && assign_of(mirrored, s[c] as int) == (
                        pid as int,
                        j,
                    );
                    let wi = choose|c: int|
                        0 <= c < cell_idx && s[c] != 0 && assign_of(mirrored, s[c] as int) == (
                        pid as int,
                        j,
                    );
                    lemma_pattern_witness_unique(s, mirrored, pid as int, j, w25, wi);
                }
            }
        }
        lemma_base25_bound(slots_g@);
        lemma_pow25_values();
    }
    packing.value()
}

impl Pattern6Puzzle {
    /// The packed sub-pattern indices of all four patterns of the full
    /// puzzle, under the primary partition and under the mirrored one.
    pub fn extract_u32s<P: Puzzle24Grid>(p: &P) -> (r: ([u32; 4], [u32; 4]))
        requires
            puzzle_wf(p@),
        ensures
            forall|k: int| 0 <= k < 4 ==> r.0@[k] as int == pack_spec(p@, false, k),
            forall|k: int| 0 <= k < 4 ==> r.1@[k] as int == pack_spec(p@, true, k),
            forall|k: int| 0 <= k < 4 ==> #[trigger] r.0@[k] < 244140625,
            forall|k: int| 0 <= k < 4 ==> #[trigger] r.1@[k] < 244140625,
    {
        let a0 = extract_one(p, 0, false);
        let a1 = extract_one(p, 1, false);
        let a2 = extract_one(p, 2, false);
        let a3 = extract_one(p, 3, false);
        let b0 = extract_one(p, 0, true);
        let b1 = extract_one(p, 1, true);
        let b2 = extract_one(p, 2, true);
        let b3 = extract_one(p, 3, true);
        ([a0, a1, a2, a3], [b0, b1, b2, b3])
    }
}

/// The largest entry of a distance table.
fn table_max(t: &Vec<u8>) -> (r: u8)
    requires
        t@.len() >= 1,
    ensures
        forall|i: int| 0 <= i < t@.len() ==> #[trigger] t@[i] <= r,
        exists|i: int| 0 <= i < t@.len() && t@[i] == r,
{
    let mut m: u8 = t[0];
    let mut i: usize = 1;
    while i < t.len()
        invariant
            1 <= i <= t@.len(),
            forall|j: int| 0 <= j < i ==> #[trigger] t@[j] <= m,
            exists|j: int| 0 <= j < i && t@[j] == m,
        decreases t@.len() - i,
    {
        if t[i] > m {
            m = t[i];
        }
        i += 1;
    }
    m
}

/// The pattern-database heuristic over the default partitions: the 4
/// sub-pattern lookups of the primary partition are summed (disjointness
/// keeps the sum admissible), likewise under the mirrored partition, and
/// the larger of the two sums is the estimate.
///
/// Pattern 0 has its own table; patterns 1, 2 and 3 share the second
/// table, their extracted coordinates having been rotated into pattern
/// 1's orientation.
pub struct DefaultPatternDB {
    default_pattern0: Vec<u8>,
    default_pattern1: Vec<u8>,
}

/// The sum of the four table lookups of one partition.
pub open spec fn partition_sum(t0: Seq<u8>, t1: Seq<u8>, s: Seq<u8>, mirrored: bool) -> int {
    t0[pack_spec(s, mirrored, 0)] + t1[pack_spec(s, mirrored, 1)] + t1[pack_spec(s, mirrored, 2)]
        + t1[pack_spec(s, mirrored, 3)]
}

impl DefaultPatternDB {
    /// The distance table of pattern 0.
    pub closed spec fn table0(&self) -> Seq<u8> {
        self.default_pattern0@
    }

    /// The distance table of pattern 1, shared by patterns 2 and 3.
    pub closed spec fn table1(&self) -> Seq<u8> {
        self.default_pattern1@
    }

    /// Wraps two distance tables, one per canonical pattern, each built
    /// by `build_pattern_db` (building takes long, so the tables are
    /// handed in, giving callers the chance to keep them on disk). A
    /// table of the wrong length is rejected here, at the boundary.
    pub fn new(default_pattern0: Vec<u8>, default_pattern1: Vec<u8>) -> (r: Self)
        requires
            default_pattern0@.len() == 244140625,
            default_pattern1@.len() == 244140625,
        ensures
            r.table0() == default_pattern0@,
            r.table1() == default_pattern1@,
    {
        DefaultPatternDB { default_pattern0, default_pattern1 }
    }

    /// Decides the well-formedness `compute` requires: the tables have
    /// the exact indexable size, and no sum of one pattern-0 lookup and
    /// three pattern-1 lookups can exceed a byte. A scan for the two
    /// maxima settles the question exactly, since the maxima witness the
    /// worst combination. This closes the verified pipeline from built
    /// tables to heuristic computation.
    pub fn check(&self) -> (r: bool)
        ensures
            r <==> self.valid(),
    {
        if self.default_pattern0.len() != 244140625 || self.default_pattern1.len() != 244140625 {
            return false;
        }
        let m0 = table_max(&self.default_pattern0);
        let m1 = table_max(&self.default_pattern1);
        let ok = (m0 as u32) + 3 * (m1 as u32) <= 255;
        proof {
            if ok {
                assert forall|i: int, j: int, k: int, l: int|
                    0 <= i < 244140625 && 0 <= j < 244140625 && 0 <= k < 244140625 && 0 <= l
                        < 244140625 implies #[trigger] (self.table0()[i] + self.table1()[j]
                    + self.table1()[k] + self.table1()[l]) <= 255 by {
                    assert(self.table0()[i] <= m0);
                    assert(self.table1()[j] <= m1);
                    assert(self.table1()[k] <= m1);
                    assert(self.table1()[l] <= m1);
                }
            } else {
                let i0 = choose|i: int| 0 <= i < self.table0().len() && self.table0()[i] == m0;
                let j0 = choose|i: int| 0 <= i < self.table1().len() && self.table1()[i] == m1;
                assert(self.table0()[i0] + self.table1()[j0] + self.table1()[j0]
                    + self.table1()[j0] > 255);
            }
        }
        ok
    }

    /// The two tables back, consuming the wrapper.
    pub fn into_tables(self) -> (r: (Vec<u8>, Vec<u8>))
        ensures
            r.0@ == self.table0(),
            r.1@ == self.table1(),
    {
        (self.default_pattern0, self.default_pattern1)
    }
}

impl Heuristic for DefaultPatternDB {
    /// The tables have the exact size the 6-tile packing indexes, and
    /// their entries are small enough that no partition's four-lookup
    /// sum can exceed a byte (true of tables holding pattern distances,
    /// which never exceed the longest optimal solution).
    open spec fn valid(&self) -> bool {
        &&& self.table0().len() == 244140625
        &&& self.table1().len() == 244140625
        &&& forall|i: int, j: int, k: int, l: int|
            0 <= i < 244140625 && 0 <= j < 244140625 && 0 <= k < 244140625 && 0 <= l
                < 244140625 ==> #[trigger] (self.table0()[i] + self.table1()[j]
                + self.table1()[k] + self.table1()[l]) <= 255
    }

    /// The larger of the two partitions' lookup sums.
    open spec fn estimate(&self, s: Seq<u8>) -> int {
        let a = partition_sum(self.table0(), self.table1(), s, false);
        let b = partition_sum(self.table0(), self.table1(), s, true);
        if a >= b {
            a
        } else {
            b
        }
    }

    fn compute<P: Puzzle24Grid>(&self, v: &P) -> (r: u8) {
        let (p0, p1) = Pattern6Puzzle::extract_u32s(v);
        proof {
            let a0 = p0@[0] as int;
            let a1 = p0@[1] as int;
            let a2 = p0@[2] as int;
            let a3 = p0@[3] as int;
            assert(self.table0()[a0] + self.table1()[a1] + self.table1()[a2] + self.table1()[a3]
                <= 255);
            let b0 = p1@[0] as int;
            let b1 = p1@[1] as int;
            let b2 = p1@[2] as int;
            let b3 = p1@[3] as int;
            assert(self.table0()[b0] + self.table1()[b1] + self.table1()[b2] + self.table1()[b3]
                <= 255);
        }
        let dis_a0 = self.default_pattern0[p0[0] as usize];
        let dis_a1 = self.default_pattern1[p0[1] as usize];
        let dis_a2 = self.default_pattern1[p0[2] as usize];
        let dis_a3 = self.default_pattern1[p0[3] as usize];
        let dis_a = dis_a0 + dis_a1 + dis_a2 + dis_a3;
        // under the mirrored partition
        let dis_b0 = self.default_pattern0[p1[0] as usize];
        let dis_b1 = self.default_pattern1[p1[1] as usize];
        let dis_b2 = self.default_pattern1[p1[2] as usize];
        let dis_b3 = self.default_pattern1[p1[3] as usize];
        let dis_b = dis_b0 + dis_b1 + dis_b2 + dis_b3;
        // both sums are independently admissible, so the larger one is
        // the tighter admissible bound
        if dis_a >= dis_b {
            dis_a
        } else {
            dis_b
        }
    }
}

/// The 6-tile packing is a valid table index.
proof fn lemma_pack6_bound(s: Seq<u8>)
    ensures
        0 <= pack6_of(s) < pow25(6),
{
    let digits = Seq::new(6, |j: int| tile_cell(s, j + 1));
    assert forall|j: int| 0 <= j < digits.len() implies 0 <= #[trigger] digits[j] < 25 by {
        assert(digits[j] == tile_cell(s, j + 1));
        let t = j + 1;
        if exists|c: int| 0 <= c < 25 && s[c] == t {
            assert(0 <= tile_cell(s, t) < 25 && s[tile_cell(s, t)] == t);
        } else {
            assert(tile_cell(s, t) == 0);
        }
    }
    lemma_base25_bound(digits);
}

/// The 7-component packing stays below 25^7, and it determines the
/// 6-tile part: equal 7-packings have equal table indices.
proof fn lemma_pack7_bound(s: Seq<u8>, gap: int)
    requires
        0 <= gap < 25,
    ensures
        0 <= pack7_of(s, gap) < pow25(7),
{
    lemma_pack6_bound(s);
    lemma_pow25_values();
    vstd::arithmetic::mul::lemma_mul_inequality(gap, 24, pow25(6) as int);
    vstd::arithmetic::mul::lemma_mul_nonnegative(gap, pow25(6) as int);
}

/// Equal 7-component packings have equal 6-tile parts: the gap digit
/// sits above the whole range of the 6-tile packing.
proof fn lemma_pack7_determines_pack6(s1: Seq<u8>, g1: int, s2: Seq<u8>, g2: int)
    requires
        0 <= g1 < 25,
        0 <= g2 < 25,
        pack7_of(s1, g1) == pack7_of(s2, g2),
    ensures
        pack6_of(s1) == pack6_of(s2),
{
    lemma_pack6_bound(s1);
    lemma_pack6_bound(s2);
    let p6 = pow25(6) as int;
    lemma_pow25_values();
    if g1 != g2 {
        if g1 > g2 {
            vstd::arithmetic::mul::lemma_mul_inequality(1, g1 - g2, p6);
            vstd::arithmetic::mul::lemma_mul_is_distributive_sub_other_way(p6, g1, g2);
        } else {
            vstd::arithmetic::mul::lemma_mul_inequality(1, g2 - g1, p6);
            vstd::arithmetic::mul::lemma_mul_is_distributive_sub_other_way(p6, g2, g1);
        }
        assert(false);
    }
}

/// The number of counted moves of a gap path from `s`: moves whose
/// swapped tile is a tracked one cost 1; sentinel swaps are free.
pub open spec fn relevant_cost(s: Seq<u8>, path: Seq<Dir>) -> int
    decreases path.len(),
{
    if path.len() == 0 {
        0
    } else {
        (if s[crate::cells::step_spec(crate::search::gap_of(s), path[0])->Some_0] != 7 {
            1int
        } else {
            0int
        }) + relevant_cost(crate::search::gap_step(s, path[0]), path.drop_first())
    }
}

/// Some gap path from `s0` reaches a state whose 6-tile packing is `i`
/// at counted cost `k`.
pub open spec fn cost_reachable(s0: Seq<u8>, i: int, k: int) -> bool {
    exists|path: Seq<Dir>|
        #![trigger relevant_cost(s0, path)]
        crate::search::apply_gap_path(s0, path) is Some && pack6_of(
            crate::search::apply_gap_path(s0, path)->Some_0,
        ) == i && relevant_cost(s0, path) == k
}

/// Some gap path from `s0` reaches exactly the state `e` at counted
/// cost `k`.
pub open spec fn entry_reached(s0: Seq<u8>, e: Pattern6Puzzle, k: int) -> bool {
    exists|path: Seq<Dir>|
        #![trigger relevant_cost(s0, path)]
        crate::search::apply_gap_path(s0, path) == Some(e.sview()) && relevant_cost(s0, path)
            == k
}

/// In a valid reduced state the tracked gap cell is the unique zero, so
/// it is what `gap_of` picks.
proof fn lemma_pat_gap_of(s: Seq<u8>, gap: int)
    requires
        pat6_wf(s, gap),
    ensures
        crate::search::gap_of(s) == gap,
{
    reveal(crate::search::gap_of);
    assert(s[gap] == 0);
    let w = choose|i: int| 0 <= i < 25 && s[i] == 0;
    assert(0 <= w < 25 && s[w] == 0);
}

/// A step of a valid reduced state, written as the two cell updates the
/// grid performs, is exactly the abstract gap move.
proof fn lemma_pat_step_is_gap_step(p: Pattern6Puzzle, dir: Dir)
    requires
        p.wf(),
        crate::cells::step_spec(p.gap(), dir) is Some,
    ensures
        ({
            let adj = crate::cells::step_spec(p.gap(), dir)->Some_0;
            &&& crate::search::gap_step_ok(p.sview(), dir)
            &&& crate::search::gap_step(p.sview(), dir) == p.sview().update(
                p.gap(),
                p.sview()[adj],
            ).update(adj, 0u8)
        }),
{
    lemma_pat_gap_of(p.sview(), p.gap());
    reveal(crate::search::gap_step_ok);
    reveal(crate::search::gap_step);
}

/// Extending a path by one applicable step adds that step's cost: one
/// for a tracked tile, nothing for the sentinel.
proof fn lemma_relevant_cost_push(s: Seq<u8>, path: Seq<Dir>, d: Dir)
    requires
        crate::search::apply_gap_path(s, path) is Some,
        crate::search::gap_step_ok(crate::search::apply_gap_path(s, path)->Some_0, d),
    ensures
        relevant_cost(s, path.push(d)) == relevant_cost(s, path) + (if crate::search::apply_gap_path(
            s,
            path,
        )->Some_0[crate::cells::step_spec(
            crate::search::gap_of(crate::search::apply_gap_path(s, path)->Some_0),
            d,
        )->Some_0] != 7 {
            1int
        } else {
            0int
        }),
    decreases path.len(),
{
    if path.len() == 0 {
        assert(path.push(d)[0] == d);
        assert(path.push(d).drop_first() =~= Seq::<Dir>::empty());
        assert(crate::search::apply_gap_path(s, path)->Some_0 == s);
        assert(relevant_cost(crate::search::gap_step(s, d), path.push(d).drop_first()) == 0);
    } else {
        let gs = crate::search::gap_step(s, path[0]);
        assert(crate::search::gap_step_ok(s, path[0]));
        assert(path.push(d)[0] == path[0]);
        assert(path.push(d).drop_first() =~= path.drop_first().push(d));
        lemma_relevant_cost_push(gs, path.drop_first(), d);
        assert(crate::search::apply_gap_path(s, path) == crate::search::apply_gap_path(
            gs,
            path.drop_first(),
        ));
        assert(relevant_cost(s, path.push(d)) == (if s[crate::cells::step_spec(
            crate::search::gap_of(s),
            path[0],
        )->Some_0] != 7 {
            1int
        } else {
            0int
        }) + relevant_cost(gs, path.drop_first().push(d)));
        assert(relevant_cost(s, path) == (if s[crate::cells::step_spec(
            crate::search::gap_of(s),
            path[0],
        )->Some_0] != 7 {
            1int
        } else {
            0int
        }) + relevant_cost(gs, path.drop_first()));
    }
}

/// One enqueue step keeps the cost bookkeeping of both queues: a state
/// appended to the current queue is reached at the same counted cost as
/// the popped state, one appended to the next queue at that cost plus
/// one.
proof fn lemma_enqueued_entry_reached(
    s0: Seq<u8>,
    p: Pattern6Puzzle,
    dir: Dir,
    c0: Seq<Pattern6Puzzle>,
    c1: Seq<Pattern6Puzzle>,
    n0: Seq<Pattern6Puzzle>,
    n1: Seq<Pattern6Puzzle>,
    depth: int,
)
    requires
        p.wf(),
        entry_reached(s0, p, depth),
        forall|k: int| 0 <= k < c0.len() ==> entry_reached(s0, #[trigger] c0[k], depth),
        forall|k: int| 0 <= k < n0.len() ==> entry_reached(s0, #[trigger] n0[k], depth + 1),
        c1.len() >= c0.len(),
        c1.len() <= c0.len() + 1,
        n1.len() >= n0.len(),
        n1.len() <= n0.len() + 1,
        forall|k: int| 0 <= k < c0.len() ==> c1[k] == #[trigger] c0[k],
        forall|k: int| 0 <= k < n0.len() ==> n1[k] == #[trigger] n0[k],
        c1.len() > c0.len() ==> ({
            let adj = crate::cells::step_spec(p.gap(), dir)->Some_0;
            &&& crate::cells::step_spec(p.gap(), dir) is Some
            &&& p.sview()[adj] == 7
            &&& c1.last().sview() == p.sview().update(p.gap(), p.sview()[adj]).update(adj, 0u8)
        }),
        n1.len() > n0.len() ==> ({
            let adj = crate::cells::step_spec(p.gap(), dir)->Some_0;
            &&& crate::cells::step_spec(p.gap(), dir) is Some
            &&& p.sview()[adj] != 7
            &&& n1.last().sview() == p.sview().update(p.gap(), p.sview()[adj]).update(adj, 0u8)
        }),
    ensures
        forall|k: int| 0 <= k < c1.len() ==> entry_reached(s0, #[trigger] c1[k], depth),
        forall|k: int| 0 <= k < n1.len() ==> entry_reached(s0, #[trigger] n1[k], depth + 1),
{
    let path_p = choose|path: Seq<Dir>|
        #![trigger relevant_cost(s0, path)]
        crate::search::apply_gap_path(s0, path) == Some(p.sview()) && relevant_cost(s0, path)
            == depth;
    assert(crate::search::apply_gap_path(s0, path_p) == Some(p.sview()));
    if crate::cells::step_spec(p.gap(), dir) is Some {
        let adj = crate::cells::step_spec(p.gap(), dir)->Some_0;
        lemma_pat_gap_of(p.sview(), p.gap());
        lemma_pat_step_is_gap_step(p, dir);
        crate::search::lemma_apply_push(s0, path_p, dir);
        lemma_relevant_cost_push(s0, path_p, dir);
        let path_e = path_p.push(dir);
        assert(crate::search::apply_gap_path(s0, path_e) == Some(
            p.sview().update(p.gap(), p.sview()[adj]).update(adj, 0u8),
        ));
        assert(relevant_cost(s0, path_e) == depth + (if p.sview()[adj] != 7 {
            1int
        } else {
            0int
        }));
        if c1.len() > c0.len() {
            assert(entry_reached(s0, c1.last(), depth));
        }
        if n1.len() > n0.len() {
            assert(entry_reached(s0, n1.last(), depth + 1));
        }
    }
    assert forall|k: int| 0 <= k < c1.len() implies entry_reached(s0, #[trigger] c1[k], depth) by {
        if k < c0.len() {
            assert(c1[k] == c0[k]);
        } else {
            assert(c1[k] == c1.last());
        }
    }
    assert forall|k: int| 0 <= k < n1.len() implies entry_reached(
        s0,
        #[trigger] n1[k],
        depth + 1,
    ) by {
        if k < n0.len() {
            assert(n1[k] == n0[k]);
        } else {
            assert(n1[k] == n1.last());
        }
    }
}

/// A queue holds some state with this flat form and gap.
pub open spec fn in_queue(q: Seq<Pattern6Puzzle>, s: Seq<u8>, g: int) -> bool {
    exists|k: int| 0 <= k < q.len() && (#[trigger] q[k]).sview() == s && q[k].gap() == g
}

/// One gap move of a reduced state, written as the two cell updates the
/// grid performs, preserves validity and completeness and moves the gap
/// to the stepped-to cell.
proof fn lemma_pat_step_preserves(s: Seq<u8>, g: int, d: Dir)
    requires
        pat6_wf(s, g),
        pat6_complete(s),
        crate::cells::step_spec(g, d) is Some,
    ensures
        ({
            let a = crate::cells::step_spec(g, d)->Some_0;
            let s2 = s.update(g, s[a]).update(a, 0u8);
            pat6_wf(s2, a) && pat6_complete(s2)
        }),
{
    let a = crate::cells::step_spec(g, d)->Some_0;
    let s2 = s.update(g, s[a]).update(a, 0u8);
    crate::cells::lemma_step_inverse(g, d);
    assert(a != g);
    assert(pat6_wf(s2, a));
    assert forall|t: int| 1 <= t <= 6 implies s2[#[trigger] tile_cell(s2, t)] == t by {
        lemma_tile_cell_in_range(s, t);
        assert(s[tile_cell(s, t)] == t);
        let w = tile_cell(s, t);
        assert(w != g);
        if w == a {
            assert(s2[g] == t);
        } else {
            assert(s2[w] == t);
        }
        assert(exists|c: int| 0 <= c < 25 && s2[c] == t);
        let w2 = choose|c: int| 0 <= c < 25 && s2[c] == t;
        assert(s2[w2] == t);
    }
}

/// Whether, at level `depth` of the build, the successor of a visited
/// state along one direction is accounted for: already visited at a
/// level no more than one step worse, or waiting in the right queue.
pub open spec fn frontier_edge_ok(
    vis: Set<int>,
    lvl: Map<int, int>,
    curr: Seq<Pattern6Puzzle>,
    next: Seq<Pattern6Puzzle>,
    depth: int,
    s: Seq<u8>,
    g: int,
    d: Dir,
) -> bool {
    crate::cells::step_spec(g, d) is Some ==> ({
        let a = crate::cells::step_spec(g, d)->Some_0;
        let s3 = s.update(g, s[a]).update(a, 0u8);
        let key = pack7_of(s, g);
        let key3 = pack7_of(s3, a);
        if s[a] == 7 {
            (vis.contains(key3) && lvl[key3] <= lvl[key]) || (lvl[key] == depth && in_queue(
                curr,
                s3,
                a,
            ))
        } else {
            (vis.contains(key3) && lvl[key3] <= lvl[key] + 1) || (lvl[key] == depth && in_queue(
                next,
                s3,
                a,
            )) || (lvl[key] == depth - 1 && in_queue(curr, s3, a))
        }
    })
}

/// The home cell of the tile at position `j` of pattern `pid` under the
/// primary partition: the inverse of the assignment table.
pub open spec fn pattern_home(pid: int, j: int) -> int {
    if pid == 0 {
        if j == 0 { 1 } else if j == 1 { 5 } else if j == 2 { 6 }
        else if j == 3 { 10 } else if j == 4 { 11 } else { 12 }
    } else if pid == 1 {
        if j == 0 { 15 } else if j == 1 { 16 } else if j == 2 { 17 }
        else if j == 3 { 20 } else if j == 4 { 21 } else { 22 }
    } else if pid == 2 {
        if j == 0 { 9 } else if j == 1 { 8 } else if j == 2 { 7 }
        else if j == 3 { 4 } else if j == 4 { 3 } else { 2 }
    } else {
        if j == 0 { 23 } else if j == 1 { 18 } else if j == 2 { 13 }
        else if j == 3 { 24 } else if j == 4 { 19 } else { 14 }
    }
}

/// Each pattern position's home cell carries exactly that assignment:
/// the table is onto, so every goal pattern has all six tracked tiles.
proof fn lemma_pattern_home(pid: int, j: int)
    requires
        0 <= pid < 4,
        0 <= j < 6,
    ensures
        1 <= pattern_home(pid, j) < 25,
        assign_of(false, pattern_home(pid, j)) == (pid, j),
{
}

/// Equal base-25 values with in-range digits have equal digits.
proof fn lemma_base25_injective(a: Seq<int>, b: Seq<int>)
    requires
        a.len() == b.len(),
        forall|j: int| 0 <= j < a.len() ==> 0 <= #[trigger] a[j] < 25,
        forall|j: int| 0 <= j < b.len() ==> 0 <= #[trigger] b[j] < 25,
        base25(a) == base25(b),
    ensures
        a =~= b,
    decreases a.len(),
{
    if a.len() > 0 {
        let x = base25(a.drop_first());
        let y = base25(b.drop_first());
        assert(a[0] - b[0] == 25 * (y - x));
        assert(a[0] == b[0] && x == y) by {
            if y - x >= 1 {
                vstd::arithmetic::mul::lemma_mul_inequality(1, y - x, 25);
            }
            if x - y >= 1 {
                vstd::arithmetic::mul::lemma_mul_inequality(1, x - y, 25);
            }
        }
        lemma_base25_injective(a.drop_first(), b.drop_first());
        assert(forall|j: int|
            1 <= j < a.len() ==> a[j] == a.drop_first()[j - 1] && b[j] == b.drop_first()[j - 1]);
    }
}

/// The 7-component packing determines the whole reduced state: equal
/// keys mean the same tracked-tile placement and the same gap, and with
/// the sentinel filling every other cell, the same state.
proof fn lemma_pack7_injective(s1: Seq<u8>, g1: int, s2: Seq<u8>, g2: int)
    requires
        pat6_wf(s1, g1),
        pat6_wf(s2, g2),
        pat6_complete(s1),
        pat6_complete(s2),
        pack7_of(s1, g1) == pack7_of(s2, g2),
    ensures
        s1 =~= s2,
        g1 == g2,
{
    lemma_pack7_determines_pack6(s1, g1, s2, g2);
    lemma_pack6_bound(s1);
    lemma_pack6_bound(s2);
    lemma_pow25_values();
    let p6 = pow25(6) as int;
    assert(g1 == g2) by {
        assert((g1 - g2) * p6 == 0) by {
            vstd::arithmetic::mul::lemma_mul_is_distributive_sub_other_way(p6, g1, g2);
        }
        if g1 != g2 {
            vstd::arithmetic::mul::lemma_mul_nonzero(g1 - g2, p6);
        }
    }
    let d1 = Seq::new(6, |j: int| tile_cell(s1, j + 1));
    let d2 = Seq::new(6, |j: int| tile_cell(s2, j + 1));
    assert forall|j: int| 0 <= j < 6 implies 0 <= #[trigger] d1[j] < 25 && 0 <= #[trigger] d2[j]
        < 25 by {
        lemma_tile_cell_in_range(s1, j + 1);
        lemma_tile_cell_in_range(s2, j + 1);
    }
    lemma_base25_injective(d1, d2);
    // with every tracked tile present, equal digits put equal tiles on
    // equal cells, and sentinel fills the rest
    assert forall|t: int| 1 <= t <= 6 implies ({
        let w = #[trigger] tile_cell(s1, t);
        0 <= w < 25 && s1[w] == t && tile_cell(s2, t) == w && s2[w] == t
    }) by {
        lemma_tile_cell_in_range(s1, t);
        lemma_tile_cell_in_range(s2, t);
        assert(s1[tile_cell(s1, t)] == t);
        assert(s2[tile_cell(s2, t)] == t);
        assert(d1[t - 1] == tile_cell(s1, t));
        assert(d2[t - 1] == tile_cell(s2, t));
    }
    assert forall|c: int| 0 <= c < 25 implies s1[c] == s2[c] by {
        if c == g1 {
            assert(s1[c] == 0 && s2[c] == 0);
        } else if 1 <= s1[c] <= 6 {
            let t = s1[c] as int;
            lemma_tile_cell_unique(s1, g1, t, c);
            assert(tile_cell(s1, t) == c);
            assert(s2[tile_cell(s1, t)] == t);
        } else if 1 <= s2[c] <= 6 {
            let t = s2[c] as int;
            lemma_tile_cell_unique(s2, g2, t, c);
            assert(tile_cell(s2, t) == c);
            assert(tile_cell(s2, t) == tile_cell(s1, t));
            assert(s1[tile_cell(s1, t)] == t);
        } else {
            assert(c != g2);
            assert(s1[c] != 0 && s2[c] != 0);
            assert(s1[c] <= 7 && s2[c] <= 7);
            assert(s1[c] == 7 && s2[c] == 7);
        }
    }
}

/// A present tracked tile's cell is what `tile_cell` picks.
proof fn lemma_tile_cell_unique(s: Seq<u8>, gap: int, t: int, c: int)
    requires
        pat6_wf(s, gap),
        1 <= t <= 6,
        0 <= c < 25,
        s[c] == t,
    ensures
        tile_cell(s, t) == c,
{
    assert(exists|cc: int| 0 <= cc < 25 && s[cc] == t);
    let w = choose|cc: int| 0 <= cc < 25 && s[cc] == t;
    assert(s[w] == t);
}

/// `tile_cell` always names a cell.
proof fn lemma_tile_cell_in_range(s: Seq<u8>, t: int)
    ensures
        0 <= tile_cell(s, t) < 25,
        tile_cell(s, t) != 0 ==> s[tile_cell(s, t)] == t,
{
    if exists|cc: int| 0 <= cc < 25 && s[cc] == t {
        let w = choose|cc: int| 0 <= cc < 25 && s[cc] == t;
        assert(s[w] == t);
    }
}

/// A free move (the gap swapping with the sentinel) leaves the tracked
/// tiles where they are, so the 6-tile packing is unchanged.
proof fn lemma_free_step_same_pack6(s: Seq<u8>, gap: int, adj: int)
    requires
        pat6_wf(s, gap),
        0 <= adj < 25,
        adj != gap,
        s[adj] == 7,
    ensures
        pack6_of(s.update(gap, 7u8).update(adj, 0u8)) == pack6_of(s),
{
    let s2 = s.update(gap, 7u8).update(adj, 0u8);
    assert forall|j: int| 0 <= j < 6 implies #[trigger] tile_cell(s2, j + 1) == tile_cell(
        s,
        j + 1,
    ) by {
        let t = j + 1;
        if exists|c: int| 0 <= c < 25 && s[c] == t {
            let w = choose|c: int| 0 <= c < 25 && s[c] == t;
            assert(w != gap && w != adj);
            assert(s2[w] == t);
            assert(exists|c: int| 0 <= c < 25 && s2[c] == t);
            let w2 = choose|c: int| 0 <= c < 25 && s2[c] == t;
            assert(w2 != gap && w2 != adj);
            assert(s[w2] == t);
            assert(w2 == w);
        } else {
            if exists|c: int| 0 <= c < 25 && s2[c] == t {
                let w2 = choose|c: int| 0 <= c < 25 && s2[c] == t;
                assert(w2 != gap && w2 != adj);
                assert(s[w2] == t);
                assert(false);
            }
        }
    }
    assert(Seq::new(6, |j: int| tile_cell(s2, j + 1)) =~= Seq::new(
        6,
        |j: int| tile_cell(s, j + 1),
    ));
}

/// An element appended to the current-depth queue is a free successor
/// of the popped state, so it keeps the popped state's 6-tile packing:
/// if every queued state carried the goal packing before, every one
/// still does.
proof fn lemma_enqueued_keeps_goal_packing(
    p: Pattern6Puzzle,
    dir: Dir,
    c0: Seq<Pattern6Puzzle>,
    c1: Seq<Pattern6Puzzle>,
    idx0: int,
)
    requires
        p.wf(),
        pack6_of(p.sview()) == idx0,
        forall|k: int| 0 <= k < c0.len() ==> pack6_of((#[trigger] c0[k]).sview()) == idx0,
        c1.len() >= c0.len(),
        c1.len() <= c0.len() + 1,
        forall|k: int| 0 <= k < c0.len() ==> c1[k] == #[trigger] c0[k],
        c1.len() > c0.len() ==> ({
            let adj = crate::cells::step_spec(p.gap(), dir)->Some_0;
            &&& crate::cells::step_spec(p.gap(), dir) is Some
            &&& p.sview()[adj] == 7
            &&& c1.last().sview() == p.sview().update(p.gap(), p.sview()[adj]).update(adj, 0u8)
        }),
    ensures
        forall|k: int| 0 <= k < c1.len() ==> pack6_of((#[trigger] c1[k]).sview()) == idx0,
{
    assert forall|k: int| 0 <= k < c1.len() implies pack6_of((#[trigger] c1[k]).sview())
        == idx0 by {
        if k >= c0.len() {
            let adj = crate::cells::step_spec(p.gap(), dir)->Some_0;
            assert(k == c1.len() - 1);
            assert(c1[k] == c1.last());
            assert(p.sview()[adj] == 7);
            assert(0 <= adj < 25) by {
                crate::cells::lemma_step_inverse(p.gap(), dir);
            }
            assert(adj != p.gap());
            assert(p.sview().update(p.gap(), p.sview()[adj]) == p.sview().update(p.gap(), 7u8));
            lemma_free_step_same_pack6(p.sview(), p.gap(), adj);
            assert(c1[k].sview() == p.sview().update(p.gap(), 7u8).update(adj, 0u8));
        } else {
            assert(c1[k] == c0[k]);
            assert(pack6_of(c0[k].sview()) == idx0);
        }
    }
}

/// All frontier edges stay accounted for when a duplicate arrival is
/// popped: the lost queue witness is already visited within bounds.
proof fn lemma_frontier_after_dup(
    vis: Set<int>,
    lvl: Map<int, int>,
    curr0: Seq<Pattern6Puzzle>,
    next: Seq<Pattern6Puzzle>,
    depth: int,
    p: Pattern6Puzzle,
)
    requires
        curr0.len() > 0,
        curr0.last() == p,
        vis.contains(pack7_of(p.sview(), p.gap())),
        lvl.dom() =~= vis,
        forall|key: int| #[trigger] lvl.dom().contains(key) ==> 0 <= lvl[key] <= depth,
        forall|s2: Seq<u8>, g2: int, d: Dir|
            pat6_wf(s2, g2) && pat6_complete(s2) && vis.contains(pack7_of(s2, g2))
                ==> #[trigger] frontier_edge_ok(vis, lvl, curr0, next, depth, s2, g2, d),
    ensures
        forall|s2: Seq<u8>, g2: int, d: Dir|
            pat6_wf(s2, g2) && pat6_complete(s2) && vis.contains(pack7_of(s2, g2))
                ==> #[trigger] frontier_edge_ok(
                vis,
                lvl,
                curr0.drop_last(),
                next,
                depth,
                s2,
                g2,
                d,
            ),
{
    let curr1 = curr0.drop_last();
    assert forall|s2: Seq<u8>, g2: int, d: Dir|
        pat6_wf(s2, g2) && pat6_complete(s2) && vis.contains(pack7_of(s2, g2))
            implies #[trigger] frontier_edge_ok(vis, lvl, curr1, next, depth, s2, g2, d) by {
        assert(frontier_edge_ok(vis, lvl, curr0, next, depth, s2, g2, d));
        if crate::cells::step_spec(g2, d) is Some {
            let a = crate::cells::step_spec(g2, d)->Some_0;
            let s3 = s2.update(g2, s2[a]).update(a, 0u8);
            let key3 = pack7_of(s3, a);
            if in_queue(curr0, s3, a) && !in_queue(curr1, s3, a) {
                // the lost witness is the popped duplicate itself
                let k = choose|k: int|
                    0 <= k < curr0.len() && (#[trigger] curr0[k]).sview() == s3 && curr0[k].gap()
                        == a;
                if k < curr0.len() - 1 {
                    assert(curr1[k] == curr0[k]);
                    assert(in_queue(curr1, s3, a));
                    assert(false);
                }
                assert(curr0[k] == p);
                assert(vis.contains(key3));
                assert(lvl.dom().contains(key3));
                assert(lvl[key3] <= depth);
            }
        }
    }
}

/// All frontier edges stay accounted for when a fresh arrival is popped,
/// recorded at the current level, and its four successors enqueued.
proof fn lemma_frontier_after_insert(
    vis0: Set<int>,
    lvl0: Map<int, int>,
    curr0: Seq<Pattern6Puzzle>,
    curr1: Seq<Pattern6Puzzle>,
    next0: Seq<Pattern6Puzzle>,
    next1: Seq<Pattern6Puzzle>,
    depth: int,
    p: Pattern6Puzzle,
)
    requires
        p.wf(),
        pat6_complete(p.sview()),
        curr0.len() > 0,
        curr0.last() == p,
        !vis0.contains(pack7_of(p.sview(), p.gap())),
        lvl0.dom() =~= vis0,
        forall|key: int| #[trigger] lvl0.dom().contains(key) ==> 0 <= lvl0[key] <= depth,
        // the drained prefix plus the newly enqueued successors
        forall|k: int| 0 <= k < curr0.len() - 1 ==> curr1[k] == #[trigger] curr0[k],
        curr1.len() >= curr0.len() - 1,
        forall|k: int| 0 <= k < next0.len() ==> next1[k] == #[trigger] next0[k],
        next1.len() >= next0.len(),
        forall|d: Dir|
            #![trigger crate::cells::step_spec(p.gap(), d)]
            crate::cells::step_spec(p.gap(), d) is Some ==> ({
                let a = crate::cells::step_spec(p.gap(), d)->Some_0;
                let s3 = p.sview().update(p.gap(), p.sview()[a]).update(a, 0u8);
                if p.sview()[a] == 7 {
                    in_queue(curr1, s3, a)
                } else {
                    in_queue(next1, s3, a)
                }
            }),
        forall|s2: Seq<u8>, g2: int, d: Dir|
            pat6_wf(s2, g2) && pat6_complete(s2) && vis0.contains(pack7_of(s2, g2))
                ==> #[trigger] frontier_edge_ok(vis0, lvl0, curr0, next0, depth, s2, g2, d),
    ensures
        forall|s2: Seq<u8>, g2: int, d: Dir|
            pat6_wf(s2, g2) && pat6_complete(s2) && vis0.insert(
                pack7_of(p.sview(), p.gap()),
            ).contains(pack7_of(s2, g2)) ==> #[trigger] frontier_edge_ok(
                vis0.insert(pack7_of(p.sview(), p.gap())),
                lvl0.insert(pack7_of(p.sview(), p.gap()), depth),
                curr1,
                next1,
                depth,
                s2,
                g2,
                d,
            ),
{
    let kp = pack7_of(p.sview(), p.gap());
    let vis1 = vis0.insert(kp);
    let lvl1 = lvl0.insert(kp, depth);
    assert forall|s2: Seq<u8>, g2: int, d: Dir|
        pat6_wf(s2, g2) && pat6_complete(s2) && vis1.contains(pack7_of(s2, g2))
            implies #[trigger] frontier_edge_ok(vis1, lvl1, curr1, next1, depth, s2, g2, d) by {
        let key = pack7_of(s2, g2);
        if crate::cells::step_spec(g2, d) is Some {
            let a = crate::cells::step_spec(g2, d)->Some_0;
            let s3 = s2.update(g2, s2[a]).update(a, 0u8);
            let key3 = pack7_of(s3, a);
            if key == kp {
                // the freshly processed state: its successors were just
                // enqueued; pinned to `p` by the injective packing
                lemma_pack7_injective(s2, g2, p.sview(), p.gap());
                assert(s2 =~= p.sview());
                assert(g2 == p.gap());
                assert(lvl1[key] == depth);
                if s2[a] == 7 {
                    assert(in_queue(curr1, s3, a));
                } else {
                    assert(in_queue(next1, s3, a));
                }
            } else {
                assert(vis0.contains(key));
                assert(frontier_edge_ok(vis0, lvl0, curr0, next0, depth, s2, g2, d));
                assert(lvl1[key] == lvl0[key]);
                if vis0.contains(key3) {
                    assert(lvl1[key3] == lvl0[key3]);
                } else if in_queue(curr0, s3, a) && !in_queue(curr1, s3, a) {
                    // the lost witness was `p`, now visited at this level
                    let k = choose|k: int|
                        0 <= k < curr0.len() && (#[trigger] curr0[k]).sview() == s3
                            && curr0[k].gap() == a;
                    if k < curr0.len() - 1 {
                        assert(curr1[k] == curr0[k]);
                        assert(in_queue(curr1, s3, a));
                        assert(false);
                    }
                    assert(curr0[k] == p);
                    assert(key3 == kp);
                    assert(vis1.contains(key3) && lvl1[key3] == depth);
                }
            }
        }
    }
}

/// Once every queue is drained (or the path is short enough never to
/// meet the frontier), every reachable state is visited at a level no
/// greater than the path's counted cost from a visited start.
proof fn lemma_build_levels_cover(
    vis: Set<int>,
    lvl: Map<int, int>,
    curr: Seq<Pattern6Puzzle>,
    next: Seq<Pattern6Puzzle>,
    depth: int,
    s0: Seq<u8>,
    g0: int,
    q: Seq<Dir>,
)
    requires
        pat6_wf(s0, g0),
        pat6_complete(s0),
        vis.contains(pack7_of(s0, g0)),
        lvl.dom() =~= vis,
        forall|key: int| #[trigger] lvl.dom().contains(key) ==> 0 <= lvl[key] <= depth,
        forall|s2: Seq<u8>, g2: int, d: Dir|
            pat6_wf(s2, g2) && pat6_complete(s2) && vis.contains(pack7_of(s2, g2))
                ==> #[trigger] frontier_edge_ok(vis, lvl, curr, next, depth, s2, g2, d),
        crate::search::apply_gap_path(s0, q) is Some,
        lvl[pack7_of(s0, g0)] + relevant_cost(s0, q) <= depth - 1 || (curr.len() == 0
            && next.len() == 0),
    ensures
        ({
            let e = crate::search::apply_gap_path(s0, q)->Some_0;
            let ge = crate::search::gap_of(e);
            &&& pat6_wf(e, ge)
            &&& pat6_complete(e)
            &&& vis.contains(pack7_of(e, ge))
            &&& lvl[pack7_of(e, ge)] <= lvl[pack7_of(s0, g0)] + relevant_cost(s0, q)
        }),
    decreases q.len(),
{
    lemma_pat_gap_of(s0, g0);
    if q.len() == 0 {
        assert(crate::search::apply_gap_path(s0, q)->Some_0 == s0);
    } else {
        let d = q[0];
        assert(crate::search::gap_step_ok(s0, d));
        reveal(crate::search::gap_step_ok);
        reveal(crate::search::gap_step);
        let a = crate::cells::step_spec(g0, d)->Some_0;
        let s1 = crate::search::gap_step(s0, d);
        assert(s1 == s0.update(g0, s0[a]).update(a, 0u8));
        let edge: int = if s0[a] != 7 {
            1
        } else {
            0
        };
        assert(relevant_cost(s0, q) == edge + relevant_cost(s1, q.drop_first()));
        lemma_pat_step_preserves(s0, g0, d);
        assert(frontier_edge_ok(vis, lvl, curr, next, depth, s0, g0, d));
        let key0 = pack7_of(s0, g0);
        let key1 = pack7_of(s1, a);
        assert(vis.contains(key1) && lvl[key1] <= lvl[key0] + edge) by {
            assert(relevant_cost(s1, q.drop_first()) >= 0) by {
                lemma_relevant_cost_nonneg(s1, q.drop_first());
            }
        }
        lemma_build_levels_cover(vis, lvl, curr, next, depth, s1, a, q.drop_first());
    }
}

/// A counted cost is never negative.
proof fn lemma_relevant_cost_nonneg(s: Seq<u8>, q: Seq<Dir>)
    ensures
        relevant_cost(s, q) >= 0,
    decreases q.len(),
{
    if q.len() > 0 {
        lemma_relevant_cost_nonneg(crate::search::gap_step(s, q[0]), q.drop_first());
    }
}

/// Moves one successor of `p` into the right queue: a move swapping a
/// tracked tile costs one step and belongs to the next depth; a move
/// swapping the sentinel is free and stays at the current depth.
fn enqueue_successor(
    p: &Pattern6Puzzle,
    dir: Dir,
    curr_queue: &mut Vec<Pattern6Puzzle>,
    next_queue: &mut Vec<Pattern6Puzzle>,
)
    requires
        p.wf(),
        pat6_complete(p.sview()),
        forall|i: int|
            0 <= i < old(curr_queue)@.len() ==> (#[trigger] old(curr_queue)@[i]).wf()
                && pat6_complete(old(curr_queue)@[i].sview()),
        forall|i: int|
            0 <= i < old(next_queue)@.len() ==> (#[trigger] old(next_queue)@[i]).wf()
                && pat6_complete(old(next_queue)@[i].sview()),
    ensures
        forall|i: int|
            0 <= i < final(curr_queue)@.len() ==> pat6_complete(
                (#[trigger] final(curr_queue)@[i]).sview(),
            ),
        forall|i: int|
            0 <= i < final(next_queue)@.len() ==> pat6_complete(
                (#[trigger] final(next_queue)@[i]).sview(),
            ),
        final(curr_queue)@.len() >= old(curr_queue)@.len(),
        final(next_queue)@.len() >= old(next_queue)@.len(),
        final(curr_queue)@.len() + final(next_queue)@.len() <= old(curr_queue)@.len() + old(
            next_queue,
        )@.len() + 1,
        crate::cells::step_spec(p.gap(), dir) is Some ==> final(curr_queue)@.len() > old(
            curr_queue,
        )@.len() || final(next_queue)@.len() > old(next_queue)@.len(),
        forall|i: int|
            0 <= i < old(curr_queue)@.len() ==> final(curr_queue)@[i] == #[trigger] old(
                curr_queue,
            )@[i],
        forall|i: int|
            0 <= i < old(next_queue)@.len() ==> final(next_queue)@[i] == #[trigger] old(
                next_queue,
            )@[i],
        forall|i: int| 0 <= i < final(curr_queue)@.len() ==> (#[trigger] final(curr_queue)@[i]).wf(),
        forall|i: int| 0 <= i < final(next_queue)@.len() ==> (#[trigger] final(next_queue)@[i]).wf(),
        final(curr_queue)@.len() > old(curr_queue)@.len() ==> ({
            let adj = crate::cells::step_spec(p.gap(), dir)->Some_0;
            let e = final(curr_queue)@.last();
            &&& crate::cells::step_spec(p.gap(), dir) is Some
            &&& p.sview()[adj] == 7
            &&& e.sview() == p.sview().update(p.gap(), p.sview()[adj]).update(adj, 0u8)
            &&& e.gap() == adj
            &&& final(next_queue)@ == old(next_queue)@
        }),
        final(next_queue)@.len() > old(next_queue)@.len() ==> ({
            let adj = crate::cells::step_spec(p.gap(), dir)->Some_0;
            let e = final(next_queue)@.last();
            &&& crate::cells::step_spec(p.gap(), dir) is Some
            &&& p.sview()[adj] != 7
            &&& p.sview()[adj] != 0
            &&& e.sview() == p.sview().update(p.gap(), p.sview()[adj]).update(adj, 0u8)
            &&& e.gap() == adj
            &&& final(curr_queue)@ == old(curr_queue)@
        }),
{
    if let Some(pair) = p.step_inv(dir) {
        let (next_p, is_pattern_tile) = pair;
        proof {
            lemma_pat_step_preserves(p.sview(), p.gap(), dir);
        }
        if is_pattern_tile {
            // count the move: it belongs to the next depth
            next_queue.push(next_p);
        } else {
            // a free move: same depth
            curr_queue.push(next_p);
        }
    }
}

impl Pattern6Puzzle {
    /// Builds the distance table of this pattern's goal state: a
    /// breadth-first search over the reduced space, counting only moves
    /// that swap a tracked tile (the gap wanders through sentinel cells
    /// for free). Each table entry is written at most once, on the first
    /// arrival at its 6-tile placement; 0xFF marks entries no arrival
    /// reached. Levels are explored in rising order below the 0xFF
    /// sentinel, so a recorded depth can never be mistaken for
    /// "unvisited" (no 6-tile pattern space comes near that diameter).
    /// The builder is a one-time, minutes-long batch computation.
    ///
    /// The contract pins the table down. It has one entry for each
    /// 6-tile packing; the entry is 0 exactly at this (goal) state's
    /// packing; every recorded entry is the counted cost of an actual
    /// move sequence from the goal to a state with that packing, so no
    /// entry undercuts the true distance; and conversely no recorded
    /// entry exceeds the counted cost of any such sequence, while every
    /// placement reachable within the byte ceiling is recorded. Each
    /// entry is therefore exactly the minimum counted cost of reaching
    /// its placement: the table is an admissible, tight heuristic table.
    pub fn build_pattern_db(&self) -> (r: Vec<u8>)
        requires
            self.wf(),
            pat6_complete(self.sview()),
        ensures
            r@.len() == 244140625,
            r@[pack6_of(self.sview())] == 0,
            forall|i: int|
                0 <= i < 244140625 ==> ((#[trigger] r@[i] == 0) <==> i == pack6_of(self.sview())),
            forall|i: int|
                0 <= i < 244140625 && #[trigger] r@[i] != 0xFF ==> cost_reachable(
                    self.sview(),
                    i,
                    r@[i] as int,
                ),
            forall|i: int, k: int|
                0 <= i < 244140625 && #[trigger] cost_reachable(self.sview(), i, k) && 0 <= k
                    ==> ((k <= 253 ==> r@[i] != 0xFF) && (r@[i] != 0xFF ==> r@[i] <= k)),
    {
        let ghost start = *self;
        let ghost idx0 = pack6_of(self.sview());
        proof {
            lemma_pack6_bound(self.sview());
            lemma_pack7_bound(self.sview(), self.gap());
            lemma_pow25_values();
        }
        let mut distances: Vec<u8> = vec![0xFFu8; 244140625];
        // the dedup set is keyed on tiles and gap: 25^7 states
        let mut visited: BitSet = BitSet::new(6103515625);
        let mut depth: u8 = 0;
        // the queue at the current depth
        let mut curr_queue: Vec<Pattern6Puzzle> = Vec::new();
        curr_queue.push(*self);
        // the queue at the next depth
        let mut next_queue: Vec<Pattern6Puzzle> = Vec::new();
        let ghost cap = visited.spec_capacity();
        // the level at which each visited key was recorded
        let mut lvl_g: Ghost<Map<int, int>> = Ghost(Map::empty());
        proof {
            assert(lvl_g@.dom() =~= visited@);
            vstd::set_lib::lemma_int_range(0, cap);
            assert(distances@[idx0] == 0xFF);
            assert(curr_queue@[0] == start);
            // the start state is reached by the empty path at cost 0
            assert(relevant_cost(start.sview(), Seq::<Dir>::empty()) == 0);
            assert(crate::search::apply_gap_path(start.sview(), Seq::<Dir>::empty()) == Some(
                start.sview(),
            ));
            assert(entry_reached(start.sview(), start, 0));
        }
        while curr_queue.len() > 0 && depth < 255
            invariant
                start.wf(),
                pat6_complete(start.sview()),
                idx0 == pack6_of(start.sview()),
                0 <= idx0 < 244140625,
                distances@.len() == 244140625,
                visited.spec_capacity() == cap,
                cap >= 6103515625,
                visited@.finite(),
                visited@.len() <= cap,
                visited@.subset_of(vstd::set_lib::set_int_range(0, cap)),
                next_queue@.len() == 0,
                forall|i: int|
                    0 <= i < curr_queue@.len() ==> (#[trigger] curr_queue@[i]).wf()
                        && pat6_complete(curr_queue@[i].sview()),
                forall|i: int| 0 <= i < 244140625 && i != idx0 ==> #[trigger] distances@[i] != 0,
                forall|i: int|
                    0 <= i < 244140625 && #[trigger] distances@[i] != 0xFF ==> cost_reachable(
                        start.sview(),
                        i,
                        distances@[i] as int,
                    ),
                forall|k: int|
                    0 <= k < curr_queue@.len() ==> entry_reached(
                        start.sview(),
                        #[trigger] curr_queue@[k],
                        depth as int,
                    ),
                depth == 0 ==> forall|k: int|
                    0 <= k < curr_queue@.len() ==> pack6_of(
                        (#[trigger] curr_queue@[k]).sview(),
                    ) == idx0,
                distances@[idx0] == 0 || (depth == 0 && distances@[idx0] == 0xFF
                    && !visited@.contains(pack7_of(start.sview(), start.gap()))
                    && exists|i: int| 0 <= i < curr_queue@.len() && curr_queue@[i] == start),
                lvl_g@.dom() =~= visited@,
                forall|key: int|
                    #[trigger] lvl_g@.dom().contains(key) ==> 0 <= lvl_g@[key] <= depth as int,
                forall|i: int|
                    0 <= i < 244140625 && #[trigger] distances@[i] != 0xFF ==> distances@[i]
                        <= depth,
                forall|s2: Seq<u8>, g2: int|
                    pat6_wf(s2, g2) && pat6_complete(s2) && visited@.contains(
                        #[trigger] pack7_of(s2, g2),
                    ) ==> 0 <= pack6_of(s2) < 244140625 && distances@[pack6_of(s2)] != 0xFF
                        && distances@[pack6_of(s2)] <= lvl_g@[pack7_of(s2, g2)],
                forall|s2: Seq<u8>, g2: int, d: Dir|
                    pat6_wf(s2, g2) && pat6_complete(s2) && visited@.contains(pack7_of(s2, g2))
                        ==> #[trigger] frontier_edge_ok(
                        visited@,
                        lvl_g@,
                        curr_queue@,
                        next_queue@,
                        depth as int,
                        s2,
                        g2,
                        d,
                    ),
                visited@.contains(pack7_of(start.sview(), start.gap())) ==> lvl_g@[pack7_of(
                    start.sview(),
                    start.gap(),
                )] == 0,
                visited@.contains(pack7_of(start.sview(), start.gap())) || (depth == 0 && exists|
                    i: int,
                |
                    0 <= i < curr_queue@.len() && curr_queue@[i] == start),
            decreases cap - visited@.len(), curr_queue@.len(),
        {
            let ghost vis_head = visited@;
            let ghost curr_head = curr_queue@;
            while curr_queue.len() > 0
                invariant
                    start.wf(),
                    pat6_complete(start.sview()),
                    depth < 255,
                    idx0 == pack6_of(start.sview()),
                    0 <= idx0 < 244140625,
                    distances@.len() == 244140625,
                    visited.spec_capacity() == cap,
                    cap >= 6103515625,
                    visited@.finite(),
                    visited@.len() <= cap,
                    visited@.subset_of(vstd::set_lib::set_int_range(0, cap)),
                    visited@ == vis_head || vis_head.len() < visited@.len(),
                    visited@ == vis_head ==> next_queue@.len() == 0 && (curr_queue@ == curr_head
                        || curr_queue@.len() < curr_head.len()),
                    forall|i: int|
                        0 <= i < curr_queue@.len() ==> (#[trigger] curr_queue@[i]).wf()
                            && pat6_complete(curr_queue@[i].sview()),
                    forall|i: int|
                        0 <= i < next_queue@.len() ==> (#[trigger] next_queue@[i]).wf()
                            && pat6_complete(next_queue@[i].sview()),
                    forall|i: int|
                        0 <= i < 244140625 && i != idx0 ==> #[trigger] distances@[i] != 0,
                    forall|i: int|
                        0 <= i < 244140625 && #[trigger] distances@[i] != 0xFF ==> cost_reachable(
                            start.sview(),
                            i,
                            distances@[i] as int,
                        ),
                    forall|k: int|
                        0 <= k < curr_queue@.len() ==> entry_reached(
                            start.sview(),
                            #[trigger] curr_queue@[k],
                            depth as int,
                        ),
                    forall|k: int|
                        0 <= k < next_queue@.len() ==> entry_reached(
                            start.sview(),
                            #[trigger] next_queue@[k],
                            depth as int + 1,
                        ),
                    depth == 0 ==> forall|k: int|
                        0 <= k < curr_queue@.len() ==> pack6_of(
                            (#[trigger] curr_queue@[k]).sview(),
                        ) == idx0,
                    distances@[idx0] == 0 || (depth == 0 && distances@[idx0] == 0xFF
                        && !visited@.contains(pack7_of(start.sview(), start.gap()))
                        && exists|i: int| 0 <= i < curr_queue@.len() && curr_queue@[i] == start),
                    lvl_g@.dom() =~= visited@,
                    forall|key: int|
                        #[trigger] lvl_g@.dom().contains(key) ==> 0 <= lvl_g@[key]
                            <= depth as int,
                    forall|i: int|
                        0 <= i < 244140625 && #[trigger] distances@[i] != 0xFF ==> distances@[i]
                            <= depth,
                    forall|s2: Seq<u8>, g2: int|
                        pat6_wf(s2, g2) && pat6_complete(s2) && visited@.contains(
                            #[trigger] pack7_of(s2, g2),
                        ) ==> 0 <= pack6_of(s2) < 244140625 && distances@[pack6_of(s2)] != 0xFF
                            && distances@[pack6_of(s2)] <= lvl_g@[pack7_of(s2, g2)],
                    forall|s2: Seq<u8>, g2: int, d: Dir|
                        pat6_wf(s2, g2) && pat6_complete(s2) && visited@.contains(
                            pack7_of(s2, g2),
                        ) ==> #[trigger] frontier_edge_ok(
                            visited@,
                            lvl_g@,
                            curr_queue@,
                            next_queue@,
                            depth as int,
                            s2,
                            g2,
                            d,
                        ),
                    visited@.contains(pack7_of(start.sview(), start.gap())) ==> lvl_g@[pack7_of(
                        start.sview(),
                        start.gap(),
                    )] == 0,
                    visited@.contains(pack7_of(start.sview(), start.gap())) || (depth == 0
                        && exists|i: int|
                        0 <= i < curr_queue@.len() && curr_queue@[i] == start),
                decreases cap - visited@.len(), curr_queue@.len(),
            {
                proof {
                    lemma_pow25_values();
                }
                let ghost curr0 = curr_queue@;
                let p = curr_queue.pop().unwrap();
                // the placement of the 6 tracked tiles: the table index
                let num_u32 = p.to_u32();
                // tiles and gap together: the dedup key
                let num_u64 = Pattern7Packing::from_u32(num_u32, p.gap_cell);
                proof {
                    lemma_pack7_bound(p.sview(), p.gap());
                }
                let ghost vis0 = visited@;
                let ghost dist0 = distances@;
                let is_new = visited.insert_unchecked(num_u64.value());
                proof {
                    vstd::set::axiom_set_insert_len(vis0, pack7_of(p.sview(), p.gap()));
                    vstd::set_lib::lemma_int_range(0, cap);
                    assert(visited@.subset_of(vstd::set_lib::set_int_range(0, cap)));
                    vstd::set_lib::lemma_len_subset(
                        visited@,
                        vstd::set_lib::set_int_range(0, cap),
                    );
                    lemma_pack6_bound(p.sview());
                }
                if is_new {
                    let ghost lvl0 = lvl_g@;
                    let ghost kp = pack7_of(p.sview(), p.gap());
                    proof {
                        assert(curr0.last() == p);
                        if depth == 0 {
                            assert(pack6_of(p.sview()) == idx0);
                        }
                        assert(entry_reached(start.sview(), p, depth as int));
                        lvl_g@ = lvl_g@.insert(kp, depth as int);
                        assert(lvl_g@.dom() =~= visited@);
                    }
                    let di = num_u32.value() as usize;
                    if distances[di] == 0xFF {
                        distances[di] = depth;
                    }
                    proof {
                        assert(p.wf() && pat6_complete(p.sview()));
                        assert(visited@ =~= vis0.insert(kp));
                        assert(depth < 255);
                        assert(di as int == pack6_of(p.sview()));
                        assert(distances@[pack6_of(p.sview())] != 0xFF);
                        assert(distances@[pack6_of(p.sview())] <= depth) by {
                            if dist0[pack6_of(p.sview())] != 0xFF {
                                assert(dist0[pack6_of(p.sview())] <= depth);
                            }
                        }
                        assert(lvl_g@[kp] == depth as int);
                        // the level record of every visited state still
                        // bounds its table entry
                        assert forall|s2: Seq<u8>, g2: int|
                            pat6_wf(s2, g2) && pat6_complete(s2) && visited@.contains(
                                #[trigger] pack7_of(s2, g2),
                            ) implies 0 <= pack6_of(s2) < 244140625 && distances@[pack6_of(s2)]
                            != 0xFF && distances@[pack6_of(s2)] <= lvl_g@[pack7_of(s2, g2)] by {
                            if pack7_of(s2, g2) == kp {
                                lemma_pack7_injective(s2, g2, p.sview(), p.gap());
                                assert(s2 == p.sview());
                                assert(pack6_of(s2) == pack6_of(p.sview()));
                            } else {
                                assert(vis0.contains(pack7_of(s2, g2)));
                                assert(dist0[pack6_of(s2)] != 0xFF);
                                assert(dist0[pack6_of(s2)] <= lvl0[pack7_of(s2, g2)]);
                                assert(distances@[pack6_of(s2)] == dist0[pack6_of(s2)]);
                                assert(lvl_g@[pack7_of(s2, g2)] == lvl0[pack7_of(s2, g2)]);
                            }
                        }
                        // the written entry is the cost at which this
                        // state was reached
                        let path_p = choose|path: Seq<Dir>|
                            #![trigger relevant_cost(start.sview(), path)]
                            crate::search::apply_gap_path(start.sview(), path) == Some(p.sview())
                                && relevant_cost(start.sview(), path) == depth as int;
                        assert(cost_reachable(start.sview(), pack6_of(p.sview()), depth as int));
                        // entries away from the goal's index stay nonzero:
                        // a write at the goal's index is the only way to
                        // write 0, since any other index is written at a
                        // positive depth
                        assert forall|i: int|
                            0 <= i < 244140625 && i != idx0 implies #[trigger] distances@[i]
                            != 0 by {
                            if i == pack6_of(p.sview()) {
                                assert(depth != 0);
                            } else {
                                assert(distances@[i] == dist0[i]);
                            }
                        }
                        lemma_builder_entry_preserved(
                            dist0,
                            distances@,
                            vis0,
                            visited@,
                            curr0,
                            curr_queue@,
                            start,
                            p,
                            depth,
                        );
                    }
                    let ghost currq = curr_queue@;
                    let ghost nq = next_queue@;
                    enqueue_successor(&p, Dir::UP, &mut curr_queue, &mut next_queue);
                    proof {
                        if depth == 0 {
                            lemma_enqueued_keeps_goal_packing(p, Dir::UP, currq, curr_queue@, idx0);
                        }
                        lemma_enqueued_entry_reached(
                            start.sview(), p, Dir::UP, currq, curr_queue@, nq, next_queue@,
                            depth as int,
                        );
                    }
                    let ghost c1 = curr_queue@;
                    let ghost n1 = next_queue@;
                    enqueue_successor(&p, Dir::RIGHT, &mut curr_queue, &mut next_queue);
                    proof {
                        if depth == 0 {
                            lemma_enqueued_keeps_goal_packing(p, Dir::RIGHT, c1, curr_queue@, idx0);
                        }
                        lemma_enqueued_entry_reached(
                            start.sview(), p, Dir::RIGHT, c1, curr_queue@, n1, next_queue@,
                            depth as int,
                        );
                    }
                    let ghost c2 = curr_queue@;
                    let ghost n2 = next_queue@;
                    enqueue_successor(&p, Dir::DOWN, &mut curr_queue, &mut next_queue);
                    proof {
                        if depth == 0 {
                            lemma_enqueued_keeps_goal_packing(p, Dir::DOWN, c2, curr_queue@, idx0);
                        }
                        lemma_enqueued_entry_reached(
                            start.sview(), p, Dir::DOWN, c2, curr_queue@, n2, next_queue@,
                            depth as int,
                        );
                    }
                    let ghost c3 = curr_queue@;
                    let ghost n3 = next_queue@;
                    enqueue_successor(&p, Dir::LEFT, &mut curr_queue, &mut next_queue);
                    proof {
                        if depth == 0 {
                            lemma_enqueued_keeps_goal_packing(p, Dir::LEFT, c3, curr_queue@, idx0);
                        }
                        lemma_enqueued_entry_reached(
                            start.sview(), p, Dir::LEFT, c3, curr_queue@, n3, next_queue@,
                            depth as int,
                        );
                        if distances@[idx0] != 0 {
                            let w = choose|i: int| 0 <= i < currq.len() && currq[i] == start;
                            assert(curr_queue@[w] == start);
                        }
                        // all four successors sit in their queues now
                        assert forall|d: Dir|
                            #![trigger crate::cells::step_spec(p.gap(), d)]
                            crate::cells::step_spec(p.gap(), d) is Some implies ({
                            let a = crate::cells::step_spec(p.gap(), d)->Some_0;
                            let s3 = p.sview().update(p.gap(), p.sview()[a]).update(a, 0u8);
                            if p.sview()[a] == 7 {
                                in_queue(curr_queue@, s3, a)
                            } else {
                                in_queue(next_queue@, s3, a)
                            }
                        }) by {
                            let a = crate::cells::step_spec(p.gap(), d)->Some_0;
                            let s3 = p.sview().update(p.gap(), p.sview()[a]).update(a, 0u8);
                            match d {
                                Dir::UP => {
                                    if p.sview()[a] == 7 {
                                        assert(c1[c1.len() - 1].sview() == s3);
                                        assert(in_queue(curr_queue@, s3, a));
                                    } else {
                                        assert(n1[n1.len() - 1].sview() == s3);
                                        assert(in_queue(next_queue@, s3, a));
                                    }
                                },
                                Dir::RIGHT => {
                                    if p.sview()[a] == 7 {
                                        assert(c2[c2.len() - 1].sview() == s3);
                                        assert(in_queue(curr_queue@, s3, a));
                                    } else {
                                        assert(n2[n2.len() - 1].sview() == s3);
                                        assert(in_queue(next_queue@, s3, a));
                                    }
                                },
                                Dir::DOWN => {
                                    if p.sview()[a] == 7 {
                                        assert(c3[c3.len() - 1].sview() == s3);
                                        assert(in_queue(curr_queue@, s3, a));
                                    } else {
                                        assert(n3[n3.len() - 1].sview() == s3);
                                        assert(in_queue(next_queue@, s3, a));
                                    }
                                },
                                Dir::LEFT => {
                                    if p.sview()[a] == 7 {
                                        assert(curr_queue@.last().sview() == s3);
                                        assert(in_queue(curr_queue@, s3, a));
                                    } else {
                                        assert(next_queue@.last().sview() == s3);
                                        assert(in_queue(next_queue@, s3, a));
                                    }
                                },
                            }
                        }
                        assert(currq =~= curr0.drop_last());
                        assert forall|k: int|
                            0 <= k < curr0.len() - 1 implies curr_queue@[k]
                                == #[trigger] curr0[k] by {
                            assert(currq[k] == curr0[k]);
                            assert(c1[k] == currq[k]);
                            assert(c2[k] == c1[k]);
                            assert(c3[k] == c2[k]);
                            assert(curr_queue@[k] == c3[k]);
                        }
                        assert forall|k: int|
                            0 <= k < nq.len() implies next_queue@[k] == #[trigger] nq[k] by {
                            assert(n1[k] == nq[k]);
                            assert(n2[k] == n1[k]);
                            assert(n3[k] == n2[k]);
                            assert(next_queue@[k] == n3[k]);
                        }
                        lemma_frontier_after_insert(
                            vis0,
                            lvl0,
                            curr0,
                            curr_queue@,
                            nq,
                            next_queue@,
                            depth as int,
                            p,
                        );
                        assert(visited@ =~= vis0.insert(kp));
                        assert(lvl_g@ =~= lvl0.insert(kp, depth as int));
                        // the start state's coverage and zero level
                        if kp == pack7_of(start.sview(), start.gap()) {
                            if !vis0.contains(kp) {
                                assert(depth == 0) by {
                                    if depth != 0 {
                                        assert(exists|i: int|
                                            0 <= i < curr0.len() && curr0[i] == start);
                                    }
                                }
                            }
                            assert(lvl_g@[kp] == 0);
                        }
                        if !visited@.contains(pack7_of(start.sview(), start.gap())) && depth
                            == 0 {
                            let w = choose|i: int| 0 <= i < curr0.len() && curr0[i] == start;
                            if w == curr0.len() - 1 {
                                assert(curr0[w] == p);
                                assert(false);
                            }
                            assert(curr_queue@[w] == start);
                        }
                    }
                } else {
                    proof {
                        lemma_builder_entry_preserved_old(
                            dist0,
                            vis0,
                            visited@,
                            curr0,
                            curr_queue@,
                            start,
                            p,
                            depth,
                        );
                        assert(visited@ =~= vis0);
                        lemma_frontier_after_dup(
                            visited@,
                            lvl_g@,
                            curr0,
                            next_queue@,
                            depth as int,
                            p,
                        );
                        assert(curr_queue@ =~= curr0.drop_last());
                        if !visited@.contains(pack7_of(start.sview(), start.gap())) && depth
                            == 0 {
                            let w = choose|i: int| 0 <= i < curr0.len() && curr0[i] == start;
                            if w == curr0.len() - 1 {
                                assert(curr0[w] == p);
                                assert(visited@.contains(pack7_of(start.sview(), start.gap())));
                                assert(false);
                            }
                            assert(curr_queue@[w] == start);
                        }
                    }
                }
            }
            proof {
                // the start state is no longer queued, so its entry is
                // written by now
                assert(distances@[idx0] == 0);
            }
            // the loop condition keeps every written depth below the
            // 0xFF sentinel; no real pattern's diameter comes near it
            let ghost prev_depth = depth as int;
            let ghost prev_curr = curr_queue@;
            let ghost prev_next = next_queue@;
            depth = depth + 1;
            curr_queue = next_queue;
            next_queue = Vec::new();
            proof {
                // the drained level's frontier facts carry to the next
                // level: its pending queue becomes the current one
                assert forall|s2: Seq<u8>, g2: int, d: Dir|
                    pat6_wf(s2, g2) && pat6_complete(s2) && visited@.contains(pack7_of(s2, g2))
                        implies #[trigger] frontier_edge_ok(
                        visited@,
                        lvl_g@,
                        curr_queue@,
                        next_queue@,
                        depth as int,
                        s2,
                        g2,
                        d,
                    ) by {
                    assert(frontier_edge_ok(
                        visited@,
                        lvl_g@,
                        prev_curr,
                        prev_next,
                        prev_depth,
                        s2,
                        g2,
                        d,
                    ));
                    assert(prev_curr.len() == 0);
                }
            }
        }
        proof {
            let sv = start.sview();
            let gv = start.gap();
            let k0 = pack7_of(sv, gv);
            // the start state was visited at level zero: the first level
            // drains it before the loop can end
            assert(visited@.contains(k0)) by {
                if !visited@.contains(k0) {
                    assert(depth == 0);
                    assert(curr_queue@.len() == 0);
                    let w = choose|i: int|
                        0 <= i < curr_queue@.len() && curr_queue@[i] == start;
                    assert(false);
                }
            }
            assert(lvl_g@[k0] == 0);
            // every placement reached at some counted cost is recorded at
            // no more than that cost (deep costs past the byte ceiling
            // can at worst be left unvisited)
            assert forall|i: int, k: int|
                0 <= i < 244140625 && #[trigger] cost_reachable(sv, i, k) && 0 <= k implies ((k
                <= 253 ==> distances@[i] != 0xFF) && (distances@[i] != 0xFF ==> distances@[i]
                <= k)) by {
                if k <= 253 {
                    let q = choose|q: Seq<Dir>|
                        #![trigger relevant_cost(sv, q)]
                        crate::search::apply_gap_path(sv, q) is Some && pack6_of(
                            crate::search::apply_gap_path(sv, q)->Some_0,
                        ) == i && relevant_cost(sv, q) == k;
                    assert(lvl_g@[k0] + relevant_cost(sv, q) <= depth as int - 1 || (
                    curr_queue@.len() == 0 && next_queue@.len() == 0)) by {
                        if curr_queue@.len() > 0 {
                            assert(depth == 255);
                        }
                    }
                    lemma_build_levels_cover(
                        visited@,
                        lvl_g@,
                        curr_queue@,
                        next_queue@,
                        depth as int,
                        sv,
                        gv,
                        q,
                    );
                    let e = crate::search::apply_gap_path(sv, q)->Some_0;
                    let ge = crate::search::gap_of(e);
                    assert(visited@.contains(pack7_of(e, ge)));
                    assert(distances@[pack6_of(e)] != 0xFF && distances@[pack6_of(e)]
                        <= lvl_g@[pack7_of(e, ge)]);
                    assert(pack6_of(e) == i);
                } else {
                    if distances@[i] != 0xFF {
                        assert(distances@[i] <= 254);
                    }
                }
            }
        }
        distances
    }
}

/// After a fresh arrival is recorded, the goal entry's invariant of the
/// builder still holds.
proof fn lemma_builder_entry_preserved(
    dist0: Seq<u8>,
    dist1: Seq<u8>,
    vis0: Set<int>,
    vis1: Set<int>,
    curr0: Seq<Pattern6Puzzle>,
    curr1: Seq<Pattern6Puzzle>,
    start: Pattern6Puzzle,
    p: Pattern6Puzzle,
    depth: u8,
)
    requires
        start.wf(),
        p.wf(),
        dist0.len() == 244140625,
        0 <= pack6_of(start.sview()) < 244140625,
        curr0.len() > 0,
        curr0.last() == p,
        curr1 == curr0.drop_last(),
        vis1 == vis0.insert(pack7_of(p.sview(), p.gap())),
        dist1 == (if dist0[pack6_of(p.sview())] == 0xFF {
            dist0.update(pack6_of(p.sview()), depth)
        } else {
            dist0
        }),
        dist0[pack6_of(start.sview())] == 0 || (depth == 0 && dist0[pack6_of(start.sview())]
            == 0xFF && !vis0.contains(pack7_of(start.sview(), start.gap())) && exists|i: int|
            0 <= i < curr0.len() && curr0[i] == start),
    ensures
        dist1[pack6_of(start.sview())] == 0 || (depth == 0 && dist1[pack6_of(start.sview())]
            == 0xFF && !vis1.contains(pack7_of(start.sview(), start.gap())) && exists|i: int|
            0 <= i < curr1.len() && curr1[i] == start),
{
    let idx0 = pack6_of(start.sview());
    let dip = pack6_of(p.sview());
    let k0 = pack7_of(start.sview(), start.gap());
    let kp = pack7_of(p.sview(), p.gap());
    lemma_pack6_bound(p.sview());
    lemma_pack6_bound(start.sview());
    lemma_pow25_values();
    if dist0[idx0] == 0 {
        assert(dist1[idx0] == 0);
    } else {
        // the start state is still unrecorded and queued
        if kp == k0 {
            // the popped state shares the start's table index, and at
            // depth 0 the write records distance 0 there
            lemma_pack7_determines_pack6(p.sview(), p.gap(), start.sview(), start.gap());
            assert(dist1[idx0] == 0);
        } else if dip == idx0 {
            assert(dist1[idx0] == 0);
        } else {
            let w = choose|i: int| 0 <= i < curr0.len() && curr0[i] == start;
            if w == curr0.len() - 1 {
                assert(p == start);
                assert(false);
            }
            assert(curr1[w] == start);
        }
    }
}

/// After a duplicate arrival is skipped, the goal entry's invariant of
/// the builder still holds.
proof fn lemma_builder_entry_preserved_old(
    dist0: Seq<u8>,
    vis0: Set<int>,
    vis1: Set<int>,
    curr0: Seq<Pattern6Puzzle>,
    curr1: Seq<Pattern6Puzzle>,
    start: Pattern6Puzzle,
    p: Pattern6Puzzle,
    depth: u8,
)
    requires
        start.wf(),
        p.wf(),
        curr0.len() > 0,
        curr0.last() == p,
        curr1 == curr0.drop_last(),
        vis0.contains(pack7_of(p.sview(), p.gap())),
        vis1 == vis0.insert(pack7_of(p.sview(), p.gap())),
        dist0[pack6_of(start.sview())] == 0 || (depth == 0 && dist0[pack6_of(start.sview())]
            == 0xFF && !vis0.contains(pack7_of(start.sview(), start.gap())) && exists|i: int|
            0 <= i < curr0.len() && curr0[i] == start),
    ensures
        dist0[pack6_of(start.sview())] == 0 || (depth == 0 && dist0[pack6_of(start.sview())]
            == 0xFF && !vis1.contains(pack7_of(start.sview(), start.gap())) && exists|i: int|
            0 <= i < curr1.len() && curr1[i] == start),
{
    let idx0 = pack6_of(start.sview());
    let k0 = pack7_of(start.sview(), start.gap());
    let kp = pack7_of(p.sview(), p.gap());
    if dist0[idx0] != 0 {
        // the popped duplicate cannot be the start state: the start's
        // key is still unvisited
        assert(kp != k0);
        let w = choose|i: int| 0 <= i < curr0.len() && curr0[i] == start;
        if w == curr0.len() - 1 {
            assert(kp == k0);
            assert(false);
        }
        assert(curr1[w] == start);
        assert(vis1 =~= vis0.insert(kp));
        assert(!vis1.contains(k0));
    }
}

/// The combination step keeps admissibility: when each partition's
/// lookup sum is a lower bound on the true distance, their maximum (the
/// estimate) still is, and it is the tighter of the two.
pub proof fn lemma_max_of_bounds_admissible(db: DefaultPatternDB, s: Seq<u8>, l: int)
    requires
        partition_sum(db.table0(), db.table1(), s, false) <= l,
        partition_sum(db.table0(), db.table1(), s, true) <= l,
    ensures
        crate::heuristic::Heuristic::estimate(&db, s) <= l,
        crate::heuristic::Heuristic::estimate(&db, s) >= partition_sum(
            db.table0(),
            db.table1(),
            s,
            false,
        ),
        crate::heuristic::Heuristic::estimate(&db, s) >= partition_sum(
            db.table0(),
            db.table1(),
            s,
            true,
        ),
{
}

/// The empty digit sequence packs to zero.
proof fn lemma_base25_zero(digits: Seq<int>)
    requires
        forall|j: int| 0 <= j < digits.len() ==> #[trigger] digits[j] == 0,
    ensures
        base25(digits) == 0,
    decreases digits.len(),
{
    if digits.len() > 0 {
        lemma_base25_zero(digits.drop_first());
    }
}

} // verus!
