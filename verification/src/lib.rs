//! An optimal solver for the 24-puzzle (the 5x5 sliding-tile puzzle).
//!
//! The library offers two interchangeable grid layouts behind one trait,
//! a pattern-database builder over a reduced 6-tile state space, a
//! symmetry-folding heuristic layer, and an iterative-deepening A* search
//! driven by an explicit frame stack.

pub mod bitset;
pub mod cells;
pub mod grids;
pub mod heuristic;
pub mod laws;
pub mod packing;
pub mod pattern_db;
pub mod patterns;
pub mod search;

pub use bitset::BitSet;
pub use cells::{Dir, PuzzleCell, PuzzleTile};
pub use grids::{ArrayGrid24, PackedGrid24, Puzzle24Grid};
pub use heuristic::{Heuristic, ManhattanHeuristic};
pub use packing::{Pattern6Packing, Pattern7Packing};
pub use pattern_db::{default_pattern0, default_pattern1, DefaultPatternDB, Pattern6Puzzle};
pub use patterns::{mirror, pat2_to_pat1, pat3_to_pat1};
pub use search::{solve_dfs, solve_ita, apply_tile_moves, DfsStack, Puzzle24, State};
