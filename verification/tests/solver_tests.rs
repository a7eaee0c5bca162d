use puzzle24::{
    apply_tile_moves, solve_dfs, solve_ita, ArrayGrid24, Dir, DfsStack, Heuristic,
    ManhattanHeuristic, PackedGrid24, Puzzle24, Puzzle24Grid, PuzzleCell, State,
};

const SOLVED: [u8; 25] = [
    0, 1, 2, 3, 4, 5, 6, 7, 8, 9, 10, 11, 12, 13, 14, 15, 16, 17, 18, 19, 20, 21, 22, 23, 24,
];

/// The ten benchmark instances with their published optimal lengths.
const INSTANCES: [([u8; 25], usize); 10] = [
    ([17, 1, 20, 9, 16, 2, 22, 19, 14, 5, 15, 21, 0, 3, 24, 23, 18, 13, 12, 7, 10, 8, 6, 4, 11], 100),
    ([14, 5, 9, 2, 18, 8, 23, 19, 12, 17, 15, 0, 10, 20, 4, 6, 11, 21, 1, 7, 24, 3, 16, 22, 13], 95),
    ([7, 13, 11, 22, 12, 20, 1, 18, 21, 5, 0, 8, 14, 24, 19, 9, 4, 17, 16, 10, 23, 15, 3, 2, 6], 108),
    ([18, 14, 0, 9, 8, 3, 7, 19, 2, 15, 5, 12, 1, 13, 24, 23, 4, 21, 10, 20, 16, 22, 11, 6, 17], 98),
    ([2, 0, 10, 19, 1, 4, 16, 3, 15, 20, 22, 9, 6, 18, 5, 13, 12, 21, 8, 17, 23, 11, 24, 7, 14], 101),
    ([16, 5, 1, 12, 6, 24, 17, 9, 2, 22, 4, 10, 13, 18, 19, 20, 0, 23, 7, 21, 15, 11, 8, 3, 14], 96),
    ([21, 22, 15, 9, 24, 12, 16, 23, 2, 8, 5, 18, 17, 7, 10, 14, 13, 4, 0, 6, 20, 11, 3, 1, 19], 104),
    ([6, 0, 24, 14, 8, 5, 21, 19, 9, 17, 16, 20, 10, 13, 2, 15, 11, 22, 1, 3, 7, 23, 4, 18, 12], 97),
    ([3, 2, 17, 0, 14, 18, 22, 19, 15, 20, 9, 7, 10, 21, 16, 6, 24, 23, 8, 5, 1, 4, 11, 12, 13], 113),
    ([23, 14, 0, 24, 17, 9, 20, 21, 2, 18, 10, 13, 22, 1, 3, 11, 4, 16, 6, 5, 7, 12, 8, 15, 19], 114),
];

/// The flat form after the gap of `cells` walks along `gap_moves`.
fn walk_gap(mut cells: [u8; 25], gap_moves: &[Dir]) -> [u8; 25] {
    let mut gap = cells.iter().position(|&t| t == 0).unwrap() as u8;
    for &d in gap_moves {
        let adj = PuzzleCell::from_const(gap).step(d).unwrap().value();
        cells[gap as usize] = cells[adj as usize];
        cells[adj as usize] = 0;
        gap = adj;
    }
    cells
}

fn no_immediate_undo(path: &[Dir]) -> bool {
    path.windows(2).all(|w| w[1] != w[0].inv())
}

#[test]
fn manhattan_zero_on_solved_grid() {
    let h = ManhattanHeuristic;
    assert_eq!(h.compute(&ArrayGrid24::from_cells_unchecked(SOLVED)), 0);
    assert_eq!(h.compute(&PackedGrid24::from_cells_unchecked(SOLVED)), 0);
}

#[test]
fn manhattan_counts_displacements() {
    // the gap walked right twice: tiles 1 and 2 each one cell off
    let cells = walk_gap(SOLVED, &[Dir::RIGHT, Dir::RIGHT]);
    assert_eq!(cells[0], 1);
    assert_eq!(cells[1], 2);
    assert_eq!(cells[2], 0);
    let h = ManhattanHeuristic;
    assert_eq!(h.compute(&ArrayGrid24::from_cells_unchecked(cells)), 2);
}

#[test]
fn manhattan_admissible_on_benchmark_instances() {
    // the estimate never exceeds the known optimal length
    let h = ManhattanHeuristic;
    for (cells, optimal) in INSTANCES {
        let est = h.compute(&ArrayGrid24::from_cells_unchecked(cells));
        assert!((est as usize) <= optimal);
    }
}

#[test]
fn puzzle_moves_keep_one_gap() {
    // the gap invariant: along any move sequence exactly one cell holds
    // the gap
    let g = ArrayGrid24::from_cells_unchecked(SOLVED);
    let mut p = Puzzle24::new(g);
    for d in [Dir::RIGHT, Dir::DOWN, Dir::RIGHT, Dir::UP, Dir::LEFT, Dir::DOWN] {
        p = match p.step_inv(d) {
            Some(q) => q,
            None => p,
        };
        let mut gaps = 0;
        for i in 0..25u8 {
            if p.grid().get_tile(PuzzleCell::from_const(i)).value() == 0 {
                gaps += 1;
            }
        }
        assert_eq!(gaps, 1);
    }
}

#[test]
fn puzzle_step_inv_swaps_with_adjacent() {
    let g = ArrayGrid24::from_cells_unchecked(SOLVED);
    let p = Puzzle24::new(g);
    // the gap (cell 0) moves right: tile 1 slides into cell 0
    let q = p.step_inv(Dir::RIGHT).expect("interior");
    assert_eq!(q.grid().get_tile(PuzzleCell::from_const(0)).value(), 1);
    assert_eq!(q.grid().get_tile(PuzzleCell::from_const(1)).value(), 0);
    // the gap cannot leave the board
    assert!(p.step_inv(Dir::LEFT).is_none());
    assert!(p.step_inv(Dir::UP).is_none());
}

#[test]
fn solve_one_move_instance() {
    // gap walked right once: tile 1 sits on cell 0 and slides right
    // back home, a one-move solution
    let cells = walk_gap(SOLVED, &[Dir::RIGHT]);
    let h = ManhattanHeuristic;
    let (_, path) = solve_ita(&h, ArrayGrid24::from_cells_unchecked(cells)).expect("solvable");
    assert_eq!(path.len(), 1);
    let solved = apply_tile_moves(ArrayGrid24::from_cells_unchecked(cells), &path)
        .expect("path applies");
    let mut read = [0u8; 25];
    for i in 0..25u8 {
        read[i as usize] = solved.get_tile(PuzzleCell::from_const(i)).value();
    }
    assert_eq!(read, SOLVED);
}

#[test]
fn solve_straight_line_scrambles_optimally() {
    // walks whose displaced tiles each move once: the optimal length
    // equals the walk length (it matches the Manhattan lower bound)
    let walks: [&[Dir]; 4] = [
        &[Dir::RIGHT, Dir::RIGHT],
        &[Dir::RIGHT, Dir::DOWN, Dir::RIGHT],
        &[Dir::DOWN, Dir::DOWN, Dir::RIGHT, Dir::RIGHT],
        &[Dir::RIGHT, Dir::RIGHT, Dir::DOWN, Dir::RIGHT, Dir::DOWN],
    ];
    let h = ManhattanHeuristic;
    for walk in walks {
        let cells = walk_gap(SOLVED, walk);
        let start = ArrayGrid24::from_cells_unchecked(cells);
        let (num_steps, path) = solve_ita(&h, start).expect("solvable");
        assert_eq!(path.len(), walk.len());
        assert!(num_steps > 0);
        assert!(no_immediate_undo(&path));
        // the answer truly solves the puzzle
        let end = apply_tile_moves(ArrayGrid24::from_cells_unchecked(cells), &path)
            .expect("path applies");
        for i in 0..25u8 {
            assert_eq!(end.get_tile(PuzzleCell::from_const(i)).value(), i);
        }
    }
}

#[test]
fn solve_works_on_packed_layout_too() {
    let cells = walk_gap(SOLVED, &[Dir::DOWN, Dir::RIGHT, Dir::DOWN]);
    let h = ManhattanHeuristic;
    let start = PackedGrid24::from_cells_unchecked(cells);
    let (_, path) = solve_ita(&h, start).expect("solvable");
    assert_eq!(path.len(), 3);
    let end = apply_tile_moves(PackedGrid24::from_cells_unchecked(cells), &path)
        .expect("path applies");
    for i in 0..25u8 {
        assert_eq!(end.get_tile(PuzzleCell::from_const(i)).value(), i);
    }
}

#[test]
fn bound_below_estimate_reports_unsolved() {
    // the estimate is a lower bound, so a bound one short must fail
    let cells = walk_gap(SOLVED, &[Dir::RIGHT, Dir::DOWN, Dir::RIGHT]);
    let h = ManhattanHeuristic;
    let est = h.compute(&ArrayGrid24::from_cells_unchecked(cells));
    assert_eq!(est, 3);
    let (_, answer) = solve_dfs(&h, ArrayGrid24::from_cells_unchecked(cells), est - 1);
    assert!(answer.is_none());
    // with the bound at the true distance the search succeeds
    let (_, answer2) = solve_dfs(&h, ArrayGrid24::from_cells_unchecked(cells), est);
    assert_eq!(answer2.expect("solvable").len(), 3);
}

#[test]
fn solve_ita_answers_solved_grid_with_empty_path() {
    // the driver recognises an already-reached goal and needs no moves
    let h = ManhattanHeuristic;
    let (num_steps, path) =
        solve_ita(&h, ArrayGrid24::from_cells_unchecked(SOLVED)).expect("already solved");
    assert_eq!(num_steps, 0);
    assert!(path.is_empty());
}

#[test]
fn solve_dfs_zero_bound_on_solved_grid() {
    // the already-solved grid needs no moves, but the search only
    // recognises a goal it reaches by a move, so a zero bound fails
    let h = ManhattanHeuristic;
    let (_, answer) = solve_dfs(&h, ArrayGrid24::from_cells_unchecked(SOLVED), 0);
    assert!(answer.is_none());
}

#[test]
fn apply_tile_moves_rejects_impossible_paths() {
    // from the solved grid the gap is in the corner: no tile can move
    // RIGHT into it
    let g = ArrayGrid24::from_cells_unchecked(SOLVED);
    assert!(apply_tile_moves(g, &vec![Dir::RIGHT]).is_none());
    // tile 1 can move LEFT into the gap
    let g2 = ArrayGrid24::from_cells_unchecked(SOLVED);
    assert!(apply_tile_moves(g2, &vec![Dir::LEFT]).is_some());
}

#[test]
fn dfs_stack_basics() {
    let mut stack: DfsStack<ArrayGrid24> = DfsStack::uninit();
    assert_eq!(stack.inv_path().len(), 0);
    assert!(stack.top_dir().is_none());
    let root = Puzzle24::new(ArrayGrid24::from_cells_unchecked(SOLVED));
    stack.init(root);
    assert!(stack.top_dir().is_none());
    let child = Puzzle24::new(ArrayGrid24::from_cells_unchecked(SOLVED))
        .step_inv(Dir::RIGHT)
        .unwrap();
    stack.push_unchecked(Dir::RIGHT, child);
    assert_eq!(stack.top_dir(), Some(Dir::RIGHT));
    assert_eq!(stack.inv_path().len(), 1);
    stack.pop();
    assert!(stack.top_dir().is_none());
    assert_eq!(stack.inv_path().len(), 0);
}

#[test]
fn state_cursor_order() {
    let s = State::new();
    assert_eq!(s, State::Dir(Dir::UP));
    let s = s.next();
    assert_eq!(s, State::Dir(Dir::RIGHT));
    let s = s.next();
    assert_eq!(s, State::Dir(Dir::DOWN));
    let s = s.next();
    assert_eq!(s, State::Dir(Dir::LEFT));
    let s = s.next();
    assert_eq!(s, State::Done);
}
