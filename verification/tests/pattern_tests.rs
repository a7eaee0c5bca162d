use puzzle24::{
    default_pattern0, default_pattern1, mirror, pat2_to_pat1, pat3_to_pat1, ArrayGrid24,
    DefaultPatternDB, Dir, Heuristic, Pattern6Puzzle, Puzzle24Grid, PuzzleCell,
};

const SOLVED: [u8; 25] = [
    0, 1, 2, 3, 4, 5, 6, 7, 8, 9, 10, 11, 12, 13, 14, 15, 16, 17, 18, 19, 20, 21, 22, 23, 24,
];

fn pattern_cells(p: &Pattern6Puzzle) -> [u8; 25] {
    let mut out = [0u8; 25];
    for i in 0..25u8 {
        out[i as usize] = p.grid().get_tile(PuzzleCell::from_const(i)).value();
    }
    out
}

#[test]
fn geometry_helpers() {
    assert_eq!(mirror((1, 2)), (2, 1));
    assert_eq!(mirror((0, 4)), (4, 0));
    // one right turn
    assert_eq!(pat3_to_pat1((3, 1)), (3, 3));
    assert_eq!(pat3_to_pat1((0, 0)), (4, 0));
    // two right turns: the point rotated half way around the board
    assert_eq!(pat2_to_pat1((3, 1)), (1, 3));
    assert_eq!(pat2_to_pat1((0, 0)), (4, 4));
}

#[test]
fn default_pattern0_layout() {
    let p = default_pattern0();
    let mut expected = [7u8; 25];
    expected[0] = 0;
    expected[1] = 1;
    expected[5] = 2;
    expected[6] = 3;
    expected[10] = 4;
    expected[11] = 5;
    expected[12] = 6;
    assert_eq!(pattern_cells(&p), expected);
    assert_eq!(p.gap_cell().value(), 0);
}

#[test]
fn default_pattern1_layout() {
    let p = default_pattern1();
    let mut expected = [7u8; 25];
    expected[0] = 0;
    expected[15] = 1;
    expected[16] = 2;
    expected[17] = 3;
    expected[20] = 4;
    expected[21] = 5;
    expected[22] = 6;
    assert_eq!(pattern_cells(&p), expected);
    assert_eq!(p.gap_cell().value(), 0);
}

#[test]
fn pattern_step_tracked_and_free() {
    // pattern 0 holds its tile 1 on cell 1: the gap moving RIGHT swaps
    // a tracked tile
    let p0 = default_pattern0();
    let (q, counted) = p0.step_inv(Dir::RIGHT).expect("interior move");
    assert!(counted);
    assert_eq!(q.gap_cell().value(), 1);
    let cells = pattern_cells(&q);
    assert_eq!(cells[0], 1);
    assert_eq!(cells[1], 0);

    // pattern 1 holds the sentinel there: the same move is free
    let p1 = default_pattern1();
    let (q1, counted1) = p1.step_inv(Dir::RIGHT).expect("interior move");
    assert!(!counted1);
    assert_eq!(q1.gap_cell().value(), 1);

    // the gap cannot leave the board
    assert!(p0.step_inv(Dir::LEFT).is_none());
    assert!(p0.step_inv(Dir::UP).is_none());
}

#[test]
fn pattern_step_is_inverted_step_inv() {
    // a tile moving LEFT is the gap moving RIGHT
    let p0 = default_pattern0();
    let (a, fa) = p0.step(Dir::LEFT).expect("possible");
    let (b, fb) = p0.step_inv(Dir::RIGHT).expect("possible");
    assert_eq!(pattern_cells(&a), pattern_cells(&b));
    assert_eq!(fa, fb);
}

#[test]
fn extract_u32s_on_solved_puzzle() {
    // on the solved puzzle every sub-pattern sits in its goal
    // configuration; rotation and mirror normalization make groups 1..3
    // of both partitions collapse onto pattern 1's goal packing
    let g = ArrayGrid24::from_cells_unchecked(SOLVED);
    let (prim, mirr) = Pattern6Puzzle::extract_u32s(&g);
    let goal0: u32 = 1 + 25 * 5 + 625 * 6 + 15_625 * 10 + 390_625 * 11 + 9_765_625 * 12;
    let goal1: u32 = 15 + 25 * 16 + 625 * 17 + 15_625 * 20 + 390_625 * 21 + 9_765_625 * 22;
    assert_eq!(prim, [goal0, goal1, goal1, goal1]);
    assert_eq!(mirr, [goal0, goal1, goal1, goal1]);
}

#[test]
fn default_pattern_db_combines_lookups() {
    let goal0: usize = 121_644_501;
    let goal1: usize = 223_370_415;
    let mut t0 = vec![0u8; 244_140_625];
    let mut t1 = vec![0u8; 244_140_625];
    t0[goal0] = 3;
    t1[goal1] = 5;
    let db = DefaultPatternDB::new(t0, t1);
    let g = ArrayGrid24::from_cells_unchecked(SOLVED);
    // 3 from pattern 0 plus 5 from each of the three groups sharing
    // pattern 1's table, identically under both partitions
    assert_eq!(db.compute(&g), 18);
    let (t0_back, t1_back) = db.into_tables();
    assert_eq!(t0_back[goal0], 3);
    assert_eq!(t1_back[goal1], 5);
}

#[test]
fn default_pattern_db_takes_maximum() {
    // make the two partitions disagree: a nonzero entry at the primary
    // extraction of a scrambled puzzle, zero under the mirror
    let mut cells = SOLVED;
    // swap tiles 1 and 2 (cells 1 and 2): still a valid puzzle
    cells[1] = 2;
    cells[2] = 1;
    let g = ArrayGrid24::from_cells_unchecked(cells);
    let (prim, mirr) = Pattern6Puzzle::extract_u32s(&g);
    let mut t0 = vec![0u8; 244_140_625];
    let t1 = vec![0u8; 244_140_625];
    t0[prim[0] as usize] = 7;
    t0[mirr[0] as usize] = 4;
    let db = DefaultPatternDB::new(t0, t1);
    assert_eq!(db.compute(&g), 7);
}

#[test]
fn table_check_accepts_small_entries() {
    let mut t0 = vec![0u8; 244_140_625];
    let mut t1 = vec![0u8; 244_140_625];
    t0[17] = 63;
    t1[99] = 64;
    // worst combination: 63 + 3 * 64 == 255
    let db = DefaultPatternDB::new(t0, t1);
    assert!(db.check());
}

#[test]
fn table_check_rejects_overflowing_sums() {
    let mut t0 = vec![0u8; 244_140_625];
    let mut t1 = vec![0u8; 244_140_625];
    t0[17] = 64;
    t1[99] = 64;
    // worst combination: 64 + 3 * 64 == 256, one over a byte
    let db = DefaultPatternDB::new(t0, t1);
    assert!(!db.check());
}
