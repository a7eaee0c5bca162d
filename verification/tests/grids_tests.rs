use puzzle24::{ArrayGrid24, PackedGrid24, Puzzle24Grid, PuzzleCell, PuzzleTile};

const SOLVED: [u8; 25] = [
    0, 1, 2, 3, 4, 5, 6, 7, 8, 9, 10, 11, 12, 13, 14, 15, 16, 17, 18, 19, 20, 21, 22, 23, 24,
];

const INSTANCE1: [u8; 25] = [
    17, 1, 20, 9, 16, 2, 22, 19, 14, 5, 15, 21, 0, 3, 24, 23, 18, 13, 12, 7, 10, 8, 6, 4, 11,
];

fn read_back<G: Puzzle24Grid>(g: &G) -> [u8; 25] {
    let mut out = [0u8; 25];
    for i in 0..25u8 {
        out[i as usize] = g.get_tile(PuzzleCell::from_const(i)).value();
    }
    out
}

#[test]
fn array_grid_round_trip() {
    for cells in [SOLVED, INSTANCE1] {
        let g = ArrayGrid24::from_cells_unchecked(cells);
        assert_eq!(g.to_cells(), cells);
        assert_eq!(read_back(&g), cells);
    }
}

#[test]
fn packed_grid_round_trip() {
    for cells in [SOLVED, INSTANCE1] {
        let g = PackedGrid24::from_cells_unchecked(cells);
        assert_eq!(g.to_cells(), cells);
        assert_eq!(read_back(&g), cells);
    }
}

#[test]
fn layouts_agree_on_every_cell() {
    let a = ArrayGrid24::from_cells_unchecked(INSTANCE1);
    let p = PackedGrid24::from_cells_unchecked(INSTANCE1);
    for i in 0..25u8 {
        let c = PuzzleCell::from_const(i);
        assert_eq!(a.get_tile(c).value(), p.get_tile(c).value());
    }
}

#[test]
fn set_tile_overwrites() {
    let mut a = ArrayGrid24::from_cells_unchecked(SOLVED);
    let mut p = PackedGrid24::from_cells_unchecked(SOLVED);
    let c = PuzzleCell::from_const(7);
    a.set_tile(c, PuzzleTile::from_const(19));
    p.set_tile(c, PuzzleTile::from_const(19));
    assert_eq!(a.get_tile(c).value(), 19);
    assert_eq!(p.get_tile(c).value(), 19);
    // other cells unchanged
    for i in 0..25u8 {
        if i != 7 {
            let c2 = PuzzleCell::from_const(i);
            assert_eq!(a.get_tile(c2).value(), i);
            assert_eq!(p.get_tile(c2).value(), i);
        }
    }
}

#[test]
fn clear_cell_writes_gap() {
    let mut a = ArrayGrid24::from_cells_unchecked(INSTANCE1);
    let mut p = PackedGrid24::from_cells_unchecked(INSTANCE1);
    let c = PuzzleCell::from_const(3);
    a.clear_cell(c);
    p.clear_cell(c);
    assert_eq!(a.get_tile(c).value(), 0);
    assert_eq!(p.get_tile(c).value(), 0);
}

#[test]
fn set_gap_tile_unchecked_fills_gap() {
    // instance 1 has its gap at cell 12
    let mut a = ArrayGrid24::from_cells_unchecked(INSTANCE1);
    let mut p = PackedGrid24::from_cells_unchecked(INSTANCE1);
    let gap = PuzzleCell::from_const(12);
    a.set_gap_tile_unchecked(gap, PuzzleTile::from_const(9));
    p.set_gap_tile_unchecked(gap, PuzzleTile::from_const(9));
    assert_eq!(a.get_tile(gap).value(), 9);
    assert_eq!(p.get_tile(gap).value(), 9);
}

#[test]
fn find_gap_scans() {
    let a = ArrayGrid24::from_cells_unchecked(SOLVED);
    let p = PackedGrid24::from_cells_unchecked(SOLVED);
    assert_eq!(a.find_gap().value(), 0);
    assert_eq!(p.find_gap().value(), 0);
    let a1 = ArrayGrid24::from_cells_unchecked(INSTANCE1);
    let p1 = PackedGrid24::from_cells_unchecked(INSTANCE1);
    assert_eq!(a1.find_gap().value(), 12);
    assert_eq!(p1.find_gap().value(), 12);
}

#[test]
fn clone_grid_copies() {
    let a = ArrayGrid24::from_cells_unchecked(INSTANCE1);
    let p = PackedGrid24::from_cells_unchecked(INSTANCE1);
    assert_eq!(read_back(&a.clone_grid()), INSTANCE1);
    assert_eq!(read_back(&p.clone_grid()), INSTANCE1);
}
