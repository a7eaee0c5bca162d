use puzzle24::{Dir, PuzzleCell, PuzzleTile};

#[test]
fn step_interior_cell() {
    let c = PuzzleCell::from_const(12);
    assert_eq!(c.step(Dir::UP), Some(PuzzleCell::from_const(7)));
    assert_eq!(c.step(Dir::DOWN), Some(PuzzleCell::from_const(17)));
    assert_eq!(c.step(Dir::LEFT), Some(PuzzleCell::from_const(11)));
    assert_eq!(c.step(Dir::RIGHT), Some(PuzzleCell::from_const(13)));
}

#[test]
fn step_boundaries() {
    // row 0 has no UP
    for i in 0..5u8 {
        assert_eq!(PuzzleCell::from_const(i).step(Dir::UP), None);
    }
    // row 4 has no DOWN
    for i in 20..25u8 {
        assert_eq!(PuzzleCell::from_const(i).step(Dir::DOWN), None);
    }
    // column 0 has no LEFT
    for r in 0..5u8 {
        assert_eq!(PuzzleCell::from_const(r * 5).step(Dir::LEFT), None);
    }
    // column 4 has no RIGHT
    for r in 0..5u8 {
        assert_eq!(PuzzleCell::from_const(r * 5 + 4).step(Dir::RIGHT), None);
    }
}

#[test]
fn step_matches_offsets() {
    let dirs = [Dir::UP, Dir::RIGHT, Dir::DOWN, Dir::LEFT];
    for i in 0..25u8 {
        let c = PuzzleCell::from_const(i);
        for d in dirs {
            let expected: Option<i32> = match d {
                Dir::UP => (i >= 5).then(|| i as i32 - 5),
                Dir::DOWN => (i < 20).then(|| i as i32 + 5),
                Dir::LEFT => (i % 5 >= 1).then(|| i as i32 - 1),
                Dir::RIGHT => (i % 5 < 4).then(|| i as i32 + 1),
            };
            assert_eq!(c.step(d).map(|x| x.value() as i32), expected);
        }
    }
}

#[test]
fn step_then_inverse_returns() {
    let dirs = [Dir::UP, Dir::RIGHT, Dir::DOWN, Dir::LEFT];
    for i in 0..25u8 {
        let c = PuzzleCell::from_const(i);
        for d in dirs {
            if let Some(c2) = c.step(d) {
                assert_eq!(c2.step(d.inv()), Some(c));
            }
        }
    }
}

#[test]
fn dir_inverse_pairs() {
    assert_eq!(Dir::UP.inv(), Dir::DOWN);
    assert_eq!(Dir::DOWN.inv(), Dir::UP);
    assert_eq!(Dir::LEFT.inv(), Dir::RIGHT);
    assert_eq!(Dir::RIGHT.inv(), Dir::LEFT);
}

#[test]
fn dir_inverse_involution() {
    for d in [Dir::UP, Dir::RIGHT, Dir::DOWN, Dir::LEFT] {
        assert_eq!(d.inv().inv(), d);
    }
}

#[test]
fn tile_and_cell_values() {
    assert_eq!(PuzzleTile::gap().value(), 0);
    assert_eq!(PuzzleTile::from_const(24).value(), 24);
    assert_eq!(PuzzleCell::from_xy(3, 2).value(), 13);
    assert_eq!(PuzzleCell::from_xy(0, 0).value(), 0);
    assert_eq!(PuzzleCell::from_xy(4, 4).value(), 24);
}
