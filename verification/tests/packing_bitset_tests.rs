use puzzle24::{BitSet, Pattern6Packing, Pattern7Packing, PuzzleCell};

#[test]
fn pattern6_packing_digits() {
    // digits 0..5 hold cells 1, 5, 6, 10, 11, 12
    let mut p = Pattern6Packing::new();
    p.set_tile_unchecked(0, PuzzleCell::from_const(1));
    p.set_tile_unchecked(1, PuzzleCell::from_const(5));
    p.set_tile_unchecked(2, PuzzleCell::from_const(6));
    p.set_tile_unchecked(3, PuzzleCell::from_const(10));
    p.set_tile_unchecked(4, PuzzleCell::from_const(11));
    p.set_tile_unchecked(5, PuzzleCell::from_const(12));
    let expected: u32 = 1 + 25 * 5 + 625 * 6 + 15_625 * 10 + 390_625 * 11 + 9_765_625 * 12;
    assert_eq!(p.value(), expected);
    assert_eq!(expected, 121_644_501);
}

#[test]
fn pattern6_packing_order_irrelevant() {
    let mut a = Pattern6Packing::new();
    a.set_tile_unchecked(5, PuzzleCell::from_const(24));
    a.set_tile_unchecked(0, PuzzleCell::from_const(3));
    let mut b = Pattern6Packing::new();
    b.set_tile_unchecked(0, PuzzleCell::from_const(3));
    b.set_tile_unchecked(5, PuzzleCell::from_const(24));
    assert_eq!(a.value(), b.value());
}

#[test]
fn pattern7_packing_adds_gap_digit() {
    let mut p = Pattern6Packing::new();
    p.set_tile_unchecked(0, PuzzleCell::from_const(2));
    let seven = Pattern7Packing::from_u32(p, PuzzleCell::from_const(24));
    assert_eq!(seven.value(), 2 + 24 * 244_140_625u64);
}

#[test]
fn pattern7_packing_max_value_fits() {
    let mut p = Pattern6Packing::new();
    for j in 0..6u8 {
        p.set_tile_unchecked(j, PuzzleCell::from_const(24));
    }
    let seven = Pattern7Packing::from_u32(p, PuzzleCell::from_const(24));
    // all seven digits 24: one less than 25^7
    assert_eq!(seven.value(), 6_103_515_625u64 - 1);
}

#[test]
fn bitset_insert_reports_new_members() {
    let mut s = BitSet::new(1000);
    assert!(s.insert_unchecked(0));
    assert!(s.insert_unchecked(63));
    assert!(s.insert_unchecked(64));
    assert!(s.insert_unchecked(999));
    // repeats are recognised
    assert!(!s.insert_unchecked(0));
    assert!(!s.insert_unchecked(63));
    assert!(!s.insert_unchecked(64));
    assert!(!s.insert_unchecked(999));
    // neighbours of the members are still absent
    assert!(s.insert_unchecked(1));
    assert!(s.insert_unchecked(62));
    assert!(s.insert_unchecked(65));
    assert!(s.insert_unchecked(998));
}

#[test]
fn bitset_empty_after_new() {
    let mut s = BitSet::new(128);
    for v in 0..128u64 {
        assert!(s.insert_unchecked(v));
    }
}
