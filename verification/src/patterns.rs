//! The two disjoint pattern partitions and their geometry.
//!
//! Four patterns of 6 tiles each cover the 24 non-gap tiles. Each tile
//! is assigned a (pattern id, position within pattern); patterns 2 and 3
//! are rotations of pattern 1 and reuse its table after their cell
//! coordinates are rotated back into pattern 1's orientation. A second
//! partition, the mirror image across the main diagonal, yields four
//! more sub-patterns the same way.

use vstd::prelude::*;

verus! {

/// The (pattern id, position) assigned to each tile under the primary
/// partition; the gap (tile 0) carries the out-of-band marker (9, 9).
pub open spec fn pattern_assign(t: int) -> (int, int) {
    if t == 1 { (0, 0) } else if t == 2 { (2, 5) } else if t == 3 { (2, 4) }
    else if t == 4 { (2, 3) } else if t == 5 { (0, 1) } else if t == 6 { (0, 2) }
    else if t == 7 { (2, 2) } else if t == 8 { (2, 1) } else if t == 9 { (2, 0) }
    else if t == 10 { (0, 3) } else if t == 11 { (0, 4) } else if t == 12 { (0, 5) }
    else if t == 13 { (3, 2) } else if t == 14 { (3, 5) } else if t == 15 { (1, 0) }
    else if t == 16 { (1, 1) } else if t == 17 { (1, 2) } else if t == 18 { (3, 1) }
    else if t == 19 { (3, 4) } else if t == 20 { (1, 3) } else if t == 21 { (1, 4) }
    else if t == 22 { (1, 5) } else if t == 23 { (3, 0) } else if t == 24 { (3, 3) }
    else { (9, 9) }
}

/// The assignment under the mirrored partition (the reflection of the
/// primary one across the main diagonal).
pub open spec fn mirror_pattern_assign(t: int) -> (int, int) {
    if t == 1 { (0, 1) } else if t == 2 { (0, 3) } else if t == 3 { (1, 0) }
    else if t == 4 { (1, 3) } else if t == 5 { (0, 0) } else if t == 6 { (0, 2) }
    else if t == 7 { (0, 4) } else if t == 8 { (1, 1) } else if t == 9 { (1, 4) }
    else if t == 10 { (2, 5) } else if t == 11 { (2, 2) } else if t == 12 { (0, 5) }
    else if t == 13 { (1, 2) } else if t == 14 { (1, 5) } else if t == 15 { (2, 4) }
    else if t == 16 { (2, 1) } else if t == 17 { (3, 2) } else if t == 18 { (3, 1) }
    else if t == 19 { (3, 0) } else if t == 20 { (2, 3) } else if t == 21 { (2, 0) }
    else if t == 22 { (3, 5) } else if t == 23 { (3, 4) } else if t == 24 { (3, 3) }
    else { (9, 9) }
}

/// The assignment table in use: mirrored or primary.
pub open spec fn assign_of(mirrored: bool, t: int) -> (int, int) {
    if mirrored {
        mirror_pattern_assign(t)
    } else {
        pattern_assign(t)
    }
}

/// Each table maps the 24 non-gap tiles to 24 distinct slots, a
/// bijection onto the 4 x 6 (pattern, position) pairs.
pub proof fn lemma_assign_injective(mirrored: bool, t1: int, t2: int)
    requires
        1 <= t1 < 25,
        1 <= t2 < 25,
        t1 != t2,
    ensures
        assign_of(mirrored, t1) != assign_of(mirrored, t2),
{
}

/// Every non-gap tile's slot is one of the 4 patterns' 6 positions.
pub proof fn lemma_assign_valid(mirrored: bool, t: int)
    requires
        1 <= t < 25,
    ensures
        0 <= assign_of(mirrored, t).0 < 4,
        0 <= assign_of(mirrored, t).1 < 6,
{
}

/// The primary assignment of tile `t`.
pub fn pattern_assign_at(t: u8) -> (r: (u8, u8))
    requires
        t < 25,
    ensures
        (r.0 as int, r.1 as int) == pattern_assign(t as int),
{
    if t == 1 { (0, 0) } else if t == 2 { (2, 5) } else if t == 3 { (2, 4) }
    else if t == 4 { (2, 3) } else if t == 5 { (0, 1) } else if t == 6 { (0, 2) }
    else if t == 7 { (2, 2) } else if t == 8 { (2, 1) } else if t == 9 { (2, 0) }
    else if t == 10 { (0, 3) } else if t == 11 { (0, 4) } else if t == 12 { (0, 5) }
    else if t == 13 { (3, 2) } else if t == 14 { (3, 5) } else if t == 15 { (1, 0) }
    else if t == 16 { (1, 1) } else if t == 17 { (1, 2) } else if t == 18 { (3, 1) }
    else if t == 19 { (3, 4) } else if t == 20 { (1, 3) } else if t == 21 { (1, 4) }
    else if t == 22 { (1, 5) } else if t == 23 { (3, 0) } else if t == 24 { (3, 3) }
    else { (9, 9) }
}

/// The mirrored assignment of tile `t`.
pub fn mirror_pattern_assign_at(t: u8) -> (r: (u8, u8))
    requires
        t < 25,
    ensures
        (r.0 as int, r.1 as int) == mirror_pattern_assign(t as int),
{
    if t == 1 { (0, 1) } else if t == 2 { (0, 3) } else if t == 3 { (1, 0) }
    else if t == 4 { (1, 3) } else if t == 5 { (0, 0) } else if t == 6 { (0, 2) }
    else if t == 7 { (0, 4) } else if t == 8 { (1, 1) } else if t == 9 { (1, 4) }
    else if t == 10 { (2, 5) } else if t == 11 { (2, 2) } else if t == 12 { (0, 5) }
    else if t == 13 { (1, 2) } else if t == 14 { (1, 5) } else if t == 15 { (2, 4) }
    else if t == 16 { (2, 1) } else if t == 17 { (3, 2) } else if t == 18 { (3, 1) }
    else if t == 19 { (3, 0) } else if t == 20 { (2, 3) } else if t == 21 { (2, 0) }
    else if t == 22 { (3, 5) } else if t == 23 { (3, 4) } else if t == 24 { (3, 3) }
    else { (9, 9) }
}

/// A quarter turn to the right of the 5x5 board.
pub open spec fn rot_right_spec(xy: (int, int)) -> (int, int) {
    (4 - xy.1, xy.0)
}

/// Reflection across the main diagonal.
pub open spec fn mirror_spec(xy: (int, int)) -> (int, int) {
    (xy.1, xy.0)
}

/// Reflection across the main diagonal; maps the primary partition's
/// coordinates into the mirrored one's.
pub fn mirror(v: (u8, u8)) -> (r: (u8, u8))
    requires
        v.0 < 5,
        v.1 < 5,
    ensures
        (r.0 as int, r.1 as int) == mirror_spec((v.0 as int, v.1 as int)),
        r.0 < 5,
        r.1 < 5,
{
    (v.1, v.0)
}

/// Pattern 2 is pattern 1 rotated: two right turns map its coordinates
/// back to pattern 1's orientation.
pub fn pat2_to_pat1(v: (u8, u8)) -> (r: (u8, u8))
    requires
        v.0 < 5,
        v.1 < 5,
    ensures
        (r.0 as int, r.1 as int) == rot_right_spec(rot_right_spec((v.0 as int, v.1 as int))),
        r.0 < 5,
        r.1 < 5,
{
    let w = rot_right(v);
    rot_right(w)
}

/// Pattern 3 is pattern 1 rotated: one right turn maps its coordinates
/// back to pattern 1's orientation.
pub fn pat3_to_pat1(v: (u8, u8)) -> (r: (u8, u8))
    requires
        v.0 < 5,
        v.1 < 5,
    ensures
        (r.0 as int, r.1 as int) == rot_right_spec((v.0 as int, v.1 as int)),
        r.0 < 5,
        r.1 < 5,
{
    rot_right(v)
}

fn rot_right(v: (u8, u8)) -> (r: (u8, u8))
    requires
        v.0 < 5,
        v.1 < 5,
    ensures
        (r.0 as int, r.1 as int) == rot_right_spec((v.0 as int, v.1 as int)),
        r.0 < 5,
        r.1 < 5,
{
    (4 - v.1, v.0)
}

/// The canonical cell a sub-pattern lookup reads for pattern `pid` and
/// board cell `c`: mirrored first if the partition is the mirrored one,
/// then rotated back into the table's orientation for patterns 2 and 3.
pub open spec fn norm_cell(mirrored: bool, pid: int, c: int) -> int {
    let x = c % 5;
    let y = c / 5;
    let xy = if mirrored {
        mirror_spec((x, y))
    } else {
        (x, y)
    };
    let nxy = if pid == 2 {
        rot_right_spec(rot_right_spec(xy))
    } else if pid == 3 {
        rot_right_spec(xy)
    } else {
        xy
    };
    nxy.1 * 5 + nxy.0
}

/// Normalized cells are cells.
pub proof fn lemma_norm_cell_range(mirrored: bool, pid: int, c: int)
    requires
        0 <= c < 25,
    ensures
        0 <= norm_cell(mirrored, pid, c) < 25,
{
}

} // verus!
