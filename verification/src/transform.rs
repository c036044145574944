//! Directional transforms for the merge board.
//!
//! The merge engine always slides a line toward position `y = 0` in canonical
//! coordinates `(x, y)`, where `x` picks one of the four parallel lines and
//! `y` a position along it.  Each move direction is a coordinate
//! permutation/reflection that maps canonical coordinates onto physical
//! `(row, col)` cells; the engine itself contains no direction-specific
//! branches.

use vstd::prelude::*;

verus! {

/// One of the four move directions of the merge game.
#[derive(Clone, Copy, Debug, PartialEq, Eq, Structural)]
pub enum Dir {
    Up,
    Down,
    Left,
    Right,
}

/// Physical row of canonical `(x, y)` under direction `d`.
pub open spec fn spec_row(d: Dir, x: int, y: int) -> int {
    match d {
        Dir::Left => x,
        Dir::Right => 3 - x,
        Dir::Up => y,
        Dir::Down => 3 - y,
    }
}

/// Physical column of canonical `(x, y)` under direction `d`.
pub open spec fn spec_col(d: Dir, x: int, y: int) -> int {
    match d {
        Dir::Left => y,
        Dir::Right => 3 - y,
        Dir::Up => x,
        Dir::Down => 3 - x,
    }
}

/// Row-major cell index addressed by canonical `(x, y)` under direction `d`.
pub open spec fn spec_cell_index(d: Dir, x: int, y: int) -> int {
    spec_row(d, x, y) * 4 + spec_col(d, x, y)
}

/// Canonical line `x` that owns physical cell index `i` under direction `d`.
pub open spec fn spec_line_of(d: Dir, i: int) -> int {
    match d {
        Dir::Left => i / 4,
        Dir::Right => 3 - i / 4,
        Dir::Up => i % 4,
        Dir::Down => 3 - i % 4,
    }
}

/// Canonical position `y` of physical cell index `i` under direction `d`.
pub open spec fn spec_pos_of(d: Dir, i: int) -> int {
    match d {
        Dir::Left => i % 4,
        Dir::Right => 3 - i % 4,
        Dir::Up => i / 4,
        Dir::Down => 3 - i / 4,
    }
}

/// Map canonical coordinates to the physical `(row, col)` cell they address.
pub fn to_physical(d: Dir, x: usize, y: usize) -> (rc: (usize, usize))
    requires
        x < 4,
        y < 4,
    ensures
        rc.0 == spec_row(d, x as int, y as int),
        rc.1 == spec_col(d, x as int, y as int),
        rc.0 < 4,
        rc.1 < 4,
{
    match d {
        Dir::Left => (x, y),
        Dir::Right => (3 - x, 3 - y),
        Dir::Up => (y, x),
        Dir::Down => (3 - y, 3 - x),
    }
}

/// `spec_line_of`/`spec_pos_of` invert the canonical-to-physical map.
pub proof fn lemma_round_trip(d: Dir, x: int, y: int)
    requires
        0 <= x < 4,
        0 <= y < 4,
    ensures
        spec_line_of(d, spec_cell_index(d, x, y)) == x,
        spec_pos_of(d, spec_cell_index(d, x, y)) == y,
{
    let r = spec_row(d, x, y);
    let c = spec_col(d, x, y);
    assert((r * 4 + c) / 4 == r && (r * 4 + c) % 4 == c) by (nonlinear_arith)
        requires
            0 <= r < 4,
            0 <= c < 4,
    ;
}

/// Each direction's transform is a bijection from the canonical domain
/// `[0,4) x [0,4)` onto the 16 physical cells: no cell is addressed twice and
/// none is skipped.
pub proof fn lemma_transform_bijective(d: Dir)
    ensures
        forall|x1: int, y1: int, x2: int, y2: int|
            0 <= x1 < 4 && 0 <= y1 < 4 && 0 <= x2 < 4 && 0 <= y2 < 4
                && spec_cell_index(d, x1, y1) == spec_cell_index(d, x2, y2) ==> x1 == x2 && y1
                == y2,
        forall|i: int|
            0 <= i < 16 ==> #[trigger] spec_cell_index(d, spec_line_of(d, i), spec_pos_of(d, i))
                == i && 0 <= spec_line_of(d, i) < 4 && 0 <= spec_pos_of(d, i) < 4,
{
    assert forall|x1: int, y1: int, x2: int, y2: int|
        0 <= x1 < 4 && 0 <= y1 < 4 && 0 <= x2 < 4 && 0 <= y2 < 4
            && spec_cell_index(d, x1, y1) == spec_cell_index(d, x2, y2) implies x1 == x2 && y1
        == y2 by {
        lemma_round_trip(d, x1, y1);
        lemma_round_trip(d, x2, y2);
    }
    assert forall|i: int| 0 <= i < 16 implies #[trigger] spec_cell_index(
        d,
        spec_line_of(d, i),
        spec_pos_of(d, i),
    ) == i && 0 <= spec_line_of(d, i) < 4 && 0 <= spec_pos_of(d, i) < 4 by {
        assert(i == (i / 4) * 4 + i % 4);
    }
}

} // verus!
