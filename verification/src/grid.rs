//! The 4x4 merge board: 16 cells plus a running score, and the merge engine
//! that applies one move through a directional transform.

use crate::line::{
    line_tiles_ok, lemma_changed_has_zero, lemma_unchanged_no_score, slide_line, slide_score,
    slide_spec, zeros,
};
use crate::transform::{
    lemma_round_trip, lemma_transform_bijective, spec_cell_index, spec_line_of, spec_pos_of,
    to_physical, Dir,
};
use vstd::prelude::*;

verus! {

/// Canonical line `x` of board `b`, read through direction `d`.
pub open spec fn line_seq(b: Seq<u32>, d: Dir, x: int) -> Seq<u32> {
    Seq::new(4, |y: int| b[spec_cell_index(d, x, y)])
}

/// The board after sliding and merging every line toward direction `d`.
pub open spec fn move_board(b: Seq<u32>, d: Dir) -> Seq<u32> {
    Seq::new(16, |i: int| slide_spec(line_seq(b, d, spec_line_of(d, i)))[spec_pos_of(d, i)])
}

/// Score gained by the lines with index below `x`.
pub open spec fn delta_upto(b: Seq<u32>, d: Dir, x: int) -> int
    decreases x,
{
    if x <= 0 {
        0
    } else {
        delta_upto(b, d, x - 1) + slide_score(line_seq(b, d, x - 1))
    }
}

/// Total score gained by one move of the whole board.
pub open spec fn move_delta(b: Seq<u32>, d: Dir) -> int {
    delta_upto(b, d, 4)
}

/// The running score after adding `d` points, capped at the largest
/// representable score.
pub open spec fn add_score(s: u32, d: int) -> u32 {
    if s + d > u32::MAX {
        u32::MAX
    } else {
        (s + d) as u32
    }
}

/// Number of empty cells of a board.
pub open spec fn num_empty(b: Seq<u32>) -> nat
    decreases b.len(),
{
    if b.len() == 0 {
        0
    } else {
        num_empty(b.drop_last()) + if b.last() == 0u32 {
            1nat
        } else {
            0nat
        }
    }
}

/// No two horizontally or vertically adjacent cells hold equal values.  On a
/// full board this is exactly the terminal condition: no move can change any
/// cell.
pub open spec fn no_adjacent_equal(b: Seq<u32>) -> bool {
    (forall|i: int| 0 <= i < 16 && i % 4 != 3 ==> b[i] != #[trigger] b[i + 1]) && (forall|i: int|
        0 <= i < 12 ==> b[i] != #[trigger] b[i + 4])
}

/// A board with an empty cell has a positive empty count.
pub proof fn lemma_num_empty_pos(b: Seq<u32>, i: int)
    requires
        0 <= i < b.len(),
        b[i] == 0,
    ensures
        num_empty(b) >= 1,
    decreases b.len(),
{
    if i == b.len() - 1 {
    } else {
        lemma_num_empty_pos(b.drop_last(), i);
    }
}

/// The fixed 16-cell merge board with its running score.
pub struct Grid {
    cells: Vec<u32>,
    score: u32,
}

impl Grid {
    /// The 16 cell values in row-major order.
    pub closed spec fn board(&self) -> Seq<u32> {
        self.cells@
    }

    /// The running score.
    pub closed spec fn spec_score(&self) -> u32 {
        self.score
    }

    /// Well-formedness: 16 cells, each empty or a power of two >= 2.
    pub open spec fn wf(&self) -> bool {
        self.board().len() == 16 && line_tiles_ok(self.board())
    }

    /// An empty board with score 0.
    pub fn new() -> (g: Grid)
        ensures
            g.wf(),
            g.board() == zeros(16),
            g.spec_score() == 0,
    {
        let mut cells: Vec<u32> = Vec::new();
        let mut i: usize = 0;
        while i < 16
            invariant
                i <= 16,
                cells@ == zeros(i as nat),
            decreases 16 - i,
        {
            proof {
                assert(cells@.push(0u32) =~= zeros((i + 1) as nat));
            }
            cells.push(0);
            i = i + 1;
        }
        Grid { cells, score: 0 }
    }

    /// Resume from a known position: accept the 16 cell values in row-major
    /// order and a score, or nothing if a value is no tile or the count is
    /// off.
    pub fn try_from_cells(cells: Vec<u32>, score: u32) -> (r: Option<Grid>)
        ensures
            r is Some <==> cells@.len() == 16 && line_tiles_ok(cells@),
            r is Some ==> r->Some_0.board() == cells@ && r->Some_0.spec_score() == score
                && r->Some_0.wf(),
    {
        if cells.len() != 16 {
            return None;
        }
        let mut i: usize = 0;
        while i < 16
            invariant
                i <= 16,
                cells@.len() == 16,
                forall|k: int| 0 <= k < i ==> crate::tile::tile_ok(#[trigger] cells@[k]),
            decreases 16 - i,
        {
            if !crate::tile::tile_is_valid(cells[i]) {
                return None;
            }
            i = i + 1;
        }
        Some(Grid { cells, score })
    }

    /// Cell value at `(row, col)`.
    pub fn get(&self, row: usize, col: usize) -> (v: u32)
        requires
            self.board().len() == 16,
            row < 4,
            col < 4,
        ensures
            v == self.board()[row * 4 + col],
    {
        self.cells[row * 4 + col]
    }

    /// Write `v` at `(row, col)`; no cell but the one written changes.
    pub fn set(&mut self, row: usize, col: usize, v: u32)
        requires
            old(self).board().len() == 16,
            row < 4,
            col < 4,
        ensures
            final(self).board() == old(self).board().update(row * 4 + col, v),
            final(self).spec_score() == old(self).spec_score(),
    {
        let idx = row * 4 + col;
        self.cells[idx] = v;
    }

    /// The running score.
    pub fn score(&self) -> (s: u32)
        ensures
            s == self.spec_score(),
    {
        self.score
    }

    /// A copy of the 16 cell values in row-major order, for rendering.
    pub fn snapshot_cells(&self) -> (v: Vec<u32>)
        requires
            self.board().len() == 16,
        ensures
            v@ == self.board(),
    {
        let mut v: Vec<u32> = Vec::new();
        let mut i: usize = 0;
        while i < 16
            invariant
                i <= 16,
                self.board().len() == 16,
                v@ == self.board().take(i as int),
            decreases 16 - i,
        {
            proof {
                assert(self.board().take(i + 1 as int) =~= self.board().take(i as int).push(
                    self.board()[i as int],
                ));
            }
            v.push(self.cells[i]);
            i = i + 1;
        }
        proof {
            assert(self.board().take(16) =~= self.board());
        }
        v
    }

    /// Slide and merge every line toward direction `d`, accumulating the
    /// score.  Returns whether any cell moved or merged, which is exactly
    /// whether the board changed.
    pub fn merge_move(&mut self, d: Dir) -> (moved: bool)
        requires
            old(self).wf(),
        ensures
            final(self).wf(),
            final(self).board() == move_board(old(self).board(), d),
            final(self).spec_score() == add_score(
                old(self).spec_score(),
                move_delta(old(self).board(), d),
            ),
            moved == (move_board(old(self).board(), d) != old(self).board()),
            !moved ==> final(self).board() == old(self).board() && final(self).spec_score() == old(
                self,
            ).spec_score(),
    {
        let ghost b0 = self.cells@;
        proof {
            lemma_transform_bijective(d);
        }
        let mut delta: u64 = 0;
        let mut moved = false;
        let mut x: usize = 0;
        while x < 4
            invariant
                x <= 4,
                self.cells@.len() == 16,
                b0.len() == 16,
                line_tiles_ok(b0),
                self.score == old(self).score,
                forall|i: int|
                    0 <= i < 16 && spec_line_of(d, i) < x ==> self.cells@[i] == #[trigger] slide_spec(
                        line_seq(b0, d, spec_line_of(d, i)),
                    )[spec_pos_of(d, i)],
                forall|i: int|
                    0 <= i < 16 && spec_line_of(d, i) >= x ==> #[trigger] self.cells@[i] == b0[i],
                forall|i: int|
                    0 <= i < 16 ==> #[trigger] spec_cell_index(d, spec_line_of(d, i), spec_pos_of(d, i))
                        == i && 0 <= spec_line_of(d, i) < 4 && 0 <= spec_pos_of(d, i) < 4,
                forall|i: int| 0 <= i < 16 ==> crate::tile::tile_ok(#[trigger] self.cells@[i]),
                delta == delta_upto(b0, d, x as int),
                delta <= x * 0x4_0000_0000,
                moved == exists|xx: int|
                    0 <= xx < x && #[trigger] slide_spec(line_seq(b0, d, xx)) != line_seq(b0, d, xx),
            decreases 4 - x,
        {
            // Read line x through the transform; those cells are untouched so
            // far because each belongs to canonical line x.
            let mut lv: Vec<u32> = Vec::new();
            let mut y: usize = 0;
            while y < 4
                invariant
                    y <= 4,
                    x < 4,
                    self.cells@.len() == 16,
                    b0.len() == 16,
                    forall|i: int|
                        0 <= i < 16 && spec_line_of(d, i) >= x ==> #[trigger] self.cells@[i] == b0[i],
                    lv@.len() == y,
                    forall|yy: int| 0 <= yy < y ==> #[trigger] lv@[yy] == line_seq(b0, d, x as int)[yy],
                decreases 4 - y,
            {
                let (r, c) = to_physical(d, x, y);
                proof {
                    lemma_round_trip(d, x as int, y as int);
                }
                lv.push(self.get(r, c));
                y = y + 1;
            }
            proof {
                assert(lv@ =~= line_seq(b0, d, x as int));
                assert forall|yy: int| 0 <= yy < 4 implies crate::tile::tile_ok(
                    #[trigger] lv@[yy],
                ) by {
                    assert(lv@[yy] == b0[spec_cell_index(d, x as int, yy)]);
                }
            }
            let (nl, dl, ch) = slide_line(&lv);

            // Write the merged line back through the same transform.
            let mut y: usize = 0;
            while y < 4
                invariant
                    y <= 4,
                    x < 4,
                    self.cells@.len() == 16,
                    b0.len() == 16,
                    self.score == old(self).score,
                    nl@ == slide_spec(line_seq(b0, d, x as int)),
                    nl@.len() == 4,
                    forall|i: int|
                        0 <= i < 16 && spec_line_of(d, i) < x ==> self.cells@[i]
                            == #[trigger] slide_spec(line_seq(b0, d, spec_line_of(d, i)))[spec_pos_of(
                            d,
                            i,
                        )],
                    forall|i: int|
                        0 <= i < 16 && spec_line_of(d, i) == x && spec_pos_of(d, i) < y
                            ==> #[trigger] self.cells@[i] == nl@[spec_pos_of(d, i)],
                    forall|i: int|
                        0 <= i < 16 && spec_line_of(d, i) == x && spec_pos_of(d, i) >= y
                            ==> #[trigger] self.cells@[i] == b0[i],
                    forall|i: int|
                        0 <= i < 16 && spec_line_of(d, i) > x ==> #[trigger] self.cells@[i] == b0[i],
                    forall|i: int|
                        0 <= i < 16 ==> #[trigger] spec_cell_index(
                            d,
                            spec_line_of(d, i),
                            spec_pos_of(d, i),
                        ) == i && 0 <= spec_line_of(d, i) < 4 && 0 <= spec_pos_of(d, i) < 4,
                decreases 4 - y,
            {
                let (r, c) = to_physical(d, x, y);
                proof {
                    lemma_round_trip(d, x as int, y as int);
                }
                self.set(r, c, nl[y]);
                y = y + 1;
            }
            proof {
                // Tiles stay well-formed: each cell of line x now holds a
                // merged tile, every other cell is unchanged.
                assert forall|i: int| 0 <= i < 16 implies crate::tile::tile_ok(
                    #[trigger] self.cells@[i],
                ) by {
                    let lx = spec_line_of(d, i);
                    if lx == x {
                        assert(self.cells@[i] == nl@[spec_pos_of(d, i)]);
                    } else if lx < x {
                        assert(self.cells@[i] == slide_spec(line_seq(b0, d, lx))[spec_pos_of(d, i)]);
                        assert(line_tiles_ok(line_seq(b0, d, lx))) by {
                            assert forall|yy: int| 0 <= yy < 4 implies crate::tile::tile_ok(
                                #[trigger] line_seq(b0, d, lx)[yy],
                            ) by {
                                assert(line_seq(b0, d, lx)[yy] == b0[spec_cell_index(d, lx, yy)]);
                            }
                        }
                        crate::line::lemma_slide_props(line_seq(b0, d, lx));
                    } else {
                        assert(self.cells@[i] == b0[i]);
                    }
                }
            }
            delta = delta + dl;
            if ch {
                moved = true;
            }
            proof {
                if ch {
                    assert(slide_spec(line_seq(b0, d, x as int)) != line_seq(b0, d, x as int));
                } else {
                    assert forall|xx: int|
                        0 <= xx < x + 1 && #[trigger] slide_spec(line_seq(b0, d, xx)) != line_seq(
                            b0,
                            d,
                            xx,
                        ) implies xx < x by {
                        if xx == x {
                            assert(false);
                        }
                    }
                }
            }
            x = x + 1;
        }

        proof {
            assert(self.cells@ =~= move_board(b0, d));
            // A changed line shows up on the board, an unchanged board means
            // every line kept its cells.
            if moved {
                let xx = choose|xx: int|
                    0 <= xx < 4 && #[trigger] slide_spec(line_seq(b0, d, xx)) != line_seq(b0, d, xx);
                let ls = line_seq(b0, d, xx);
                let sl = slide_spec(ls);
                assert(sl.len() == 4) by {
                    crate::line::lemma_slide_props(ls);
                }
                assert(exists|yy: int| 0 <= yy < 4 && #[trigger] sl[yy] != ls[yy]) by {
                    if forall|yy: int| 0 <= yy < 4 ==> #[trigger] sl[yy] == ls[yy] {
                        assert(sl =~= ls);
                    }
                }
                let yy = choose|yy: int| 0 <= yy < 4 && #[trigger] sl[yy] != ls[yy];
                let i = spec_cell_index(d, xx, yy);
                lemma_round_trip(d, xx, yy);
                assert(move_board(b0, d)[i] != b0[i]);
            } else {
                assert forall|i: int| 0 <= i < 16 implies #[trigger] move_board(b0, d)[i]
                    == b0[i] by {
                    let lx = spec_line_of(d, i);
                    assert(slide_spec(line_seq(b0, d, lx)) == line_seq(b0, d, lx));
                }
                assert(move_board(b0, d) =~= b0);
                assert forall|xx: int| 0 <= xx < 4 implies slide_score(
                    #[trigger] line_seq(b0, d, xx),
                ) == 0 by {
                    lemma_unchanged_no_score(line_seq(b0, d, xx));
                }
                reveal_with_fuel(delta_upto, 5);
                assert(move_delta(b0, d) == 0);
            }
        }

        // Cap the score at the largest representable value; in play the cap
        // is far out of reach.
        let total = self.score as u64 + delta;
        if total > u32::MAX as u64 {
            self.score = u32::MAX;
        } else {
            self.score = total as u32;
        }
        moved
    }

    /// Whether the board is terminal: no two adjacent cells are equal.  Only
    /// meaningful on a full board; a board with an empty cell always admits a
    /// move.
    pub fn game_over(&self) -> (r: bool)
        requires
            self.board().len() == 16,
        ensures
            r == no_adjacent_equal(self.board()),
    {
        let mut i: usize = 0;
        while i < 16
            invariant
                i <= 16,
                self.board().len() == 16,
                forall|j: int|
                    0 <= j < i && j % 4 != 3 ==> self.board()[j] != #[trigger] self.board()[j + 1],
            decreases 16 - i,
        {
            if i % 4 != 3 && self.cells[i] == self.cells[i + 1] {
                return false;
            }
            i = i + 1;
        }
        let mut i: usize = 0;
        while i < 12
            invariant
                i <= 12,
                self.board().len() == 16,
                forall|j: int|
                    0 <= j < 16 && j % 4 != 3 ==> self.board()[j] != #[trigger] self.board()[j + 1],
                forall|j: int| 0 <= j < i ==> self.board()[j] != #[trigger] self.board()[j + 4],
            decreases 12 - i,
        {
            if self.cells[i] == self.cells[i + 4] {
                return false;
            }
            i = i + 1;
        }
        true
    }
}

/// A move that changes the board leaves at least one empty cell on it, so
/// the spawner always has room right after a successful move.
pub proof fn lemma_moved_board_has_empty(b: Seq<u32>, d: Dir)
    requires
        b.len() == 16,
        move_board(b, d) != b,
    ensures
        num_empty(move_board(b, d)) >= 1,
{
    lemma_transform_bijective(d);
    let mb = move_board(b, d);
    assert(exists|i: int| 0 <= i < 16 && #[trigger] mb[i] != b[i]) by {
        if forall|i: int| 0 <= i < 16 ==> #[trigger] mb[i] == b[i] {
            assert(mb =~= b);
        }
    }
    let i = choose|i: int| 0 <= i < 16 && #[trigger] mb[i] != b[i];
    let xx = spec_line_of(d, i);
    let ls = line_seq(b, d, xx);
    assert(slide_spec(ls) != ls) by {
        if slide_spec(ls) == ls {
            assert(mb[i] == slide_spec(ls)[spec_pos_of(d, i)]);
            assert(ls[spec_pos_of(d, i)] == b[i]);
        }
    }
    lemma_changed_has_zero(ls);
    let yy = choose|yy: int| 0 <= yy < 4 && #[trigger] slide_spec(ls)[yy] == 0;
    let j = spec_cell_index(d, xx, yy);
    lemma_round_trip(d, xx, yy);
    assert(mb[j] == 0);
    lemma_num_empty_pos(mb, j);
}

} // verus!
