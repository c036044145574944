//! The spawner: after a successful move it fills exactly one empty cell with
//! a 2 or a 4, favouring 2, and reports whether the board is now full.  It
//! is the only part of the merge game that draws randomness.

use crate::grid::{num_empty, Grid};
use crate::line::zeros;
use crate::tile::lemma_seed_tiles;
use vstd::prelude::*;

verus! {

/// Relies on rand::random: a byte from the thread-local generator.  Nothing
/// is promised of the value.
#[verifier::external_body]
pub(crate) fn random_byte() -> u8 {
    rand::random::<u8>()
}

/// Relies on rand::random_range: a value drawn from `0..n`, so below `n`.
/// The call panics on an empty range, hence `n` must be positive.
#[verifier::external_body]
pub(crate) fn random_below(n: usize) -> (r: usize)
    requires
        n >= 1,
    ensures
        r < n,
{
    rand::random_range(0..n)
}

/// The value a spawn inserts, given the number of empty cells before the
/// spawn and a random byte: a 4 with roughly even odds when at most four
/// cells are free, and rarely otherwise; a 2 in all other cases.
pub open spec fn spec_spawn_value(empty_before: int, draw: u8) -> u32 {
    let threshold: u8 = if empty_before <= 4 {
        127
    } else {
        222
    };
    if draw <= threshold {
        2u32
    } else {
        4u32
    }
}

/// Decide the spawned tile value from the pre-spawn empty count and a draw.
pub fn spawn_value(empty_before: usize, draw: u8) -> (v: u32)
    ensures
        v == spec_spawn_value(empty_before as int, draw),
{
    let threshold: u8 = if empty_before <= 4 {
        127
    } else {
        222
    };
    if draw <= threshold {
        2
    } else {
        4
    }
}

impl Grid {
    /// The indices of the empty cells, in increasing order.
    pub fn empty_cells(&self) -> (holes: Vec<usize>)
        requires
            self.board().len() == 16,
        ensures
            holes@.len() == num_empty(self.board()),
            forall|k: int|
                0 <= k < holes@.len() ==> #[trigger] holes@[k] < 16 && self.board()[holes@[k] as int]
                    == 0,
    {
        let mut holes: Vec<usize> = Vec::new();
        let mut i: usize = 0;
        while i < 16
            invariant
                i <= 16,
                self.board().len() == 16,
                holes@.len() == num_empty(self.board().take(i as int)),
                forall|k: int|
                    0 <= k < holes@.len() ==> #[trigger] holes@[k] < i && self.board()[holes@[k] as int]
                        == 0,
            decreases 16 - i,
        {
            proof {
                assert(self.board().take(i + 1).drop_last() =~= self.board().take(i as int));
                assert(self.board().take(i + 1).last() == self.board()[i as int]);
            }
            if self.get(i / 4, i % 4) == 0 {
                proof {
                    assert((i / 4) * 4 + i % 4 == i);
                }
                holes.push(i);
            }
            i = i + 1;
        }
        proof {
            assert(self.board().take(16) =~= self.board());
        }
        holes
    }

    /// Spawn one tile.  If no cell is empty, report the board full without
    /// writing.  Otherwise fill one empty cell with a 2 or a 4, and report
    /// the board full exactly when that spawn closed the last gap.
    pub fn fill_up(&mut self) -> (full: bool)
        requires
            old(self).wf(),
        ensures
            final(self).wf(),
            final(self).spec_score() == old(self).spec_score(),
            full == (num_empty(old(self).board()) <= 1),
            num_empty(old(self).board()) == 0 ==> final(self).board() == old(self).board(),
            num_empty(old(self).board()) >= 1 ==> exists|i: int, v: u32|
                0 <= i < 16 && old(self).board()[i] == 0 && (v == 2 || v == 4)
                    && final(self).board() == old(self).board().update(i, v),
    {
        let holes = self.empty_cells();
        if holes.len() == 0 {
            return true;
        }
        let len = holes.len();
        let k = random_below(len);
        let idx = holes[k];
        let draw = random_byte();
        let v = spawn_value(len, draw);
        proof {
            assert((idx / 4) * 4 + idx % 4 == idx);
            lemma_seed_tiles();
        }
        self.set(idx / 4, idx % 4, v);
        len == 1
    }

    /// Restart the board: clear every cell, zero the score, and place two
    /// seed tiles of value 2 at the two given distinct cells.
    pub fn reset_with(&mut self, i1: usize, i2: usize)
        requires
            i1 < 16,
            i2 < 16,
            i1 != i2,
        ensures
            final(self).wf(),
            final(self).spec_score() == 0,
            final(self).board() == zeros(16).update(i1 as int, 2u32).update(i2 as int, 2u32),
    {
        *self = Grid::new();
        proof {
            assert((i1 / 4) * 4 + i1 % 4 == i1);
            assert((i2 / 4) * 4 + i2 % 4 == i2);
            lemma_seed_tiles();
        }
        self.set(i1 / 4, i1 % 4, 2);
        self.set(i2 / 4, i2 % 4, 2);
    }
}

} // verus!
