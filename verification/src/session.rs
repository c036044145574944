//! The session controller: one round of the merge game as a state machine.
//!
//! It accepts one intent at a time, drives the merge engine, the spawner and
//! the terminal detector in sequence, and exposes a render-ready snapshot.
//! Directional intents are dropped while the round is over; restart begins a
//! fresh round; quit leaves the state machine for good.

use crate::grid::{
    add_score, lemma_moved_board_has_empty, move_board, move_delta, no_adjacent_equal, num_empty,
    Grid,
};
use crate::line::zeros;
use crate::spawn::random_below;
use crate::transform::Dir;
use vstd::prelude::*;

verus! {

/// The six intents a session understands.
#[derive(Clone, Copy, Debug, PartialEq, Eq, Structural)]
pub enum Key {
    Up,
    Down,
    Left,
    Right,
    Restart,
    Quit,
}

/// The intent a raw key byte stands for.
pub open spec fn spec_key_from(key_byte: u8, default: Key) -> Key {
    if key_byte == 119 || key_byte == 107 {  // 'w' | 'k'
        Key::Up
    } else if key_byte == 100 || key_byte == 108 {  // 'd' | 'l'
        Key::Right
    } else if key_byte == 115 || key_byte == 106 {  // 's' | 'j'
        Key::Down
    } else if key_byte == 97 || key_byte == 104 {  // 'a' | 'h'
        Key::Left
    } else if key_byte == 114 {  // 'r'
        Key::Restart
    } else if key_byte == 113 {  // 'q'
        Key::Quit
    } else {
        default
    }
}

impl Key {
    /// Decode a raw key byte, falling back to `default` for any other byte.
    pub fn from(key_byte: u8, default: Key) -> (k: Key)
        ensures
            k == spec_key_from(key_byte, default),
    {
        match key_byte {
            119 | 107 => Key::Up,  // 'w' | 'k'
            100 | 108 => Key::Right,  // 'd' | 'l'
            115 | 106 => Key::Down,  // 's' | 'j'
            97 | 104 => Key::Left,  // 'a' | 'h'
            114 => Key::Restart,  // 'r'
            113 => Key::Quit,  // 'q'
            _ => default,
        }
    }
}

/// The move direction an intent asks for, if it is directional.
pub open spec fn key_dir(k: Key) -> Option<Dir> {
    match k {
        Key::Up => Some(Dir::Up),
        Key::Down => Some(Dir::Down),
        Key::Left => Some(Dir::Left),
        Key::Right => Some(Dir::Right),
        Key::Restart => None,
        Key::Quit => None,
    }
}

impl Key {
    /// A directional intent drawn at random, for a round that needs one
    /// before the first key arrives.
    pub fn rand_direction() -> (k: Key)
        ensures
            key_dir(k) is Some,
    {
        match random_below(4) {
            0 => Key::Up,
            1 => Key::Down,
            2 => Key::Left,
            _ => Key::Right,
        }
    }
}

/// Where a session stands: accepting moves, frozen until restart, or left
/// for good.
#[derive(Clone, Copy, Debug, PartialEq, Eq, Structural)]
pub enum SessionState {
    Playing,
    GameOver,
    Terminated,
}

/// A render-ready view of the session: the 16 cells in row-major order, the
/// score, and the state.
pub struct Snapshot {
    pub cells: Vec<u32>,
    pub score: u32,
    pub state: SessionState,
}

/// A board freshly reset: empty but for two seed tiles of value 2 at two
/// distinct cells.
pub open spec fn fresh_board(b: Seq<u32>) -> bool {
    exists|i: int, j: int|
        0 <= i < 16 && 0 <= j < 16 && i != j && b == zeros(16).update(i, 2u32).update(j, 2u32)
}

/// One round of the merge game.
pub struct Session {
    grid: Grid,
    state: SessionState,
}

/// `post` shows the same board, score and state as `pre`.
pub open spec fn unchanged(pre: Session, post: Session) -> bool {
    post.board() == pre.board() && post.spec_score() == pre.spec_score() && post.spec_state()
        == pre.spec_state()
}

impl Session {
    /// The 16 cell values in row-major order.
    pub closed spec fn board(&self) -> Seq<u32> {
        self.grid.board()
    }

    /// The running score.
    pub closed spec fn spec_score(&self) -> u32 {
        self.grid.spec_score()
    }

    /// The state of the round.
    pub closed spec fn spec_state(&self) -> SessionState {
        self.state
    }

    /// Internal invariant: the board is well-formed.
    pub closed spec fn wf(&self) -> bool {
        self.grid.wf()
    }

    /// The board invariant: a well-formed session holds 16 cells, each
    /// empty or a power of two >= 2, after every accepted intent.
    pub proof fn lemma_wf_tiles(&self)
        requires
            self.wf(),
        ensures
            self.board().len() == 16,
            forall|i: int| 0 <= i < 16 ==> crate::tile::tile_ok(#[trigger] self.board()[i]),
    {
    }

    /// Start a session: a fresh board and score 0, accepting moves.
    pub fn new() -> (s: Session)
        ensures
            s.wf(),
            s.spec_state() == SessionState::Playing,
            s.spec_score() == 0,
            fresh_board(s.board()),
    {
        let mut s = Session { grid: Grid::new(), state: SessionState::Playing };
        s.reset();
        s
    }

    /// Resume a round from a known board, accepting moves.
    pub fn from_grid(grid: Grid) -> (s: Session)
        requires
            grid.wf(),
        ensures
            s.wf(),
            s.board() == grid.board(),
            s.spec_score() == grid.spec_score(),
            s.spec_state() == SessionState::Playing,
    {
        Session { grid, state: SessionState::Playing }
    }

    /// Reset the round: clear the board, zero the score, place two seed
    /// tiles of value 2 at two distinct random cells, and accept moves.
    pub fn reset(&mut self)
        ensures
            final(self).wf(),
            final(self).spec_state() == SessionState::Playing,
            final(self).spec_score() == 0,
            fresh_board(final(self).board()),
    {
        let i1 = random_below(16);
        let step = random_below(15);
        // The second seed lands on one of the fifteen other cells.
        let i2 = (i1 + 1 + step) % 16;
        proof {
            assert(i2 != i1 && i2 < 16) by {
                assert(i1 + 1 + step < 31);
                if i1 + 1 + step < 16 {
                } else {
                    assert((i1 + 1 + step) % 16 == i1 + 1 + step - 16);
                }
            }
        }
        self.grid.reset_with(i1, i2);
        self.state = SessionState::Playing;
    }

    /// A render-ready copy of the current board, score and state.
    pub fn snapshot(&self) -> (snap: Snapshot)
        requires
            self.wf(),
        ensures
            snap.cells@ == self.board(),
            snap.score == self.spec_score(),
            snap.state == self.spec_state(),
    {
        Snapshot { cells: self.grid.snapshot_cells(), score: self.grid.score(), state: self.state }
    }

    /// Feed one intent to the state machine and return the snapshot to
    /// render.
    ///
    /// While playing, a directional intent runs the merge engine; only a
    /// move that changed the board spawns a tile, and only a spawn that
    /// filled the last gap can end the round, when no adjacent equal pair is
    /// left.  Directional intents are dropped once the round is over.
    /// Restart begins a fresh round from either state.  Quit freezes the
    /// session for good without touching board or score.
    pub fn apply_intent(&mut self, k: Key) -> (snap: Snapshot)
        requires
            old(self).wf(),
        ensures
            final(self).wf(),
            snap.cells@ == final(self).board(),
            snap.score == final(self).spec_score(),
            snap.state == final(self).spec_state(),
            old(self).spec_state() == SessionState::Terminated ==> unchanged(
                *old(self),
                *final(self),
            ),
            old(self).spec_state() != SessionState::Terminated && k == Key::Quit
                ==> final(self).board() == old(self).board() && final(self).spec_score() == old(
                self,
            ).spec_score() && final(self).spec_state() == SessionState::Terminated,
            old(self).spec_state() != SessionState::Terminated && k == Key::Restart
                ==> final(self).spec_state() == SessionState::Playing && final(self).spec_score()
                == 0 && fresh_board(final(self).board()),
            old(self).spec_state() == SessionState::GameOver && key_dir(k) is Some ==> unchanged(
                *old(self),
                *final(self),
            ),
            old(self).spec_state() == SessionState::Playing && key_dir(k) is Some ==> {
                let d = key_dir(k)->Some_0;
                let mb = move_board(old(self).board(), d);
                &&& (mb == old(self).board() ==> unchanged(*old(self), *final(self)))
                &&& (mb != old(self).board() ==> exists|i: int, v: u32|
                    0 <= i < 16 && mb[i] == 0 && (v == 2 || v == 4) && final(self).board()
                        == mb.update(i, v) && final(self).spec_score() == add_score(
                        old(self).spec_score(),
                        move_delta(old(self).board(), d),
                    ) && final(self).spec_state() == (if num_empty(mb) == 1 && no_adjacent_equal(
                        mb.update(i, v),
                    ) {
                        SessionState::GameOver
                    } else {
                        SessionState::Playing
                    }))
            },
    {
        match self.state {
            SessionState::Terminated => {},
            _ => {
                match k {
                    Key::Quit => {
                        self.state = SessionState::Terminated;
                    },
                    Key::Restart => {
                        self.reset();
                    },
                    _ => {
                        if matches!(self.state, SessionState::Playing) {
                            let d = match k {
                                Key::Up => Dir::Up,
                                Key::Down => Dir::Down,
                                Key::Left => Dir::Left,
                                _ => Dir::Right,
                            };
                            let ghost b0 = self.grid.board();
                            let moved = self.grid.merge_move(d);
                            if moved {
                                proof {
                                    lemma_moved_board_has_empty(b0, d);
                                }
                                let ghost mb = self.grid.board();
                                let full = self.grid.fill_up();
                                let ghost b2 = self.grid.board();
                                let over = if full {
                                    self.grid.game_over()
                                } else {
                                    false
                                };
                                if over {
                                    self.state = SessionState::GameOver;
                                }
                                proof {
                                    let (i, v) = choose|i: int, v: u32|
                                        0 <= i < 16 && mb[i] == 0 && (v == 2 || v == 4) && b2
                                            == mb.update(i, v);
                                    assert(0 <= i < 16 && mb[i] == 0 && (v == 2 || v == 4)
                                        && self.board() == mb.update(i, v) && self.spec_state() == (
                                    if num_empty(mb) == 1 && no_adjacent_equal(mb.update(i, v)) {
                                        SessionState::GameOver
                                    } else {
                                        SessionState::Playing
                                    }));
                                }
                            }
                        }
                    },
                }
            },
        }
        self.snapshot()
    }
}

} // verus!
