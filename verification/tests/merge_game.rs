use grid_games::grid::Grid;
use grid_games::session::{Key, Session, SessionState};
use grid_games::tile::tile_is_valid;
use grid_games::transform::{to_physical, Dir};

fn board_with_row0(row: [u32; 4]) -> Vec<u32> {
    let mut cells = vec![0u32; 16];
    for (i, v) in row.iter().enumerate() {
        cells[i] = *v;
    }
    cells
}

fn grid_from(cells: Vec<u32>, score: u32) -> Grid {
    Grid::try_from_cells(cells, score).expect("valid board")
}

#[test]
fn left_merges_earliest_pair_only() {
    // A chain of three equal tiles merges its first pair; the third does
    // not re-merge with the fresh tile in the same move.
    let mut g = grid_from(board_with_row0([2, 2, 2, 0]), 0);
    let moved = g.merge_move(Dir::Left);
    assert!(moved);
    let cells = g.snapshot_cells();
    assert_eq!(&cells[0..4], &[4, 2, 0, 0]);
    assert_eq!(&cells[4..16], &[0u32; 12][..]);
    assert_eq!(g.score(), 4);
}

#[test]
fn left_merges_two_pairs() {
    let mut g = grid_from(board_with_row0([2, 2, 4, 4]), 0);
    let moved = g.merge_move(Dir::Left);
    assert!(moved);
    let cells = g.snapshot_cells();
    assert_eq!(&cells[0..4], &[4, 8, 0, 0]);
    assert_eq!(g.score(), 12);
}

#[test]
fn alternating_full_line_does_not_move() {
    let mut g = grid_from(board_with_row0([2, 4, 2, 4]), 7);
    let moved = g.merge_move(Dir::Left);
    assert!(!moved);
    let cells = g.snapshot_cells();
    assert_eq!(&cells[0..4], &[2, 4, 2, 4]);
    assert_eq!(g.score(), 7);
}

#[test]
fn right_up_down_are_reflections() {
    let mut g = grid_from(board_with_row0([0, 0, 2, 2]), 0);
    assert!(g.merge_move(Dir::Right));
    assert_eq!(&g.snapshot_cells()[0..4], &[0, 0, 0, 4]);

    let mut cells = vec![0u32; 16];
    cells[0] = 2;
    cells[4] = 2;
    let mut g = grid_from(cells, 0);
    assert!(g.merge_move(Dir::Up));
    let after = g.snapshot_cells();
    assert_eq!(after[0], 4);
    assert_eq!(after[4], 0);

    let mut cells = vec![0u32; 16];
    cells[8] = 2;
    cells[12] = 2;
    let mut g = grid_from(cells, 0);
    assert!(g.merge_move(Dir::Down));
    let after = g.snapshot_cells();
    assert_eq!(after[12], 4);
    assert_eq!(after[8], 0);
}

fn checkerboard() -> Vec<u32> {
    let mut cells = vec![0u32; 16];
    for r in 0..4 {
        for c in 0..4 {
            cells[r * 4 + c] = if (r + c) % 2 == 0 { 2 } else { 4 };
        }
    }
    cells
}

#[test]
fn terminal_detector_on_checkerboard() {
    let g = grid_from(checkerboard(), 0);
    assert!(g.game_over());

    // One matching adjacent pair flips the verdict.
    let mut cells = checkerboard();
    cells[1] = 2;
    let g = grid_from(cells, 0);
    assert!(!g.game_over());
}

#[test]
fn no_op_move_triggers_no_spawn() {
    // Every row alternates, so a Left move changes nothing: board, score
    // and state stay exactly as they were.
    let mut cells = vec![0u32; 16];
    for r in 0..4 {
        for c in 0..4 {
            cells[r * 4 + c] = if c % 2 == 0 { 2 } else { 4 };
        }
    }
    let mut s = Session::from_grid(grid_from(cells.clone(), 3));
    let snap = s.apply_intent(Key::Left);
    assert_eq!(snap.cells, cells);
    assert_eq!(snap.score, 3);
    assert_eq!(snap.state, SessionState::Playing);
}

#[test]
fn changed_move_spawns_exactly_one_tile() {
    let mut s = Session::from_grid(grid_from(board_with_row0([2, 2, 4, 4]), 0));
    let snap = s.apply_intent(Key::Left);
    assert_eq!(snap.score, 12);
    let nonzero: Vec<u32> = snap.cells.iter().cloned().filter(|v| *v != 0).collect();
    // The merged row left two tiles; the spawner added exactly one more.
    assert_eq!(nonzero.len(), 3);
    assert!(snap.cells.iter().all(|v| tile_is_valid(*v)));
}

#[test]
fn restart_resets_score_and_seeds_two_tiles() {
    let mut s = Session::new();
    s.apply_intent(Key::Left);
    s.apply_intent(Key::Up);
    let snap = s.apply_intent(Key::Restart);
    assert_eq!(snap.score, 0);
    assert_eq!(snap.state, SessionState::Playing);
    let seeds: Vec<usize> =
        (0..16).filter(|i| snap.cells[*i] != 0).collect();
    assert_eq!(seeds.len(), 2);
    assert_ne!(seeds[0], seeds[1]);
    assert_eq!(snap.cells[seeds[0]], 2);
    assert_eq!(snap.cells[seeds[1]], 2);
}

#[test]
fn quit_freezes_the_last_snapshot() {
    let mut s = Session::new();
    let before = s.snapshot();
    let snap = s.apply_intent(Key::Quit);
    assert_eq!(snap.state, SessionState::Terminated);
    assert_eq!(snap.cells, before.cells);
    assert_eq!(snap.score, before.score);
    // Further intents are dropped.
    let later = s.apply_intent(Key::Left);
    assert_eq!(later.cells, snap.cells);
    assert_eq!(later.state, SessionState::Terminated);
}

#[test]
fn transforms_are_bijections_onto_the_board() {
    for d in [Dir::Up, Dir::Down, Dir::Left, Dir::Right] {
        let mut seen = [false; 16];
        for x in 0..4 {
            for y in 0..4 {
                let (r, c) = to_physical(d, x, y);
                let idx = r * 4 + c;
                assert!(idx < 16);
                assert!(!seen[idx], "cell mapped twice");
                seen[idx] = true;
            }
        }
        assert!(seen.iter().all(|b| *b), "cell skipped");
    }
}

#[test]
fn every_reachable_cell_is_a_power_of_two() {
    let mut s = Session::new();
    let keys = [Key::Left, Key::Up, Key::Right, Key::Down];
    let mut prev_score = 0u32;
    for i in 0..200 {
        let snap = s.apply_intent(keys[i % 4]);
        assert!(snap.cells.iter().all(|v| tile_is_valid(*v)));
        if snap.state == SessionState::Playing {
            assert!(snap.score >= prev_score);
            prev_score = snap.score;
        } else {
            break;
        }
    }
}

#[test]
fn spawner_fills_one_empty_cell() {
    // One gap left: the spawn closes it and reports the board full.
    let mut cells = checkerboard();
    cells[5] = 0;
    let mut g = grid_from(cells.clone(), 0);
    let full = g.fill_up();
    assert!(full);
    let after = g.snapshot_cells();
    assert!(after[5] == 2 || after[5] == 4);
    for i in 0..16 {
        if i != 5 {
            assert_eq!(after[i], cells[i]);
        }
    }

    // No gap at all: full is reported without a write.
    let mut g = grid_from(checkerboard(), 0);
    assert!(g.fill_up());
    assert_eq!(g.snapshot_cells(), checkerboard());

    // Plenty of gaps: one cell is filled and the board is not full.
    let mut g = grid_from(board_with_row0([2, 4, 0, 0]), 0);
    assert!(!g.fill_up());
    let after = g.snapshot_cells();
    let filled: Vec<usize> = (0..16).filter(|i| after[*i] != 0).collect();
    assert_eq!(filled.len(), 3);
}

#[test]
fn key_decoding_matches_the_bindings() {
    assert!(matches!(Key::from(b'w', Key::Quit), Key::Up));
    assert!(matches!(Key::from(b'k', Key::Quit), Key::Up));
    assert!(matches!(Key::from(b'd', Key::Quit), Key::Right));
    assert!(matches!(Key::from(b'l', Key::Quit), Key::Right));
    assert!(matches!(Key::from(b's', Key::Quit), Key::Down));
    assert!(matches!(Key::from(b'j', Key::Quit), Key::Down));
    assert!(matches!(Key::from(b'a', Key::Quit), Key::Left));
    assert!(matches!(Key::from(b'h', Key::Quit), Key::Left));
    assert!(matches!(Key::from(b'r', Key::Quit), Key::Restart));
    assert!(matches!(Key::from(b'q', Key::Up), Key::Quit));
    assert!(matches!(Key::from(b'x', Key::Down), Key::Down));
}

#[test]
fn tile_validity_is_exact() {
    for v in [0u32, 2, 4, 8, 1024, 65536, 1 << 31] {
        assert!(tile_is_valid(v));
    }
    for v in [1u32, 3, 6, 12, 100, u32::MAX] {
        assert!(!tile_is_valid(v));
    }
}

#[test]
fn bad_boards_are_rejected() {
    assert!(Grid::try_from_cells(vec![0u32; 15], 0).is_none());
    let mut cells = vec![0u32; 16];
    cells[3] = 3;
    assert!(Grid::try_from_cells(cells, 0).is_none());
    assert!(Grid::try_from_cells(vec![0u32; 16], 0).is_some());
}
