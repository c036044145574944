use grid_games::snake::{
    parse_map, SnakeGame, BARRIER, FOOD, MAX_FOOD, SNAKE_BODY, SNAKE_HEAD, SPACE,
};

#[test]
fn parse_map_decodes_marks() {
    let (map, cols) = parse_map(b"..*\n*..\n").expect("well-formed map");
    assert_eq!(cols, 3);
    assert_eq!(map, vec![SPACE, SPACE, BARRIER, BARRIER, SPACE, SPACE]);
}

#[test]
fn parse_map_rejects_bad_text() {
    assert!(parse_map(b"").is_none());
    assert!(parse_map(b"...").is_none()); // no newline
    assert!(parse_map(b"\n").is_none()); // empty line
    assert!(parse_map(b"..\n...\n").is_none()); // ragged widths
    assert!(parse_map(b".x\n..\n").is_none()); // unknown mark
    assert!(parse_map(b"..\n..").is_none()); // unterminated last line
}

/// A 5x6 map of free cells with one wall, as `SnakeGame::new` wants it.
fn open_map() -> (Vec<u8>, usize) {
    let mut text = Vec::new();
    for _ in 0..5 {
        text.extend_from_slice(b"......\n");
    }
    text[7] = b'*'; // row 1, column 0
    parse_map(&text).expect("well-formed map")
}

#[test]
fn new_game_starts_in_the_middle() {
    let (map, cols) = open_map();
    let g = SnakeGame::new(map, cols);
    assert_eq!(g.cols, 6);
    assert_eq!(g.rows, 5);
    assert_eq!(g.init_pos, 15);
    assert_eq!(g.snake, vec![15]);
    assert_eq!(g.map[15], SNAKE_HEAD);
    assert_eq!(g.map[6], BARRIER);
    assert_eq!(g.score, 0);
    assert_eq!(g.food, 0);
    assert_eq!(g.spaces, 28); // 30 cells - 1 wall - 1 head
}

#[test]
fn feed_fills_up_to_the_cap() {
    let (map, cols) = open_map();
    let mut g = SnakeGame::new(map, cols);
    g.feed();
    assert_eq!(g.food, MAX_FOOD);
    assert_eq!(g.spaces, 28 - MAX_FOOD);
    assert_eq!(g.map.iter().filter(|o| **o == FOOD).count(), MAX_FOOD);
    // The snake and walls are untouched.
    assert_eq!(g.map[15], SNAKE_HEAD);
    assert_eq!(g.map[6], BARRIER);
}

#[test]
fn moving_into_space_shifts_the_snake() {
    let (map, cols) = open_map();
    let mut g = SnakeGame::new(map, cols);
    let over = g.right();
    assert!(!over);
    assert_eq!(g.snake, vec![16]);
    assert_eq!(g.map[16], SNAKE_HEAD);
    assert_eq!(g.map[15], SPACE);
    assert_eq!(g.score, 0);
}

#[test]
fn eating_food_grows_and_scores() {
    let (map, cols) = open_map();
    let mut g = SnakeGame::new(map, cols);
    g.map[16] = FOOD;
    g.food = 1;
    g.spaces -= 1;
    let over = g.right();
    assert!(!over);
    assert_eq!(g.snake, vec![16, 15]);
    assert_eq!(g.map[16], SNAKE_HEAD);
    assert_eq!(g.map[15], SNAKE_BODY);
    assert_eq!(g.score, 1);
    assert_eq!(g.food, 0);
}

#[test]
fn hitting_a_wall_or_the_body_ends_the_round() {
    let (map, cols) = open_map();
    let mut g = SnakeGame::new(map, cols);
    g.map[16] = BARRIER;
    g.spaces -= 1;
    let before_map = g.map.clone();
    assert!(g.right());
    assert_eq!(g.map, before_map);
    assert_eq!(g.snake, vec![15]);

    // Grow once, then turn back into the body.
    let (map, cols) = open_map();
    let mut g = SnakeGame::new(map, cols);
    g.map[16] = FOOD;
    g.food = 1;
    g.spaces -= 1;
    assert!(!g.right());
    assert!(g.left());
}

#[test]
fn movement_wraps_around_the_edges() {
    let (map, cols) = open_map();
    let mut g = SnakeGame::new(map, cols);
    // Walk up from row 2 past row 0: wraps to the bottom row.
    assert!(!g.up()); // row 1
    assert!(!g.up()); // row 0
    assert!(!g.up()); // wraps to row 4
    assert_eq!(g.snake, vec![4 * 6 + 3]);
    // Walk right from column 3 past the edge: wraps to column 0.
    assert!(!g.right()); // col 4
    assert!(!g.right()); // col 5
    assert!(!g.right()); // wraps to col 0
    assert_eq!(g.snake, vec![4 * 6]);
}

#[test]
fn reset_clears_food_and_restores_the_start() {
    let (map, cols) = open_map();
    let mut g = SnakeGame::new(map, cols);
    g.feed();
    assert!(!g.right());
    g.reset();
    assert_eq!(g.score, 0);
    assert_eq!(g.food, 0);
    assert_eq!(g.snake, vec![15]);
    assert_eq!(g.map[15], SNAKE_HEAD);
    assert_eq!(g.map[6], BARRIER);
    assert_eq!(g.map.iter().filter(|o| **o == FOOD).count(), 0);
    assert_eq!(g.spaces, 28);
}

#[test]
fn speed_level_steps_with_the_score() {
    let (map, cols) = open_map();
    let mut g = SnakeGame::new(map, cols);
    g.score_to_speed = 2;
    g.score = 0;
    assert_eq!(g.speed_level(), 0);
    g.score = 5;
    assert_eq!(g.speed_level(), 2);
    g.score = 100;
    assert_eq!(g.speed_level(), 9);
}
