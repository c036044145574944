//! Core of the path game: a rectangular map of cells holding walls, food and
//! a growing single-segment snake, with wrap-around addressing.  The host
//! program owns input, rendering and pacing; the logic here is pure and
//! bounded.

use vstd::prelude::*;

verus! {

/// Cell codes of the path game's map.
pub const SPACE: u8 = 0;

pub const BARRIER: u8 = 1;

pub const SNAKE_HEAD: u8 = 2;

pub const SNAKE_BODY: u8 = 3;

pub const FOOD: u8 = 4;

/// Most food items kept on the map at once.
pub const MAX_FOOD: usize = 10;

/// Number of pacing levels the host program may map to frame delays.
pub const SPEED_LEVELS: usize = 10;

/// How many cells of `m` hold the value `v`.
pub open spec fn count_val(m: Seq<u8>, v: u8) -> nat
    decreases m.len(),
{
    if m.len() == 0 {
        0
    } else {
        count_val(m.drop_last(), v) + if m.last() == v {
            1nat
        } else {
            0nat
        }
    }
}

/// Overwriting one cell moves the counts by exactly that cell.
pub proof fn lemma_count_update(m: Seq<u8>, v: u8, i: int, x: u8)
    requires
        0 <= i < m.len(),
    ensures
        count_val(m.update(i, x), v) as int == count_val(m, v) as int + (if x == v {
            1int
        } else {
            0int
        }) - (if m[i] == v {
            1int
        } else {
            0int
        }),
    decreases m.len(),
{
    let mu = m.update(i, x);
    if i == m.len() - 1 {
        assert(mu.drop_last() =~= m.drop_last());
    } else {
        assert(mu.drop_last() =~= m.drop_last().update(i, x));
        lemma_count_update(m.drop_last(), v, i, x);
    }
}

/// A cell holding `v` makes the count positive.
pub proof fn lemma_count_pos(m: Seq<u8>, v: u8, i: int)
    requires
        0 <= i < m.len(),
        m[i] == v,
    ensures
        count_val(m, v) >= 1,
    decreases m.len(),
{
    if i < m.len() - 1 {
        lemma_count_pos(m.drop_last(), v, i);
    }
}

/// A value that occurs nowhere has count 0.
pub proof fn lemma_count_absent(m: Seq<u8>, v: u8)
    requires
        forall|p: int| 0 <= p < m.len() ==> #[trigger] m[p] != v,
    ensures
        count_val(m, v) == 0,
    decreases m.len(),
{
    if m.len() > 0 {
        lemma_count_absent(m.drop_last(), v);
    }
}

/// What a cell holds after a reset: the snake's starting cell gets the
/// head, walls stay, everything else is cleared to free space.
pub open spec fn reset_cell(orig: u8, p: int, init: int) -> u8 {
    if p == init {
        SNAKE_HEAD
    } else if orig == BARRIER {
        BARRIER
    } else {
        SPACE
    }
}

/// Map text of `rows` lines, each `cols` marks (`.` free, `*` wall)
/// followed by one newline.
pub open spec fn text_shape(t: Seq<u8>, cols: int, rows: int) -> bool {
    &&& cols >= 1
    &&& rows >= 1
    &&& t.len() == rows * (cols + 1)
    &&& forall|k: int| 0 <= k < t.len() ==> ((#[trigger] t[k] == 10) <==> (k % (cols + 1) == cols))
    &&& forall|k: int|
        0 <= k < t.len() && k % (cols + 1) != cols ==> #[trigger] t[k] == 46 || t[k] == 42
}

/// Some line width and line count fit the text.
pub open spec fn well_formed_map_text(t: Seq<u8>) -> bool {
    exists|cols: int, rows: int| text_shape(t, cols, rows)
}

/// The map cell a mark stands for.
pub open spec fn decode_mark(ch: u8) -> u8 {
    if ch == 42 {
        BARRIER
    } else {
        SPACE
    }
}

/// Cells of earlier rows sit below the current write position.
proof fn lemma_row_cell_bound(i2: int, j2: int, i: int, c: int)
    requires
        0 <= i2 < i,
        0 <= j2 < c,
    ensures
        0 <= i2 * c + j2 < i * c,
        0 <= i2 * (c + 1) + j2 < i * (c + 1),
{
    assert(i2 * c + j2 < i * c && i2 * (c + 1) + j2 < i * (c + 1)) by (nonlinear_arith)
        requires
            0 <= i2 < i,
            0 <= j2 < c,
    ;
}

/// Only one line width fits: the distance to the first newline.
proof fn lemma_shape_width(t: Seq<u8>, c: int)
    requires
        0 <= c < t.len(),
        t[c] == 10,
        forall|k: int| 0 <= k < c ==> #[trigger] t[k] != 10,
    ensures
        forall|c2: int, r2: int| #[trigger] text_shape(t, c2, r2) ==> c2 == c,
{
    assert forall|c2: int, r2: int| #[trigger] text_shape(t, c2, r2) implies c2 == c by {
        if c2 < c {
            vstd::arithmetic::div_mod::lemma_fundamental_div_mod_converse(c2, c2 + 1, 0, c2);
            assert(t[c2] == 10);
        } else if c2 > c {
            vstd::arithmetic::div_mod::lemma_fundamental_div_mod_converse(c, c2 + 1, 0, c);
            assert(t[c] != 10);
        }
    }
}

/// Parse map text into the cells of a map and its line width.  Returns
/// nothing exactly when the text is not a rectangle of `.` and `*` lines.
pub fn parse_map(text: &[u8]) -> (r: Option<(Vec<u8>, usize)>)
    ensures
        r is Some ==> {
            let m = r->Some_0.0;
            let cols = r->Some_0.1;
            let rows = text@.len() as int / (cols + 1);
            &&& text_shape(text@, cols as int, rows)
            &&& m@.len() == rows * cols
            &&& forall|i: int, j: int|
                0 <= i < rows && 0 <= j < cols ==> #[trigger] m@[i * cols + j] == decode_mark(
                    text@[i * (cols + 1) + j],
                )
        },
        r is None ==> !well_formed_map_text(text@),
{
    let ghost t = text@;
    let n = text.len();
    // The first line's width: marks up to the first newline.
    let mut c: usize = 0;
    while c < n && text[c] != 10
        invariant
            c <= n,
            t == text@,
            n == t.len(),
            forall|k: int| 0 <= k < c ==> #[trigger] t[k] != 10,
        decreases n - c,
    {
        c = c + 1;
    }
    if c == n || c == 0 {
        proof {
            // A shape would place a newline inside the scanned text, or a
            // mark at the very front.
            if well_formed_map_text(t) {
                let (c2, r2) = choose|c2: int, r2: int| text_shape(t, c2, r2);
                if c == n {
                    assert(c2 < t.len()) by (nonlinear_arith)
                        requires
                            t.len() == r2 * (c2 + 1),
                            r2 >= 1,
                            c2 >= 1,
                    ;
                    assert(c2 % (c2 + 1) == c2) by {
                        vstd::arithmetic::div_mod::lemma_fundamental_div_mod_converse(
                            c2,
                            c2 + 1,
                            0,
                            c2,
                        );
                    }
                    assert(t[c2] == 10);
                } else {
                    assert(t[0] == 10);
                    assert(0int % (c2 + 1) == 0) by {
                        vstd::arithmetic::div_mod::lemma_fundamental_div_mod_converse(
                            0,
                            c2 + 1,
                            0,
                            0,
                        );
                    }
                }
            }
        }
        return None;
    }
    let stride = c + 1;
    proof {
        lemma_shape_width(t, c as int);
    }
    if n % stride != 0 {
        proof {
            if well_formed_map_text(t) {
                lemma_shape_width(t, c as int);
                let (c2, r2) = choose|c2: int, r2: int| text_shape(t, c2, r2);
                assert(c2 == c);
                vstd::arithmetic::div_mod::lemma_fundamental_div_mod_converse(
                    r2 * (stride as int),
                    stride as int,
                    r2,
                    0,
                );
            }
        }
        return None;
    }
    let rows = n / stride;
    proof {
        vstd::arithmetic::div_mod::lemma_fundamental_div_mod(n as int, stride as int);
        assert(n as int == stride as int * (n as int / stride as int) + n as int % stride as int);
        assert(n as int % stride as int == 0);
        assert(n as int == stride as int * rows as int);
        assert(n == rows * stride) by (nonlinear_arith)
            requires
                n as int == stride as int * rows as int,
        ;
        assert(rows >= 1) by (nonlinear_arith)
            requires
                n >= stride,
                stride >= 1,
                n == rows * stride,
        ;
    }
    let mut m: Vec<u8> = Vec::new();
    let mut i: usize = 0;
    while i < rows
        invariant
            i <= rows,
            t == text@,
            n == t.len(),
            n == rows * stride,
            stride == c + 1,
            c >= 1,
            rows >= 1,
            m@.len() == i * c,
            t[c as int] == 10,
            forall|k: int| 0 <= k < c ==> #[trigger] t[k] != 10,
            forall|i2: int, j2: int|
                0 <= i2 < i && 0 <= j2 < c ==> #[trigger] m@[i2 * c + j2] == decode_mark(
                    t[i2 * (c + 1) + j2],
                ),
            forall|i2: int, j2: int|
                0 <= i2 < i && 0 <= j2 < c ==> #[trigger] t[i2 * (c + 1) + j2] == 46 || t[i2 * (c
                    + 1) + j2] == 42,
            forall|i2: int| 0 <= i2 < i ==> #[trigger] t[i2 * (c + 1) + c] == 10,
        decreases rows - i,
    {
        proof {
            assert(i * stride + stride <= rows * stride) by (nonlinear_arith)
                requires
                    i < rows,
                    stride >= 1,
            ;
        }
        let base = i * stride;
        let mut j: usize = 0;
        while j < c
            invariant
                j <= c,
                t == text@,
                n == t.len(),
                stride == c + 1,
                base == i * stride,
                base + stride <= n,
                i < rows,
                m@.len() == i * c + j,
                t[c as int] == 10,
                forall|k: int| 0 <= k < c ==> #[trigger] t[k] != 10,
                forall|i2: int, j2: int|
                    0 <= i2 < i && 0 <= j2 < c ==> #[trigger] m@[i2 * c + j2] == decode_mark(
                        t[i2 * (c + 1) + j2],
                    ),
                forall|i2: int, j2: int|
                    0 <= i2 < i && 0 <= j2 < c ==> #[trigger] t[i2 * (c + 1) + j2] == 46 || t[i2 * (
                    c + 1) + j2] == 42,
                forall|i2: int| 0 <= i2 < i ==> #[trigger] t[i2 * (c + 1) + c] == 10,
                forall|j2: int|
                    0 <= j2 < j ==> #[trigger] m@[i * c + j2] == decode_mark(t[i * (c + 1) + j2]),
                forall|j2: int|
                    0 <= j2 < j ==> #[trigger] t[i * (c + 1) + j2] == 46 || t[i * (c + 1) + j2]
                        == 42,
            decreases c - j,
        {
            let ch = text[base + j];
            if ch == 46 {
                m.push(SPACE);
            } else if ch == 42 {
                m.push(BARRIER);
            } else {
                proof {
                    if well_formed_map_text(t) {
                        lemma_shape_width(t, c as int);
                        let (c2, r2) = choose|c2: int, r2: int| text_shape(t, c2, r2);
                        assert(c2 == c);
                        vstd::arithmetic::div_mod::lemma_fundamental_div_mod_converse(
                            (base + j) as int,
                            stride as int,
                            i as int,
                            j as int,
                        );
                        assert(t[base + j] == 46 || t[base + j] == 42);
                    }
                }
                return None;
            }
            proof {
                assert forall|i2: int, j2: int| 0 <= i2 < i && 0 <= j2 < c implies 0 <= #[trigger] (
                i2 * c + j2) < i * c by {
                    lemma_row_cell_bound(i2, j2, i as int, c as int);
                }
            }
            j = j + 1;
        }
        if text[base + c] != 10 {
            proof {
                if well_formed_map_text(t) {
                    lemma_shape_width(t, c as int);
                    let (c2, r2) = choose|c2: int, r2: int| text_shape(t, c2, r2);
                    assert(c2 == c);
                    vstd::arithmetic::div_mod::lemma_fundamental_div_mod_converse(
                        (base + c) as int,
                        stride as int,
                        i as int,
                        c as int,
                    );
                    assert(t[base + c] == 10);
                }
            }
            return None;
        }
        proof {
            assert((i + 1) * c == i * c + c) by (nonlinear_arith);
        }
        i = i + 1;
    }
    proof {
        // Every scanned position makes the shape hold.
        assert forall|k: int| 0 <= k < t.len() implies ((#[trigger] t[k] == 10) <==> (k % (c + 1)
            == c)) && (k % (c + 1) != c ==> t[k] == 46 || t[k] == 42) by {
            vstd::arithmetic::div_mod::lemma_fundamental_div_mod(k, c + 1);
            let i2 = k / (c + 1);
            let j2 = k % (c + 1);
            assert(0 <= i2 < rows) by (nonlinear_arith)
                requires
                    0 <= k < rows * (c + 1),
                    k == (c + 1) * i2 + j2,
                    0 <= j2 < c + 1,
            ;
            assert(k == i2 * (c + 1) + j2);
            if j2 == c {
                assert(t[i2 * (c + 1) + c] == 10);
            } else {
                assert(t[i2 * (c + 1) + j2] == 46 || t[i2 * (c + 1) + j2] == 42);
                assert(t[k] != 10);
            }
        }
        assert(text_shape(t, c as int, rows as int));
        assert(t.len() as int / (c + 1) == rows) by {
            vstd::arithmetic::div_mod::lemma_fundamental_div_mod_converse(
                t.len() as int,
                c + 1,
                rows as int,
                0,
            );
        }
    }
    Some((m, c))
}

/// `post` is `pre` untouched.
pub open spec fn same_game(pre: SnakeGame, post: SnakeGame) -> bool {
    &&& post.rows == pre.rows
    &&& post.cols == pre.cols
    &&& post.init_pos == pre.init_pos
    &&& post.score_to_speed == pre.score_to_speed
    &&& post.score == pre.score
    &&& post.food == pre.food
    &&& post.spaces == pre.spaces
    &&& post.snake@ == pre.snake@
    &&& post.map@ == pre.map@
}

/// What one step of the snake onto cell `pos` does, by what the cell held:
/// a wall or the snake's own body ends the round and changes nothing; food
/// grows the snake by one cell and scores a point; a free cell moves the
/// snake, head in, tail out.
pub open spec fn move_rel(pre: SnakeGame, post: SnakeGame, pos: usize, over: bool) -> bool {
    let m = pre.map@;
    let h = pre.snake@[0];
    let t = pre.snake@.last();
    &&& (m[pos as int] == BARRIER || m[pos as int] == SNAKE_BODY ==> over && same_game(pre, post))
    &&& (m[pos as int] == FOOD ==> {
        &&& !over
        &&& post.snake@ == seq![pos].add(pre.snake@)
        &&& post.map@ == m.update(pos as int, SNAKE_HEAD).update(h as int, SNAKE_BODY)
        &&& post.food == pre.food - 1
        &&& post.spaces == pre.spaces
        &&& post.score == (if pre.score < usize::MAX {
            pre.score + 1
        } else {
            pre.score as int
        })
        &&& post.rows == pre.rows && post.cols == pre.cols && post.init_pos == pre.init_pos
            && post.score_to_speed == pre.score_to_speed
    })
    &&& (m[pos as int] == SPACE ==> {
        &&& !over
        &&& post.snake@ == seq![pos].add(pre.snake@).drop_last()
        &&& post.map@ == m.update(pos as int, SNAKE_HEAD).update(h as int, SNAKE_BODY).update(
            t as int,
            SPACE,
        )
        &&& post.food == pre.food
        &&& post.spaces == pre.spaces
        &&& post.score == pre.score
        &&& post.rows == pre.rows && post.cols == pre.cols && post.init_pos == pre.init_pos
            && post.score_to_speed == pre.score_to_speed
    })
}

/// The path game's whole state.
pub struct SnakeGame {
    /// Cell where the snake starts after a reset.
    pub init_pos: usize,
    pub rows: usize,
    pub cols: usize,
    /// Score needed to step one pacing level up.
    pub score_to_speed: usize,
    pub score: usize,
    /// Food items currently on the map.
    pub food: usize,
    /// Free cells currently on the map.
    pub spaces: usize,
    /// Cells of the snake, head first.
    pub snake: Vec<usize>,
    pub map: Vec<u8>,
}

impl SnakeGame {
    /// Well-formedness: the map matches the dimensions, the snake is on the
    /// map with its cells marked and distinct, the head marker is unique,
    /// every cell holds a known code, and the food and space counters are
    /// exact.
    pub open spec fn wf(&self) -> bool {
        &&& self.rows >= 2
        &&& self.cols >= 2
        &&& self.map@.len() == self.rows * self.cols
        &&& self.init_pos < self.map@.len()
        &&& self.score_to_speed >= 1
        &&& self.snake@.len() >= 1
        &&& forall|i: int| 0 <= i < self.snake@.len() ==> (#[trigger] self.snake@[i]) < self.map@.len()
        &&& forall|i: int, j: int|
            0 <= i < j < self.snake@.len() ==> self.snake@[i] != self.snake@[j]
        &&& self.map@[self.snake@[0] as int] == SNAKE_HEAD
        &&& forall|i: int|
            1 <= i < self.snake@.len() ==> self.map@[#[trigger] self.snake@[i] as int] == SNAKE_BODY
        &&& forall|p: int| 0 <= p < self.map@.len() ==> (#[trigger] self.map@[p]) <= FOOD
        &&& forall|p: int|
            0 <= p < self.map@.len() && #[trigger] self.map@[p] == SNAKE_HEAD ==> p == self.snake@[0]
        &&& self.food == count_val(self.map@, FOOD)
        &&& self.spaces == count_val(self.map@, SPACE)
    }

    /// Build a game over a freshly parsed map of free and wall cells; the
    /// snake starts at the middle cell.
    pub fn new(map: Vec<u8>, cols: usize) -> (g: SnakeGame)
        requires
            cols >= 2,
            map@.len() == (map@.len() / (cols as nat)) * cols,
            map@.len() / (cols as nat) >= 2,
            map@.len() >= 3 * SPEED_LEVELS,
            forall|p: int|
                0 <= p < map@.len() ==> #[trigger] map@[p] == SPACE || map@[p] == BARRIER,
        ensures
            g.wf(),
            g.rows == map@.len() / (cols as nat),
            g.cols == cols,
            g.init_pos == map@.len() / 2nat,
            g.score == 0,
            g.snake@ == seq![(map@.len() / 2nat) as usize],
            forall|p: int|
                0 <= p < map@.len() ==> g.map@[p] == (if p == map@.len() / 2nat {
                    SNAKE_HEAD
                } else {
                    map@[p]
                }),
    {
        let len = map.len();
        let mut g = SnakeGame {
            init_pos: len / 2,
            rows: len / cols,
            cols,
            score_to_speed: len / 3 / SPEED_LEVELS,
            score: 0,
            food: 0,
            spaces: 0,
            snake: Vec::new(),
            map,
        };
        proof {
            assert(len / 2 < len);
            assert(len / 3 >= SPEED_LEVELS as int) by (nonlinear_arith)
                requires
                    len >= 3 * SPEED_LEVELS,
            ;
        }
        g.reset();
        g
    }

    /// Restart the round: the snake shrinks back to its starting cell, food
    /// is cleared off the map, walls stay, and score and counters restart.
    pub fn reset(&mut self)
        requires
            old(self).rows >= 2,
            old(self).cols >= 2,
            old(self).map@.len() == old(self).rows * old(self).cols,
            old(self).init_pos < old(self).map@.len(),
            old(self).score_to_speed >= 1,
            forall|p: int|
                0 <= p < old(self).map@.len() ==> (#[trigger] old(self).map@[p]) <= FOOD,
        ensures
            final(self).wf(),
            final(self).rows == old(self).rows,
            final(self).cols == old(self).cols,
            final(self).init_pos == old(self).init_pos,
            final(self).score_to_speed == old(self).score_to_speed,
            final(self).score == 0,
            final(self).food == 0,
            final(self).snake@ == seq![old(self).init_pos],
            forall|p: int|
                0 <= p < old(self).map@.len() ==> final(self).map@[p] == reset_cell(
                    old(self).map@[p],
                    p,
                    old(self).init_pos as int,
                ),
    {
        let mut snake: Vec<usize> = Vec::new();
        snake.push(self.init_pos);
        self.snake = snake;
        self.score = 0;
        self.food = 0;
        let ghost m0 = self.map@;
        let len = self.map.len();
        let mut i: usize = 0;
        while i < len
            invariant
                i <= len,
                self.map@.len() == len,
                m0.len() == len,
                self.init_pos < len,
                self.rows == old(self).rows,
                self.cols == old(self).cols,
                self.init_pos == old(self).init_pos,
                self.score_to_speed == old(self).score_to_speed,
                self.score == 0,
                self.food == 0,
                self.snake@ == seq![old(self).init_pos],
                forall|p: int|
                    0 <= p < i ==> #[trigger] self.map@[p] == reset_cell(
                        m0[p],
                        p,
                        self.init_pos as int,
                    ),
                forall|p: int| i <= p < len ==> self.map@[p] == m0[p],
            decreases len - i,
        {
            let ghost before = self.map@;
            let obj = self.map[i];
            if i == self.init_pos {
                self.map[i] = SNAKE_HEAD;
            } else if obj == BARRIER {
                self.map[i] = BARRIER;
            } else {
                self.map[i] = SPACE;
            }
            proof {
                assert forall|p: int| 0 <= p < i + 1 implies #[trigger] self.map@[p] == reset_cell(
                    m0[p],
                    p,
                    self.init_pos as int,
                ) by {
                    if p == i {
                        assert(before[p] == m0[p]);
                    } else {
                        assert(self.map@[p] == before[p]);
                    }
                }
            }
            i = i + 1;
        }
        // Recount the free cells of the cleared map.
        let ghost m1 = self.map@;
        let mut spaces: usize = 0;
        let mut i: usize = 0;
        while i < len
            invariant
                i <= len,
                self.map@ == m1,
                m1.len() == len,
                self.rows == old(self).rows,
                self.cols == old(self).cols,
                self.init_pos == old(self).init_pos,
                self.score_to_speed == old(self).score_to_speed,
                self.score == 0,
                self.food == 0,
                self.snake@ == seq![old(self).init_pos],
                spaces == count_val(self.map@.take(i as int), SPACE),
                spaces <= i,
            decreases len - i,
        {
            proof {
                assert(self.map@.take(i + 1).drop_last() =~= self.map@.take(i as int));
                assert(self.map@.take(i + 1).last() == self.map@[i as int]);
            }
            if self.map[i] == SPACE {
                spaces = spaces + 1;
            }
            i = i + 1;
        }
        proof {
            assert(self.map@.take(len as int) =~= self.map@);
            assert forall|p: int| 0 <= p < self.map@.len() implies #[trigger] self.map@[p]
                != FOOD by {
                assert(self.map@[p] == reset_cell(m0[p], p, self.init_pos as int));
            }
            lemma_count_absent(self.map@, FOOD);
        }
        self.spaces = spaces;
    }

    /// Step the snake onto the cell `(x, y)` and classify what it hits:
    /// a wall or its own body ends the round, food grows the snake and
    /// scores, a free cell just moves it.
    pub fn move_to(&mut self, x: usize, y: usize) -> (over: bool)
        requires
            old(self).wf(),
            x < old(self).rows,
            y < old(self).cols,
            x * old(self).cols + y != old(self).snake@[0],
        ensures
            final(self).wf(),
            move_rel(*old(self), *final(self), (x * old(self).cols + y) as usize, over),
    {
        let ml = self.map.len();
        proof {
            assert(x * self.cols + y < self.rows * self.cols) by (nonlinear_arith)
                requires
                    x < self.rows,
                    y < self.cols,
            ;
            assert(x * self.cols + y < ml);
        }
        let pos = x * self.cols + y;
        let ghost m = self.map@;
        let ghost sn = self.snake@;
        let c = self.map[pos];
        if c == BARRIER || c == SNAKE_BODY {
            return true;
        }
        proof {
            // The target is not the head cell, so it holds food or space.
            assert(c != SNAKE_HEAD);
            assert(c == SPACE || c == FOOD);
            // The target cell is on no part of the snake.
            assert forall|i: int| 0 <= i < sn.len() implies #[trigger] sn[i] != pos by {
                if sn[i] == pos {
                    if i == 0 {
                        assert(m[pos as int] == SNAKE_HEAD);
                    } else {
                        assert(m[pos as int] == SNAKE_BODY);
                    }
                }
            }
        }
        let h = self.snake[0];
        self.snake.insert(0, pos);
        proof {
            assert(self.snake@ =~= seq![pos].add(sn));
        }
        self.map[pos] = SNAKE_HEAD;
        let h1 = self.snake[1];
        proof {
            assert(h1 == h);
        }
        self.map[h1] = SNAKE_BODY;
        proof {
            assert(h != pos);
            lemma_count_update(m, FOOD, pos as int, SNAKE_HEAD);
            lemma_count_update(m, SPACE, pos as int, SNAKE_HEAD);
            lemma_count_update(m.update(pos as int, SNAKE_HEAD), FOOD, h as int, SNAKE_BODY);
            lemma_count_update(m.update(pos as int, SNAKE_HEAD), SPACE, h as int, SNAKE_BODY);
        }
        if c == FOOD {
            proof {
                lemma_count_pos(m, FOOD, pos as int);
            }
            self.food = self.food - 1;
            self.score = if self.score < usize::MAX {
                self.score + 1
            } else {
                self.score
            };
            proof {
                self.lemma_wf_after_grow(*old(self), pos);
            }
            false
        } else {
            let t = self.snake.pop().unwrap();
            proof {
                assert(self.snake@ =~= (seq![pos] + sn).drop_last());
                assert(t == sn.last());
            }
            self.map[t] = SPACE;
            proof {
                let m2 = m.update(pos as int, SNAKE_HEAD).update(h as int, SNAKE_BODY);
                assert(m2[t as int] == SNAKE_BODY);
                lemma_count_update(m2, FOOD, t as int, SPACE);
                lemma_count_update(m2, SPACE, t as int, SPACE);
                self.lemma_wf_after_slide(*old(self), pos);
            }
            false
        }
    }

    /// After growing onto `pos`, the game is well-formed again.
    proof fn lemma_wf_after_grow(&self, pre: SnakeGame, pos: usize)
        requires
            pre.wf(),
            pos < pre.map@.len(),
            pre.map@[pos as int] == FOOD,
            forall|i: int| 0 <= i < pre.snake@.len() ==> #[trigger] pre.snake@[i] != pos,
            self.snake@ == seq![pos].add(pre.snake@),
            self.map@ == pre.map@.update(pos as int, SNAKE_HEAD).update(
                pre.snake@[0] as int,
                SNAKE_BODY,
            ),
            self.rows == pre.rows,
            self.cols == pre.cols,
            self.init_pos == pre.init_pos,
            self.score_to_speed == pre.score_to_speed,
            self.food == count_val(self.map@, FOOD),
            self.spaces == count_val(self.map@, SPACE),
        ensures
            self.wf(),
    {
        let h = pre.snake@[0];
        assert(h != pos);
        assert(self.map@[pos as int] == SNAKE_HEAD);
        assert forall|i: int| 1 <= i < self.snake@.len() implies self.map@[#[trigger] self.snake@[i] as int]
            == SNAKE_BODY by {
            let s = self.snake@[i];
            if i == 1 {
                assert(s == h);
            } else {
                assert(s == pre.snake@[i - 1]);
                assert(pre.map@[s as int] == SNAKE_BODY);
                assert(s != h) by {
                    if s == h {
                        assert(pre.map@[h as int] == SNAKE_HEAD);
                    }
                }
            }
        }
        assert forall|p: int|
            0 <= p < self.map@.len() && #[trigger] self.map@[p] == SNAKE_HEAD implies p
            == self.snake@[0] by {
            if p != pos && p != h {
                assert(pre.map@[p] == SNAKE_HEAD);
            }
        }
    }

    /// After sliding onto `pos` and dropping the tail, the game is
    /// well-formed again.
    proof fn lemma_wf_after_slide(&self, pre: SnakeGame, pos: usize)
        requires
            pre.wf(),
            pos < pre.map@.len(),
            pre.map@[pos as int] == SPACE,
            forall|i: int| 0 <= i < pre.snake@.len() ==> #[trigger] pre.snake@[i] != pos,
            self.snake@ == seq![pos].add(pre.snake@).drop_last(),
            self.map@ == pre.map@.update(pos as int, SNAKE_HEAD).update(
                pre.snake@[0] as int,
                SNAKE_BODY,
            ).update(pre.snake@.last() as int, SPACE),
            self.rows == pre.rows,
            self.cols == pre.cols,
            self.init_pos == pre.init_pos,
            self.score_to_speed == pre.score_to_speed,
            self.food == count_val(self.map@, FOOD),
            self.spaces == count_val(self.map@, SPACE),
        ensures
            self.wf(),
    {
        let h = pre.snake@[0];
        let t = pre.snake@.last();
        let n = pre.snake@.len();
        assert(h != pos && t != pos);
        assert(self.snake@.len() == n);
        assert(self.snake@[0] == pos);
        assert(t != pos);
        if n >= 2 {
            assert(pre.map@[t as int] == SNAKE_BODY);
            assert(t != h);
        }
        assert(self.map@[pos as int] == SNAKE_HEAD);
        assert forall|i: int| 1 <= i < self.snake@.len() implies self.map@[#[trigger] self.snake@[i] as int]
            == SNAKE_BODY by {
            let s = self.snake@[i];
            assert(s == pre.snake@[i - 1]);
            assert(i - 1 < n - 1);
            assert(s != t);
            if i == 1 {
                assert(s == h);
            } else {
                assert(pre.map@[s as int] == SNAKE_BODY);
                assert(s != h) by {
                    if s == h {
                        assert(pre.map@[h as int] == SNAKE_HEAD);
                    }
                }
            }
        }
        assert forall|p: int|
            0 <= p < self.map@.len() && #[trigger] self.map@[p] == SNAKE_HEAD implies p
            == self.snake@[0] by {
            if p != pos && p != h && p != t {
                assert(pre.map@[p] == SNAKE_HEAD);
            }
        }
    }

    /// The head's row.
    pub open spec fn head_row(&self) -> int {
        self.snake@[0] as int / self.cols as int
    }

    /// The head's column.
    pub open spec fn head_col(&self) -> int {
        self.snake@[0] as int % self.cols as int
    }

    /// Cell one row up from the head, wrapping over the top edge.
    pub open spec fn up_target(&self) -> int {
        (if self.head_row() == 0 {
            self.rows - 1
        } else {
            self.head_row() - 1
        }) * self.cols + self.head_col()
    }

    /// Cell one row down from the head, wrapping over the bottom edge.
    pub open spec fn down_target(&self) -> int {
        (if self.head_row() == self.rows - 1 {
            0
        } else {
            self.head_row() + 1
        }) * self.cols + self.head_col()
    }

    /// Cell one column left of the head, wrapping over the left edge.
    pub open spec fn left_target(&self) -> int {
        self.head_row() * self.cols + (if self.head_col() == 0 {
            self.cols - 1
        } else {
            self.head_col() - 1
        })
    }

    /// Cell one column right of the head, wrapping over the right edge.
    pub open spec fn right_target(&self) -> int {
        self.head_row() * self.cols + (if self.head_col() == self.cols - 1 {
            0
        } else {
            self.head_col() + 1
        })
    }

    /// Step up, wrapping around the map.
    pub fn up(&mut self) -> (over: bool)
        requires
            old(self).wf(),
        ensures
            final(self).wf(),
            move_rel(*old(self), *final(self), old(self).up_target() as usize, over),
    {
        let (x, y) = self.snake_head_pos();
        let xx = if x == 0 {
            self.rows - 1
        } else {
            x - 1
        };
        proof {
            self.lemma_off_head_row(xx as int, y as int);
        }
        self.move_to(xx, y)
    }

    /// Step down, wrapping around the map.
    pub fn down(&mut self) -> (over: bool)
        requires
            old(self).wf(),
        ensures
            final(self).wf(),
            move_rel(*old(self), *final(self), old(self).down_target() as usize, over),
    {
        let (x, y) = self.snake_head_pos();
        let xx = if x + 1 == self.rows {
            0
        } else {
            x + 1
        };
        proof {
            self.lemma_off_head_row(xx as int, y as int);
        }
        self.move_to(xx, y)
    }

    /// Step left, wrapping around the map.
    pub fn left(&mut self) -> (over: bool)
        requires
            old(self).wf(),
        ensures
            final(self).wf(),
            move_rel(*old(self), *final(self), old(self).left_target() as usize, over),
    {
        let (x, y) = self.snake_head_pos();
        let yy = if y == 0 {
            self.cols - 1
        } else {
            y - 1
        };
        proof {
            self.lemma_head_decompose();
        }
        self.move_to(x, yy)
    }

    /// Step right, wrapping around the map.
    pub fn right(&mut self) -> (over: bool)
        requires
            old(self).wf(),
        ensures
            final(self).wf(),
            move_rel(*old(self), *final(self), old(self).right_target() as usize, over),
    {
        let (x, y) = self.snake_head_pos();
        let yy = if y + 1 == self.cols {
            0
        } else {
            y + 1
        };
        proof {
            self.lemma_head_decompose();
        }
        self.move_to(x, yy)
    }

    /// The head cell splits into its row and column.
    proof fn lemma_head_decompose(&self)
        requires
            self.wf(),
        ensures
            self.snake@[0] as int == self.head_row() * self.cols + self.head_col(),
            0 <= self.head_row() < self.rows,
            0 <= self.head_col() < self.cols,
    {
        vstd::arithmetic::div_mod::lemma_fundamental_div_mod(
            self.snake@[0] as int,
            self.cols as int,
        );
        assert(self.head_row() < self.rows && self.head_col() < self.cols) by (nonlinear_arith)
            requires
                self.cols >= 1,
                self.rows >= 1,
                (self.snake@[0] as int) < self.rows * self.cols,
                self.snake@[0] as int == self.cols * (self.snake@[0] as int / self.cols as int)
                    + self.head_col(),
                0 <= self.head_col() < self.cols,
        ;
    }

    /// A cell on another row than the head is another cell.
    proof fn lemma_off_head_row(&self, xx: int, y: int)
        requires
            self.wf(),
            0 <= xx < self.rows,
            xx != self.head_row(),
            y == self.head_col(),
        ensures
            xx * self.cols + y != self.snake@[0],
    {
        self.lemma_head_decompose();
        assert(xx * self.cols != self.head_row() * self.cols) by (nonlinear_arith)
            requires
                xx != self.head_row(),
                self.cols >= 1,
        ;
    }

    /// `(row, col)` of the snake's head.
    pub fn snake_head_pos(&self) -> (rc: (usize, usize))
        requires
            self.wf(),
        ensures
            rc.0 == self.snake@[0] as int / self.cols as int,
            rc.1 == self.snake@[0] as int % self.cols as int,
            rc.0 < self.rows,
            rc.1 < self.cols,
    {
        let pos = self.snake[0];
        proof {
            assert(pos / self.cols < self.rows && pos % self.cols < self.cols)
                by (nonlinear_arith)
                requires
                    self.cols >= 1,
                    self.rows >= 1,
                    pos < self.rows * self.cols,
            ;
        }
        (pos / self.cols, pos % self.cols)
    }

    /// Keep food on the map: fill random free cells with food until the cap
    /// is reached or no free cell is left.  Nothing else changes.
    pub fn feed(&mut self)
        requires
            old(self).wf(),
        ensures
            final(self).wf(),
            final(self).rows == old(self).rows,
            final(self).cols == old(self).cols,
            final(self).init_pos == old(self).init_pos,
            final(self).score_to_speed == old(self).score_to_speed,
            final(self).score == old(self).score,
            final(self).snake@ == old(self).snake@,
            forall|p: int|
                0 <= p < old(self).map@.len() ==> final(self).map@[p] == old(self).map@[p] || (old(
                    self,
                ).map@[p] == SPACE && final(self).map@[p] == FOOD),
            final(self).food >= old(self).food,
            final(self).food <= MAX_FOOD || final(self).food == old(self).food,
            final(self).food >= MAX_FOOD || final(self).spaces == 0,
            final(self).food - old(self).food == old(self).spaces - final(self).spaces,
    {
        // Gather the free cells; their number is exactly the space counter.
        let ghost m0 = self.map@;
        let len = self.map.len();
        let mut free: Vec<usize> = Vec::new();
        let mut i: usize = 0;
        while i < len
            invariant
                i <= len,
                self.map@.len() == len,
                free@.len() == count_val(self.map@.take(i as int), SPACE),
                forall|k: int| 0 <= k < free@.len() ==> (#[trigger] free@[k]) < i,
                forall|k: int|
                    0 <= k < free@.len() ==> self.map@[#[trigger] free@[k] as int] == SPACE,
                forall|a: int, b: int| 0 <= a < b < free@.len() ==> free@[a] != free@[b],
            decreases len - i,
        {
            proof {
                assert(self.map@.take(i + 1).drop_last() =~= self.map@.take(i as int));
                assert(self.map@.take(i + 1).last() == self.map@[i as int]);
            }
            if self.map[i] == SPACE {
                free.push(i);
            }
            i = i + 1;
        }
        proof {
            assert(self.map@.take(len as int) =~= self.map@);
        }

        while self.food < MAX_FOOD && free.len() > 0
            invariant
                self.wf(),
                self.map@.len() == len,
                self.rows == old(self).rows,
                self.cols == old(self).cols,
                self.init_pos == old(self).init_pos,
                self.score_to_speed == old(self).score_to_speed,
                self.score == old(self).score,
                self.snake@ == old(self).snake@,
                forall|p: int|
                    0 <= p < len ==> self.map@[p] == m0[p] || (m0[p] == SPACE && #[trigger] self.map@[p]
                        == FOOD),
                free@.len() == self.spaces,
                forall|k: int| 0 <= k < free@.len() ==> (#[trigger] free@[k]) < len,
                forall|k: int|
                    0 <= k < free@.len() ==> self.map@[#[trigger] free@[k] as int] == SPACE,
                forall|a: int, b: int| 0 <= a < b < free@.len() ==> free@[a] != free@[b],
                self.food >= old(self).food,
                self.food <= MAX_FOOD || self.food == old(self).food,
                self.food - old(self).food == old(self).spaces - self.spaces,
            decreases free.len(),
        {
            let ghost fv = free@;
            let ghost mc = self.map@;
            let k = crate::spawn::random_below(free.len());
            let idx = free.swap_remove(k);
            proof {
                assert(mc[idx as int] == SPACE);
                lemma_count_pos(mc, SPACE, idx as int);
                lemma_count_update(mc, FOOD, idx as int, FOOD);
                lemma_count_update(mc, SPACE, idx as int, FOOD);
                // The removed cell was no part of the snake and no head.
                assert forall|i2: int| 0 <= i2 < self.snake@.len() implies #[trigger] self.snake@[i2]
                    != idx by {
                    if self.snake@[i2] == idx {
                        if i2 == 0 {
                            assert(mc[idx as int] == SNAKE_HEAD);
                        } else {
                            assert(mc[idx as int] == SNAKE_BODY);
                        }
                    }
                }
                // The other gathered cells are still free and distinct.
                assert forall|a: int| 0 <= a < free@.len() implies #[trigger] free@[a] != idx by {
                    if a < fv.len() - 1 && a != k {
                        assert(free@[a] == fv[a]);
                    }
                }
            }
            self.map[idx] = FOOD;
            self.food = self.food + 1;
            self.spaces = self.spaces - 1;
        }
    }

    /// The pacing level for the current score: one step up per
    /// `score_to_speed` points, capped at the fastest level.
    pub fn speed_level(&self) -> (level: usize)
        requires
            self.score_to_speed >= 1,
        ensures
            level == (if (self.score as int / self.score_to_speed as int) < (SPEED_LEVELS as int) {
                self.score as int / self.score_to_speed as int
            } else {
                SPEED_LEVELS - 1
            }),
            level < SPEED_LEVELS,
    {
        let mut idx = self.score / self.score_to_speed;
        if idx >= SPEED_LEVELS {
            idx = SPEED_LEVELS - 1;
        }
        idx
    }
}

} // verus!
