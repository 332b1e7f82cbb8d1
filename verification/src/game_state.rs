//! The board model: grid, snakes, food and hazards, and the rules that move
//! snakes and settle what happens when they meet.

use std::collections::VecDeque;
use vstd::prelude::*;

verus! {

/// The index that stands for "not on the board".
pub const OFF_BOARD: usize = usize::MAX;

/// A cell of the grid in row-major order, or `OFF_BOARD`.
#[derive(Debug, Clone, Copy, PartialEq, Eq, Hash, Structural)]
pub struct Position {
    pub index: usize,
}

/// One of the four orthogonal steps. `Up` leads to the row with the smaller
/// indices.
#[derive(Debug, Clone, Copy, PartialEq, Eq, Hash, Structural)]
pub enum Direction {
    Up,
    Down,
    Left,
    Right,
}

/// A snake: its segments from the head backwards, its health and its name.
#[derive(Debug)]
pub struct Snake {
    pub id: String,
    pub body: VecDeque<Position>,
    pub health: u8,
}

/// The mathematical value of a `Snake`.
pub ghost struct SnakeView {
    pub id: Seq<char>,
    pub body: Seq<Position>,
    pub health: u8,
}

impl View for Snake {
    type V = SnakeView;

    open spec fn view(&self) -> SnakeView {
        SnakeView { id: self.id@, body: self.body@, health: self.health }
    }
}

impl SnakeView {
    /// The head cell; `OFF_BOARD` for a snake without segments.
    pub open spec fn head(self) -> Position {
        if self.body.len() > 0 {
            self.body[0]
        } else {
            Position { index: OFF_BOARD }
        }
    }

    /// Whether the snake lives: its health is above 0.
    pub open spec fn alive(self) -> bool {
        self.health > 0
    }
}

impl Snake {
    /// The head cell; `OFF_BOARD` for a snake without segments.
    pub fn head(&self) -> (r: Position)
        ensures
            r == self@.head(),
    {
        if self.body.len() > 0 {
            self.body[0]
        } else {
            Position { index: OFF_BOARD }
        }
    }

    /// The number of segments.
    pub fn length(&self) -> (r: usize)
        ensures
            r == self@.body.len(),
    {
        self.body.len()
    }
}

/// A board: its size, the snakes in the order they were added, food cells and
/// hazard cells.
#[derive(Debug)]
pub struct GameState {
    pub width: usize,
    pub height: usize,
    pub snakes: Vec<Snake>,
    pub food: Vec<Position>,
    pub hazards: Vec<Position>,
}

/// The mathematical value of a `GameState`.
pub ghost struct GameStateView {
    pub width: usize,
    pub height: usize,
    pub snakes: Seq<SnakeView>,
    pub food: Seq<Position>,
    pub hazards: Seq<Position>,
}

impl View for GameState {
    type V = GameStateView;

    open spec fn view(&self) -> GameStateView {
        GameStateView {
            width: self.width,
            height: self.height,
            snakes: Seq::new(self.snakes@.len(), |i: int| self.snakes@[i]@),
            food: self.food@,
            hazards: self.hazards@,
        }
    }
}

impl Clone for Snake {
    /// A snake of the same value.
    fn clone(&self) -> (r: Self)
        ensures
            r@ == self@,
    {
        let body = self.body.clone();
        assert(body@ =~= self.body@);
        Snake { id: self.id.clone(), body, health: self.health }
    }
}

impl Clone for GameState {
    /// A board of the same value.
    fn clone(&self) -> (r: Self)
        ensures
            r@ == self@,
    {
        let mut snakes: Vec<Snake> = Vec::new();
        let mut i: usize = 0;
        while i < self.snakes.len()
            invariant
                i <= self.snakes.len(),
                snakes.len() == i,
                forall|m: int| 0 <= m < i ==> snakes@[m]@ == self.snakes@[m]@,
            decreases self.snakes.len() - i,
        {
            snakes.push(self.snakes[i].clone());
            i += 1;
        }
        let food = self.food.clone();
        let hazards = self.hazards.clone();
        assert(food@ =~= self.food@);
        assert(hazards@ =~= self.hazards@);
        let r = GameState { width: self.width, height: self.height, snakes, food, hazards };
        assert(r@.snakes =~= self@.snakes);
        r
    }
}

/// The cell reached from `cell` by one step in `direction` on a grid of
/// `width` by `height` cells, or `OFF_BOARD` where the step leaves the grid
/// or `cell` is not on it.
pub open spec fn step_cell(width: usize, height: usize, cell: usize, direction: Direction) -> usize {
    if cell < width * height {
        match direction {
            Direction::Up => if cell >= width {
                (cell - width) as usize
            } else {
                OFF_BOARD
            },
            Direction::Down => if cell + width < width * height {
                (cell + width) as usize
            } else {
                OFF_BOARD
            },
            Direction::Left => if cell % width != 0 {
                (cell - 1) as usize
            } else {
                OFF_BOARD
            },
            Direction::Right => if cell % width != width - 1 {
                (cell + 1) as usize
            } else {
                OFF_BOARD
            },
        }
    } else {
        OFF_BOARD
    }
}

impl Direction {
    /// The direction that leads back.
    pub open spec fn opposite(self) -> Direction {
        match self {
            Direction::Up => Direction::Down,
            Direction::Down => Direction::Up,
            Direction::Left => Direction::Right,
            Direction::Right => Direction::Left,
        }
    }
}

/// A step that stays on the board ends on a cell of the board, and the
/// opposite step leads back from there.
pub proof fn lemma_step_back(width: usize, height: usize, cell: usize, direction: Direction)
    requires
        width * height <= usize::MAX,
        step_cell(width, height, cell, direction) != OFF_BOARD,
    ensures
        cell < width * height,
        step_cell(width, height, cell, direction) < width * height,
        step_cell(width, height, step_cell(width, height, cell, direction), direction.opposite())
            == cell,
{
    let w = width as int;
    let h = height as int;
    let a = cell as int;
    assert(w > 0 && h > 0) by (nonlinear_arith)
        requires
            a < w * h,
            a >= 0,
            w >= 0,
            h >= 0,
    ;
    vstd::arithmetic::div_mod::lemma_fundamental_div_mod(a, w);
    let q = a / w;
    let r = a % w;
    assert(0 <= r < w);
    assert(w * q == q * w) by (nonlinear_arith);
    assert(q < h) by (nonlinear_arith)
        requires
            a == w * q + r,
            a < w * h,
            r >= 0,
            w > 0,
    ;
    match direction {
        Direction::Up => {},
        Direction::Down => {},
        Direction::Left => {
            assert(r != 0);
            let b = a - 1;
            assert(b == q * w + (r - 1));
            vstd::arithmetic::div_mod::lemma_fundamental_div_mod_converse(b, w, q, r - 1);
        },
        Direction::Right => {
            assert(r != w - 1);
            assert(0 <= r + 1 < w);
            let b = a + 1;
            assert(b == q * w + (r + 1));
            vstd::arithmetic::div_mod::lemma_fundamental_div_mod_converse(b, w, q, r + 1);
            assert(b < w * h) by (nonlinear_arith)
                requires
                    b == w * q + (r + 1),
                    r + 1 < w,
                    q < h,
                    w > 0,
            ;
        },
    }
}

impl GameStateView {
    /// The number of cells.
    pub open spec fn cells(self) -> int {
        self.width * self.height
    }

    /// Every cell has an index of its own below `OFF_BOARD`.
    pub open spec fn well_sized(self) -> bool {
        self.cells() <= usize::MAX
    }

    /// Whether the board is within the limits of the heuristic and of the
    /// search: its cells can be indexed, and its snakes counted in an `i8`.
    pub open spec fn in_limits(self) -> bool {
        self.well_sized() && self.snakes.len() <= 128
    }

    /// Whether snake `i` exists, lives and has its head on some cell, so that
    /// it can be moved.
    pub open spec fn can_move(self, i: int) -> bool {
        &&& 0 <= i < self.snakes.len()
        &&& self.snakes[i].alive()
        &&& self.snakes[i].head().index != OFF_BOARD
    }

    /// Snake `i` after one step in `direction`: the new head in front, the
    /// last segment gone, and health lowered by 15 on a hazard cell and by 1
    /// elsewhere, never below 0.
    pub open spec fn moved_snake(self, i: int, direction: Direction) -> SnakeView
        recommends
            self.can_move(i),
    {
        let snake = self.snakes[i];
        let target = Position {
            index: step_cell(self.width, self.height, snake.head().index, direction),
        };
        SnakeView {
            id: snake.id,
            body: seq![target] + snake.body.drop_last(),
            health: if !self.hazards.contains(target) {
                (snake.health - 1) as u8
            } else if snake.health >= 15 {
                (snake.health - 15) as u8
            } else {
                0u8
            },
        }
    }

    /// The board after snake `i` was moved in `direction`. A snake that is
    /// dead, off the board or absent leaves the board as it is.
    pub open spec fn advance(self, i: int, direction: Direction) -> GameStateView {
        if self.can_move(i) {
            GameStateView { snakes: self.snakes.update(i, self.moved_snake(i, direction)), ..self }
        } else {
            self
        }
    }

    /// Whether `target` is a cell that snake `i` may step on: there is a
    /// snake `i`, and `target` is a cell other than the one right behind its
    /// head.
    pub open spec fn safe_target(self, i: int, target: Position) -> bool {
        &&& 0 <= i < self.snakes.len()
        &&& target.index != OFF_BOARD
        &&& !(self.snakes[i].body.len() > 1 && self.snakes[i].body[1] == target)
    }

    /// Whether snake `i` can be moved in `direction` without leaving the
    /// board or turning back onto its own neck. What other snakes occupy does
    /// not count.
    pub open spec fn safe_move(self, i: int, direction: Direction) -> bool {
        &&& self.can_move(i)
        &&& self.safe_target(
            i,
            Position {
                index: step_cell(self.width, self.height, self.snakes[i].head().index, direction),
            },
        )
    }

    /// `direction` alone if it is safe for snake `i`, else nothing.
    pub open spec fn safe_or_none(self, i: int, direction: Direction) -> Seq<Direction> {
        if self.safe_move(i, direction) {
            seq![direction]
        } else {
            Seq::empty()
        }
    }

    /// The safe moves of snake `i`, in the order up, down, left, right.
    pub open spec fn safe_moves(self, i: int) -> Seq<Direction> {
        self.safe_or_none(i, Direction::Up) + self.safe_or_none(i, Direction::Down)
            + self.safe_or_none(i, Direction::Left) + self.safe_or_none(i, Direction::Right)
    }

    /// The board with one more snake, added behind the others.
    pub open spec fn with_snake(self, snake: SnakeView) -> GameStateView {
        GameStateView { snakes: self.snakes.push(snake), ..self }
    }

    /// The first of the snakes below `n` that is named `id`, or -1.
    pub open spec fn index_of_id(self, id: Seq<char>, n: int) -> int
        decreases n,
    {
        if n <= 0 {
            -1
        } else if self.index_of_id(id, n - 1) >= 0 {
            self.index_of_id(id, n - 1)
        } else if n - 1 < self.snakes.len() && self.snakes[n - 1].id == id {
            n - 1
        } else {
            -1
        }
    }

    /// The first snake named `id`, or -1.
    pub open spec fn snake_named(self, id: Seq<char>) -> int {
        self.index_of_id(id, self.snakes.len() as int)
    }

    /// Whether snake `j` exists, lives and has its head on `cell`.
    pub open spec fn live_head_at(self, j: int, cell: Position) -> bool {
        &&& 0 <= j < self.snakes.len()
        &&& self.snakes[j].alive()
        &&& self.snakes[j].head() == cell
    }

    /// Whether some living snake has its head on `cell`.
    pub open spec fn under_live_head(self, cell: Position) -> bool {
        exists|j: int| self.live_head_at(j, cell)
    }

    /// The food cells that stay: those under no living head.
    pub open spec fn keeps_food(self) -> spec_fn(Position) -> bool {
        |cell: Position| !self.under_live_head(cell)
    }

    /// Whether snake `i` eats: it lives, its head is on a food cell, and no
    /// living snake before it has its head on that cell.
    pub open spec fn feeds(self, i: int) -> bool {
        &&& 0 <= i < self.snakes.len()
        &&& self.snakes[i].alive()
        &&& self.food.contains(self.snakes[i].head())
        &&& forall|j: int| 0 <= j < i ==> !self.live_head_at(j, self.snakes[i].head())
    }

    /// Snake `i` after eating, if it eats: its last segment doubled and its
    /// health back at 100.
    pub open spec fn fed_snake(self, i: int) -> SnakeView {
        let snake = self.snakes[i];
        if self.feeds(i) {
            SnakeView {
                id: snake.id,
                body: if snake.body.len() > 0 {
                    snake.body.push(snake.body.last())
                } else {
                    snake.body
                },
                health: 100,
            }
        } else {
            snake
        }
    }

    /// The board after eating: each food cell under a living head is gone,
    /// and the first living snake on it has grown.
    pub open spec fn feed(self) -> GameStateView {
        GameStateView {
            snakes: Seq::new(self.snakes.len(), |i: int| self.fed_snake(i)),
            food: self.food.filter(self.keeps_food()),
            ..self
        }
    }

    /// Whether `j` is a living snake other than `i` whose head is on the cell
    /// of snake `i`'s head.
    pub open spec fn meets(self, i: int, j: int) -> bool {
        j != i && self.live_head_at(j, self.snakes[i].head())
    }

    /// Whether snake `i` loses a meeting of heads: it shares its head cell
    /// with another living snake, and one of them is longer than it or all of
    /// them are as long as it.
    pub open spec fn loses_head_on(self, i: int) -> bool {
        &&& exists|j: int| self.meets(i, j)
        &&& {
            ||| exists|j: int|
                self.meets(i, j) && self.snakes[j].body.len() > self.snakes[i].body.len()
            ||| forall|j: int|
                self.meets(i, j) ==> self.snakes[j].body.len() == self.snakes[i].body.len()
        }
    }

    /// Whether segment `k`, not the head, of the living snake `j` lies on
    /// `cell`.
    pub open spec fn live_body_at(self, j: int, k: int, cell: Position) -> bool {
        &&& 0 <= j < self.snakes.len()
        &&& self.snakes[j].alive()
        &&& 1 <= k < self.snakes[j].body.len()
        &&& self.snakes[j].body[k] == cell
    }

    /// Whether the head of snake `i` lies on a segment behind the head of a
    /// living snake, itself included.
    pub open spec fn hits_body(self, i: int) -> bool {
        exists|j: int, k: int| self.live_body_at(j, k, self.snakes[i].head())
    }

    /// Whether the living snake `i` dies now: its head is off the board, it
    /// loses a meeting of heads, or it runs into a body.
    pub open spec fn doomed(self, i: int) -> bool {
        &&& 0 <= i < self.snakes.len()
        &&& self.snakes[i].alive()
        &&& {
            ||| self.snakes[i].head().index == OFF_BOARD
            ||| self.loses_head_on(i)
            ||| self.hits_body(i)
        }
    }

    /// Snake `i` with its health at 0 if it dies now.
    pub open spec fn settled_snake(self, i: int) -> SnakeView {
        let snake = self.snakes[i];
        if self.doomed(i) {
            SnakeView { id: snake.id, body: snake.body, health: 0 }
        } else {
            snake
        }
    }

    /// The board after all deaths of this turn, each judged on the board as
    /// it is before any of them.
    pub open spec fn settle(self) -> GameStateView {
        GameStateView { snakes: Seq::new(self.snakes.len(), |i: int| self.settled_snake(i)), ..self }
    }

    /// The board at the end of a turn: first the snakes eat, then the
    /// collisions are settled.
    pub open spec fn resolved(self) -> GameStateView {
        self.feed().settle()
    }
}

/// A snake named `id` with none so named before it is the first of that
/// name, however many snakes follow.
pub proof fn lemma_index_of_id_found(s: GameStateView, id: Seq<char>, i: int, n: int)
    requires
        0 <= i < n <= s.snakes.len(),
        s.snakes[i].id == id,
        s.index_of_id(id, i) == -1,
    ensures
        s.index_of_id(id, n) == i,
    decreases n,
{
    if n > i + 1 {
        lemma_index_of_id_found(s, id, i, n - 1);
    }
}

/// What `index_of_id` finds is -1 or a snake of that name.
pub proof fn lemma_index_of_id_shape(s: GameStateView, id: Seq<char>, n: int)
    requires
        n <= s.snakes.len(),
    ensures
        -1 <= s.index_of_id(id, n) < n || s.index_of_id(id, n) == -1,
        s.index_of_id(id, n) >= 0 ==> s.snakes[s.index_of_id(id, n)].id == id,
        forall|j: int| 0 <= j < n && s.snakes[j].id == id ==> 0 <= s.index_of_id(id, n) <= j,
    decreases n,
{
    if n > 0 {
        lemma_index_of_id_shape(s, id, n - 1);
    }
}

/// Filtering one more element either appends it or changes nothing.
pub proof fn lemma_filter_step<A>(s: Seq<A>, pred: spec_fn(A) -> bool, k: int)
    requires
        0 <= k < s.len(),
    ensures
        s.take(k + 1).filter(pred) == if pred(s[k]) {
            s.take(k).filter(pred).push(s[k])
        } else {
            s.take(k).filter(pred)
        },
{
    reveal(Seq::filter);
    assert(s.take(k + 1).drop_last() =~= s.take(k));
}

impl GameState {
    /// An empty board of the given size.
    pub fn new(width: usize, height: usize) -> (r: Self)
        ensures
            r@ == (GameStateView {
                width,
                height,
                snakes: Seq::empty(),
                food: Seq::empty(),
                hazards: Seq::empty(),
            }),
    {
        let r = GameState {
            width,
            height,
            snakes: Vec::new(),
            food: Vec::new(),
            hazards: Vec::new(),
        };
        assert(r@.snakes =~= Seq::empty());
        r
    }

    /// Whether the board is within the limits of the heuristic and of the
    /// search.
    pub fn is_in_limits(&self) -> (r: bool)
        ensures
            r == self@.in_limits(),
    {
        if self.snakes.len() > 128 {
            return false;
        }
        if self.width == 0 || self.height == 0 {
            assert(self.width * self.height == 0) by (nonlinear_arith)
                requires
                    self.width == 0 || self.height == 0,
            ;
            return true;
        }
        let fits = self.height <= usize::MAX / self.width;
        proof {
            let w = self.width as int;
            let h = self.height as int;
            let m = usize::MAX as int;
            vstd::arithmetic::div_mod::lemma_fundamental_div_mod(m, w);
            if h <= m / w {
                assert(w * h <= m) by (nonlinear_arith)
                    requires
                        h <= m / w,
                        m == w * (m / w) + m % w,
                        m % w >= 0,
                        w > 0,
                ;
            } else {
                assert(w * h > m) by (nonlinear_arith)
                    requires
                        h >= m / w + 1,
                        m == w * (m / w) + m % w,
                        m % w < w,
                        w > 0,
                ;
            }
        }
        fits
    }

    /// Where one step from `cell` in `direction` leads.
    pub fn step(&self, cell: usize, direction: Direction) -> (r: usize)
        requires
            self@.well_sized(),
        ensures
            r == step_cell(self.width, self.height, cell, direction),
            r == OFF_BOARD || r < self@.cells(),
    {
        proof {
            if step_cell(self.width, self.height, cell, direction) != OFF_BOARD {
                lemma_step_back(self.width, self.height, cell, direction);
            }
        }
        let width = self.width;
        if width == 0 || cell / width >= self.height {
            assert(!(cell < width * self.height)) by (nonlinear_arith)
                requires
                    width == 0 || cell / width >= self.height,
            ;
            return OFF_BOARD;
        }
        assert(cell < width * self.height) by (nonlinear_arith)
            requires
                width > 0,
                cell / width < self.height,
        ;
        let board_size = width * self.height;
        assert(board_size >= width) by (nonlinear_arith)
            requires
                board_size == width * self.height,
                self.height >= 1,
        ;
        match direction {
            Direction::Up => if cell >= width {
                cell - width
            } else {
                OFF_BOARD
            },
            Direction::Down => if cell < board_size - width {
                cell + width
            } else {
                OFF_BOARD
            },
            Direction::Left => if cell % width != 0 {
                assert(0usize % width == 0);
                cell - 1
            } else {
                OFF_BOARD
            },
            Direction::Right => if cell % width != width - 1 {
                cell + 1
            } else {
                OFF_BOARD
            },
        }
    }

    /// Whether `cell` is a hazard cell.
    pub fn is_hazard(&self, cell: Position) -> (r: bool)
        ensures
            r == self@.hazards.contains(cell),
    {
        let mut k: usize = 0;
        while k < self.hazards.len()
            invariant
                k <= self.hazards.len(),
                forall|j: int| 0 <= j < k ==> self.hazards@[j] != cell,
            decreases self.hazards.len() - k,
        {
            if self.hazards[k].index == cell.index {
                return true;
            }
            k += 1;
        }
        false
    }

    /// Moves snake `snake_index` one step in `direction`, without looking at
    /// what it runs into.
    pub fn move_snake(&mut self, snake_index: usize, direction: Direction)
        requires
            old(self)@.well_sized(),
        ensures
            final(self)@ == old(self)@.advance(snake_index as int, direction),
    {
        if snake_index >= self.snakes.len() {
            return;
        }
        if self.snakes[snake_index].health == 0 {
            return;
        }
        let head_index = self.snakes[snake_index].head().index;
        if head_index == OFF_BOARD {
            return;
        }
        let target = Position { index: self.step(head_index, direction) };
        let on_hazard = self.is_hazard(target);
        let ghost before = self@;
        let snake = &mut self.snakes[snake_index];
        snake.body.push_front(target);
        snake.body.pop_back();
        snake.health = if !on_hazard {
            snake.health - 1
        } else if snake.health >= 15 {
            snake.health - 15
        } else {
            0
        };
        proof {
            let after = self@;
            let want = before.advance(snake_index as int, direction);
            assert(after.snakes[snake_index as int].body =~= want.snakes[snake_index as int].body);
            assert(after.snakes =~= want.snakes);
        }
    }
    /// Adds a snake behind the others; `body` lists its cells from the head
    /// backwards.
    pub fn add_snake(&mut self, id: String, body: Vec<usize>, health: u8)
        ensures
            final(self)@ == old(self)@.with_snake(
                SnakeView {
                    id: id@,
                    body: Seq::new(body@.len(), |k: int| Position { index: body@[k] }),
                    health,
                },
            ),
    {
        let mut segments: VecDeque<Position> = VecDeque::new();
        let mut k: usize = 0;
        while k < body.len()
            invariant
                k <= body.len(),
                segments@ == Seq::new(k as nat, |m: int| Position { index: body@[m] }),
            decreases body.len() - k,
        {
            segments.push_back(Position { index: body[k] });
            k += 1;
            assert(segments@ =~= Seq::new(k as nat, |m: int| Position { index: body@[m] }));
        }
        let ghost before = self@;
        let ghost added = SnakeView { id: id@, body: segments@, health };
        self.snakes.push(Snake { id, body: segments, health });
        assert(self@.snakes =~= before.with_snake(added).snakes);
    }

    /// Adds a food cell.
    pub fn add_food(&mut self, index: usize)
        ensures
            final(self)@ == (GameStateView {
                food: old(self)@.food.push(Position { index }),
                ..old(self)@
            }),
    {
        self.food.push(Position { index });
        assert(self@.snakes =~= old(self)@.snakes);
    }

    /// Adds a hazard cell.
    pub fn add_hazard(&mut self, index: usize)
        ensures
            final(self)@ == (GameStateView {
                hazards: old(self)@.hazards.push(Position { index }),
                ..old(self)@
            }),
    {
        self.hazards.push(Position { index });
        assert(self@.snakes =~= old(self)@.snakes);
    }

    /// Whether snake `snake_index` may step on `position`: see
    /// `GameStateView::safe_target`.
    pub fn is_safe_move(&self, position: Position, snake_index: usize) -> (r: bool)
        ensures
            r == self@.safe_target(snake_index as int, position),
    {
        if snake_index >= self.snakes.len() || position.index == OFF_BOARD {
            return false;
        }
        let body = &self.snakes[snake_index].body;
        !(body.len() > 1 && body[1].index == position.index)
    }

    /// The directions in which snake `snake_index` can be moved without
    /// leaving the board or turning back onto its own neck, in the order up,
    /// down, left, right. None for a snake that is dead, off the board or
    /// absent.
    pub fn get_safe_moves(&self, snake_index: usize) -> (r: Vec<Direction>)
        requires
            self@.well_sized(),
        ensures
            r@ == self@.safe_moves(snake_index as int),
    {
        let mut safe_moves: Vec<Direction> = Vec::new();
        if snake_index >= self.snakes.len() {
            assert(safe_moves@ =~= self@.safe_moves(snake_index as int));
            return safe_moves;
        }
        if self.snakes[snake_index].health == 0 {
            assert(safe_moves@ =~= self@.safe_moves(snake_index as int));
            return safe_moves;
        }
        let head_index = self.snakes[snake_index].head().index;
        if head_index == OFF_BOARD {
            assert(safe_moves@ =~= self@.safe_moves(snake_index as int));
            return safe_moves;
        }
        let ghost v = self@;
        let ghost i = snake_index as int;
        if self.is_safe_move(Position { index: self.step(head_index, Direction::Up) }, snake_index) {
            safe_moves.push(Direction::Up);
        }
        assert(safe_moves@ =~= v.safe_or_none(i, Direction::Up));
        if self.is_safe_move(
            Position { index: self.step(head_index, Direction::Down) },
            snake_index,
        ) {
            safe_moves.push(Direction::Down);
        }
        assert(safe_moves@ =~= v.safe_or_none(i, Direction::Up) + v.safe_or_none(
            i,
            Direction::Down,
        ));
        if self.is_safe_move(
            Position { index: self.step(head_index, Direction::Left) },
            snake_index,
        ) {
            safe_moves.push(Direction::Left);
        }
        assert(safe_moves@ =~= v.safe_or_none(i, Direction::Up) + v.safe_or_none(
            i,
            Direction::Down,
        ) + v.safe_or_none(i, Direction::Left));
        if self.is_safe_move(
            Position { index: self.step(head_index, Direction::Right) },
            snake_index,
        ) {
            safe_moves.push(Direction::Right);
        }
        assert(safe_moves@ =~= v.safe_moves(i));
        safe_moves
    }

    /// The index of the first snake named `id`.
    pub fn find_snake(&self, id: &str) -> (r: Option<usize>)
        ensures
            match r {
                Some(i) => i == self@.snake_named(id@),
                None => self@.snake_named(id@) == -1,
            },
    {
        let wanted = id.to_owned();
        let mut i: usize = 0;
        while i < self.snakes.len()
            invariant
                i <= self.snakes.len(),
                wanted@ == id@,
                self@.index_of_id(id@, i as int) == -1,
            decreases self.snakes.len() - i,
        {
            if self.snakes[i].id == wanted {
                proof {
                    lemma_index_of_id_found(self@, id@, i as int, self.snakes.len() as int);
                }
                return Some(i);
            }
            i += 1;
        }
        None
    }

    /// Whether some living snake has its head on `cell`.
    pub fn has_live_head_at(&self, cell: Position) -> (r: bool)
        ensures
            r == self@.under_live_head(cell),
    {
        let mut j: usize = 0;
        while j < self.snakes.len()
            invariant
                j <= self.snakes.len(),
                forall|m: int| 0 <= m < j ==> !self@.live_head_at(m, cell),
            decreases self.snakes.len() - j,
        {
            if self.snakes[j].health > 0 && self.snakes[j].head().index == cell.index {
                assert(self@.live_head_at(j as int, cell));
                return true;
            }
            j += 1;
        }
        false
    }

    /// Whether `cell` is a food cell.
    pub fn is_food(&self, cell: Position) -> (r: bool)
        ensures
            r == self@.food.contains(cell),
    {
        let mut k: usize = 0;
        while k < self.food.len()
            invariant
                k <= self.food.len(),
                forall|j: int| 0 <= j < k ==> self.food@[j] != cell,
            decreases self.food.len() - k,
        {
            if self.food[k].index == cell.index {
                return true;
            }
            k += 1;
        }
        false
    }

    /// Whether snake `i` eats this turn.
    fn feeds_at(&self, i: usize) -> (r: bool)
        requires
            i < self.snakes.len(),
        ensures
            r == self@.feeds(i as int),
    {
        if self.snakes[i].health == 0 {
            return false;
        }
        let head = self.snakes[i].head();
        if !self.is_food(head) {
            return false;
        }
        let mut j: usize = 0;
        while j < i
            invariant
                j <= i < self.snakes.len(),
                head == self@.snakes[i as int].head(),
                forall|m: int| 0 <= m < j ==> !self@.live_head_at(m, head),
            decreases i - j,
        {
            if self.snakes[j].health > 0 && self.snakes[j].head().index == head.index {
                assert(self@.live_head_at(j as int, head));
                return false;
            }
            j += 1;
        }
        true
    }

    /// The food cells under no living head, in their order.
    fn uneaten_food(&self) -> (kept: Vec<Position>)
        ensures
            kept@ == self@.food.filter(self@.keeps_food()),
    {
        let mut kept: Vec<Position> = Vec::new();
        let mut k: usize = 0;
        proof {
            reveal(Seq::filter);
            assert(self.food@.take(0) =~= Seq::empty());
        }
        while k < self.food.len()
            invariant
                k <= self.food.len(),
                kept@ == self.food@.take(k as int).filter(self@.keeps_food()),
            decreases self.food.len() - k,
        {
            let cell = self.food[k];
            proof {
                lemma_filter_step(self.food@, self@.keeps_food(), k as int);
            }
            if !self.has_live_head_at(cell) {
                kept.push(cell);
            }
            k += 1;
        }
        assert(self.food@.take(k as int) =~= self.food@);
        kept
    }

    /// Lets the snakes eat: see `GameStateView::feed`.
    fn feed_snakes(&mut self)
        ensures
            final(self)@ == old(self)@.feed(),
    {
        let ghost entry = self@;
        let n = self.snakes.len();
        let mut eats: Vec<bool> = Vec::new();
        let mut i: usize = 0;
        while i < n
            invariant
                i <= n,
                n == self.snakes.len(),
                self@ == entry,
                eats.len() == i,
                forall|m: int| 0 <= m < i ==> eats@[m] == entry.feeds(m),
            decreases n - i,
        {
            let e = self.feeds_at(i);
            eats.push(e);
            i += 1;
        }
        let kept = self.uneaten_food();
        i = 0;
        while i < n
            invariant
                i <= n,
                n == self.snakes.len(),
                n == entry.snakes.len(),
                eats.len() == n,
                forall|m: int| 0 <= m < n ==> eats@[m] == entry.feeds(m),
                self.width == entry.width,
                self.height == entry.height,
                self.food@ == entry.food,
                self.hazards@ == entry.hazards,
                forall|m: int| 0 <= m < i ==> self.snakes@[m]@ == entry.fed_snake(m),
                forall|m: int| i <= m < n ==> self.snakes@[m]@ == entry.snakes[m],
            decreases n - i,
        {
            if eats[i] {
                let snake = &mut self.snakes[i];
                let len = snake.body.len();
                if len > 0 {
                    let tail = snake.body[len - 1];
                    snake.body.push_back(tail);
                }
                snake.health = 100;
            }
            i += 1;
        }
        self.food = kept;
        assert(self@.snakes =~= entry.feed().snakes);
    }

    /// Whether snake `i` loses a meeting of heads: see
    /// `GameStateView::loses_head_on`.
    pub fn handle_head_collision(&self, i: usize) -> (r: bool)
        requires
            i < self.snakes.len(),
        ensures
            r == self@.loses_head_on(i as int),
    {
        let head = self.snakes[i].head();
        let len = self.snakes[i].length();
        let mut met = false;
        let mut longer = false;
        let mut shorter = false;
        let mut j: usize = 0;
        while j < self.snakes.len()
            invariant
                j <= self.snakes.len(),
                i < self.snakes.len(),
                head == self@.snakes[i as int].head(),
                len == self@.snakes[i as int].body.len(),
                met <==> exists|m: int| 0 <= m < j && self@.meets(i as int, m),
                longer <==> exists|m: int|
                    0 <= m < j && self@.meets(i as int, m) && self@.snakes[m].body.len() > len,
                shorter <==> exists|m: int|
                    0 <= m < j && self@.meets(i as int, m) && self@.snakes[m].body.len() < len,
            decreases self.snakes.len() - j,
        {
            if j != i && self.snakes[j].health > 0 && self.snakes[j].head().index == head.index {
                assert(self@.meets(i as int, j as int));
                met = true;
                let other = self.snakes[j].length();
                if other > len {
                    longer = true;
                } else if other < len {
                    shorter = true;
                }
            }
            j += 1;
        }
        proof {
            let v = self@;
            let ii = i as int;
            if met && !longer && !shorter {
                assert forall|m: int| v.meets(ii, m) implies v.snakes[m].body.len()
                    == v.snakes[ii].body.len() by {
                    if v.snakes[m].body.len() > len {
                        assert(0 <= m < j && v.meets(ii, m) && v.snakes[m].body.len() > len);
                    }
                    if v.snakes[m].body.len() < len {
                        assert(0 <= m < j && v.meets(ii, m) && v.snakes[m].body.len() < len);
                    }
                }
            }
            if v.loses_head_on(ii) {
                let m = choose|m: int| v.meets(ii, m);
                assert(0 <= m < j && v.meets(ii, m));
                if !longer {
                    assert(shorter ==> false) by {
                        if shorter {
                            let q = choose|q: int|
                                0 <= q < j && v.meets(ii, q) && v.snakes[q].body.len() < len;
                            assert(v.meets(ii, q));
                            if exists|p: int|
                                v.meets(ii, p) && v.snakes[p].body.len() > v.snakes[ii].body.len() {
                                let p = choose|p: int|
                                    v.meets(ii, p) && v.snakes[p].body.len()
                                        > v.snakes[ii].body.len();
                                assert(0 <= p < j && v.meets(ii, p) && v.snakes[p].body.len()
                                    > len);
                            }
                        }
                    }
                }
            }
        }
        met && (longer || !shorter)
    }

    /// Whether the head of snake `i` lies on a segment behind the head of a
    /// living snake.
    fn hits_body_at(&self, i: usize) -> (r: bool)
        requires
            i < self.snakes.len(),
        ensures
            r == self@.hits_body(i as int),
    {
        let head = self.snakes[i].head();
        let mut j: usize = 0;
        while j < self.snakes.len()
            invariant
                j <= self.snakes.len(),
                i < self.snakes.len(),
                head == self@.snakes[i as int].head(),
                forall|m: int, k: int| 0 <= m < j ==> !self@.live_body_at(m, k, head),
            decreases self.snakes.len() - j,
        {
            if self.snakes[j].health > 0 {
                let body = &self.snakes[j].body;
                let mut k: usize = 1;
                while k < body.len()
                    invariant
                        1 <= k,
                        j < self.snakes.len(),
                        i < self.snakes.len(),
                        head == self@.snakes[i as int].head(),
                        body@ == self@.snakes[j as int].body,
                        self@.snakes[j as int].alive(),
                        forall|q: int| 1 <= q < k ==> !self@.live_body_at(j as int, q, head),
                    decreases body.len() - k,
                {
                    if body[k].index == head.index {
                        assert(self@.live_body_at(j as int, k as int, head));
                        return true;
                    }
                    k += 1;
                }
            }
            j += 1;
        }
        false
    }

    /// Whether snake `i` dies this turn, once the snakes have eaten.
    fn doomed_at(&self, i: usize) -> (r: bool)
        requires
            i < self.snakes.len(),
        ensures
            r == self@.doomed(i as int),
    {
        if self.snakes[i].health == 0 {
            return false;
        }
        if self.snakes[i].head().index == OFF_BOARD {
            return true;
        }
        if self.handle_head_collision(i) {
            return true;
        }
        self.hits_body_at(i)
    }

    /// Settles the collisions: see `GameStateView::settle`.
    fn settle_collisions(&mut self)
        ensures
            final(self)@ == old(self)@.settle(),
    {
        let ghost entry = self@;
        let n = self.snakes.len();
        let mut dies: Vec<bool> = Vec::new();
        let mut i: usize = 0;
        while i < n
            invariant
                i <= n,
                n == self.snakes.len(),
                self@ == entry,
                dies.len() == i,
                forall|m: int| 0 <= m < i ==> dies@[m] == entry.doomed(m),
            decreases n - i,
        {
            let d = self.doomed_at(i);
            dies.push(d);
            i += 1;
        }
        i = 0;
        while i < n
            invariant
                i <= n,
                n == self.snakes.len(),
                n == entry.snakes.len(),
                dies.len() == n,
                forall|m: int| 0 <= m < n ==> dies@[m] == entry.doomed(m),
                self.width == entry.width,
                self.height == entry.height,
                self.food@ == entry.food,
                self.hazards@ == entry.hazards,
                forall|m: int| 0 <= m < i ==> self.snakes@[m]@ == entry.settled_snake(m),
                forall|m: int| i <= m < n ==> self.snakes@[m]@ == entry.snakes[m],
            decreases n - i,
        {
            if dies[i] {
                self.snakes[i].health = 0;
            }
            i += 1;
        }
        assert(self@.snakes =~= entry.settle().snakes);
    }

    /// Ends a turn after the snakes have been moved: the snakes eat, then
    /// every living snake that is off the board, loses a meeting of heads or
    /// runs into a body dies. All deaths are judged on the same board.
    pub fn resolve_collisions(&mut self)
        ensures
            final(self)@ == old(self)@.resolved(),
    {
        self.feed_snakes();
        self.settle_collisions();
    }
}

} // verus!