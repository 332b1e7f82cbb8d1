//! A board as text: one line for each row, one character for each cell.

use crate::game_state::{GameState, GameStateView, Position};
use vstd::prelude::*;

verus! {

/// `String::push` appends one character to the string.
pub assume_specification[ String::push ](s: &mut String, ch: char)
    ensures
        final(s)@ == old(s)@.push(ch),
;

/// The character for a segment of snake `i` behind its head: the letters
/// from `a` on for the first 26 snakes.
pub open spec fn body_mark(i: int) -> char {
    ((97 + i) as u8) as char
}

/// The character for the head of snake `i`: the capital of its letter, where
/// it has a letter.
pub open spec fn head_mark(i: int) -> char {
    if i < 26 {
        ((65 + i) as u8) as char
    } else {
        body_mark(i)
    }
}

/// The character of `cell` once the first `k` segments of `body`, the body
/// of snake `i`, have been drawn over `under`: that of the last of them that
/// lies on the cell.
pub open spec fn paint_body(under: char, body: Seq<Position>, i: int, cell: int, k: int) -> char
    decreases k,
{
    if k <= 0 {
        under
    } else if body[k - 1].index == cell {
        if k == 1 {
            head_mark(i)
        } else {
            body_mark(i)
        }
    } else {
        paint_body(under, body, i, cell, k - 1)
    }
}

impl GameStateView {
    /// The character of `cell` before any snake is drawn: `!` for a hazard,
    /// `*` for food that is no hazard, `.` for any other cell.
    pub open spec fn ground(self, cell: int) -> char {
        if self.hazards.contains(Position { index: cell as usize }) {
            '!'
        } else if self.food.contains(Position { index: cell as usize }) {
            '*'
        } else {
            '.'
        }
    }

    /// The character of `cell` once the living snakes below `n` have been
    /// drawn, each over those before it.
    pub open spec fn paint_snakes(self, cell: int, n: int) -> char
        decreases n,
    {
        if n <= 0 {
            self.ground(cell)
        } else if self.snakes[n - 1].alive() {
            paint_body(
                self.paint_snakes(cell, n - 1),
                self.snakes[n - 1].body,
                n - 1,
                cell,
                self.snakes[n - 1].body.len() as int,
            )
        } else {
            self.paint_snakes(cell, n - 1)
        }
    }

    /// The character of `cell`.
    pub open spec fn cell_char(self, cell: int) -> char {
        self.paint_snakes(cell, self.snakes.len() as int)
    }

    /// The characters of row `row`.
    pub open spec fn row_text(self, row: int) -> Seq<char> {
        Seq::new(self.width as nat, |x: int| self.cell_char(row * self.width + x))
    }

    /// The first `rows` rows, with a line feed between one row and the next.
    pub open spec fn rows_text(self, rows: int) -> Seq<char>
        decreases rows,
    {
        if rows <= 0 {
            Seq::empty()
        } else if rows == 1 {
            self.row_text(0)
        } else {
            self.rows_text(rows - 1) + seq!['\n'] + self.row_text(rows - 1)
        }
    }

    /// The board as text; nothing for a board without columns.
    pub open spec fn text(self) -> Seq<char> {
        if self.width == 0 {
            Seq::empty()
        } else {
            self.rows_text(self.height as int)
        }
    }
}

/// One more element of a sequence holds what the elements before it hold,
/// and itself.
pub proof fn lemma_take_contains<A>(s: Seq<A>, k: int, x: A)
    requires
        0 <= k < s.len(),
    ensures
        s.take(k + 1).contains(x) <==> s.take(k).contains(x) || s[k] == x,
{
    let had = s.take(k);
    let has = s.take(k + 1);
    if had.contains(x) {
        let q = choose|q: int| 0 <= q < had.len() && had[q] == x;
        assert(has[q] == x);
    }
    if s[k] == x {
        assert(has[k] == x);
    }
    if has.contains(x) {
        let q = choose|q: int| 0 <= q < has.len() && has[q] == x;
        if q < k {
            assert(had[q] == x);
        }
    }
}

/// The characters of snake `i`: for its head and for its other segments.
fn marks(i: usize) -> (r: (char, char))
    requires
        i <= 158,
    ensures
        r.0 == head_mark(i as int),
        r.1 == body_mark(i as int),
{
    let body = (97u8 + i as u8) as char;
    let head = if i < 26 {
        (65u8 + i as u8) as char
    } else {
        body
    };
    (head, body)
}

/// The character of each cell.
fn paint(game_state: &GameState, cells: usize) -> (grid: Vec<char>)
    requires
        cells == game_state@.cells(),
        game_state@.snakes.len() <= 159,
    ensures
        grid@.len() == cells,
        forall|c: int| 0 <= c < cells ==> (#[trigger] grid@[c]) == game_state@.cell_char(c),
{
    let ghost s = game_state@;
    let mut grid: Vec<char> = vec!['.'; cells];
    let mut k: usize = 0;
    while k < game_state.food.len()
        invariant
            k <= game_state.food.len(),
            s == game_state@,
            grid@.len() == cells,
            forall|c: int|
                0 <= c < cells ==> (#[trigger] grid@[c]) == if s.food.take(k as int).contains(
                    Position { index: c as usize },
                ) {
                    '*'
                } else {
                    '.'
                },
        decreases game_state.food.len() - k,
    {
        let food = game_state.food[k];
        if food.index < cells {
            grid.set(food.index, '*');
        }
        proof {
            assert forall|c: int| 0 <= c < cells implies (#[trigger] grid@[c]) == if s.food.take(
                k + 1,
            ).contains(Position { index: c as usize }) {
                '*'
            } else {
                '.'
            } by {
                lemma_take_contains(s.food, k as int, Position { index: c as usize });
            }
        }
        k += 1;
    }
    proof {
        assert(s.food.take(k as int) =~= s.food);
    }
    k = 0;
    while k < game_state.hazards.len()
        invariant
            k <= game_state.hazards.len(),
            s == game_state@,
            grid@.len() == cells,
            forall|c: int|
                0 <= c < cells ==> (#[trigger] grid@[c]) == if s.hazards.take(k as int).contains(
                    Position { index: c as usize },
                ) {
                    '!'
                } else if s.food.contains(Position { index: c as usize }) {
                    '*'
                } else {
                    '.'
                },
        decreases game_state.hazards.len() - k,
    {
        let hazard = game_state.hazards[k];
        if hazard.index < cells {
            grid.set(hazard.index, '!');
        }
        proof {
            assert forall|c: int| 0 <= c < cells implies (#[trigger] grid@[c])
                == if s.hazards.take(k + 1).contains(Position { index: c as usize }) {
                '!'
            } else if s.food.contains(Position { index: c as usize }) {
                '*'
            } else {
                '.'
            } by {
                lemma_take_contains(s.hazards, k as int, Position { index: c as usize });
            }
        }
        k += 1;
    }
    proof {
        assert(s.hazards.take(k as int) =~= s.hazards);
    }
    let mut i: usize = 0;
    while i < game_state.snakes.len()
        invariant
            i <= game_state.snakes.len(),
            game_state.snakes.len() <= 159,
            s == game_state@,
            grid@.len() == cells,
            forall|c: int| 0 <= c < cells ==> (#[trigger] grid@[c]) == s.paint_snakes(c, i as int),
        decreases game_state.snakes.len() - i,
    {
        let snake = &game_state.snakes[i];
        if snake.health > 0 {
            let (head_char, snake_char) = marks(i);
            let mut j: usize = 0;
            while j < snake.body.len()
                invariant
                    j <= snake.body.len(),
                    i < game_state.snakes.len(),
                    s == game_state@,
                    snake.body@ == s.snakes[i as int].body,
                    head_char == head_mark(i as int),
                    snake_char == body_mark(i as int),
                    grid@.len() == cells,
                    forall|c: int|
                        0 <= c < cells ==> (#[trigger] grid@[c]) == paint_body(
                            s.paint_snakes(c, i as int),
                            snake.body@,
                            i as int,
                            c,
                            j as int,
                        ),
                decreases snake.body.len() - j,
            {
                let index = snake.body[j].index;
                if index < cells {
                    grid.set(
                        index,
                        if j == 0 {
                            head_char
                        } else {
                            snake_char
                        },
                    );
                }
                j += 1;
            }
        }
        i += 1;
    }
    grid
}

/// The board as text: a line for each row, from the top, and in it a
/// character for each cell: `.` for an empty cell, `*` for food, `!` for a
/// hazard, and for a living snake the capital of its letter on its head and
/// its letter on its other segments. Where several lie on a cell, a snake
/// hides hazard and food, a later snake an earlier one, and a hazard food.
pub fn visualize_game_state(game_state: &GameState) -> (text: String)
    requires
        game_state@.well_sized(),
        game_state@.snakes.len() <= 159,
    ensures
        text@ == game_state@.text(),
{
    let ghost s = game_state@;
    let width = game_state.width;
    let height = game_state.height;
    let mut text = String::new();
    if width == 0 {
        return text;
    }
    let grid = paint(game_state, width * height);
    let mut row: usize = 0;
    while row < height
        invariant
            row <= height,
            width > 0,
            width == s.width,
            height == s.height,
            s.well_sized(),
            grid@.len() == s.cells(),
            forall|c: int| 0 <= c < s.cells() ==> (#[trigger] grid@[c]) == s.cell_char(c),
            text@ == s.rows_text(row as int),
        decreases height - row,
    {
        if row > 0 {
            text.push('\n');
        }
        let ghost before = text@;
        let mut x: usize = 0;
        proof {
            assert((row + 1) * width <= width * height) by (nonlinear_arith)
                requires
                    row < height,
                    width > 0,
            ;
            assert((row + 1) * width == row * width + width) by (nonlinear_arith);
        }
        while x < width
            invariant
                x <= width,
                row < height,
                width == s.width,
                row * width + width <= s.cells(),
                s.cells() <= usize::MAX,
                grid@.len() == s.cells(),
                forall|c: int| 0 <= c < s.cells() ==> (#[trigger] grid@[c]) == s.cell_char(c),
                text@ == before + s.row_text(row as int).take(x as int),
            decreases width - x,
        {
            assert(row * width + x < s.cells()) by (nonlinear_arith)
                requires
                    row * width + width <= s.cells(),
                    x < width,
            ;
            assert(row * width <= s.cells()) by (nonlinear_arith)
                requires
                    row * width + width <= s.cells(),
                    width >= 0,
            ;
            let ch = grid[row * width + x];
            text.push(ch);
            proof {
                assert(s.row_text(row as int).take(x + 1) =~= s.row_text(row as int).take(
                    x as int,
                ).push(ch));
                assert(text@ =~= before + s.row_text(row as int).take(x + 1));
            }
            x += 1;
        }
        proof {
            assert(s.row_text(row as int).take(width as int) =~= s.row_text(row as int));
            assert(text@ =~= s.rows_text(row + 1));
        }
        row += 1;
    }
    text
}

} // verus!
