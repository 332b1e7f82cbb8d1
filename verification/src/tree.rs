//! A board in the plain shape that the tree export writes out.

use crate::game_state::{GameState, Position};
use vstd::prelude::*;

verus! {

/// A snake as it is written out: its cells by index, and its head again.
#[derive(Debug)]
pub struct Snake {
    pub id: String,
    pub body: Vec<usize>,
    pub health: u8,
    pub head: usize,
}

/// A board as it is written out.
#[derive(Debug)]
pub struct Board {
    pub height: usize,
    pub width: usize,
    pub food: Vec<usize>,
    pub hazards: Vec<usize>,
    pub snakes: Vec<Snake>,
}

/// The indices of `cells`.
pub open spec fn indices_of(cells: Seq<Position>) -> Seq<usize> {
    Seq::new(cells.len(), |k: int| cells[k].index)
}

/// The indices of `cells`.
fn position_indices(cells: &Vec<Position>) -> (r: Vec<usize>)
    ensures
        r@ == indices_of(cells@),
{
    let mut r: Vec<usize> = Vec::new();
    let mut k: usize = 0;
    while k < cells.len()
        invariant
            k <= cells.len(),
            r@.len() == k,
            forall|q: int| 0 <= q < k ==> (#[trigger] r@[q]) == cells@[q].index,
        decreases cells.len() - k,
    {
        r.push(cells[k].index);
        k += 1;
    }
    assert(r@ =~= indices_of(cells@));
    r
}

/// The board of `game_state` in the shape that is written out: the same
/// size, food, hazards and snakes, each snake with the cell of its head.
pub fn game_state_to_board(game_state: &GameState) -> (board: Board)
    ensures
        board.height == game_state.height,
        board.width == game_state.width,
        board.food@ == indices_of(game_state@.food),
        board.hazards@ == indices_of(game_state@.hazards),
        board.snakes@.len() == game_state@.snakes.len(),
        forall|i: int|
            0 <= i < board.snakes@.len() ==> {
                let snake = #[trigger] board.snakes@[i];
                &&& snake.id@ == game_state@.snakes[i].id
                &&& snake.body@ == indices_of(game_state@.snakes[i].body)
                &&& snake.health == game_state@.snakes[i].health
                &&& snake.head == game_state@.snakes[i].head().index
            },
{
    let mut snakes: Vec<Snake> = Vec::new();
    let mut i: usize = 0;
    while i < game_state.snakes.len()
        invariant
            i <= game_state.snakes.len(),
            snakes@.len() == i,
            forall|q: int|
                0 <= q < i ==> {
                    let snake = #[trigger] snakes@[q];
                    &&& snake.id@ == game_state@.snakes[q].id
                    &&& snake.body@ == indices_of(game_state@.snakes[q].body)
                    &&& snake.health == game_state@.snakes[q].health
                    &&& snake.head == game_state@.snakes[q].head().index
                },
        decreases game_state.snakes.len() - i,
    {
        let s = &game_state.snakes[i];
        let mut body: Vec<usize> = Vec::new();
        let mut k: usize = 0;
        while k < s.body.len()
            invariant
                k <= s.body.len(),
                body@.len() == k,
                forall|q: int| 0 <= q < k ==> (#[trigger] body@[q]) == s.body@[q].index,
            decreases s.body.len() - k,
        {
            body.push(s.body[k].index);
            k += 1;
        }
        assert(body@ =~= indices_of(s.body@));
        snakes.push(Snake { id: s.id.clone(), body, health: s.health, head: s.head().index });
        i += 1;
    }
    Board {
        height: game_state.height,
        width: game_state.width,
        food: position_indices(&game_state.food),
        hazards: position_indices(&game_state.hazards),
        snakes,
    }
}

} // verus!
