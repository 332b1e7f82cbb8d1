//! The shapes of the game server's messages, and the conversions between
//! them and the board model. The server counts rows from the bottom, the
//! board model from the top: what is "up" here is "down" there.

use crate::game_state::{Direction, GameState, GameStateView, Position, SnakeView, OFF_BOARD};
use rand::seq::SliceRandom;
use vstd::prelude::*;
use vstd::string::StringExecFns;

verus! {

/// A request of the game server.
#[derive(Debug)]
pub struct BattlesnakeRequest {
    pub game: Game,
    pub turn: u32,
    pub board: Board,
    pub you: Battlesnake,
}

/// The game that a request belongs to.
#[derive(Debug)]
pub struct Game {
    pub id: String,
    pub ruleset: Ruleset,
    pub timeout: u32,
}

/// The rules that a game is played by.
#[derive(Debug)]
pub struct Ruleset {
    pub name: String,
    pub version: String,
}

/// The board as the game server describes it, each cell by column and row.
#[derive(Debug)]
pub struct Board {
    pub height: usize,
    pub width: usize,
    pub food: Vec<Coord>,
    pub hazards: Vec<Coord>,
    pub snakes: Vec<Battlesnake>,
}

/// A snake as the game server describes it.
#[derive(Debug)]
pub struct Battlesnake {
    pub id: String,
    pub name: String,
    pub health: u8,
    pub body: Vec<Coord>,
    pub head: Coord,
    pub length: usize,
}

/// A cell by column and row.
#[derive(Debug, Clone, Copy, PartialEq, Eq, Structural)]
pub struct Coord {
    pub x: usize,
    pub y: usize,
}

/// The answer to a request for a move.
#[derive(Debug)]
pub struct MoveResponse {
    pub move_name: String,
    pub shout: Option<String>,
}

/// The index of the cell in column `coord.x` of row `coord.y` on a board
/// `width` wide; `OFF_BOARD` for a column that the board does not have and
/// for an index that is not below `OFF_BOARD`.
pub open spec fn cell_of(coord: Coord, width: usize) -> usize {
    if coord.x < width && coord.y * width + coord.x < OFF_BOARD {
        (coord.y * width + coord.x) as usize
    } else {
        OFF_BOARD
    }
}

/// The cells of `coords`, each as a position.
pub open spec fn cells_of(coords: Seq<Coord>, width: usize) -> Seq<Position> {
    Seq::new(coords.len(), |k: int| Position { index: cell_of(coords[k], width) })
}

/// The snake of the board model that stands for `snake`.
pub open spec fn snake_of(snake: Battlesnake, width: usize) -> SnakeView {
    SnakeView { id: snake.id@, body: cells_of(snake.body@, width), health: snake.health }
}

/// The board of the board model that stands for `board`.
pub open spec fn board_of(board: Board) -> GameStateView {
    GameStateView {
        width: board.width,
        height: board.height,
        snakes: Seq::new(board.snakes@.len(), |i: int| snake_of(board.snakes@[i], board.width)),
        food: cells_of(board.food@, board.width),
        hazards: cells_of(board.hazards@, board.width),
    }
}

/// The name under which the game server knows `direction`.
pub open spec fn wire_name(direction: Direction) -> Seq<char> {
    match direction {
        Direction::Up => "down"@,
        Direction::Down => "up"@,
        Direction::Left => "left"@,
        Direction::Right => "right"@,
    }
}

/// What is answered when the search advises `best`, and `fallback` was drawn
/// for the case that it advises nothing.
pub open spec fn response_of(best: Option<Direction>, fallback: Direction) -> (Seq<char>, Seq<char>) {
    match best {
        Some(direction) => (
            wire_name(direction),
            "Moving "@ + wire_name(direction) + " using MCTS"@,
        ),
        None => (wire_name(fallback), "No valid moves! Moving randomly!"@),
    }
}

/// The index of the cell at `coord`: see `cell_of`.
pub fn coord_to_index(coord: Coord, width: usize) -> (r: usize)
    ensures
        r == cell_of(coord, width),
{
    if coord.x >= width {
        return OFF_BOARD;
    }
    match coord.y.checked_mul(width) {
        Some(row) => match row.checked_add(coord.x) {
            Some(index) => index,
            None => OFF_BOARD,
        },
        None => {
            assert(coord.y * width + coord.x >= OFF_BOARD);
            OFF_BOARD
        },
    }
}

/// The indices of the cells at `coords`.
fn coords_to_indices(coords: &Vec<Coord>, width: usize) -> (r: Vec<usize>)
    ensures
        r@.len() == coords@.len(),
        forall|k: int| 0 <= k < r@.len() ==> (#[trigger] r@[k]) == cell_of(coords@[k], width),
{
    let mut r: Vec<usize> = Vec::new();
    let mut k: usize = 0;
    while k < coords.len()
        invariant
            k <= coords.len(),
            r@.len() == k,
            forall|q: int| 0 <= q < k ==> (#[trigger] r@[q]) == cell_of(coords@[q], width),
        decreases coords.len() - k,
    {
        r.push(coord_to_index(coords[k], width));
        k += 1;
    }
    r
}

impl BattlesnakeRequest {
    /// The board of the request as a board of the board model: the snakes in
    /// their order, each cell by its index.
    pub fn to_game_state(&self) -> (r: GameState)
        ensures
            r@ == board_of(self.board),
    {
        let width = self.board.width;
        let mut game_state = GameState::new(width, self.board.height);
        let ghost want = board_of(self.board);
        let mut i: usize = 0;
        while i < self.board.snakes.len()
            invariant
                i <= self.board.snakes.len(),
                width == self.board.width,
                want == board_of(self.board),
                game_state@.width == want.width,
                game_state@.height == want.height,
                game_state@.food == Seq::<Position>::empty(),
                game_state@.hazards == Seq::<Position>::empty(),
                game_state@.snakes == want.snakes.take(i as int),
            decreases self.board.snakes.len() - i,
        {
            let snake = &self.board.snakes[i];
            let body = coords_to_indices(&snake.body, width);
            let ghost before = game_state@;
            game_state.add_snake(snake.id.clone(), body, snake.health);
            proof {
                assert(game_state@.snakes[i as int].body =~= want.snakes[i as int].body);
                assert(game_state@.snakes =~= want.snakes.take(i + 1));
            }
            i += 1;
        }
        proof {
            assert(want.snakes.take(i as int) =~= want.snakes);
        }
        let mut k: usize = 0;
        while k < self.board.food.len()
            invariant
                k <= self.board.food.len(),
                width == self.board.width,
                want == board_of(self.board),
                game_state@.width == want.width,
                game_state@.height == want.height,
                game_state@.hazards == Seq::<Position>::empty(),
                game_state@.snakes == want.snakes,
                game_state@.food == want.food.take(k as int),
            decreases self.board.food.len() - k,
        {
            game_state.add_food(coord_to_index(self.board.food[k], width));
            proof {
                assert(game_state@.food =~= want.food.take(k + 1));
            }
            k += 1;
        }
        proof {
            assert(want.food.take(k as int) =~= want.food);
        }
        k = 0;
        while k < self.board.hazards.len()
            invariant
                k <= self.board.hazards.len(),
                width == self.board.width,
                want == board_of(self.board),
                game_state@.width == want.width,
                game_state@.height == want.height,
                game_state@.food == want.food,
                game_state@.snakes == want.snakes,
                game_state@.hazards == want.hazards.take(k as int),
            decreases self.board.hazards.len() - k,
        {
            game_state.add_hazard(coord_to_index(self.board.hazards[k], width));
            proof {
                assert(game_state@.hazards =~= want.hazards.take(k + 1));
            }
            k += 1;
        }
        proof {
            assert(want.hazards.take(k as int) =~= want.hazards);
        }
        game_state
    }
}

/// The name under which the game server knows `direction`: see `wire_name`.
pub fn direction_name(direction: Direction) -> (r: &'static str)
    ensures
        r@ == wire_name(direction),
{
    match direction {
        Direction::Up => "down",
        Direction::Down => "up",
        Direction::Left => "left",
        Direction::Right => "right",
    }
}

/// One of `moves`, drawn at random by `rand::seq::SliceRandom::choose` with
/// the generator of the thread; none if there is none to draw from.
#[verifier::external_body]
fn choose_direction(moves: &Vec<Direction>) -> (r: Option<Direction>)
    ensures
        moves@.len() == 0 ==> r is None,
        moves@.len() > 0 ==> r is Some && moves@.contains(r.unwrap()),
{
    moves.choose(&mut rand::thread_rng()).copied()
}

/// The answer to a request when the search advises `best` and `fallback`
/// was drawn: the advised move with a word on where it comes from, or the
/// drawn one with a word on that.
pub fn response_for(best: Option<Direction>, fallback: Direction) -> (r: MoveResponse)
    ensures
        r.move_name@ == response_of(best, fallback).0,
        r.shout matches Some(shout) && shout@ == response_of(best, fallback).1,
{
    match best {
        Some(direction) => {
            let name = direction_name(direction);
            let mut shout = String::from_str("Moving ");
            shout.append(name);
            shout.append(" using MCTS");
            MoveResponse { move_name: String::from_str(name), shout: Some(shout) }
        },
        None => MoveResponse {
            move_name: String::from_str(direction_name(fallback)),
            shout: Some(String::from_str("No valid moves! Moving randomly!")),
        },
    }
}

/// The answer to a request when the search advises `best`: where it advises
/// nothing, one of the four moves is drawn at random.
pub fn move_response(best: Option<Direction>) -> (r: MoveResponse)
    ensures
        exists|fallback: Direction|
            r.move_name@ == response_of(best, fallback).0 && (r.shout matches Some(shout)
                && shout@ == response_of(best, fallback).1),
{
    let mut moves: Vec<Direction> = Vec::new();
    moves.push(Direction::Up);
    moves.push(Direction::Down);
    moves.push(Direction::Left);
    moves.push(Direction::Right);
    let fallback = match choose_direction(&moves) {
        Some(direction) => direction,
        None => Direction::Up,
    };
    response_for(best, fallback)
}

} // verus!
