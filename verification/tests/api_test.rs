use battlesnake::battlesnake_api::{
    coord_to_index, direction_name, move_response, response_for, Battlesnake, BattlesnakeRequest,
    Board, Coord, Game, Ruleset,
};
use battlesnake::game_state::{Direction, GameState, OFF_BOARD};
use battlesnake::tree::game_state_to_board;

fn at(x: usize, y: usize) -> Coord {
    Coord { x, y }
}

fn battlesnake(id: &str, body: Vec<Coord>, health: u8) -> Battlesnake {
    Battlesnake {
        id: id.to_string(),
        name: format!("the {}", id),
        health,
        head: body[0],
        length: body.len(),
        body,
    }
}

fn request(board: Board) -> BattlesnakeRequest {
    BattlesnakeRequest {
        game: Game {
            id: "game".to_string(),
            ruleset: Ruleset {
                name: "standard".to_string(),
                version: "v1".to_string(),
            },
            timeout: 500,
        },
        turn: 3,
        you: battlesnake("me", vec![at(1, 0), at(0, 0)], 80),
        board,
    }
}

#[test]
fn coord_to_index_is_row_major() {
    assert_eq!(coord_to_index(at(0, 0), 11), 0);
    assert_eq!(coord_to_index(at(3, 2), 11), 25);
    assert_eq!(coord_to_index(at(10, 10), 11), 120);
    assert_eq!(coord_to_index(at(11, 0), 11), OFF_BOARD);
    assert_eq!(coord_to_index(at(0, 0), 0), OFF_BOARD);
    assert_eq!(coord_to_index(at(1, usize::MAX), 2), OFF_BOARD);
    assert_eq!(coord_to_index(at(usize::MAX - 1, 0), usize::MAX), usize::MAX - 1);
    assert_eq!(coord_to_index(at(0, 1), usize::MAX), OFF_BOARD);
}

#[test]
fn to_game_state_keeps_order_and_cells() {
    let board = Board {
        height: 4,
        width: 5,
        food: vec![at(2, 2), at(4, 3)],
        hazards: vec![at(0, 1)],
        snakes: vec![
            battlesnake("me", vec![at(1, 0), at(0, 0)], 80),
            battlesnake("you", vec![at(3, 1), at(3, 2), at(3, 3)], 100),
        ],
    };
    let game = request(board).to_game_state();
    assert_eq!(game.width, 5);
    assert_eq!(game.height, 4);
    assert_eq!(game.snakes.len(), 2);
    assert_eq!(game.snakes[0].id, "me");
    assert_eq!(game.snakes[0].health, 80);
    assert_eq!(game.snakes[1].id, "you");
    let bodies: Vec<Vec<usize>> = game
        .snakes
        .iter()
        .map(|s| s.body.iter().map(|p| p.index).collect())
        .collect();
    assert_eq!(bodies, vec![vec![1, 0], vec![8, 13, 18]]);
    let food: Vec<usize> = game.food.iter().map(|p| p.index).collect();
    let hazards: Vec<usize> = game.hazards.iter().map(|p| p.index).collect();
    assert_eq!(food, vec![12, 19]);
    assert_eq!(hazards, vec![5]);
}

#[test]
fn direction_names_flip_up_and_down() {
    assert_eq!(direction_name(Direction::Up), "down");
    assert_eq!(direction_name(Direction::Down), "up");
    assert_eq!(direction_name(Direction::Left), "left");
    assert_eq!(direction_name(Direction::Right), "right");
}

#[test]
fn response_names_the_advised_move() {
    let response = response_for(Some(Direction::Up), Direction::Left);
    assert_eq!(response.move_name, "down");
    assert_eq!(response.shout, Some("Moving down using MCTS".to_string()));
    let response = response_for(None, Direction::Left);
    assert_eq!(response.move_name, "left");
    assert_eq!(
        response.shout,
        Some("No valid moves! Moving randomly!".to_string())
    );
}

#[test]
fn move_response_draws_one_of_the_four_moves() {
    let mut seen = std::collections::HashSet::new();
    for _ in 0..400 {
        let response = move_response(None);
        assert!(["up", "down", "left", "right"].contains(&response.move_name.as_str()));
        assert_eq!(
            response.shout,
            Some("No valid moves! Moving randomly!".to_string())
        );
        seen.insert(response.move_name);
    }
    assert_eq!(seen.len(), 4);
    let response = move_response(Some(Direction::Right));
    assert_eq!(response.move_name, "right");
    assert_eq!(response.shout, Some("Moving right using MCTS".to_string()));
}

#[test]
fn board_for_export_holds_plain_indices() {
    let mut game = GameState::new(5, 5);
    game.add_snake("a".to_string(), vec![7, 12, 13], 99);
    game.add_snake("gone".to_string(), vec![], 0);
    game.add_food(3);
    game.add_hazard(18);
    game.add_hazard(19);
    let board = game_state_to_board(&game);
    assert_eq!(board.width, 5);
    assert_eq!(board.height, 5);
    assert_eq!(board.food, vec![3]);
    assert_eq!(board.hazards, vec![18, 19]);
    assert_eq!(board.snakes.len(), 2);
    assert_eq!(board.snakes[0].id, "a");
    assert_eq!(board.snakes[0].body, vec![7, 12, 13]);
    assert_eq!(board.snakes[0].health, 99);
    assert_eq!(board.snakes[0].head, 7);
    assert_eq!(board.snakes[1].body, Vec::<usize>::new());
    assert_eq!(board.snakes[1].head, OFF_BOARD);
}
