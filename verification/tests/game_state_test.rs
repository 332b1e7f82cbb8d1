use battlesnake::game_state::{Direction, GameState, Position, OFF_BOARD};
use battlesnake::visualizer::visualize_game_state;

struct SnakeSpec {
    id: &'static str,
    body: Vec<usize>,
    health: u8,
}

struct StateSpec {
    width: usize,
    height: usize,
    snakes: Vec<SnakeSpec>,
    food: Vec<usize>,
    hazards: Vec<usize>,
}

struct TestCase {
    name: &'static str,
    initial_state: StateSpec,
    snake_moves: Vec<String>,
    expected_state: StateSpec,
}

fn snake(id: &'static str, body: Vec<usize>, health: u8) -> SnakeSpec {
    SnakeSpec { id, body, health }
}

fn build(spec: &StateSpec) -> GameState {
    let mut game = GameState::new(spec.width, spec.height);
    for s in &spec.snakes {
        game.add_snake(s.id.to_string(), s.body.clone(), s.health);
    }
    for &f in &spec.food {
        game.add_food(f);
    }
    for &h in &spec.hazards {
        game.add_hazard(h);
    }
    game
}

fn snapshot(game: &GameState) -> String {
    format!("{:?}", game)
}

fn bodies(game: &GameState) -> Vec<Vec<usize>> {
    game.snakes
        .iter()
        .map(|s| s.body.iter().map(|p| p.index).collect())
        .collect()
}

fn healths(game: &GameState) -> Vec<u8> {
    game.snakes.iter().map(|s| s.health).collect()
}

fn cells(positions: &[Position]) -> Vec<usize> {
    positions.iter().map(|p| p.index).collect()
}

fn create_test_cases() -> Vec<TestCase> {
    vec![
        TestCase {
            name: "Snake eats food and grows",
            initial_state: StateSpec {
                width: 5,
                height: 5,
                snakes: vec![snake("snake1", vec![12, 13, 14], 90)],
                food: vec![7],
                hazards: vec![],
            },
            snake_moves: vec!["up".to_string()],
            expected_state: StateSpec {
                width: 5,
                height: 5,
                snakes: vec![snake("snake1", vec![7, 12, 13, 13], 100)],
                food: vec![],
                hazards: vec![],
            },
        },
        TestCase {
            name: "Snake moves out of bounds",
            initial_state: StateSpec {
                width: 5,
                height: 5,
                snakes: vec![snake("snake1", vec![0, 1, 2], 90)],
                food: vec![],
                hazards: vec![],
            },
            snake_moves: vec!["up".to_string()],
            expected_state: StateSpec {
                width: 5,
                height: 5,
                snakes: vec![snake("snake1", vec![usize::MAX, 0, 1], 0)],
                food: vec![],
                hazards: vec![],
            },
        },
        TestCase {
            name: "Head-on collision between snakes",
            initial_state: StateSpec {
                width: 5,
                height: 5,
                snakes: vec![
                    snake("snake1", vec![12, 13, 14], 90),
                    snake("snake2", vec![7, 6, 5], 90),
                ],
                food: vec![],
                hazards: vec![],
            },
            snake_moves: vec!["up".to_string(), "down".to_string()],
            expected_state: StateSpec {
                width: 5,
                height: 5,
                snakes: vec![
                    snake("snake1", vec![7, 12, 13], 0),
                    snake("snake2", vec![12, 7, 6], 0),
                ],
                food: vec![],
                hazards: vec![],
            },
        },
        TestCase {
            name: "Snake runs out of health",
            initial_state: StateSpec {
                width: 5,
                height: 5,
                snakes: vec![snake("snake1", vec![12, 13, 14], 1)],
                food: vec![],
                hazards: vec![],
            },
            snake_moves: vec!["left".to_string()],
            expected_state: StateSpec {
                width: 5,
                height: 5,
                snakes: vec![snake("snake1", vec![11, 12, 13], 0)],
                food: vec![],
                hazards: vec![],
            },
        },
        TestCase {
            name: "Snake collides with itself",
            initial_state: StateSpec {
                width: 7,
                height: 7,
                snakes: vec![snake("snake1", vec![24, 17, 10, 11, 18, 25], 90)],
                food: vec![],
                hazards: vec![],
            },
            snake_moves: vec!["right".to_string()],
            expected_state: StateSpec {
                width: 7,
                height: 7,
                snakes: vec![snake("snake1", vec![25, 24, 17, 10, 11, 18], 89)],
                food: vec![],
                hazards: vec![],
            },
        },
        TestCase {
            name: "Head collision between snakes",
            initial_state: StateSpec {
                width: 7,
                height: 7,
                snakes: vec![
                    snake("snake1", vec![2, 1, 0], 90),
                    snake("snake2", vec![4, 5, 6], 90),
                ],
                food: vec![],
                hazards: vec![],
            },
            snake_moves: vec!["right".to_string(), "left".to_string()],
            expected_state: StateSpec {
                width: 7,
                height: 7,
                snakes: vec![
                    snake("snake1", vec![3, 2, 1], 0),
                    snake("snake2", vec![3, 4, 5], 0),
                ],
                food: vec![],
                hazards: vec![],
            },
        },
        TestCase {
            name: "Snake collides with itself",
            initial_state: StateSpec {
                width: 5,
                height: 5,
                snakes: vec![snake("snake1", vec![6, 7, 8, 13, 12, 11, 10], 90)],
                food: vec![1],
                hazards: vec![],
            },
            snake_moves: vec!["down".to_string()],
            expected_state: StateSpec {
                width: 5,
                height: 5,
                snakes: vec![snake("snake1", vec![11, 6, 7, 8, 13, 12, 11], 0)],
                food: vec![1],
                hazards: vec![],
            },
        },
        TestCase {
            name: "Snake collides with another snake's body and dies",
            initial_state: StateSpec {
                width: 5,
                height: 5,
                snakes: vec![
                    snake("snake1", vec![12, 13, 14], 90),
                    snake("snake2", vec![7, 6, 5], 90),
                ],
                food: vec![],
                hazards: vec![],
            },
            snake_moves: vec!["up".to_string(), "right".to_string()],
            expected_state: StateSpec {
                width: 5,
                height: 5,
                snakes: vec![
                    snake("snake1", vec![7, 12, 13], 0),
                    snake("snake2", vec![8, 7, 6], 89),
                ],
                food: vec![],
                hazards: vec![],
            },
        },
    ]
}

fn create_visual_test_cases() -> Vec<TestCase> {
    vec![
        TestCase {
            name: "Snake eats food and grows",
            initial_state: StateSpec {
                width: 5,
                height: 5,
                snakes: vec![snake("snake1", vec![12, 13, 14], 90)],
                food: vec![7],
                hazards: vec![],
            },
            snake_moves: vec!["up".to_string()],
            expected_state: StateSpec {
                width: 5,
                height: 5,
                snakes: vec![snake("snake1", vec![7, 12, 13, 13], 100)],
                food: vec![],
                hazards: vec![],
            },
        },
        TestCase {
            name: "Snake moves out of bounds",
            initial_state: StateSpec {
                width: 5,
                height: 5,
                snakes: vec![snake("snake1", vec![0, 1, 2], 90)],
                food: vec![],
                hazards: vec![],
            },
            snake_moves: vec!["up".to_string()],
            expected_state: StateSpec {
                width: 5,
                height: 5,
                snakes: vec![snake("snake1", vec![usize::MAX, 0, 1], 0)],
                food: vec![],
                hazards: vec![],
            },
        },
        TestCase {
            name: "Head-on collision between snakes",
            initial_state: StateSpec {
                width: 5,
                height: 5,
                snakes: vec![
                    snake("snake1", vec![12, 13, 14], 90),
                    snake("snake2", vec![7, 6, 5], 90),
                ],
                food: vec![],
                hazards: vec![],
            },
            snake_moves: vec!["up".to_string(), "down".to_string()],
            expected_state: StateSpec {
                width: 5,
                height: 5,
                snakes: vec![],
                food: vec![],
                hazards: vec![],
            },
        },
        TestCase {
            name: "Snake runs out of health",
            initial_state: StateSpec {
                width: 5,
                height: 5,
                snakes: vec![snake("snake1", vec![12, 13, 14], 1)],
                food: vec![],
                hazards: vec![],
            },
            snake_moves: vec!["left".to_string()],
            expected_state: StateSpec {
                width: 5,
                height: 5,
                snakes: vec![],
                food: vec![],
                hazards: vec![],
            },
        },
        // The head takes the cell that the tail leaves in the same move, so
        // the snake lives on.
        TestCase {
            name: "Snake follows its own tail",
            initial_state: StateSpec {
                width: 7,
                height: 7,
                snakes: vec![snake("snake1", vec![24, 17, 10, 11, 18, 25], 90)],
                food: vec![],
                hazards: vec![],
            },
            snake_moves: vec!["right".to_string()],
            expected_state: StateSpec {
                width: 7,
                height: 7,
                snakes: vec![snake("snake1", vec![25, 24, 17, 10, 11, 18], 89)],
                food: vec![],
                hazards: vec![],
            },
        },
    ]
}

fn play(case: &TestCase) -> GameState {
    let mut game_state = build(&case.initial_state);

    println!("Initial State:");
    println!("{}", visualize_game_state(&game_state));

    for (index, move_direction) in case.snake_moves.iter().enumerate() {
        let direction = match move_direction.as_str() {
            "up" => Direction::Up,
            "down" => Direction::Down,
            "left" => Direction::Left,
            "right" => Direction::Right,
            _ => continue,
        };
        game_state.move_snake(index, direction);
    }

    game_state.resolve_collisions();
    game_state
}

#[test]
fn test_game_state_simulation() {
    let test_cases = create_test_cases();

    for case in test_cases {
        println!("Test Case: {}\n", case.name);

        let game_state = play(&case);
        let expected_game_state = build(&case.expected_state);

        println!("\nExpected State:");
        println!("{}", visualize_game_state(&expected_game_state));

        println!("\nActual State:");
        println!("{}", visualize_game_state(&game_state));

        let actual_state = snapshot(&game_state);
        let expected_state = snapshot(&expected_game_state);

        assert_eq!(
            actual_state, expected_state,
            "Test case '{}' failed",
            case.name
        );

        println!("----------------------------------------\n");
    }
}

#[test]
fn game_state_test_test_game_state_simulation() {
    let test_cases = create_visual_test_cases();

    for case in test_cases {
        println!("Test Case: {}\n", case.name);

        let game_state = play(&case);
        let expected_game_state = build(&case.expected_state);

        println!("\nExpected State:");
        println!("{}", visualize_game_state(&expected_game_state));

        println!("\nActual State:");
        println!("{}", visualize_game_state(&game_state));

        let actual_state = visualize_game_state(&game_state);
        let expected_state = visualize_game_state(&expected_game_state);
        assert_eq!(
            actual_state, expected_state,
            "Test case '{}' failed",
            case.name
        );

        println!("----------------------------------------\n");
    }
}

#[test]
fn new_board_is_empty() {
    let game = GameState::new(11, 7);
    assert_eq!(game.width, 11);
    assert_eq!(game.height, 7);
    assert!(game.snakes.is_empty());
    assert!(game.food.is_empty());
    assert!(game.hazards.is_empty());
}

#[test]
fn add_snake_keeps_order_and_cells() {
    let mut game = GameState::new(5, 5);
    game.add_snake("a".to_string(), vec![3, 2, 1], 77);
    game.add_snake("b".to_string(), vec![], 5);
    game.add_food(9);
    game.add_hazard(4);
    game.add_hazard(4);
    assert_eq!(bodies(&game), vec![vec![3, 2, 1], vec![]]);
    assert_eq!(healths(&game), vec![77, 5]);
    assert_eq!(game.snakes[0].id, "a");
    assert_eq!(game.snakes[1].id, "b");
    assert_eq!(cells(&game.food), vec![9]);
    assert_eq!(cells(&game.hazards), vec![4, 4]);
}

#[test]
fn head_and_length() {
    let mut game = GameState::new(5, 5);
    game.add_snake("a".to_string(), vec![3, 2, 1], 77);
    game.add_snake("b".to_string(), vec![], 5);
    assert_eq!(game.snakes[0].head(), Position { index: 3 });
    assert_eq!(game.snakes[0].length(), 3);
    assert_eq!(game.snakes[1].head(), Position { index: OFF_BOARD });
    assert_eq!(game.snakes[1].length(), 0);
}

#[test]
fn step_follows_the_grid() {
    let game = GameState::new(5, 4);
    assert_eq!(game.step(7, Direction::Up), 2);
    assert_eq!(game.step(7, Direction::Down), 12);
    assert_eq!(game.step(7, Direction::Left), 6);
    assert_eq!(game.step(7, Direction::Right), 8);
    assert_eq!(game.step(2, Direction::Up), OFF_BOARD);
    assert_eq!(game.step(17, Direction::Down), OFF_BOARD);
    assert_eq!(game.step(5, Direction::Left), OFF_BOARD);
    assert_eq!(game.step(9, Direction::Right), OFF_BOARD);
    assert_eq!(game.step(20, Direction::Up), OFF_BOARD);
    assert_eq!(game.step(OFF_BOARD, Direction::Left), OFF_BOARD);
    let none = GameState::new(0, 3);
    assert_eq!(none.step(0, Direction::Right), OFF_BOARD);
}

#[test]
fn move_costs_one_health_and_keeps_length() {
    let mut game = GameState::new(5, 5);
    game.add_snake("a".to_string(), vec![12, 13, 14], 90);
    game.move_snake(0, Direction::Left);
    assert_eq!(bodies(&game), vec![vec![11, 12, 13]]);
    assert_eq!(healths(&game), vec![89]);
}

#[test]
fn move_onto_hazard_costs_fifteen_not_sixteen() {
    let mut game = GameState::new(5, 5);
    game.add_snake("a".to_string(), vec![12, 13, 14], 90);
    game.add_hazard(7);
    game.move_snake(0, Direction::Up);
    assert_eq!(bodies(&game), vec![vec![7, 12, 13]]);
    assert_eq!(healths(&game), vec![75]);
    game.resolve_collisions();
    assert_eq!(healths(&game), vec![75]);
}

#[test]
fn hazard_damage_stops_at_zero() {
    let mut game = GameState::new(5, 5);
    game.add_snake("a".to_string(), vec![12, 13, 14], 14);
    game.add_snake("b".to_string(), vec![20, 21], 15);
    game.add_hazard(7);
    game.add_hazard(15);
    game.move_snake(0, Direction::Up);
    game.move_snake(1, Direction::Up);
    assert_eq!(healths(&game), vec![0, 0]);
    assert_eq!(bodies(&game), vec![vec![7, 12, 13], vec![15, 20]]);
}

#[test]
fn dead_snake_does_not_move() {
    let mut game = GameState::new(5, 5);
    game.add_snake("a".to_string(), vec![12, 13, 14], 0);
    game.move_snake(0, Direction::Up);
    assert_eq!(bodies(&game), vec![vec![12, 13, 14]]);
    assert_eq!(healths(&game), vec![0]);
}

#[test]
fn snake_off_the_board_does_not_move() {
    let mut game = GameState::new(5, 5);
    game.add_snake("a".to_string(), vec![OFF_BOARD, 0, 1], 50);
    game.move_snake(0, Direction::Down);
    assert_eq!(bodies(&game), vec![vec![OFF_BOARD, 0, 1]]);
    assert_eq!(healths(&game), vec![50]);
}

#[test]
fn move_of_absent_snake_changes_nothing() {
    let mut game = GameState::new(5, 5);
    game.add_snake("a".to_string(), vec![12, 13, 14], 90);
    let before = snapshot(&game);
    game.move_snake(1, Direction::Up);
    game.move_snake(usize::MAX, Direction::Up);
    assert_eq!(snapshot(&game), before);
}

#[test]
fn move_touches_only_its_snake() {
    let mut game = GameState::new(5, 5);
    game.add_snake("a".to_string(), vec![12, 13, 14], 90);
    game.add_snake("b".to_string(), vec![7, 6, 5], 80);
    game.add_food(7);
    game.move_snake(0, Direction::Up);
    assert_eq!(bodies(&game), vec![vec![7, 12, 13], vec![7, 6, 5]]);
    assert_eq!(healths(&game), vec![89, 80]);
    assert_eq!(cells(&game.food), vec![7]);
}

#[test]
fn scenario_leaving_the_top_edge() {
    let mut game = GameState::new(5, 5);
    game.add_snake("snake1".to_string(), vec![0, 1, 2], 90);
    game.move_snake(0, Direction::Up);
    game.resolve_collisions();
    assert_eq!(game.snakes[0].head().index, OFF_BOARD);
    assert_eq!(game.snakes[0].health, 0);
    assert!(game.get_safe_moves(0).is_empty());
}

#[test]
fn leaving_each_edge_kills() {
    for (body, direction) in [
        (vec![2, 7], Direction::Up),
        (vec![22, 17], Direction::Down),
        (vec![10, 11], Direction::Left),
        (vec![14, 13], Direction::Right),
    ] {
        let mut game = GameState::new(5, 5);
        game.add_snake("a".to_string(), body, 100);
        game.move_snake(0, direction);
        game.resolve_collisions();
        assert_eq!(game.snakes[0].head().index, OFF_BOARD);
        assert_eq!(game.snakes[0].health, 0);
    }
}

#[test]
fn scenario_equal_snakes_head_on() {
    let mut game = GameState::new(5, 5);
    game.add_snake("a".to_string(), vec![11, 10, 5], 100);
    game.add_snake("b".to_string(), vec![13, 14, 9], 100);
    game.move_snake(0, Direction::Right);
    game.move_snake(1, Direction::Left);
    game.resolve_collisions();
    assert_eq!(bodies(&game), vec![vec![12, 11, 10], vec![12, 13, 14]]);
    assert_eq!(healths(&game), vec![0, 0]);
}

#[test]
fn shorter_snake_loses_head_on() {
    let mut game = GameState::new(5, 5);
    game.add_snake("short".to_string(), vec![11, 10], 100);
    game.add_snake("long".to_string(), vec![13, 14, 9], 100);
    game.move_snake(0, Direction::Right);
    game.move_snake(1, Direction::Left);
    game.resolve_collisions();
    assert_eq!(healths(&game), vec![0, 99]);
}

#[test]
fn two_longest_outlast_a_shorter_third_and_meet_again() {
    let mut game = GameState::new(5, 5);
    game.add_snake("a".to_string(), vec![12, 11, 10], 50);
    game.add_snake("b".to_string(), vec![12, 13, 14], 50);
    game.add_snake("c".to_string(), vec![12, 7], 50);
    game.resolve_collisions();
    assert_eq!(healths(&game), vec![50, 50, 0]);
    game.resolve_collisions();
    assert_eq!(healths(&game), vec![0, 0, 0]);
}

#[test]
fn resolve_twice_is_resolve_once() {
    let mut game = GameState::new(5, 5);
    game.add_snake("a".to_string(), vec![12, 13, 14], 90);
    game.add_snake("b".to_string(), vec![7, 6, 5], 90);
    game.add_snake("c".to_string(), vec![OFF_BOARD, 20, 21], 40);
    game.add_snake("d".to_string(), vec![24, 23], 0);
    game.add_snake("e".to_string(), vec![13, 18], 30);
    game.add_food(12);
    game.add_food(3);
    game.add_hazard(7);
    game.resolve_collisions();
    let once = snapshot(&game);
    assert_eq!(healths(&game), vec![100, 90, 0, 0, 0]);
    assert_eq!(bodies(&game)[0], vec![12, 13, 14, 14]);
    assert_eq!(cells(&game.food), vec![3]);
    game.resolve_collisions();
    assert_eq!(snapshot(&game), once);
}

#[test]
fn food_is_eaten_once_by_the_first_snake() {
    let mut game = GameState::new(5, 5);
    game.add_snake("a".to_string(), vec![12, 11], 40);
    game.add_snake("b".to_string(), vec![12, 13, 14], 40);
    game.add_food(12);
    game.add_food(12);
    game.resolve_collisions();
    assert_eq!(bodies(&game), vec![vec![12, 11, 11], vec![12, 13, 14]]);
    assert_eq!(healths(&game), vec![0, 0]);
    assert!(game.food.is_empty());
}

#[test]
fn eater_that_dies_keeps_its_growth() {
    let mut game = GameState::new(5, 5);
    game.add_snake("a".to_string(), vec![12, 11], 40);
    game.add_snake("b".to_string(), vec![12, 13, 14, 9], 40);
    game.add_food(12);
    game.resolve_collisions();
    assert_eq!(bodies(&game), vec![vec![12, 11, 11], vec![12, 13, 14, 9]]);
    assert_eq!(healths(&game), vec![0, 40]);
    assert!(game.food.is_empty());
}

#[test]
fn dead_snake_neither_eats_nor_blocks() {
    let mut game = GameState::new(5, 5);
    game.add_snake("dead".to_string(), vec![12, 13, 14], 0);
    game.add_snake("live".to_string(), vec![13, 8], 60);
    game.add_food(12);
    game.resolve_collisions();
    assert_eq!(healths(&game), vec![0, 60]);
    assert_eq!(cells(&game.food), vec![12]);
    assert_eq!(bodies(&game), vec![vec![12, 13, 14], vec![13, 8]]);
}

#[test]
fn snake_that_leaves_still_blocks_this_turn() {
    let mut game = GameState::new(5, 5);
    game.add_snake("leaver".to_string(), vec![OFF_BOARD, 2, 7], 60);
    game.add_snake("other".to_string(), vec![7, 8], 60);
    game.resolve_collisions();
    assert_eq!(healths(&game), vec![0, 0]);
}

#[test]
fn scenario_safe_moves_never_point_at_the_neck() {
    let game = {
        let mut game = GameState::new(7, 7);
        game.add_snake("a".to_string(), vec![24, 25, 26], 100);
        game
    };
    assert_eq!(
        game.get_safe_moves(0),
        vec![Direction::Up, Direction::Down, Direction::Left]
    );
    for (body, neck) in [
        (vec![24, 17, 10], Direction::Up),
        (vec![24, 31, 38], Direction::Down),
        (vec![24, 23, 22], Direction::Left),
        (vec![24, 25, 26], Direction::Right),
    ] {
        let mut game = GameState::new(7, 7);
        game.add_snake("a".to_string(), body, 100);
        let safe = game.get_safe_moves(0);
        assert_eq!(safe.len(), 3);
        assert!(!safe.contains(&neck));
    }
}

#[test]
fn safe_moves_keep_to_the_board_and_ignore_other_snakes() {
    let mut game = GameState::new(5, 5);
    game.add_snake("a".to_string(), vec![0, 5], 100);
    game.add_snake("b".to_string(), vec![1, 2, 3], 100);
    assert_eq!(game.get_safe_moves(0), vec![Direction::Right]);
    assert_eq!(
        game.get_safe_moves(1),
        vec![Direction::Down, Direction::Left]
    );
    assert!(game.is_safe_move(Position { index: 1 }, 0));
    assert!(!game.is_safe_move(Position { index: 5 }, 0));
    assert!(!game.is_safe_move(Position { index: OFF_BOARD }, 0));
}

#[test]
fn safe_moves_of_dead_absent_or_lost_snakes_are_none() {
    let mut game = GameState::new(5, 5);
    game.add_snake("dead".to_string(), vec![12, 13], 0);
    game.add_snake("lost".to_string(), vec![OFF_BOARD, 0], 90);
    game.add_snake("bare".to_string(), vec![], 90);
    assert!(game.get_safe_moves(0).is_empty());
    assert!(game.get_safe_moves(1).is_empty());
    assert!(game.get_safe_moves(2).is_empty());
    assert!(game.get_safe_moves(3).is_empty());
}

#[test]
fn single_segment_snake_has_all_moves() {
    let mut game = GameState::new(3, 3);
    game.add_snake("a".to_string(), vec![4], 100);
    assert_eq!(
        game.get_safe_moves(0),
        vec![
            Direction::Up,
            Direction::Down,
            Direction::Left,
            Direction::Right
        ]
    );
}

#[test]
fn find_snake_takes_the_first_of_a_name() {
    let mut game = GameState::new(3, 3);
    game.add_snake("a".to_string(), vec![4], 100);
    game.add_snake("b".to_string(), vec![5], 100);
    game.add_snake("b".to_string(), vec![6], 100);
    assert_eq!(game.find_snake("a"), Some(0));
    assert_eq!(game.find_snake("b"), Some(1));
    assert_eq!(game.find_snake("c"), None);
}

#[test]
fn limits_of_the_board() {
    assert!(GameState::new(11, 11).is_in_limits());
    assert!(GameState::new(0, usize::MAX).is_in_limits());
    assert!(GameState::new(usize::MAX, 1).is_in_limits());
    assert!(!GameState::new(usize::MAX, 2).is_in_limits());
    let mut crowded = GameState::new(3, 3);
    for _ in 0..128 {
        crowded.add_snake("s".to_string(), vec![0], 1);
    }
    assert!(crowded.is_in_limits());
    crowded.add_snake("s".to_string(), vec![0], 1);
    assert!(!crowded.is_in_limits());
}

#[test]
fn clone_is_equal_and_apart() {
    let mut game = GameState::new(5, 5);
    game.add_snake("a".to_string(), vec![12, 13, 14], 90);
    game.add_food(3);
    game.add_hazard(4);
    let copy = game.clone();
    assert_eq!(snapshot(&copy), snapshot(&game));
    game.move_snake(0, Direction::Up);
    assert_eq!(bodies(&copy), vec![vec![12, 13, 14]]);
    assert_eq!(game.has_live_head_at(Position { index: 7 }), true);
    assert_eq!(copy.has_live_head_at(Position { index: 7 }), false);
    assert!(copy.is_food(Position { index: 3 }));
    assert!(copy.is_hazard(Position { index: 4 }));
    assert!(!copy.is_hazard(Position { index: 3 }));
}

#[test]
fn single_segment_eater_runs_into_its_new_segment() {
    let mut game = GameState::new(5, 5);
    game.add_snake("a".to_string(), vec![12], 50);
    game.add_food(12);
    game.resolve_collisions();
    assert_eq!(bodies(&game), vec![vec![12, 12]]);
    assert_eq!(healths(&game), vec![0]);
    assert!(game.food.is_empty());
}

#[test]
fn head_collision_rule_by_snake() {
    let mut game = GameState::new(5, 5);
    game.add_snake("a".to_string(), vec![12, 11, 10], 50);
    game.add_snake("b".to_string(), vec![12, 13, 14], 50);
    game.add_snake("c".to_string(), vec![12, 7], 50);
    game.add_snake("d".to_string(), vec![3, 4], 50);
    game.add_snake("e".to_string(), vec![3, 8], 0);
    assert!(!game.handle_head_collision(0));
    assert!(!game.handle_head_collision(1));
    assert!(game.handle_head_collision(2));
    assert!(!game.handle_head_collision(3));
}
