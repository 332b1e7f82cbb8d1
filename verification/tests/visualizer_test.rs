use battlesnake::game_state::{GameState, OFF_BOARD};
use battlesnake::visualizer::visualize_game_state;

struct TestCase {
    name: &'static str,
    width: usize,
    height: usize,
    snakes: Vec<(&'static str, Vec<usize>, u8)>,
    food: Vec<usize>,
    hazards: Vec<usize>,
    expected_output: &'static str,
}

fn build(case: &TestCase) -> GameState {
    let mut game = GameState::new(case.width, case.height);
    for (id, body, health) in &case.snakes {
        game.add_snake(id.to_string(), body.clone(), *health);
    }
    for &f in &case.food {
        game.add_food(f);
    }
    for &h in &case.hazards {
        game.add_hazard(h);
    }
    game
}

fn create_test_cases() -> Vec<TestCase> {
    vec![
        TestCase {
            name: "Initial game state",
            width: 5,
            height: 5,
            snakes: vec![
                ("snake1", vec![12, 13, 14], 100),
                ("snake2", vec![20, 21], 100),
            ],
            food: vec![7],
            hazards: vec![18],
            expected_output: "\
.....
..*..
..Aaa
...!.
Bb...",
        },
        TestCase {
            name: "After snake move",
            width: 5,
            height: 5,
            snakes: vec![
                ("snake1", vec![7, 12, 13], 99),
                ("snake2", vec![20, 21], 100),
            ],
            food: vec![7],
            hazards: vec![18],
            expected_output: "\
.....
..A..
..aa.
...!.
Bb...",
        },
        TestCase {
            name: "Empty board",
            width: 3,
            height: 3,
            snakes: vec![],
            food: vec![],
            hazards: vec![],
            expected_output: "\
...
...
...",
        },
        TestCase {
            name: "Board with only food",
            width: 3,
            height: 3,
            snakes: vec![],
            food: vec![4],
            hazards: vec![],
            expected_output: "\
...
.*.
...",
        },
    ]
}

#[test]
fn test_visualize_game_state() {
    let test_cases = create_test_cases();

    for case in test_cases {
        let game_state = build(&case);
        let visual = visualize_game_state(&game_state);
        assert_eq!(visual, case.expected_output, "Test case '{}' failed", case.name);
    }
}

#[test]
fn later_marks_hide_earlier_ones() {
    let case = TestCase {
        name: "layers",
        width: 4,
        height: 2,
        snakes: vec![
            ("a", vec![0, 1, 2], 100),
            ("dead", vec![3, 7], 0),
            ("c", vec![5, 1, 0], 100),
            ("tail on head", vec![6, 6], 100),
        ],
        food: vec![3, 4, 9],
        hazards: vec![4, 2, OFF_BOARD],
        expected_output: "cca*\n!Cd.",
    };
    assert_eq!(visualize_game_state(&build(&case)), case.expected_output);
}

#[test]
fn snakes_beyond_the_alphabet_keep_one_mark() {
    let mut game = GameState::new(27, 1);
    for i in 0..27 {
        game.add_snake(format!("s{}", i), vec![i], 100);
    }
    assert_eq!(
        visualize_game_state(&game),
        "ABCDEFGHIJKLMNOPQRSTUVWXYZ{"
    );
}

#[test]
fn boards_without_cells() {
    assert_eq!(visualize_game_state(&GameState::new(0, 3)), "");
    assert_eq!(visualize_game_state(&GameState::new(3, 0)), "");
    assert_eq!(visualize_game_state(&GameState::new(2, 1)), "..");
    assert_eq!(visualize_game_state(&GameState::new(1, 3)), ".\n.\n.");
}
