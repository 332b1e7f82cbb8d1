use battlesnake::game_state::{Direction, GameState};
use battlesnake::joint_moves::{cartesian_product, joint_moves, play_joint_move};
use battlesnake::search::{evaluate, ChildStats, MCTS};
use battlesnake::visualizer::visualize_game_state;
use std::time::{Duration, Instant};

struct TestCase {
    name: &'static str,
    width: usize,
    height: usize,
    snakes: Vec<(&'static str, Vec<usize>, u8)>,
    snake_id: &'static str,
    expected_move: Option<Direction>,
}

fn build(case: &TestCase) -> GameState {
    board(case.width, case.height, &case.snakes)
}

fn board(width: usize, height: usize, snakes: &[(&'static str, Vec<usize>, u8)]) -> GameState {
    let mut game = GameState::new(width, height);
    for (id, body, health) in snakes {
        game.add_snake(id.to_string(), body.clone(), *health);
    }
    game
}

/// UCB1 with the exploration constant 1.414, as a key that orders as the
/// score does.
fn ucb(stats: ChildStats) -> u64 {
    let visits = stats.visits as f64;
    let shares = stats.total as f64 / (visits * stats.cells as f64);
    let average_value = shares / stats.snakes as f64;
    let exploration = (2.0 * (stats.parent_visits as f64).ln() / visits).sqrt();
    ((average_value + 1.414 * exploration) * 1.0e9) as u64
}

fn run_for(mcts: &mut MCTS, duration: Duration, num_threads: usize) {
    let start_time = Instant::now();
    println!("Rounds for {} workers, taken in turn", num_threads);
    while Instant::now().duration_since(start_time) < duration {
        mcts.run(1, &ucb);
    }
}

fn create_test_cases() -> Vec<TestCase> {
    vec![TestCase {
        name: "Simple two snake scenario",
        width: 11,
        height: 11,
        snakes: vec![
            ("snake1", vec![3, 2, 1], 100),
            ("snake2", vec![5, 6, 7, 8], 100),
        ],
        snake_id: "snake1",
        expected_move: Some(Direction::Down),
    }]
}

fn create_corner_test_cases() -> Vec<TestCase> {
    vec![TestCase {
        name: "Simple two snake scenario",
        width: 11,
        height: 11,
        snakes: vec![
            ("snake1", vec![0, 1, 2], 100),
            ("snake2", vec![24, 23, 22], 100),
        ],
        snake_id: "snake1",
        expected_move: Some(Direction::Down),
    }]
}

// The longest path from a node down to a leaf.
fn find_longest_path(mcts: &MCTS, node: usize) -> Vec<usize> {
    let node_ref = mcts.node(node);
    if node_ref.children.is_empty() {
        return vec![node];
    }

    let mut max_path = Vec::new();

    for &child in &node_ref.children {
        let path = find_longest_path(mcts, child);
        if path.len() > max_path.len() {
            max_path = path;
        }
    }

    let mut full_path = vec![node];
    full_path.extend(max_path);
    full_path
}

fn check_move_selection(test_cases: Vec<TestCase>, millis: u64, num_threads: usize) {
    for case in test_cases {
        let game_state = build(&case);

        println!("Test case: {}", case.name);
        println!("Initial game state:");
        println!("{}", visualize_game_state(&game_state));

        let mut mcts = MCTS::new(game_state.clone());
        let duration = Duration::from_millis(millis);

        run_for(&mut mcts, duration, num_threads);

        let longest_path = find_longest_path(&mcts, 0);

        println!("Longest path in the MCTS tree (from root to leaf):");
        for (i, &node) in longest_path.iter().enumerate() {
            let node_ref = mcts.node(node);
            println!("Step {}:", i);
            println!("{}", visualize_game_state(&node_ref.game_state));
            println!("Moves: {:?}", node_ref.moves);
            println!("Visits: {}", node_ref.visits);
            println!("Value: {:?}", node_ref.total_value);
            println!("---");
        }

        let best_move = mcts.get_best_move_for_snake(case.snake_id);

        println!("Calculated best move: {:?}", best_move);
        println!("Expected move: {:?}", case.expected_move);

        if let Some(our_snake_index) = game_state.snakes.iter().position(|s| s.id == case.snake_id)
        {
            if let Some(best_move) = best_move {
                let safe_moves = game_state.get_safe_moves(our_snake_index);
                assert!(
                    safe_moves.contains(&best_move),
                    "Test case '{}' failed: invalid move returned",
                    case.name
                );
            } else {
                let safe_moves = game_state.get_safe_moves(our_snake_index);
                assert!(
                    safe_moves.is_empty(),
                    "Test case '{}' failed: expected a move but none was returned",
                    case.name
                );
            }
        } else {
            panic!(
                "Test case '{}' failed: snake '{}' not found in game state",
                case.name, case.snake_id
            );
        }

        println!("\n");
    }
}

#[test]
fn test_mcts_move_selection() {
    println!("starting tests");
    check_move_selection(create_test_cases(), 400, 12);
}

#[test]
fn search_test_test_mcts_move_selection() {
    check_move_selection(create_corner_test_cases(), 600, 4);
}

#[test]
fn cartesian_product_lists_every_pick_in_order() {
    let lists = vec![vec![1, 2], vec![10], vec![7, 8, 9]];
    assert_eq!(
        cartesian_product(&lists),
        vec![
            vec![1, 10, 7],
            vec![1, 10, 8],
            vec![1, 10, 9],
            vec![2, 10, 7],
            vec![2, 10, 8],
            vec![2, 10, 9],
        ]
    );
}

#[test]
fn cartesian_product_of_nothing_and_with_nothing() {
    let none: Vec<Vec<u8>> = vec![];
    assert_eq!(cartesian_product(&none), vec![Vec::<u8>::new()]);
    let with_empty = vec![vec![1u8, 2], vec![], vec![3]];
    assert!(cartesian_product(&with_empty).is_empty());
    let one = vec![vec![4u8, 5]];
    assert_eq!(cartesian_product(&one), vec![vec![4], vec![5]]);
}

#[test]
fn joint_moves_pair_safe_moves_and_rest_for_the_others() {
    let game = board(
        5,
        5,
        &[
            ("a", vec![0, 5], 100),
            ("dead", vec![12, 13], 0),
            ("b", vec![24, 23], 100),
        ],
    );
    assert_eq!(
        joint_moves(&game),
        vec![
            vec![Some(Direction::Right), None, Some(Direction::Up)],
        ]
    );
    let game = board(5, 5, &[("a", vec![12, 13], 100), ("b", vec![0, 1], 100)]);
    assert_eq!(
        joint_moves(&game),
        vec![
            vec![Some(Direction::Up), Some(Direction::Down)],
            vec![Some(Direction::Down), Some(Direction::Down)],
            vec![Some(Direction::Left), Some(Direction::Down)],
        ]
    );
}

#[test]
fn play_joint_move_moves_all_and_ends_the_turn() {
    let game = board(5, 5, &[("a", vec![11, 10, 5], 100), ("b", vec![13, 14, 9], 100)]);
    let next = play_joint_move(&game, &vec![Some(Direction::Right), Some(Direction::Left)]);
    assert_eq!(next.snakes[0].health, 0);
    assert_eq!(next.snakes[1].health, 0);
    assert_eq!(game.snakes[0].health, 100);
    let next = play_joint_move(&game, &vec![Some(Direction::Up), None]);
    assert_eq!(next.snakes[0].head().index, 6);
    assert_eq!(next.snakes[0].health, 99);
    assert_eq!(next.snakes[1].head().index, 13);
    assert_eq!(next.snakes[1].health, 100);
}

#[test]
fn terminal_means_at_most_one_alive() {
    assert!(MCTS::is_terminal(&board(5, 5, &[])));
    assert!(MCTS::is_terminal(&board(5, 5, &[("a", vec![1], 1)])));
    assert!(MCTS::is_terminal(&board(
        5,
        5,
        &[("a", vec![1], 1), ("b", vec![2], 0)]
    )));
    assert!(!MCTS::is_terminal(&board(
        5,
        5,
        &[("a", vec![1], 1), ("b", vec![2], 0), ("c", vec![3], 9)]
    )));
}

#[test]
fn evaluate_gives_all_to_the_survivor() {
    let game = board(
        5,
        5,
        &[("a", vec![1], 0), ("b", vec![2, 3], 10), ("c", vec![4], 0)],
    );
    assert_eq!(evaluate(&game), vec![0, 25, 0]);
    let over = board(5, 5, &[("a", vec![1], 0), ("b", vec![2, 3], 0)]);
    assert_eq!(evaluate(&over), vec![0, 0]);
}

#[test]
fn evaluate_counts_control_while_the_game_goes_on() {
    let game = board(
        5,
        5,
        &[("a", vec![0, 1, 2], 100), ("b", vec![24, 23, 22], 100)],
    );
    assert_eq!(evaluate(&game), vec![15, 10]);
}

#[test]
fn new_tree_has_a_bare_root() {
    let game = board(5, 5, &[("a", vec![12, 13], 100), ("b", vec![0, 1], 100)]);
    let mcts = MCTS::new(game);
    assert_eq!(mcts.len(), 1);
    assert_eq!(mcts.root().visits, 0);
    assert!(mcts.root().children.is_empty());
    assert!(mcts.root().moves.is_empty());
    assert_eq!(mcts.root().parent, None);
    assert_eq!(mcts.root().total_value, vec![0, 0]);
    assert_eq!(mcts.get_best_move_for_snake("a"), None);
}

#[test]
fn expand_adds_a_child_for_each_joint_move() {
    let game = board(5, 5, &[("a", vec![12, 13], 100), ("b", vec![0, 1], 100)]);
    let mut mcts = MCTS::new(game);
    mcts.expand(0);
    assert_eq!(mcts.len(), 4);
    assert_eq!(mcts.root().children, vec![1, 2, 3]);
    let moves: Vec<_> = (1..4).map(|i| mcts.node(i).moves.clone()).collect();
    assert_eq!(
        moves,
        vec![
            vec![Some(Direction::Up), Some(Direction::Down)],
            vec![Some(Direction::Down), Some(Direction::Down)],
            vec![Some(Direction::Left), Some(Direction::Down)],
        ]
    );
    for i in 1..4 {
        let child = mcts.node(i);
        assert_eq!(child.parent, Some(0));
        assert_eq!(child.visits, 0);
        assert!(child.children.is_empty());
        assert_eq!(child.total_value, vec![0, 0]);
        assert_eq!(child.game_state.snakes[1].head().index, 5);
        assert_eq!(child.game_state.snakes[0].health, 99);
    }
    assert_eq!(mcts.node(1).game_state.snakes[0].head().index, 7);
    assert_eq!(mcts.node(2).game_state.snakes[0].head().index, 17);
    assert_eq!(mcts.node(3).game_state.snakes[0].head().index, 11);
}

#[test]
fn first_round_expands_the_root_and_scores_its_first_child() {
    let game = board(5, 5, &[("a", vec![12, 13], 100), ("b", vec![0, 1], 100)]);
    let mut mcts = MCTS::new(game);
    let leaf = mcts.tree_policy(&ucb);
    assert_eq!(leaf, 1);
    assert_eq!(mcts.len(), 4);
    assert_eq!(mcts.root().visits, 1);
    assert_eq!(mcts.node(1).visits, 1);
    assert_eq!(mcts.node(2).visits, 0);
    let value = evaluate(&mcts.node(1).game_state);
    let scores: Vec<u128> = value.iter().map(|&v| v as u128).collect();
    assert_eq!(scores.iter().sum::<u128>(), 25);
    assert_eq!(mcts.node(1).total_value, scores);
    assert_eq!(mcts.root().total_value, scores);
    assert_eq!(mcts.node(2).total_value, vec![0, 0]);
    let second = mcts.tree_policy(&ucb);
    assert_eq!(second, 4);
    assert_eq!(mcts.node(4).parent, Some(3));
    assert_eq!(mcts.node(3).children[0], 4);
    assert_eq!(mcts.len(), 4 + mcts.node(3).children.len());
    assert_eq!(mcts.root().visits, 2);
    assert_eq!(mcts.node(3).visits, 1);
    assert_eq!(mcts.node(4).visits, 1);
    assert_eq!(mcts.node(2).visits, 0);
}

#[test]
fn select_child_takes_unvisited_before_keys_and_the_last_of_equals() {
    let game = board(5, 5, &[("a", vec![12, 13], 100), ("b", vec![0, 1], 100)]);
    let mut mcts = MCTS::new(game);
    mcts.expand(0);
    assert_eq!(mcts.select_child(0, &|_: ChildStats| 5), 3);
    let value = vec![3, 4];
    mcts.back_propagate(3, &value);
    assert_eq!(mcts.select_child(0, &|_: ChildStats| 5), 2);
    mcts.back_propagate(2, &value);
    mcts.back_propagate(1, &value);
    assert_eq!(mcts.select_child(0, &|_: ChildStats| 5), 3);
    mcts.back_propagate(2, &value);
    assert_eq!(
        mcts.select_child(0, &|stats: ChildStats| stats.visits as u64),
        2
    );
    assert_eq!(
        mcts.select_child(0, &|stats: ChildStats| 10 - stats.visits as u64),
        3
    );
    let seen = std::cell::RefCell::new(Vec::new());
    mcts.select_child(0, &|stats: ChildStats| {
        seen.borrow_mut().push((
            stats.parent_visits,
            stats.visits,
            stats.total,
            stats.snakes,
            stats.cells,
        ));
        0
    });
    assert_eq!(
        seen.into_inner(),
        vec![(4, 1, 7, 2, 25), (4, 2, 14, 2, 25), (4, 1, 7, 2, 25)]
    );
}

#[test]
fn back_propagate_counts_along_the_path_only() {
    let game = board(5, 5, &[("a", vec![12, 13], 100), ("b", vec![0, 1], 100)]);
    let mut mcts = MCTS::new(game);
    mcts.expand(0);
    mcts.expand(2);
    let below = mcts.node(2).children[0];
    mcts.back_propagate(below, &vec![20, 5]);
    mcts.back_propagate(1, &vec![1, 2]);
    assert_eq!(mcts.root().visits, 2);
    assert_eq!(mcts.root().total_value, vec![21, 7]);
    assert_eq!(mcts.node(1).visits, 1);
    assert_eq!(mcts.node(1).total_value, vec![1, 2]);
    assert_eq!(mcts.node(2).visits, 1);
    assert_eq!(mcts.node(2).total_value, vec![20, 5]);
    assert_eq!(mcts.node(below).visits, 1);
    assert_eq!(mcts.node(below).total_value, vec![20, 5]);
    assert_eq!(mcts.node(3).visits, 0);
    assert_eq!(mcts.node(3).total_value, vec![0, 0]);
    assert_eq!(mcts.node(below).parent, Some(2));
}

#[test]
fn best_move_follows_the_most_visited_child() {
    let game = board(5, 5, &[("a", vec![12, 13], 100), ("b", vec![0, 1], 100)]);
    let mut mcts = MCTS::new(game);
    mcts.expand(0);
    assert_eq!(mcts.get_best_move_for_snake("a"), Some(Direction::Left));
    mcts.back_propagate(2, &vec![0, 0]);
    assert_eq!(mcts.get_best_move_for_snake("a"), Some(Direction::Down));
    assert_eq!(mcts.get_best_move_for_snake("b"), Some(Direction::Down));
    assert_eq!(mcts.get_best_move_for_snake("nobody"), None);
    mcts.back_propagate(1, &vec![0, 0]);
    assert_eq!(mcts.get_best_move_for_snake("a"), Some(Direction::Down));
    mcts.back_propagate(1, &vec![0, 0]);
    assert_eq!(mcts.get_best_move_for_snake("a"), Some(Direction::Up));
}

#[test]
fn best_move_is_none_for_a_snake_without_safe_moves() {
    let game = board(
        1,
        2,
        &[("stuck", vec![0, 1], 100), ("free", vec![1], 100)],
    );
    let mut mcts = MCTS::new(game.clone());
    assert_eq!(mcts.run(50, &ucb), 50);
    assert!(game.get_safe_moves(0).is_empty());
    assert_eq!(mcts.get_best_move_for_snake("stuck"), None);
    assert_eq!(mcts.get_best_move_for_snake("free"), Some(Direction::Up));
}

#[test]
fn run_counts_its_rounds_at_the_root() {
    let game = board(
        7,
        7,
        &[("a", vec![0, 1, 2], 100), ("b", vec![48, 47, 46], 100)],
    );
    let mut mcts = MCTS::new(game.clone());
    assert_eq!(mcts.run(0, &ucb), 0);
    assert_eq!(mcts.len(), 1);
    assert_eq!(mcts.run(200, &ucb), 200);
    assert_eq!(mcts.root().visits, 200);
    let child_visits: u32 = mcts
        .root()
        .children
        .iter()
        .map(|&c| mcts.node(c).visits)
        .sum();
    assert_eq!(child_visits, 200);
    for i in 1..mcts.len() {
        let node = mcts.node(i);
        let parent = mcts.node(node.parent.unwrap());
        assert!(node.parent.unwrap() < i);
        assert!(node.visits <= parent.visits);
        assert!(parent.children.contains(&i));
        assert_eq!(node.moves.len(), 2);
    }
    let best = mcts.get_best_move_for_snake("b").unwrap();
    assert!(game.get_safe_moves(1).contains(&best));
}

#[test]
fn search_stops_at_a_finished_game() {
    let game = board(5, 5, &[("a", vec![12, 13], 100), ("b", vec![0, 1], 0)]);
    let mut mcts = MCTS::new(game);
    assert_eq!(mcts.run(10, &ucb), 10);
    assert_eq!(mcts.len(), 1);
    assert_eq!(mcts.root().visits, 10);
    assert_eq!(mcts.root().total_value, vec![250, 0]);
    assert_eq!(mcts.get_best_move_for_snake("a"), None);
}
