use cg_shifting_solver::action::Action;
use cg_shifting_solver::board::{GameState, IllegalMove};
use cg_shifting_solver::enums::{Direction, Metric, Operation};
use cg_shifting_solver::solution::Solution;
use cg_shifting_solver::solver::{Node, Solver};

fn board_of(rows: &[&[i16]]) -> GameState {
    let height = rows.len();
    let width = rows[0].len();
    let board: Vec<Vec<i16>> = rows.iter().map(|r| r.to_vec()).collect();
    let count = board.iter().flatten().filter(|v| **v > 0).count() as i32;
    GameState::new(width, height, count, board)
}

fn act(row: usize, col: usize, direction: Direction, op: Operation) -> Action {
    Action { row, col, direction, op }
}

/// Replays `actions` on a fresh copy of `rows`, checking that each is legal.
fn replay(rows: &[&[i16]], actions: &[Action]) -> GameState {
    let mut game = board_of(rows);
    for a in actions {
        assert!(game.apply_action(a).is_ok());
    }
    game
}

fn is_terminal(game: &GameState) -> bool {
    for r in 0..game.height {
        for c in 0..game.width {
            if !game.legal_moves_for(r, c).is_empty() {
                return false;
            }
        }
    }
    true
}

#[test]
fn test_action_to_string() {
    let action = Action {
        row: 2,
        col: 3,
        direction: Direction::Up,
        op: Operation::Plus,
    };
    assert_eq!(action.to_string(), String::from("3 2 U +"));
}

#[test]
fn action_to_string_multi_digit_and_minus() {
    let action = act(10, 205, Direction::Right, Operation::Minus);
    assert_eq!(action.to_string(), "205 10 R -");
    let action = act(0, 0, Direction::Left, Operation::Minus);
    assert_eq!(action.to_string(), "0 0 L -");
}

#[test]
fn direction_and_operation_codes() {
    assert_eq!(Direction::Up.to_string(), "U");
    assert_eq!(Direction::Down.to_string(), "D");
    assert_eq!(Direction::Left.to_string(), "L");
    assert_eq!(Direction::Right.to_string(), "R");
    assert_eq!(Operation::Plus.to_string(), "+");
    assert_eq!(Operation::Minus.to_string(), "-");
    assert_eq!(Direction::from_index(0), Direction::Up);
    assert_eq!(Direction::from_index(3), Direction::Right);
}

#[test]
fn metric_weights_select_one_heuristic() {
    assert_eq!(Metric::RemainingTiles.weights(), (1, 0, 0));
    assert_eq!(Metric::RemainingSum.weights(), (0, 1, 0));
    assert_eq!(Metric::ColRowsUsed.weights(), (0, 0, 1));
}

#[test]
fn solution_new_keeps_fields() {
    let s = Solution::new(vec![act(1, 2, Direction::Down, Operation::Plus)], 7);
    assert_eq!(s.actions, vec![act(1, 2, Direction::Down, Operation::Plus)]);
    assert_eq!(s.score, 7);
}

#[test]
fn new_board_snapshot_row_major() {
    let game = board_of(&[&[3, 0, 3], &[0, 0, 0], &[0, 0, 3]]);
    assert_eq!(game.init_state, vec![(0, 0, 3), (0, 2, 3), (2, 2, 3)]);
    assert_eq!(game.count_tile, 3);
    assert_eq!(game.initial_count_tile, 3);
    assert_eq!(game.snapshot(), game.init_state);
}

#[test]
fn scenario_isolated_threes_are_terminal() {
    let rows: &[&[i16]] = &[&[3, 0, 3], &[0, 0, 0], &[0, 0, 3]];
    let game = board_of(rows);
    // Right by 3 from (0,0) leaves the board; so does Down.
    assert!(!game.is_legal(&act(0, 0, Direction::Right, Operation::Plus)));
    assert!(!game.is_legal(&act(0, 0, Direction::Down, Operation::Plus)));
    // (0,2) is two cells away, not three.
    assert!(!game.is_valid_direction(0, 0, 3, Direction::Right));
    assert!(game.is_valid_direction(0, 0, 2, Direction::Right));
    let mut solver = Solver::with_seed(game, 42);
    let node = solver.create_initial_node();
    let end = replay(rows, &node.actions);
    assert!(is_terminal(&end));
    let expected = end.score(1000, 1, 0);
    assert_eq!(node.score, expected);
    assert_eq!(node.score, 3 * 1000 + 9);
    assert!(node.actions.is_empty());
}

#[test]
fn scenario_single_isolated_tile() {
    let rows: &[&[i16]] = &[&[5, 0], &[0, 0]];
    let mut solver = Solver::with_seed(board_of(rows), 7);
    let node = solver.create_initial_node();
    assert!(node.actions.is_empty());
    assert_eq!(node.score, 1000 + 5);
    assert_ne!(node.score, 0);
}

#[test]
fn scenario_equal_neighbours_subtract_to_solved() {
    let mut game = board_of(&[&[1, 1]]);
    let a = act(0, 0, Direction::Right, Operation::Minus);
    assert!(game.is_legal(&a));
    assert_eq!(game.apply_action(&a), Ok(()));
    assert_eq!(game.board, vec![vec![0, 0]]);
    assert!(game.is_solved());
    assert_eq!(game.score(1000, 1, 0), 0);
    assert_eq!(game.score(1, 1, 1), 0);
    assert_eq!(game.count_tile, 0);
}

#[test]
fn apply_plus_and_minus_values() {
    let mut game = board_of(&[&[2, 0, 5]]);
    assert_eq!(game.apply_action(&act(0, 0, Direction::Right, Operation::Minus)), Ok(()));
    assert_eq!(game.board, vec![vec![0, 0, 3]]);
    assert_eq!(game.count_tile, 1);
    let mut game = board_of(&[&[2], &[0], &[5]]);
    assert_eq!(game.apply_action(&act(0, 0, Direction::Down, Operation::Plus)), Ok(()));
    assert_eq!(game.board, vec![vec![0], vec![0], vec![7]]);
    let mut game = board_of(&[&[4], &[0], &[2]]);
    assert_eq!(game.apply_action(&act(2, 0, Direction::Up, Operation::Minus)), Ok(()));
    assert_eq!(game.board, vec![vec![2], vec![0], vec![0]]);
}

#[test]
fn apply_frees_exactly_one_cell_when_merge_nonzero() {
    let mut game = board_of(&[&[1, 2], &[0, 3]]);
    assert_eq!(game.count_tile, 3);
    assert_eq!(game.apply_action(&act(0, 0, Direction::Right, Operation::Plus)), Ok(()));
    assert_eq!(game.count_tile, 2);
    assert_eq!(game.board, vec![vec![0, 3], vec![0, 3]]);
}

#[test]
fn illegal_move_is_refused_and_board_kept() {
    let mut game = board_of(&[&[1, 0, 2]]);
    let before = game.board.clone();
    assert_eq!(game.apply_action(&act(0, 0, Direction::Right, Operation::Plus)), Err(IllegalMove));
    assert_eq!(game.apply_action(&act(0, 1, Direction::Right, Operation::Plus)), Err(IllegalMove));
    assert_eq!(game.apply_action(&act(5, 5, Direction::Up, Operation::Plus)), Err(IllegalMove));
    assert_eq!(game.board, before);
    assert_eq!(game.count_tile, 2);
}

#[test]
fn reset_restores_start_and_snapshot() {
    let mut game = board_of(&[&[1, 1, 2], &[0, 0, 2]]);
    let snap = game.init_state.clone();
    assert_eq!(game.apply_action(&act(0, 0, Direction::Right, Operation::Plus)), Ok(()));
    assert_ne!(game.board, vec![vec![1, 1, 2], vec![0, 0, 2]]);
    game.reset();
    assert_eq!(game.board, vec![vec![1, 1, 2], vec![0, 0, 2]]);
    assert_eq!(game.snapshot(), snap);
    assert_eq!(game.count_tile, 4);
}

#[test]
fn score_counts_tiles_sum_and_lines() {
    let game = board_of(&[&[1, 0], &[0, 2]]);
    assert_eq!(game.score(1, 0, 0), 2);
    assert_eq!(game.score(0, 1, 0), 3);
    assert_eq!(game.score(0, 0, 1), 4);
    assert_eq!(game.score(1000, 1, 0), 2003);
    assert_eq!(game.score(2, 3, 5), 4 + 9 + 20);
    let game = board_of(&[&[1, 1, 0]]);
    assert_eq!(game.score(0, 0, 1), 1 + 2);
    assert_eq!(game.score(u32::MAX, u32::MAX, u32::MAX), u32::MAX as u64 * (2 + 2 + 3));
}

#[test]
fn solved_iff_tiles_only_score_zero() {
    let mut game = board_of(&[&[2, 0, 2]]);
    let (f1, f2, f3) = Metric::RemainingTiles.weights();
    assert!(!game.is_solved());
    assert_ne!(game.score(f1, f2, f3), 0);
    assert_eq!(game.apply_action(&act(0, 0, Direction::Right, Operation::Minus)), Ok(()));
    assert!(game.is_solved());
    assert_eq!(game.score(f1, f2, f3), 0);
}

#[test]
fn legal_moves_for_lists_both_operations() {
    let game = board_of(&[&[0, 1, 0], &[1, 1, 1], &[0, 1, 0]]);
    let moves = game.legal_moves_for(1, 1);
    assert_eq!(
        moves,
        vec![
            act(1, 1, Direction::Up, Operation::Plus),
            act(1, 1, Direction::Up, Operation::Minus),
            act(1, 1, Direction::Down, Operation::Plus),
            act(1, 1, Direction::Down, Operation::Minus),
            act(1, 1, Direction::Left, Operation::Plus),
            act(1, 1, Direction::Left, Operation::Minus),
            act(1, 1, Direction::Right, Operation::Plus),
            act(1, 1, Direction::Right, Operation::Minus),
        ]
    );
    assert!(game.legal_moves_for(7, 7).is_empty());
    let moves = game.legal_moves_for(0, 1);
    assert_eq!(
        moves,
        vec![
            act(0, 1, Direction::Down, Operation::Plus),
            act(0, 1, Direction::Down, Operation::Minus)
        ]
    );
    assert!(game.legal_moves_for(0, 0).is_empty());
}

#[test]
fn random_draws_are_legal_or_none() {
    let game = board_of(&[&[1, 1, 0], &[0, 0, 0], &[0, 0, 4]]);
    let mut solver = Solver::with_seed(game, 3);
    for _ in 0..50 {
        let tile = solver.game.get_random_tile(&mut solver.generator).unwrap();
        assert!(tile == (0, 0) || tile == (0, 1) || tile == (2, 2));
        assert!(solver.game.get_random_action(2, 2, &mut solver.generator).is_none());
        let a = solver.game.get_random_action(0, 0, &mut solver.generator).unwrap();
        assert_eq!((a.row, a.col, a.direction), (0, 0, Direction::Right));
        let m = solver.game.random_legal_move(&mut solver.generator).unwrap();
        assert!(solver.game.is_legal(&m));
    }
    let solved = board_of(&[&[0, 0]]);
    let mut solver = Solver::with_seed(solved, 3);
    assert!(solver.game.get_random_tile(&mut solver.generator).is_none());
    assert!(solver.game.random_legal_move(&mut solver.generator).is_none());
}

#[test]
fn mutation_keeps_prefix_and_ends_terminal() {
    let rows: &[&[i16]] = &[&[1, 1, 2, 1], &[1, 2, 1, 1], &[2, 1, 1, 3], &[1, 1, 2, 1]];
    let mut solver = Solver::with_seed(board_of(rows), 11);
    let base = solver.create_initial_node();
    assert_eq!(base.mutate_type, 0);
    assert!(is_terminal(&replay(rows, &base.actions)));
    assert!(!base.actions.is_empty());
    for idx in 0..base.actions.len() {
        let cand = solver.mutate_at(&base, idx);
        assert_eq!(cand.actions[..idx], base.actions[..idx]);
        assert_ne!(cand.actions[idx], base.actions[idx]);
        assert_eq!((cand.actions[idx].row, cand.actions[idx].col), (base.actions[idx].row, base.actions[idx].col));
        assert_eq!(cand.mutate_type, 1);
        // After the new move come the later baseline moves still legal, in order.
        let mut game = replay(rows, &cand.actions[..idx + 1]);
        let mut kept = Vec::new();
        for a in &base.actions[idx + 1..] {
            if game.apply_action(a).is_ok() {
                kept.push(*a);
            }
        }
        assert_eq!(cand.actions[idx + 1..idx + 1 + kept.len()], kept[..]);
        let end = replay(rows, &cand.actions);
        assert!(is_terminal(&end));
        assert_eq!(cand.score, end.score(1000, 1, 0));
        assert_eq!(solver.game.board, board_of(rows).board);
    }
    let cand = solver.mutate(&base);
    assert!(is_terminal(&replay(rows, &cand.actions)));
}

#[test]
fn late_acceptance_history() {
    let mut solver = Solver::with_seed(board_of(&[&[1, 1]]), 1);
    solver.lfa_size = 2;
    let node = |score: u64| Node { actions: Vec::new(), score, mutate_type: 0 };
    assert!(solver.should_accept(&node(99)));
    solver.initialize_fitness(10);
    assert_eq!(solver.fitness, vec![10]);
    assert!(solver.should_accept(&node(10)));
    assert!(!solver.should_accept(&node(11)));
    solver.update_fitness(5);
    assert_eq!(solver.fitness, vec![10, 5]);
    solver.update_fitness(7);
    assert_eq!(solver.fitness, vec![5, 7]);
    assert!(solver.should_accept(&node(7)));
    assert!(!solver.should_accept(&node(8)));
}

#[test]
fn solve_finds_a_solution_that_clears_the_board() {
    let rows: &[&[i16]] = &[&[1, 1]];
    let mut solver = Solver::with_seed(board_of(rows), 5);
    let node = solver.solve().expect("a solution");
    assert_eq!(node.score, 0);
    assert!(replay(rows, &node.actions).is_solved());
    assert_eq!(solver.game.board, vec![vec![1, 1]]);

    let rows: &[&[i16]] = &[&[2, 1, 1], &[0, 0, 0], &[2, 0, 0]];
    let mut solver = Solver::with_seed(board_of(rows), 9);
    let node = solver.solve().expect("a solution");
    let end = replay(rows, &node.actions);
    assert!(end.is_solved());
    assert!(end.board.iter().flatten().all(|v| *v == 0));
}

#[test]
fn solve_gives_up_on_unsolvable_board() {
    let mut solver = Solver::with_seed(board_of(&[&[1, 2]]), 5);
    solver.max_iterations = 200;
    solver.restart_after = 50;
    assert!(solver.solve().is_none());
    assert_eq!(solver.iteration, 0);
}

#[test]
fn impossible_state_detects_dominant_tile() {
    assert!(board_of(&[&[1, 2]]).impossible_state());
    assert!(!board_of(&[&[1, 1]]).impossible_state());
    assert!(!board_of(&[&[2, 1, 1]]).impossible_state());
    assert!(board_of(&[&[0, 0], &[0, 5]]).impossible_state());
    assert!(!board_of(&[&[0, 0]]).impossible_state());
    let mut game = board_of(&[&[1, 1, 1, 1]]);
    assert!(!game.impossible_state());
    assert_eq!(game.apply_action(&act(0, 0, Direction::Right, Operation::Plus)), Ok(()));
    assert!(!game.impossible_state());
    assert_eq!(game.apply_action(&act(0, 1, Direction::Right, Operation::Plus)), Ok(()));
    assert_eq!(game.board, vec![vec![0, 0, 1, 3]]);
    assert!(game.impossible_state());
}

#[test]
fn solve_empty_board_returns_empty_solution() {
    let mut solver = Solver::with_seed(board_of(&[&[0, 0], &[0, 0]]), 2);
    let node = solver.solve().expect("an empty board is solved");
    assert!(node.actions.is_empty());
    assert_eq!(node.score, 0);
}

#[test]
fn solve_stops_when_budget_is_spent() {
    // Solvable only by 2-1-1 merges, yet a budget of zero candidates after
    // an unsolved first playout gives up.
    let rows: &[&[i16]] = &[&[1, 0, 0], &[0, 0, 0], &[0, 0, 1], &[3, 0, 2]];
    let mut solver = Solver::with_seed(board_of(rows), 4);
    solver.max_iterations = 0;
    match solver.solve() {
        Some(node) => assert!(replay(rows, &node.actions).is_solved()),
        None => assert!(solver.iteration >= solver.max_iterations),
    }
}

#[test]
fn any_legal_move_from_scans_cells_in_order() {
    let game = board_of(&[&[1, 0, 0], &[1, 1, 0], &[0, 0, 0]]);
    assert_eq!(
        game.any_legal_move_from(&vec![(2, 2), (1, 1), (0, 0)]),
        Some(act(1, 1, Direction::Left, Operation::Plus))
    );
    assert_eq!(
        game.any_legal_move_from(&vec![(0, 0)]),
        Some(act(0, 0, Direction::Down, Operation::Plus))
    );
    assert_eq!(game.any_legal_move_from(&vec![(2, 2), (0, 2)]), None);
    assert_eq!(game.any_legal_move_from(&Vec::new()), None);
}

#[test]
fn solver_with_line_metric_scores_and_solves() {
    let rows: &[&[i16]] = &[&[1, 1, 0], &[0, 0, 0], &[0, 0, 4]];
    let mut solver = Solver::with_seed(board_of(rows), 8);
    solver.set_metric(Metric::ColRowsUsed);
    assert_eq!(
        (solver.weight_remaining_tiles, solver.weight_remaining_sum, solver.weight_used_rows_cols),
        (0, 0, 1)
    );
    let node = solver.create_initial_node();
    let end = replay(rows, &node.actions);
    assert_eq!(node.score, end.score(0, 0, 1));
    assert!(node.score >= 2);

    let rows: &[&[i16]] = &[&[1, 1]];
    let mut solver = Solver::with_seed(board_of(rows), 8);
    solver.set_metric(Metric::ColRowsUsed);
    let node = solver.solve().expect("a solution");
    assert!(replay(rows, &node.actions).is_solved());
}
