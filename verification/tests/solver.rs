use std::collections::{HashMap, VecDeque};

use n_puzzle::closed_set::{hash_board, same_tiles, Arrival, ClosedSet};
use n_puzzle::error::PuzzleError;
use n_puzzle::frontier::Frontier;
use n_puzzle::heuristics::{Heuristic, HeuristicFn};
use n_puzzle::node::Node;
use n_puzzle::npuzzle::{Move, NPuzzle};
use n_puzzle::solver::Solver;

fn puzzle(size: u8, tiles: &[u8]) -> NPuzzle {
    NPuzzle::from_tiles(size, tiles.to_vec()).unwrap()
}

fn solver() -> Solver {
    Solver::new(true, Heuristic::ManhattanDistance).unwrap()
}

/// The least number of moves to the goal for every board that reaches it.
fn distances_to_goal(size: usize) -> HashMap<Vec<u8>, usize> {
    let mut goal: Vec<u8> = (1..(size * size) as u8).collect();
    goal.push(0);
    let mut distance = HashMap::new();
    let mut queue = VecDeque::new();
    distance.insert(goal.clone(), 0);
    queue.push_back(goal);
    while let Some(board) = queue.pop_front() {
        let d = distance[&board];
        let blank = board.iter().position(|&t| t == 0).unwrap();
        let (x, y) = (blank % size, blank / size);
        let mut targets = Vec::new();
        if y + 1 < size {
            targets.push(blank + size);
        }
        if y > 0 {
            targets.push(blank - size);
        }
        if x + 1 < size {
            targets.push(blank + 1);
        }
        if x > 0 {
            targets.push(blank - 1);
        }
        for target in targets {
            let mut next = board.clone();
            next.swap(blank, target);
            if !distance.contains_key(&next) {
                distance.insert(next.clone(), d + 1);
                queue.push_back(next);
            }
        }
    }
    distance
}

#[test]
fn new_rejects_a_heuristic_without_an_implementation() {
    assert!(Solver::new(false, Heuristic::ManhattanDistance).is_ok());
    assert!(Solver::new(true, Heuristic::ManhattanDistance).is_ok());
    assert_eq!(
        Solver::new(false, Heuristic::MisplacedTiles).err(),
        Some(PuzzleError::UnsupportedHeuristic)
    );
}

#[test]
fn solve_returns_the_single_move() {
    let moves = solver().solve(puzzle(3, &[1, 2, 3, 4, 5, 6, 7, 0, 8])).unwrap();
    assert_eq!(moves, vec![Move::Left]);
}

#[test]
fn solve_returns_two_moves_for_a_board_two_moves_away() {
    let moves = solver().solve(puzzle(3, &[1, 2, 3, 4, 0, 6, 7, 5, 8])).unwrap();
    assert_eq!(moves.len(), 2);
    assert_eq!(moves, vec![Move::Up, Move::Left]);
}

#[test]
fn solve_rejects_a_board_of_the_wrong_parity() {
    let r = solver().solve(puzzle(3, &[2, 1, 3, 4, 5, 6, 7, 8, 0]));
    assert_eq!(r, Err(PuzzleError::Unsolvable));
    let r = solver().solve(puzzle(4, &[1, 2, 3, 4, 5, 6, 7, 8, 9, 10, 11, 12, 13, 15, 14, 0]));
    assert_eq!(r, Err(PuzzleError::Unsolvable));
}

#[test]
fn solve_of_the_goal_is_empty() {
    for size in 1..=4u8 {
        let moves = solver().solve(NPuzzle::goal_board(size)).unwrap();
        assert!(moves.is_empty());
    }
}

#[test]
fn solve_finds_a_shortest_path() {
    let distance = distances_to_goal(3);
    let known = puzzle(3, &[8, 1, 3, 4, 0, 2, 7, 6, 5]);
    let moves = solver().solve(known.clone()).unwrap();
    assert_eq!(moves.len(), distance[&known.board]);
    assert_eq!(moves.len(), 14);
    for _ in 0..40 {
        let p = NPuzzle::new(3);
        let moves = solver().solve(p.clone()).unwrap();
        assert_eq!(moves.len(), distance[&p.board], "{:?}", p.board);
    }
}

#[test]
fn solve_finds_a_shortest_path_on_every_board_of_side_two() {
    for (tiles, d) in distances_to_goal(2) {
        let moves = solver().solve(puzzle(2, &tiles)).unwrap();
        assert_eq!(moves.len(), d);
    }
}

#[test]
fn solve_is_confirmed_by_check_solution() {
    for _ in 0..100 {
        let p = NPuzzle::new(3);
        let moves = solver().solve(p.clone()).unwrap();
        let solved = Solver::check_solution(p, &moves).unwrap();
        assert_eq!(solved, NPuzzle::goal_board(3));
    }
}

#[test]
fn solve_handles_a_board_of_side_four() {
    let mut p = NPuzzle::goal_board(4);
    let walk = [
        Move::Down, Move::Right, Move::Down, Move::Right, Move::Up, Move::Left, Move::Down,
        Move::Down, Move::Right, Move::Up, Move::Up, Move::Left,
    ];
    for m in walk {
        p.apply_move(m).unwrap();
    }
    let moves = solver().solve(p.clone()).unwrap();
    assert!(moves.len() <= walk.len());
    assert_eq!(Solver::check_solution(p, &moves), Ok(NPuzzle::goal_board(4)));
}

#[test]
fn check_solution_accepts_moves_that_solve_the_board() {
    let p = puzzle(3, &[1, 2, 3, 4, 0, 6, 7, 5, 8]);
    let solved = Solver::check_solution(p, &vec![Move::Up, Move::Left]).unwrap();
    assert_eq!(solved, NPuzzle::goal_board(3));
    assert_eq!(
        Solver::check_solution(NPuzzle::goal_board(3), &vec![]),
        Ok(NPuzzle::goal_board(3))
    );
}

#[test]
fn check_solution_rejects_an_illegal_move() {
    let p = puzzle(3, &[1, 2, 3, 4, 5, 6, 7, 0, 8]);
    assert_eq!(
        Solver::check_solution(p, &vec![Move::Up, Move::Left]),
        Err(PuzzleError::Verification)
    );
}

#[test]
fn check_solution_rejects_moves_that_end_elsewhere() {
    let p = puzzle(3, &[1, 2, 3, 4, 5, 6, 7, 0, 8]);
    assert_eq!(Solver::check_solution(p.clone(), &vec![]), Err(PuzzleError::Verification));
    assert_eq!(
        Solver::check_solution(p, &vec![Move::Left, Move::Right]),
        Err(PuzzleError::Verification)
    );
}

#[test]
fn node_new_keeps_its_arguments() {
    let n = Node::new(NPuzzle::goal_board(3), 4, 7, Some(Move::Down));
    assert_eq!(n.npuzzle, NPuzzle::goal_board(3));
    assert_eq!(n.g, 4);
    assert_eq!(n.h, 7);
    assert_eq!(n.movement, Some(Move::Down));
}

#[test]
fn nodes_are_equal_where_their_boards_are() {
    let a = Node::new(NPuzzle::goal_board(3), 4, 7, Some(Move::Down));
    let b = Node::new(NPuzzle::goal_board(3), 0, 0, None);
    let c = Node::new(puzzle(3, &[1, 2, 3, 4, 5, 6, 7, 0, 8]), 4, 7, Some(Move::Down));
    assert!(a == b);
    assert!(a != c);
}

#[test]
fn get_successors_lists_the_legal_moves_in_order() {
    let h = HeuristicFn::TotalManhattanDistance;
    let centre = Node::new(puzzle(3, &[1, 2, 3, 4, 0, 6, 7, 5, 8]), 5, 2, Some(Move::Left));
    let successors = centre.get_successors(&h);
    let moves: Vec<Option<Move>> = successors.iter().map(|s| s.movement).collect();
    assert_eq!(
        moves,
        vec![Some(Move::Up), Some(Move::Down), Some(Move::Left), Some(Move::Right)]
    );
    for s in &successors {
        assert_eq!(s.g, 6);
        assert_eq!(s.h, h.evaluate(&s.npuzzle));
    }
    assert_eq!(successors[0].npuzzle.board, vec![1, 2, 3, 4, 5, 6, 7, 0, 8]);
    assert_eq!(successors[0].h, 1);
    assert_eq!(successors[1].npuzzle.board, vec![1, 0, 3, 4, 2, 6, 7, 5, 8]);
    assert_eq!(successors[1].h, 3);

    let corner = Node::new(NPuzzle::goal_board(3), 0, 0, None);
    let moves: Vec<Option<Move>> =
        corner.get_successors(&h).iter().map(|s| s.movement).collect();
    assert_eq!(moves, vec![Some(Move::Down), Some(Move::Right)]);
}

#[test]
fn frontier_hands_out_nodes_in_ascending_order_of_cost() {
    let mut frontier = Frontier::new();
    assert!(frontier.pop().is_none());
    let costs = [(3, 4), (0, 2), (5, 5), (1, 1), (2, 0), (0, 0), (6, 1)];
    for (g, h) in costs {
        frontier.push(Node::new(NPuzzle::goal_board(2), g, h, None));
    }
    let mut popped = Vec::new();
    while let Some(node) = frontier.pop() {
        popped.push(node.g + node.h);
    }
    assert_eq!(popped, vec![0, 2, 2, 2, 7, 7, 10]);
    assert!(frontier.pop().is_none());
}

#[test]
fn closed_set_keeps_the_first_arrival_of_a_board() {
    let mut closed = ClosedSet::new();
    assert_eq!(closed.len(), 0);
    assert!(!closed.contains(&vec![1, 2, 3, 0]));
    let first = Arrival { movement: None, g: 0 };
    let second = Arrival { movement: Some(Move::Up), g: 3 };
    assert!(closed.insert(vec![1, 2, 3, 0], first));
    assert!(closed.insert(vec![1, 2, 0, 3], second));
    assert!(!closed.insert(vec![1, 2, 3, 0], second));
    assert_eq!(closed.len(), 2);
    assert_eq!(closed.get(&vec![1, 2, 3, 0]), Some(first));
    assert_eq!(closed.get(&vec![1, 2, 0, 3]), Some(second));
    assert_eq!(closed.get(&vec![0, 2, 1, 3]), None);
    assert!(closed.contains(&vec![1, 2, 0, 3]));
}

#[test]
fn closed_set_holds_many_boards() {
    let mut closed = ClosedSet::new();
    let boards: Vec<Vec<u8>> = distances_to_goal(2).into_keys().collect();
    for (i, b) in boards.iter().enumerate() {
        assert!(closed.insert(b.clone(), Arrival { movement: None, g: i as i32 }));
    }
    assert_eq!(closed.len(), 12);
    for (i, b) in boards.iter().enumerate() {
        assert_eq!(closed.get(b), Some(Arrival { movement: None, g: i as i32 }));
    }
}

#[test]
fn hash_board_is_a_polynomial_in_the_tiles() {
    assert_eq!(hash_board(&vec![]), 0);
    assert_eq!(hash_board(&vec![7]), 7);
    assert_eq!(hash_board(&vec![1, 2]), 257 + 2);
    assert_eq!(hash_board(&vec![1, 2, 3]), (257 + 2) * 257 + 3);
    let long: Vec<u8> = (0..=255u8).collect();
    let mut expected: u128 = 0;
    for &b in &long {
        expected = (expected * 257 + b as u128) % 36028797018963913;
    }
    assert_eq!(hash_board(&long) as u128, expected);
}

#[test]
fn same_tiles_compares_tile_by_tile() {
    assert!(same_tiles(&vec![1, 2, 3], &vec![1, 2, 3]));
    assert!(!same_tiles(&vec![1, 2, 3], &vec![1, 2, 4]));
    assert!(!same_tiles(&vec![1, 2, 3], &vec![1, 2]));
    assert!(same_tiles(&vec![], &vec![]));
}
