use std::collections::{HashMap, VecDeque};

use n_puzzle::error::PuzzleError;
use n_puzzle::heuristics::{manhattan_distance, total_manhattan_distance, Heuristic, HeuristicFn};
use n_puzzle::npuzzle::{Move, NPuzzle};

fn puzzle(size: u8, tiles: &[u8]) -> NPuzzle {
    NPuzzle::from_tiles(size, tiles.to_vec()).unwrap()
}

/// The least number of moves to the goal for every board that reaches it.
fn distances_to_goal(size: usize) -> HashMap<Vec<u8>, usize> {
    let mut goal: Vec<u8> = (1..(size * size) as u8).collect();
    goal.push(0);
    let mut distance = HashMap::new();
    let mut queue = VecDeque::new();
    distance.insert(goal.clone(), 0);
    queue.push_back(goal);
    while let Some(board) = queue.pop_front() {
        let d = distance[&board];
        let blank = board.iter().position(|&t| t == 0).unwrap();
        let (x, y) = (blank % size, blank / size);
        let mut targets = Vec::new();
        if y + 1 < size {
            targets.push(blank + size);
        }
        if y > 0 {
            targets.push(blank - size);
        }
        if x + 1 < size {
            targets.push(blank + 1);
        }
        if x > 0 {
            targets.push(blank - 1);
        }
        for target in targets {
            let mut next = board.clone();
            next.swap(blank, target);
            if !distance.contains_key(&next) {
                distance.insert(next.clone(), d + 1);
                queue.push_back(next);
            }
        }
    }
    distance
}

#[test]
fn manhattan_distance_adds_rows_and_columns() {
    assert_eq!(manhattan_distance(3, 0, 8), 4);
    assert_eq!(manhattan_distance(3, 8, 0), 4);
    assert_eq!(manhattan_distance(3, 4, 4), 0);
    assert_eq!(manhattan_distance(3, 2, 3), 3);
    assert_eq!(manhattan_distance(4, 3, 12), 6);
    assert_eq!(manhattan_distance(4, 5, 6), 1);
    assert_eq!(manhattan_distance(1, 0, 7), 7);
}

#[test]
fn total_manhattan_distance_sums_the_tiles() {
    assert_eq!(total_manhattan_distance(&puzzle(3, &[8, 1, 3, 4, 0, 2, 7, 6, 5])), 10);
    assert_eq!(total_manhattan_distance(&puzzle(3, &[1, 2, 3, 4, 5, 6, 7, 0, 8])), 1);
    assert_eq!(total_manhattan_distance(&puzzle(3, &[0, 1, 2, 3, 4, 5, 6, 7, 8])), 12);
    assert_eq!(total_manhattan_distance(&puzzle(2, &[0, 3, 2, 1])), 6);
}

#[test]
fn total_manhattan_distance_is_zero_on_the_goal_alone() {
    for size in 1..=6u8 {
        assert_eq!(total_manhattan_distance(&NPuzzle::goal_board(size)), 0);
    }
    for size in 2..=5u8 {
        for _ in 0..50 {
            let p = NPuzzle::generate_random(size, true);
            if p != NPuzzle::goal_board(size) {
                assert!(total_manhattan_distance(&p) > 0);
            }
        }
    }
}

#[test]
fn total_manhattan_distance_never_exceeds_the_moves_to_the_goal() {
    for (tiles, d) in distances_to_goal(2) {
        assert!(total_manhattan_distance(&puzzle(2, &tiles)) as usize <= d);
    }
    let distance = distances_to_goal(3);
    assert_eq!(distance.len(), 181440);
    for (tiles, d) in distance.iter().take(20000) {
        let h = total_manhattan_distance(&puzzle(3, tiles));
        assert!(h as usize <= *d, "{:?}", tiles);
        assert_eq!(h == 0, *d == 0);
    }
}

#[test]
fn one_move_changes_the_heuristic_by_one() {
    let start = puzzle(3, &[8, 1, 3, 4, 0, 2, 7, 6, 5]);
    for m in [Move::Up, Move::Down, Move::Left, Move::Right] {
        let mut p = start.clone();
        p.apply_move(m).unwrap();
        let change = total_manhattan_distance(&p) - total_manhattan_distance(&start);
        assert!(change == 1 || change == -1);
    }
}

#[test]
fn get_heuristic_fn_knows_the_manhattan_distance_only() {
    assert_eq!(
        Heuristic::ManhattanDistance.get_heuristic_fn(),
        Ok(HeuristicFn::TotalManhattanDistance)
    );
    assert_eq!(
        Heuristic::MisplacedTiles.get_heuristic_fn(),
        Err(PuzzleError::UnsupportedHeuristic)
    );
}

#[test]
fn evaluate_runs_the_manhattan_distance() {
    let p = puzzle(3, &[8, 1, 3, 4, 0, 2, 7, 6, 5]);
    assert_eq!(HeuristicFn::TotalManhattanDistance.evaluate(&p), 10);
}
