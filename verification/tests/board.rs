use std::collections::{HashSet, VecDeque};

use n_puzzle::error::{ParseError, PuzzleError};
use n_puzzle::npuzzle::{Move, NPuzzle, Point};

fn puzzle(size: u8, tiles: &[u8]) -> NPuzzle {
    NPuzzle::from_tiles(size, tiles.to_vec()).unwrap()
}

const MOVES: [Move; 4] = [Move::Up, Move::Down, Move::Left, Move::Right];

/// The boards that sliding tiles leads to from `start`, found breadth first
/// with no help from the library.
fn reachable_from(size: usize, start: Vec<u8>) -> HashSet<Vec<u8>> {
    let mut seen = HashSet::new();
    let mut queue = VecDeque::new();
    seen.insert(start.clone());
    queue.push_back(start);
    while let Some(board) = queue.pop_front() {
        let blank = board.iter().position(|&t| t == 0).unwrap();
        let (x, y) = (blank % size, blank / size);
        let mut targets = Vec::new();
        if y + 1 < size {
            targets.push(blank + size);
        }
        if y > 0 {
            targets.push(blank - size);
        }
        if x + 1 < size {
            targets.push(blank + 1);
        }
        if x > 0 {
            targets.push(blank - 1);
        }
        for target in targets {
            let mut next = board.clone();
            next.swap(blank, target);
            if seen.insert(next.clone()) {
                queue.push_back(next);
            }
        }
    }
    seen
}

fn permutations(n: u8) -> Vec<Vec<u8>> {
    fn extend(prefix: &mut Vec<u8>, n: u8, out: &mut Vec<Vec<u8>>) {
        if prefix.len() == n as usize {
            out.push(prefix.clone());
            return;
        }
        for v in 0..n {
            if !prefix.contains(&v) {
                prefix.push(v);
                extend(prefix, n, out);
                prefix.pop();
            }
        }
    }
    let mut out = Vec::new();
    extend(&mut Vec::new(), n, &mut out);
    out
}

#[test]
fn from_tiles_records_the_blank() {
    let p = puzzle(3, &[1, 2, 3, 4, 5, 6, 7, 0, 8]);
    assert_eq!(p.size, 3);
    assert_eq!(p.board, vec![1, 2, 3, 4, 5, 6, 7, 0, 8]);
    assert_eq!(p.blank_pos, Point { x: 1, y: 2 });
}

#[test]
fn from_tiles_rejects_a_wrong_length() {
    assert_eq!(NPuzzle::from_tiles(3, vec![1, 2, 3, 0]), Err(ParseError::RowCount));
}

#[test]
fn from_tiles_rejects_tiles_without_a_blank() {
    assert_eq!(
        NPuzzle::from_tiles(3, vec![1, 2, 3, 4, 5, 6, 7, 8, 9]),
        Err(ParseError::MissingBlank)
    );
    assert_eq!(NPuzzle::from_tiles(0, vec![]), Err(ParseError::MissingBlank));
}

#[test]
fn from_tiles_rejects_a_repeated_tile() {
    assert_eq!(
        NPuzzle::from_tiles(3, vec![1, 1, 3, 4, 5, 6, 7, 8, 0]),
        Err(ParseError::InvalidTiles)
    );
    assert_eq!(
        NPuzzle::from_tiles(3, vec![0, 0, 3, 4, 5, 6, 7, 8, 1]),
        Err(ParseError::InvalidTiles)
    );
}

#[test]
fn from_tiles_rejects_a_label_out_of_range() {
    assert_eq!(
        NPuzzle::from_tiles(2, vec![1, 2, 4, 0]),
        Err(ParseError::InvalidTiles)
    );
}

#[test]
fn from_tiles_rejects_a_side_over_the_limit() {
    let tiles: Vec<u8> = (0..289u32).map(|v| (v % 256) as u8).collect();
    assert_eq!(NPuzzle::from_tiles(17, tiles), Err(ParseError::InvalidTiles));
}

#[test]
fn from_tiles_accepts_the_largest_side() {
    let tiles: Vec<u8> = (0..=255u8).collect();
    let p = NPuzzle::from_tiles(16, tiles).unwrap();
    assert_eq!(p.blank_pos, Point { x: 0, y: 0 });
}

#[test]
fn goal_board_lists_the_tiles_in_order() {
    let g = NPuzzle::goal_board(3);
    assert_eq!(g.board, vec![1, 2, 3, 4, 5, 6, 7, 8, 0]);
    assert_eq!(g.blank_pos, Point { x: 2, y: 2 });
    assert_eq!(NPuzzle::goal_board(1).board, vec![0]);
}

#[test]
fn can_move_depends_on_the_edges() {
    let corner = puzzle(3, &[0, 1, 2, 3, 4, 5, 6, 7, 8]);
    assert!(corner.can_move(Move::Up));
    assert!(!corner.can_move(Move::Down));
    assert!(corner.can_move(Move::Left));
    assert!(!corner.can_move(Move::Right));
    let last = NPuzzle::goal_board(3);
    assert!(!last.can_move(Move::Up));
    assert!(last.can_move(Move::Down));
    assert!(!last.can_move(Move::Left));
    assert!(last.can_move(Move::Right));
    let centre = puzzle(3, &[1, 2, 3, 4, 0, 5, 6, 7, 8]);
    for m in MOVES {
        assert!(centre.can_move(m));
    }
    let single = NPuzzle::goal_board(1);
    for m in MOVES {
        assert!(!single.can_move(m));
    }
}

#[test]
fn apply_move_swaps_the_blank_with_its_neighbour() {
    let start = [1, 2, 3, 4, 0, 5, 6, 7, 8];
    let cases = [
        (Move::Up, vec![1, 2, 3, 4, 7, 5, 6, 0, 8], Point { x: 1, y: 2 }),
        (Move::Down, vec![1, 0, 3, 4, 2, 5, 6, 7, 8], Point { x: 1, y: 0 }),
        (Move::Left, vec![1, 2, 3, 4, 5, 0, 6, 7, 8], Point { x: 2, y: 1 }),
        (Move::Right, vec![1, 2, 3, 0, 4, 5, 6, 7, 8], Point { x: 0, y: 1 }),
    ];
    for (m, tiles, blank) in cases {
        let mut p = puzzle(3, &start);
        assert_eq!(p.apply_move(m), Ok(()));
        assert_eq!(p.board, tiles);
        assert_eq!(p.blank_pos, blank);
    }
}

#[test]
fn apply_move_leaves_the_board_alone_when_it_fails() {
    let mut p = NPuzzle::goal_board(3);
    let before = p.clone();
    assert_eq!(p.apply_move(Move::Up), Err(PuzzleError::InvalidMove));
    assert_eq!(p, before);
    assert_eq!(p.apply_move(Move::Left), Err(PuzzleError::InvalidMove));
    assert_eq!(p, before);
}

#[test]
fn a_move_and_its_inverse_restore_the_board() {
    for tiles in permutations(4) {
        let start = puzzle(2, &tiles);
        for m in MOVES {
            if start.can_move(m) {
                let mut p = start.clone();
                p.apply_move(m).unwrap();
                assert!(p.can_move(m.inverse()));
                p.apply_move(m.inverse()).unwrap();
                assert_eq!(p, start);
            }
        }
    }
    let start = puzzle(3, &[8, 1, 3, 4, 0, 2, 7, 6, 5]);
    for m in MOVES {
        let mut p = start.clone();
        p.apply_move(m).unwrap();
        p.apply_move(m.inverse()).unwrap();
        assert_eq!(p, start);
    }
}

#[test]
fn inverse_pairs_the_directions() {
    assert_eq!(Move::Up.inverse(), Move::Down);
    assert_eq!(Move::Down.inverse(), Move::Up);
    assert_eq!(Move::Left.inverse(), Move::Right);
    assert_eq!(Move::Right.inverse(), Move::Left);
}

#[test]
fn find_index_gives_the_position_of_a_tile() {
    let p = puzzle(3, &[8, 1, 3, 4, 0, 2, 7, 6, 5]);
    assert_eq!(p.find_index(8), Some(0));
    assert_eq!(p.find_index(0), Some(4));
    assert_eq!(p.find_index(5), Some(8));
    assert_eq!(p.find_index(9), None);
}

#[test]
fn is_solvable_follows_the_parity_rule_for_an_odd_side() {
    assert!(NPuzzle::goal_board(3).is_solvable());
    assert!(!puzzle(3, &[2, 1, 3, 4, 5, 6, 7, 8, 0]).is_solvable());
    // Twelve inversions.
    assert!(puzzle(3, &[8, 1, 3, 4, 0, 2, 7, 6, 5]).is_solvable());
    assert!(NPuzzle::goal_board(1).is_solvable());
}

#[test]
fn is_solvable_follows_the_parity_rule_for_an_even_side() {
    assert!(NPuzzle::goal_board(4).is_solvable());
    // One inversion, blank in the odd row 3.
    assert!(!puzzle(4, &[1, 2, 3, 4, 5, 6, 7, 8, 9, 10, 11, 12, 13, 15, 14, 0]).is_solvable());
    // Three inversions, blank in the even row 2.
    assert!(puzzle(4, &[1, 2, 3, 4, 5, 6, 7, 8, 9, 10, 11, 0, 13, 14, 15, 12]).is_solvable());
    // No inversion, blank in the even row 2.
    assert!(!puzzle(4, &[1, 2, 3, 4, 5, 6, 7, 8, 9, 10, 11, 0, 12, 13, 14, 15]).is_solvable());
}

#[test]
fn is_solvable_agrees_with_search_on_every_board_of_side_two() {
    let reachable = reachable_from(2, vec![1, 2, 3, 0]);
    assert_eq!(reachable.len(), 12);
    for tiles in permutations(4) {
        assert_eq!(puzzle(2, &tiles).is_solvable(), reachable.contains(&tiles), "{:?}", tiles);
    }
}

#[test]
fn is_solvable_agrees_with_search_on_boards_of_side_three() {
    let reachable = reachable_from(3, vec![1, 2, 3, 4, 5, 6, 7, 8, 0]);
    assert_eq!(reachable.len(), 181440);
    for tiles in reachable.iter().take(4000) {
        assert!(puzzle(3, tiles).is_solvable(), "{:?}", tiles);
        // Two tiles that trade places leave the reachable boards.
        let mut other = tiles.clone();
        let (a, b) = if other[0] != 0 && other[1] != 0 { (0, 1) } else { (7, 8) };
        other.swap(a, b);
        assert!(!reachable.contains(&other));
        assert!(!puzzle(3, &other).is_solvable(), "{:?}", other);
    }
    for _ in 0..200 {
        let p = NPuzzle::generate_random(3, false);
        assert!(!reachable.contains(&p.board));
        let q = NPuzzle::generate_random(3, true);
        assert!(reachable.contains(&q.board));
    }
}

#[test]
fn is_solvable_agrees_with_search_on_boards_of_side_four() {
    // Boards a few moves from the goal are solvable; with two tiles
    // exchanged they are not.
    let mut p = NPuzzle::goal_board(4);
    let walk = [
        Move::Down, Move::Right, Move::Down, Move::Right, Move::Up, Move::Left, Move::Down,
        Move::Down, Move::Right, Move::Up, Move::Up, Move::Left, Move::Left, Move::Up,
    ];
    for m in walk {
        p.apply_move(m).unwrap();
        assert!(p.is_solvable(), "{:?}", p.board);
        let mut tiles = p.board.clone();
        let (a, b) = if tiles[0] != 0 && tiles[1] != 0 { (0, 1) } else { (14, 15) };
        tiles.swap(a, b);
        assert!(!puzzle(4, &tiles).is_solvable(), "{:?}", tiles);
    }
}

#[test]
fn generate_random_gives_a_board_of_the_parity_asked_for() {
    for size in 2..=5u8 {
        for _ in 0..50 {
            for solvable in [true, false] {
                let p = NPuzzle::generate_random(size, solvable);
                assert_eq!(p.size, size);
                let again = NPuzzle::from_tiles(size, p.board.clone()).unwrap();
                assert_eq!(again, p);
                assert_eq!(p.is_solvable(), solvable);
            }
        }
    }
    assert_eq!(NPuzzle::generate_random(1, true).board, vec![0]);
}

#[test]
fn generate_random_shuffles_the_tiles() {
    let boards: HashSet<Vec<u8>> =
        (0..20).map(|_| NPuzzle::generate_random(4, true).board).collect();
    assert!(boards.len() > 1);
    let ordered: Vec<u8> = (0..16).collect();
    assert!(boards.iter().any(|b| {
        let mut undone = b.clone();
        undone.swap(0, 1);
        *b != ordered && undone != ordered
    }));
}

#[test]
fn new_gives_a_solvable_board() {
    for _ in 0..50 {
        let p = NPuzzle::new(3);
        assert_eq!(p.size, 3);
        assert!(p.is_solvable());
    }
}
