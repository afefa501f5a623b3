use vstd::prelude::*;
use crate::error::PuzzleError;
use crate::grid::{abs_diff, grid_distance, lemma_cell};
use crate::npuzzle::{Board, Move, NPuzzle, lemma_goal_well_formed};

verus! {

/// The heuristics that can be selected.
#[derive(Debug, Copy, Clone, PartialEq, Eq, Structural)]
pub enum Heuristic {
    /// Manhattan distance
    ManhattanDistance,
    /// Misplaced Tiles
    MisplacedTiles,
}

/// An evaluator that the solver can run on a board.
#[derive(Debug, Copy, Clone, PartialEq, Eq, Structural)]
pub enum HeuristicFn {
    /// The sum of the tiles' Manhattan distances to their goal cells.
    TotalManhattanDistance,
}

/// How far the tile labelled `v` lies from its goal cell.
pub open spec fn tile_distance(board: Board, v: int) -> int {
    grid_distance(board.size, board.position(v as u8), v - 1)
}

/// The distances of the tiles `1..k`, summed.
pub open spec fn distance_below(board: Board, k: int) -> int
    decreases k,
{
    if k <= 1 {
        0
    } else {
        distance_below(board, k - 1) + tile_distance(board, k - 1)
    }
}

/// The sum over all tiles, the blank left out, of the Manhattan distance
/// between the tile's cell and its goal cell.
pub open spec fn total_distance(board: Board) -> int {
    distance_below(board, board.cells.len() as int)
}

impl Heuristic {
    /// The evaluator for the selected heuristic. Only the Manhattan distance
    /// has one; any other selection is rejected.
    pub fn get_heuristic_fn(&self) -> (r: Result<HeuristicFn, PuzzleError>)
        ensures
            r == match *self {
                Heuristic::ManhattanDistance => Ok::<HeuristicFn, PuzzleError>(
                    HeuristicFn::TotalManhattanDistance,
                ),
                Heuristic::MisplacedTiles => Err::<HeuristicFn, PuzzleError>(
                    PuzzleError::UnsupportedHeuristic,
                ),
            },
    {
        match self {
            Heuristic::ManhattanDistance => Ok(HeuristicFn::TotalManhattanDistance),
            Heuristic::MisplacedTiles => Err(PuzzleError::UnsupportedHeuristic),
        }
    }
}

impl HeuristicFn {
    /// The estimate that the evaluator gives for `board`.
    pub open spec fn estimate(self, board: Board) -> int {
        match self {
            HeuristicFn::TotalManhattanDistance => total_distance(board),
        }
    }

    /// Every evaluator is never negative, zero on the solved board alone, and
    /// consistent.
    pub proof fn lemma_estimate(self, board: Board, moves: Seq<Move>)
        requires
            board.well_formed(),
        ensures
            self.estimate(board) >= 0,
            self.estimate(board) == 0 <==> board.is_goal(),
            board.replay(moves) is Some ==> self.estimate(board) <= moves.len() + self.estimate(
                board.replay(moves).unwrap(),
            ),
    {
        lemma_distance_zero_iff_goal(board);
        if board.replay(moves) is Some {
            lemma_distance_consistent(board, moves);
        }
    }

    /// Runs the evaluator on `npuzzle`.
    pub fn evaluate(&self, npuzzle: &NPuzzle) -> (r: i32)
        requires
            npuzzle.well_formed(),
        ensures
            r == self.estimate(npuzzle@),
    {
        match self {
            HeuristicFn::TotalManhattanDistance => total_manhattan_distance(npuzzle),
        }
    }
}

/// The sum over all tiles, the blank left out, of the Manhattan distance
/// between the tile's cell and its goal cell.
pub fn total_manhattan_distance(npuzzle: &NPuzzle) -> (r: i32)
    requires
        npuzzle.well_formed(),
    ensures
        r == total_distance(npuzzle@),
{
    proof {
        npuzzle@.lemma_len();
    }
    let size = npuzzle.size as usize;
    let n = npuzzle.board.len();
    let mut total_distance: i32 = 0;
    let mut value: usize = 1;
    while value < n
        invariant
            1 <= value <= n,
            n == npuzzle.board.len(),
            n <= 256,
            size == npuzzle.size,
            npuzzle.well_formed(),
            total_distance == distance_below(npuzzle@, value as int),
            0 <= total_distance <= 30 * (value - 1),
        decreases n - value,
    {
        let value_index = match npuzzle.find_index(value as u8) {
            Some(i) => i,
            None => {
                proof {
                    npuzzle@.lemma_position_of(value as u8);
                    assert(false);
                }
                0
            },
        };
        proof {
            npuzzle@.lemma_position(value_index as int);
            lemma_tile_distance_bound(npuzzle@, value as int);
        }
        total_distance = total_distance + manhattan_distance(size, value_index, value - 1);
        value += 1;
    }
    total_distance
}

/// The Manhattan distance between the cells with the row-major indices
/// `value_index` and `goal_index` on a grid with `size` columns.
pub fn manhattan_distance(size: usize, value_index: usize, goal_index: usize) -> (r: i32)
    requires
        size > 0,
        grid_distance(size as int, value_index as int, goal_index as int) <= i32::MAX,
    ensures
        r == grid_distance(size as int, value_index as int, goal_index as int),
{
    let goal_x = goal_index % size;
    let goal_y = goal_index / size;
    let value_x = value_index % size;
    let value_y = value_index / size;
    let dx = if goal_x >= value_x {
        goal_x - value_x
    } else {
        value_x - goal_x
    };
    let dy = if goal_y >= value_y {
        goal_y - value_y
    } else {
        value_y - goal_y
    };
    (dx + dy) as i32
}

/// On a well-formed board no tile is further than `2 * (size - 1)` from its
/// goal cell.
pub proof fn lemma_tile_distance_bound(board: Board, v: int)
    requires
        board.well_formed(),
        1 <= v < board.cells.len(),
    ensures
        0 <= tile_distance(board, v) <= 2 * (board.size - 1),
{
    board.lemma_len();
    board.lemma_position_of(v as u8);
    lemma_cell(board.size, board.position(v as u8));
    lemma_cell(board.size, v - 1);
}

/// The partial sums are never negative, and one that is zero has only zero
/// terms.
proof fn lemma_distance_below_zero(board: Board, k: int)
    requires
        board.well_formed(),
        1 <= k <= board.cells.len(),
    ensures
        distance_below(board, k) >= 0,
        distance_below(board, k) == 0 ==> forall|v: int|
            1 <= v < k ==> #[trigger] tile_distance(board, v) == 0,
    decreases k,
{
    if k > 1 {
        lemma_distance_below_zero(board, k - 1);
        lemma_tile_distance_bound(board, k - 1);
    }
}

/// On the solved board every partial sum is zero.
proof fn lemma_distance_below_goal(size: int, k: int)
    requires
        1 <= size <= crate::npuzzle::MAX_SIZE,
        1 <= k <= size * size,
    ensures
        distance_below(Board::goal(size), k) == 0,
    decreases k,
{
    if k > 1 {
        let goal = Board::goal(size);
        lemma_distance_below_goal(size, k - 1);
        lemma_goal_well_formed(size);
        goal.lemma_len();
        assert(goal.cells[k - 2] == (k - 1) as u8);
        goal.lemma_position(k - 2);
    }
}

/// The heuristic is never negative, and it is zero on the solved board and on
/// no other.
pub proof fn lemma_distance_zero_iff_goal(board: Board)
    requires
        board.well_formed(),
    ensures
        total_distance(board) >= 0,
        total_distance(board) == 0 <==> board.is_goal(),
{
    board.lemma_len();
    let n = board.cells.len() as int;
    let size = board.size;
    lemma_distance_below_zero(board, n);
    if board.is_goal() {
        lemma_distance_below_goal(size, n);
    }
    if total_distance(board) == 0 {
        let goal = Board::goal(size);
        assert forall|i: int| 0 <= i < n implies board.cells[i] == goal.cells[i] by {
            if i < n - 1 {
                lemma_tile_at_goal(board, i + 1);
            } else {
                board.lemma_position_of(0u8);
                let p = board.position(0u8);
                if p < n - 1 {
                    lemma_tile_at_goal(board, p + 1);
                }
            }
        }
        assert(board.cells =~= goal.cells);
    }
}

/// A tile at distance zero lies on its goal cell.
proof fn lemma_tile_at_goal(board: Board, v: int)
    requires
        board.well_formed(),
        1 <= v < board.cells.len(),
        tile_distance(board, v) == 0,
    ensures
        board.cells[v - 1] == v as u8,
{
    board.lemma_len();
    board.lemma_position_of(v as u8);
    lemma_cell(board.size, board.position(v as u8));
    lemma_cell(board.size, v - 1);
}

/// A move leaves every tile but the one it slides where it was.
proof fn lemma_distance_below_after_move(board: Board, m: Move, k: int)
    requires
        board.well_formed(),
        board.can_move(m),
        1 <= k <= board.cells.len(),
    ensures
        distance_below(board.apply(m), k) == distance_below(board, k) + ({
            let t = board.cells[board.target_index(m)] as int;
            if t < k {
                tile_distance(board.apply(m), t) - tile_distance(board, t)
            } else {
                0
            }
        }),
    decreases k,
{
    board.lemma_len();
    board.lemma_target(m);
    board.lemma_apply(m);
    if k > 1 {
        lemma_distance_below_after_move(board, m, k - 1);
        let after = board.apply(m);
        let v = (k - 1) as u8;
        let t = board.cells[board.target_index(m)];
        if t != v {
            board.lemma_position_of(v);
            board.lemma_position_of(0u8);
            let p = board.position(v);
            assert(after.cells[p] == v);
            after.lemma_position(p);
            assert(after.position(v) == p);
            assert(tile_distance(after, k - 1) == tile_distance(board, k - 1));
        } else {
            assert(t as int == k - 1);
        }
    }
}

/// One move changes the heuristic by exactly one.
pub proof fn lemma_move_changes_distance(board: Board, m: Move)
    requires
        board.well_formed(),
        board.can_move(m),
    ensures
        abs_diff(total_distance(board.apply(m)), total_distance(board)) == 1,
{
    let after = board.apply(m);
    let n = board.cells.len() as int;
    let size = board.size;
    board.lemma_len();
    board.lemma_target(m);
    board.lemma_apply(m);
    board.lemma_position_of(0u8);
    lemma_distance_below_after_move(board, m, n);
    let b = board.blank_index();
    let target = board.target_index(m);
    let t = board.cells[target];
    board.lemma_position(target);
    after.lemma_position(b);
    lemma_cell(size, b);
    lemma_cell(size, target);
    lemma_cell(size, t - 1);
}

/// The heuristic is consistent: along any move sequence it falls by no more
/// than the number of moves.
pub proof fn lemma_distance_consistent(board: Board, moves: Seq<Move>)
    requires
        board.well_formed(),
        board.replay(moves) is Some,
    ensures
        total_distance(board) <= moves.len() + total_distance(board.replay(moves).unwrap()),
    decreases moves.len(),
{
    if moves.len() > 0 {
        let m = moves[0];
        board.lemma_apply(m);
        lemma_move_changes_distance(board, m);
        lemma_distance_consistent(board.apply(m), moves.skip(1));
    }
}

/// The heuristic is admissible: it never exceeds the length of a move
/// sequence that solves the board.
pub proof fn lemma_distance_admissible(board: Board, moves: Seq<Move>)
    requires
        board.well_formed(),
        board.replay(moves) == Some(Board::goal(board.size)),
    ensures
        total_distance(board) <= moves.len(),
{
    lemma_distance_consistent(board, moves);
    lemma_goal_well_formed(board.size);
    lemma_distance_zero_iff_goal(Board::goal(board.size));
}

} // verus!
