//! Every board that passes the parity test can be solved.
//!
//! The cells are read along a path that winds through the rows. A move along
//! the path leaves the order of the tiles on it alone; a move between two
//! rows away from the turn carries one tile past the tiles that lie between
//! on the path. Turning five tiles and then three within them shows that any
//! three tiles that follow each other on the path can be turned, and such
//! turns put all tiles but the last two in place. The last two are then in
//! place as well, or the board would fail the parity test.

use vstd::prelude::*;
use crate::grid::{lemma_cell, lemma_row_col};
use crate::npuzzle::{
    Board, Move, lemma_goal_well_formed, lemma_replay_concat, lemma_replay_push,
};
use crate::parity::{
    lemma_goal_solvable, lemma_replay_keeps_solvable, lemma_solved_is_solvable,
    lemma_swap_tiles_flips_solvable, swapped,
};
use crate::search::{reachable, solves};

verus! {

/// The place of the cell `i` on the path that runs through the rows in turn,
/// the even rows from left to right and the odd rows from right to left.
/// Cells that follow each other on the path are neighbours on the board.
pub open spec fn snake(n: int, i: int) -> int {
    if (i / n) % 2 == 0 {
        i
    } else {
        (i / n) * n + (n - 1 - i % n)
    }
}

/// The path keeps the row, turns the odd rows round, and leads back when it
/// is walked twice.
pub proof fn lemma_snake(n: int, i: int)
    requires
        n > 0,
        0 <= i < n * n,
    ensures
        0 <= snake(n, i) < n * n,
        snake(n, i) / n == i / n,
        snake(n, i) % n == if (i / n) % 2 == 0 {
            i % n
        } else {
            n - 1 - i % n
        },
        snake(n, snake(n, i)) == i,
{
    lemma_cell(n, i);
    let row = i / n;
    let col = i % n;
    if row % 2 != 0 {
        lemma_row_col(n, row, n - 1 - col);
        assert(row * n + (n - 1 - col) < n * n) by (nonlinear_arith)
            requires
                0 <= row < n,
                0 <= col < n,
        ;
        assert(row * n + (n - 1 - col) >= 0) by (nonlinear_arith)
            requires
                0 <= row < n,
                0 <= col < n,
        ;
    }
}

/// The tiles of the board along the path.
pub open spec fn snake_cells(board: Board) -> Seq<u8> {
    Seq::new(board.cells.len(), |k: int| board.cells[snake(board.size, k)])
}

/// The place of the blank on the path.
pub open spec fn blank_snake(board: Board) -> int {
    snake(board.size, board.blank_index())
}

/// The tiles of the board along the path, the blank left out.
pub open spec fn word(board: Board) -> Seq<u8> {
    snake_cells(board).remove(blank_snake(board))
}

/// `w` with the entries `a..=z` turned by one towards the end: the last of
/// them comes first.
pub open spec fn rot_right(w: Seq<u8>, a: int, z: int) -> Seq<u8> {
    Seq::new(
        w.len(),
        |p: int|
            if p == a {
                w[z]
            } else if a < p <= z {
                w[p - 1]
            } else {
                w[p]
            },
    )
}

/// `w` with the entries `a..=z` turned by one towards the start: the first
/// of them comes last.
pub open spec fn rot_left(w: Seq<u8>, a: int, z: int) -> Seq<u8> {
    Seq::new(
        w.len(),
        |p: int|
            if a <= p < z {
                w[p + 1]
            } else if p == z {
                w[a]
            } else {
                w[p]
            },
    )
}

/// A legal move exchanges two entries of the board along the path: the blank
/// and the tile on the place that the blank moves to.
pub proof fn lemma_snake_move(board: Board, m: Move)
    requires
        board.well_formed(),
        board.can_move(m),
    ensures
        board.apply(m).well_formed(),
        board.apply(m).size == board.size,
        0 <= blank_snake(board) < board.cells.len(),
        0 <= blank_snake(board.apply(m)) < board.cells.len(),
        blank_snake(board.apply(m)) == snake(board.size, board.target_index(m)),
        snake_cells(board)[blank_snake(board)] == 0,
        snake_cells(board.apply(m)) == swapped(
            snake_cells(board),
            blank_snake(board),
            blank_snake(board.apply(m)),
        ),
{
    let n = board.size;
    let b = board.blank_index();
    let t = board.target_index(m);
    let after = board.apply(m);
    board.lemma_len();
    board.lemma_target(m);
    board.lemma_apply(m);
    board.lemma_position_of(0u8);
    lemma_snake(n, b);
    lemma_snake(n, t);
    let s = snake(n, b);
    let s2 = snake(n, t);
    let before = snake_cells(board);
    assert forall|k: int| 0 <= k < before.len() implies snake_cells(after)[k] == swapped(
        before,
        s,
        s2,
    )[k] by {
        lemma_snake(n, k);
    }
    assert(snake_cells(after) =~= swapped(before, s, s2));
}

/// Where the blank goes on the path under each of the moves: one place on or
/// back under a move along the row, and to the place that mirrors its own at
/// the end of the row under a move to the next or the previous row.
pub proof fn lemma_snake_target(board: Board, m: Move)
    requires
        board.well_formed(),
        board.can_move(m),
    ensures
        blank_snake(board) / board.size == board.blank_row(),
        blank_snake(board.apply(m)) == ({
            let n = board.size;
            let s = blank_snake(board);
            let row = s / n;
            match m {
                Move::Left => if row % 2 == 0 {
                    s + 1
                } else {
                    s - 1
                },
                Move::Right => if row % 2 == 0 {
                    s - 1
                } else {
                    s + 1
                },
                Move::Up => 2 * (row + 1) * n - 1 - s,
                Move::Down => 2 * row * n - 1 - s,
            }
        }),
{
    let n = board.size;
    let b = board.blank_index();
    let t = board.target_index(m);
    board.lemma_len();
    board.lemma_target(m);
    board.lemma_position_of(0u8);
    lemma_snake_move(board, m);
    lemma_snake(n, b);
    lemma_snake(n, t);
    lemma_cell(n, b);
    lemma_cell(n, t);
    let row = b / n;
    let col = b % n;
    let s = snake(n, b);
    assert(2 * (row + 1) * n - 1 - (row * n + col) == (row + 1) * n + (n - 1 - col))
        by (nonlinear_arith);
    assert(2 * (row + 1) * n - 1 - (row * n + (n - 1 - col)) == (row + 1) * n + col)
        by (nonlinear_arith);
    assert(2 * row * n - 1 - (row * n + col) == (row - 1) * n + (n - 1 - col))
        by (nonlinear_arith);
    assert(2 * row * n - 1 - (row * n + (n - 1 - col)) == (row - 1) * n + col)
        by (nonlinear_arith);
    assert((row + 1) * n == row * n + n) by (nonlinear_arith);
    assert((row - 1) * n == row * n - n) by (nonlinear_arith);
}

/// A legal move turns the stretch of the word between the old and the new
/// place of the blank by one, and leaves the rest of the word alone.
pub proof fn lemma_word_move(board: Board, m: Move)
    requires
        board.well_formed(),
        board.can_move(m),
    ensures
        word(board).len() == board.cells.len() - 1,
        word(board.apply(m)) == if blank_snake(board.apply(m)) > blank_snake(board) {
            rot_right(word(board), blank_snake(board), blank_snake(board.apply(m)) - 1)
        } else {
            rot_left(word(board), blank_snake(board.apply(m)), blank_snake(board) - 1)
        },
{
    lemma_snake_move(board, m);
    lemma_snake_target(board, m);
    board.lemma_target(m);
    let before = snake_cells(board);
    let after = snake_cells(board.apply(m));
    let s = blank_snake(board);
    let s2 = blank_snake(board.apply(m));
    lemma_snake(board.size, board.blank_index());
    lemma_snake(board.size, board.target_index(m));
    assert(s != s2);
    if s2 > s {
        assert(after.remove(s2) =~= rot_right(before.remove(s), s, s2 - 1));
    } else {
        assert(after.remove(s2) =~= rot_left(before.remove(s), s2, s - 1));
    }
}

/// One legal move leads from a board to the board it leaves.
pub proof fn lemma_reachable_step(board: Board, m: Move)
    requires
        board.can_move(m),
    ensures
        reachable(board, board.apply(m)),
{
    lemma_replay_push(board, Seq::<Move>::empty(), m);
    assert(board.replay(Seq::<Move>::empty().push(m)) == Some(board.apply(m)));
}

/// What can be reached from a board that can be reached can be reached.
pub proof fn lemma_reachable_trans(a: Board, b: Board, c: Board)
    requires
        reachable(a, b),
        reachable(b, c),
    ensures
        reachable(a, c),
{
    let first = choose|path: Seq<Move>| a.replay(path) == Some(b);
    let second = choose|path: Seq<Move>| b.replay(path) == Some(c);
    lemma_replay_concat(a, first, second);
    assert(a.replay(first + second) == Some(c));
}

/// Every board is reached from itself.
pub proof fn lemma_reachable_refl(a: Board)
    ensures
        reachable(a, a),
{
    assert(a.replay(Seq::<Move>::empty()) == Some(a));
}

/// The blank can go one place on along the path, and the word stays.
pub proof fn lemma_step_next(board: Board) -> (next: Board)
    requires
        board.well_formed(),
        blank_snake(board) + 1 < board.cells.len(),
    ensures
        next.well_formed(),
        next.size == board.size,
        reachable(board, next),
        blank_snake(next) == blank_snake(board) + 1,
        word(next) == word(board),
{
    let n = board.size;
    let s = blank_snake(board);
    board.lemma_len();
    board.lemma_position_of(0u8);
    lemma_snake(n, board.blank_index());
    lemma_cell(n, board.blank_index());
    lemma_cell(n, s);
    let row = s / n;
    let m = if s % n != n - 1 {
        if row % 2 == 0 {
            Move::Left
        } else {
            Move::Right
        }
    } else {
        Move::Up
    };
    if s % n == n - 1 {
        assert(row + 1 < n) by (nonlinear_arith)
            requires
                s == row * n + (n - 1),
                s + 1 < n * n,
                n > 0,
        ;
        assert(2 * (row + 1) * n - 1 - s == s + 1) by (nonlinear_arith)
            requires
                s == row * n + (n - 1),
        ;
    }
    lemma_snake_move(board, m);
    lemma_snake_target(board, m);
    lemma_word_move(board, m);
    lemma_reachable_step(board, m);
    assert(rot_right(word(board), s, s) =~= word(board));
    board.apply(m)
}

/// The blank can go one place back along the path, and the word stays.
pub proof fn lemma_step_prev(board: Board) -> (prev: Board)
    requires
        board.well_formed(),
        blank_snake(board) > 0,
    ensures
        prev.well_formed(),
        prev.size == board.size,
        reachable(board, prev),
        blank_snake(prev) == blank_snake(board) - 1,
        word(prev) == word(board),
{
    let n = board.size;
    let s = blank_snake(board);
    board.lemma_len();
    board.lemma_position_of(0u8);
    lemma_snake(n, board.blank_index());
    lemma_cell(n, board.blank_index());
    lemma_cell(n, s);
    let row = s / n;
    let m = if s % n != 0 {
        if row % 2 == 0 {
            Move::Right
        } else {
            Move::Left
        }
    } else {
        Move::Down
    };
    if s % n == 0 {
        assert(row > 0) by (nonlinear_arith)
            requires
                s == row * n,
                s > 0,
                n > 0,
                row >= 0,
        ;
        assert(2 * row * n - 1 - s == s - 1) by (nonlinear_arith)
            requires
                s == row * n,
        ;
    }
    lemma_snake_move(board, m);
    lemma_snake_target(board, m);
    lemma_word_move(board, m);
    lemma_reachable_step(board, m);
    assert(rot_left(word(board), s - 1, s - 1) =~= word(board));
    board.apply(m)
}

/// The blank can go to the next row, to the place that mirrors its own at
/// the end of its row; the tiles that it passes on the path turn by one.
pub proof fn lemma_jump_on(board: Board) -> (next: Board)
    requires
        board.well_formed(),
        blank_snake(board) / board.size < board.size - 1,
    ensures
        next.well_formed(),
        next.size == board.size,
        reachable(board, next),
        blank_snake(next) == 2 * (blank_snake(board) / board.size + 1) * board.size - 1
            - blank_snake(board),
        blank_snake(next) > blank_snake(board),
        word(next) == rot_right(word(board), blank_snake(board), blank_snake(next) - 1),
{
    let n = board.size;
    let s = blank_snake(board);
    board.lemma_len();
    board.lemma_position_of(0u8);
    lemma_snake(n, board.blank_index());
    lemma_cell(n, s);
    let row = s / n;
    assert(2 * (row + 1) * n - 1 - s > s) by (nonlinear_arith)
        requires
            s == row * n + s % n,
            s % n < n,
    ;
    lemma_snake_move(board, Move::Up);
    lemma_snake_target(board, Move::Up);
    lemma_word_move(board, Move::Up);
    lemma_reachable_step(board, Move::Up);
    board.apply(Move::Up)
}

/// The blank can go to the previous row, to the place that mirrors its own
/// at the start of its row; the tiles that it passes on the path turn by one.
pub proof fn lemma_jump_back(board: Board) -> (prev: Board)
    requires
        board.well_formed(),
        blank_snake(board) / board.size > 0,
    ensures
        prev.well_formed(),
        prev.size == board.size,
        reachable(board, prev),
        blank_snake(prev) == 2 * (blank_snake(board) / board.size) * board.size - 1
            - blank_snake(board),
        blank_snake(prev) < blank_snake(board),
        word(prev) == rot_left(word(board), blank_snake(prev), blank_snake(board) - 1),
{
    let n = board.size;
    let s = blank_snake(board);
    board.lemma_len();
    board.lemma_position_of(0u8);
    lemma_snake(n, board.blank_index());
    lemma_cell(n, s);
    let row = s / n;
    assert(2 * row * n - 1 - s < s) by (nonlinear_arith)
        requires
            s == row * n + s % n,
            s % n >= 0,
    ;
    lemma_snake_move(board, Move::Down);
    lemma_snake_target(board, Move::Down);
    lemma_word_move(board, Move::Down);
    lemma_reachable_step(board, Move::Down);
    board.apply(Move::Down)
}

/// The blank can go to any place on the path, and the word stays.
pub proof fn lemma_slide_to(board: Board, place: int) -> (there: Board)
    requires
        board.well_formed(),
        0 <= place < board.cells.len(),
    ensures
        there.well_formed(),
        there.size == board.size,
        reachable(board, there),
        blank_snake(there) == place,
        word(there) == word(board),
    decreases
            if place >= blank_snake(board) {
                place - blank_snake(board)
            } else {
                blank_snake(board) - place
            },
{
    let s = blank_snake(board);
    if s == place {
        lemma_reachable_refl(board);
        board
    } else if s < place {
        let next = lemma_step_next(board);
        let there = lemma_slide_to(next, place);
        lemma_reachable_trans(board, next, there);
        there
    } else {
        let prev = lemma_step_prev(board);
        let there = lemma_slide_to(prev, place);
        lemma_reachable_trans(board, prev, there);
        there
    }
}

/// The stretch of the word that lies `d` places to either side of the end of
/// the row `row` can be turned by one towards the end.
pub proof fn lemma_window_right(board: Board, row: int, d: int) -> (next: Board)
    requires
        board.well_formed(),
        0 <= row < board.size - 1,
        0 <= d < board.size,
    ensures
        next.well_formed(),
        next.size == board.size,
        reachable(board, next),
        word(next) == rot_right(
            word(board),
            row * board.size + board.size - 1 - d,
            row * board.size + board.size - 1 + d,
        ),
{
    let n = board.size;
    let a = row * n + n - 1 - d;
    board.lemma_len();
    lemma_row_col(n, row, n - 1 - d);
    assert(0 <= a < n * n) by (nonlinear_arith)
        requires
            0 <= row < n - 1,
            0 <= d < n,
            a == row * n + n - 1 - d,
    ;
    let there = lemma_slide_to(board, a);
    let next = lemma_jump_on(there);
    lemma_reachable_trans(board, there, next);
    assert(2 * (row + 1) * n - 1 - a == a + 2 * d + 1) by (nonlinear_arith)
        requires
            a == row * n + n - 1 - d,
    ;
    next
}

/// The stretch of the word that lies `d` places to either side of the end of
/// the row `row` can be turned by one towards the start.
pub proof fn lemma_window_left(board: Board, row: int, d: int) -> (next: Board)
    requires
        board.well_formed(),
        0 <= row < board.size - 1,
        0 <= d < board.size,
    ensures
        next.well_formed(),
        next.size == board.size,
        reachable(board, next),
        word(next) == rot_left(
            word(board),
            row * board.size + board.size - 1 - d,
            row * board.size + board.size - 1 + d,
        ),
{
    let n = board.size;
    let a = row * n + n - 1 - d;
    let z = (row + 1) * n + d;
    board.lemma_len();
    lemma_row_col(n, row + 1, d);
    assert(0 <= z < n * n) by (nonlinear_arith)
        requires
            0 <= row < n - 1,
            0 <= d < n,
            z == (row + 1) * n + d,
    ;
    let there = lemma_slide_to(board, z);
    let next = lemma_jump_back(there);
    lemma_reachable_trans(board, there, next);
    assert(2 * (row + 1) * n - 1 - z == a && z - 1 == a + 2 * d) by (nonlinear_arith)
        requires
            a == row * n + n - 1 - d,
            z == (row + 1) * n + d,
    ;
    next
}

/// Turning a stretch towards the start, three tiles within it, and the
/// stretch back turns the three tiles one place further on.
proof fn lemma_turn_carried_on(w: Seq<u8>, first: int, last: int, j: int)
    requires
        0 <= first < j,
        j + 2 <= last < w.len(),
    ensures
        rot_right(rot_left(rot_left(w, first, last), j - 1, j + 1), first, last) == rot_left(
            w,
            j,
            j + 2,
        ),
{
    let w1 = rot_left(w, first, last);
    let w2 = rot_left(w1, j - 1, j + 1);
    let w3 = rot_right(w2, first, last);
    let target = rot_left(w, j, j + 2);
    assert forall|p: int| 0 <= p < w.len() implies w3[p] == target[p] by {
        if p == first {
            assert(w3[p] == w2[last]);
        } else if first < p <= last {
            assert(w3[p] == w2[p - 1]);
        }
    }
    assert(w3 =~= target);
}

/// Turning a stretch towards the end, three tiles within it, and the stretch
/// back turns the three tiles one place further back.
proof fn lemma_turn_carried_back(w: Seq<u8>, first: int, last: int, j: int)
    requires
        0 <= first <= j,
        j + 3 <= last < w.len(),
    ensures
        rot_left(rot_left(rot_right(w, first, last), j + 1, j + 3), first, last) == rot_left(
            w,
            j,
            j + 2,
        ),
{
    let w1 = rot_right(w, first, last);
    let w2 = rot_left(w1, j + 1, j + 3);
    let w3 = rot_left(w2, first, last);
    let target = rot_left(w, j, j + 2);
    assert forall|p: int| 0 <= p < w.len() implies w3[p] == target[p] by {
        if first <= p < last {
            assert(w3[p] == w2[p + 1]);
        } else if p == last {
            assert(w3[p] == w2[first]);
        }
    }
    assert(w3 =~= target);
}

/// Three tiles that follow each other in the word, within the two rows that
/// meet at the end of the row `row`, can be turned by one towards the start.
proof fn lemma_turn_three_in(board: Board, row: int, j: int) -> (next: Board)
    requires
        board.well_formed(),
        0 <= row < board.size - 1,
        row * board.size <= j,
        j + 2 <= row * board.size + 2 * board.size - 2,
    ensures
        next.well_formed(),
        next.size == board.size,
        reachable(board, next),
        word(next) == rot_left(word(board), j, j + 2),
    decreases
            if j >= row * board.size + board.size - 2 {
                j - (row * board.size + board.size - 2)
            } else {
                row * board.size + board.size - 2 - j
            },
{
    let n = board.size;
    let first = row * n;
    let last = row * n + 2 * n - 2;
    let centre = row * n + n - 2;
    let w = word(board);
    board.lemma_len();
    lemma_word_len(board);
    assert(last < n * n - 1) by (nonlinear_arith)
        requires
            0 <= row < n - 1,
            last == row * n + 2 * n - 2,
    ;
    assert(first >= 0) by (nonlinear_arith)
        requires
            0 <= row,
            n > 0,
            first == row * n,
    ;
    if j == centre {
        lemma_window_left(board, row, 1)
    } else if j > centre {
        let b1 = lemma_window_left(board, row, n - 1);
        lemma_word_len(b1);
        let b2 = lemma_turn_three_in(b1, row, j - 1);
        lemma_word_len(b2);
        let b3 = lemma_window_right(b2, row, n - 1);
        lemma_reachable_trans(board, b1, b2);
        lemma_reachable_trans(board, b2, b3);
        lemma_turn_carried_on(w, first, last, j);
        b3
    } else {
        let b1 = lemma_window_right(board, row, n - 1);
        lemma_word_len(b1);
        let b2 = lemma_turn_three_in(b1, row, j + 1);
        lemma_word_len(b2);
        let b3 = lemma_window_left(b2, row, n - 1);
        lemma_reachable_trans(board, b1, b2);
        lemma_reachable_trans(board, b2, b3);
        lemma_turn_carried_back(w, first, last, j);
        b3
    }
}

/// The word holds every cell but the one of the blank.
pub proof fn lemma_word_len(board: Board)
    requires
        board.well_formed(),
    ensures
        word(board).len() == board.size * board.size - 1,
        0 <= blank_snake(board) < board.size * board.size,
{
    board.lemma_len();
    board.lemma_position_of(0u8);
    lemma_snake(board.size, board.blank_index());
}

/// Any three tiles that follow each other in the word can be turned by one
/// towards the start.
pub proof fn lemma_turn_three(board: Board, j: int) -> (next: Board)
    requires
        board.well_formed(),
        0 <= j,
        j + 2 < word(board).len(),
    ensures
        next.well_formed(),
        next.size == board.size,
        reachable(board, next),
        word(next) == rot_left(word(board), j, j + 2),
{
    let n = board.size;
    lemma_word_len(board);
    board.lemma_len();
    assert(n >= 2) by (nonlinear_arith)
        requires
            n >= 1,
            n * n - 1 > 2,
    ;
    lemma_cell(n, j);
    let row = if j / n <= n - 2 {
        j / n
    } else {
        n - 2
    };
    assert(row * n <= j && j + 2 <= row * n + 2 * n - 2) by (nonlinear_arith)
        requires
            n >= 2,
            0 <= j,
            j + 2 < n * n - 1,
            j == (j / n) * n + j % n,
            0 <= j % n < n,
            0 <= j / n < n,
            row == if j / n <= n - 2 {
                j / n
            } else {
                n - 2
            },
    ;
    lemma_turn_three_in(board, row, j)
}

/// The place on the path of the entry `p` of the word, for a blank on the
/// place `s`.
pub open spec fn place_of(s: int, p: int) -> int {
    if p < s {
        p
    } else {
        p + 1
    }
}

/// The word holds each tile once, and no blank.
pub proof fn lemma_word(board: Board)
    requires
        board.well_formed(),
    ensures
        word(board).len() == board.size * board.size - 1,
        0 <= blank_snake(board) < board.size * board.size,
        forall|p: int|
            0 <= p < word(board).len() ==> #[trigger] word(board)[p] == board.cells[snake(
                board.size,
                place_of(blank_snake(board), p),
            )],
        forall|p: int| 0 <= p < word(board).len() ==> #[trigger] word(board)[p] != 0,
        forall|p: int, q: int|
            0 <= p < word(board).len() && 0 <= q < word(board).len() && p != q ==> word(
                board,
            )[p] != word(board)[q],
        forall|v: u8|
            1 <= v && (v as int) < board.size * board.size ==> #[trigger] word(board).contains(v),
{
    let n = board.size;
    let w = word(board);
    let s = blank_snake(board);
    let b = board.blank_index();
    board.lemma_len();
    board.lemma_position_of(0u8);
    lemma_snake(n, b);
    assert forall|p: int| 0 <= p < w.len() implies #[trigger] w[p] == board.cells[snake(
        n,
        place_of(s, p),
    )] && w[p] != 0 by {
        let k = place_of(s, p);
        lemma_snake(n, k);
        if board.cells[snake(n, k)] == 0 {
            board.lemma_position(snake(n, k));
        }
    }
    assert forall|p: int, q: int| 0 <= p < w.len() && 0 <= q < w.len() && p != q implies w[p]
        != w[q] by {
        lemma_snake(n, place_of(s, p));
        lemma_snake(n, place_of(s, q));
    }
    assert forall|v: u8| 1 <= v && (v as int) < n * n implies #[trigger] w.contains(v) by {
        board.lemma_position_of(v);
        let i = board.position(v);
        lemma_snake(n, i);
        let k = snake(n, i);
        let p = if k < s {
            k
        } else {
            k - 1
        };
        assert(place_of(s, p) == k);
        assert(w[p] == v);
    }
}

/// A tile of the word can be brought forward to the place `k`; the tiles
/// before that place stay.
proof fn lemma_bring(board: Board, k: int, j: int) -> (next: Board)
    requires
        board.well_formed(),
        0 <= k <= j < word(board).len(),
        k + 3 <= word(board).len(),
    ensures
        next.well_formed(),
        next.size == board.size,
        reachable(board, next),
        word(next).len() == word(board).len(),
        word(next)[k] == word(board)[j],
        forall|p: int| 0 <= p < k ==> word(next)[p] == word(board)[p],
    decreases j - k,
{
    lemma_word_len(board);
    if j == k {
        lemma_reachable_refl(board);
        board
    } else {
        let b1 = if j + 1 < word(board).len() {
            lemma_turn_three(board, j - 1)
        } else {
            lemma_turn_three(board, j - 2)
        };
        lemma_word_len(b1);
        let next = lemma_bring(b1, k, j - 1);
        lemma_reachable_trans(board, b1, next);
        next
    }
}

/// The first `k` tiles of the word can be made those of any other word, as
/// long as two tiles are left at the end.
proof fn lemma_arrange(board: Board, target: Board, k: int) -> (next: Board)
    requires
        board.well_formed(),
        target.well_formed(),
        target.size == board.size,
        0 <= k,
        k + 2 <= word(board).len(),
    ensures
        next.well_formed(),
        next.size == board.size,
        reachable(board, next),
        forall|p: int| 0 <= p < k ==> word(next)[p] == word(target)[p],
    decreases k,
{
    if k == 0 {
        lemma_reachable_refl(board);
        board
    } else {
        let b1 = lemma_arrange(board, target, k - 1);
        let w = word(b1);
        let g = word(target);
        lemma_word(b1);
        lemma_word(target);
        lemma_word_len(board);
        let v = g[k - 1];
        b1.lemma_len();
        target.lemma_len();
        lemma_snake(target.size, place_of(blank_snake(target), k - 1));
        assert(w.contains(v));
        let j = choose|j: int| 0 <= j < w.len() && w[j] == v;
        if j < k - 1 {
            assert(w[j] == g[j]);
        }
        let next = lemma_bring(b1, k - 1, j);
        lemma_reachable_trans(board, b1, next);
        next
    }
}

/// A board is known by its word and the place of its blank.
proof fn lemma_same_word(a: Board, b: Board)
    requires
        a.well_formed(),
        b.well_formed(),
        a.size == b.size,
        blank_snake(a) == blank_snake(b),
        word(a) =~= word(b),
    ensures
        a == b,
{
    let n = a.size;
    let s = blank_snake(a);
    a.lemma_len();
    b.lemma_len();
    lemma_word(a);
    lemma_word(b);
    a.lemma_position_of(0u8);
    b.lemma_position_of(0u8);
    lemma_snake(n, a.blank_index());
    lemma_snake(n, b.blank_index());
    assert forall|i: int| 0 <= i < a.cells.len() implies a.cells[i] == b.cells[i] by {
        lemma_snake(n, i);
        let k = snake(n, i);
        if k != s {
            let p = if k < s {
                k
            } else {
                k - 1
            };
            assert(place_of(s, p) == k);
            assert(word(a)[p] == a.cells[i]);
            assert(word(b)[p] == b.cells[i]);
        }
    }
    assert(a.cells =~= b.cells);
}

/// Every board that passes the parity test can be solved.
pub proof fn lemma_solvable_is_solved(board: Board)
    requires
        board.well_formed(),
        board.solvable(),
    ensures
        exists|moves: Seq<Move>| solves(board, moves),
{
    let n = board.size;
    let goal = Board::goal(n);
    board.lemma_len();
    lemma_goal_well_formed(n);
    goal.lemma_len();
    lemma_goal_solvable(n);
    if n == 1 {
        board.lemma_position_of(0u8);
        assert(n * n == 1) by (nonlinear_arith)
            requires
                n == 1,
        ;
        assert(board.cells[0] == 0);
        assert(goal.cells[0] == 0);
        assert(board.cells =~= goal.cells);
        assert(board.replay(Seq::<Move>::empty()) == Some(goal));
        assert(solves(board, Seq::<Move>::empty()));
    } else {
        assert(n * n >= 4) by (nonlinear_arith)
            requires
                n >= 2,
        ;
        lemma_word_len(board);
        lemma_word_len(goal);
        let len = n * n - 1;
        let b1 = lemma_arrange(board, goal, len - 2);
        let b2 = lemma_slide_to(b1, blank_snake(goal));
        lemma_reachable_trans(board, b1, b2);
        let path = choose|path: Seq<Move>| board.replay(path) == Some(b2);
        lemma_replay_keeps_solvable(board, path);
        let w = word(b2);
        let g = word(goal);
        let s = blank_snake(goal);
        lemma_word(b2);
        lemma_word(goal);
        b2.lemma_len();
        // The two tiles at the end are those of the goal, in its order or
        // the other.
        lemma_snake(n, place_of(s, len - 2));
        lemma_snake(n, place_of(s, len - 1));
        assert(w.contains(g[len - 2]));
        assert(w.contains(g[len - 1]));
        let i = choose|i: int| 0 <= i < w.len() && w[i] == g[len - 2];
        let j = choose|j: int| 0 <= j < w.len() && w[j] == g[len - 1];
        if i < len - 2 {
            assert(w[i] == g[i]);
        }
        if j < len - 2 {
            assert(w[j] == g[j]);
        }
        if i == len - 2 {
            assert(w =~= g);
            lemma_same_word(b2, goal);
            assert(solves(board, path));
        } else {
            // The two tiles stand in the other order: the board is the goal
            // with two tiles exchanged, which fails the parity test.
            let c1 = snake(n, place_of(s, len - 2));
            let c2 = snake(n, place_of(s, len - 1));
            let other = Board { size: n, cells: swapped(goal.cells, c1, c2) };
            assert(i == len - 1);
            assert(j == len - 2);
            lemma_swap_tiles_flips_solvable(goal, c1, c2);
            goal.lemma_position_of(0u8);
            let blank = goal.blank_index();
            lemma_snake(n, blank);
            assert(other.cells[blank] == 0);
            other.lemma_position(blank);
            assert(blank_snake(other) == s);
            lemma_word(other);
            assert forall|p: int| 0 <= p < len implies word(other)[p] == w[p] by {
                let k = place_of(s, p);
                lemma_snake(n, k);
                if p < len - 2 {
                    assert(snake(n, k) != c1);
                    assert(snake(n, k) != c2);
                    assert(w[p] == g[p]);
                }
            }
            assert(word(other) =~= w);
            lemma_same_word(b2, other);
        }
    }
}

/// The parity test decides whether a board can be solved.
pub proof fn lemma_solvable_iff_solved(board: Board)
    requires
        board.well_formed(),
    ensures
        board.solvable() <==> exists|moves: Seq<Move>| solves(board, moves),
{
    if board.solvable() {
        lemma_solvable_is_solved(board);
    }
    if exists|moves: Seq<Move>| solves(board, moves) {
        let moves = choose|moves: Seq<Move>| solves(board, moves);
        lemma_solved_is_solvable(board, moves);
    }
}

} // verus!
