use vstd::prelude::*;
use crate::npuzzle::{Board, Move, lemma_goal_well_formed, lemma_swap_permutation};

verus! {

/// Whether a tile labelled `v` before a tile labelled `w` is an inversion:
/// neither is the blank and `v` is the larger.
pub open spec fn exceeds(v: u8, w: u8) -> bool {
    v != 0 && w != 0 && v > w
}

/// One where `b` holds, else zero.
pub open spec fn bit(b: bool) -> nat {
    if b {
        1
    } else {
        0
    }
}

/// The number of cells in `lo..hi` whose tile a tile labelled `v` exceeds.
pub open spec fn count_exceeded(cells: Seq<u8>, v: u8, lo: int, hi: int) -> nat
    decreases hi - lo,
{
    if hi <= lo {
        0
    } else {
        count_exceeded(cells, v, lo, hi - 1) + bit(exceeds(v, cells[hi - 1]))
    }
}

/// The number of cells in `lo..hi` whose tile exceeds a tile labelled `w`.
pub open spec fn count_exceeding(cells: Seq<u8>, w: u8, lo: int, hi: int) -> nat
    decreases hi - lo,
{
    if hi <= lo {
        0
    } else {
        count_exceeding(cells, w, lo, hi - 1) + bit(exceeds(cells[hi - 1], w))
    }
}

/// The number of inversions whose earlier tile lies in `lo..hi`.
pub open spec fn inversions_between(cells: Seq<u8>, lo: int, hi: int) -> nat
    decreases hi - lo,
{
    if hi <= lo {
        0
    } else {
        inversions_between(cells, lo, hi - 1) + count_exceeded(
            cells,
            cells[hi - 1],
            hi,
            cells.len() as int,
        )
    }
}

/// The inversion count: the pairs of tiles, the blank left out, of which the
/// earlier carries the larger label.
pub open spec fn inversions(cells: Seq<u8>) -> nat {
    inversions_between(cells, 0, cells.len() as int)
}

/// `cells` with the entries at `a` and `b` exchanged.
pub open spec fn swapped(cells: Seq<u8>, a: int, b: int) -> Seq<u8> {
    cells.update(a, cells[b]).update(b, cells[a])
}

proof fn lemma_exceeded_split(cells: Seq<u8>, v: u8, lo: int, mid: int, hi: int)
    requires
        lo <= mid <= hi,
    ensures
        count_exceeded(cells, v, lo, hi) == count_exceeded(cells, v, lo, mid) + count_exceeded(
            cells,
            v,
            mid,
            hi,
        ),
    decreases hi - mid,
{
    if hi > mid {
        lemma_exceeded_split(cells, v, lo, mid, hi - 1);
    }
}

proof fn lemma_exceeded_agree(a: Seq<u8>, b: Seq<u8>, v: u8, lo: int, hi: int)
    requires
        0 <= lo,
        hi <= a.len(),
        hi <= b.len(),
        forall|i: int| lo <= i < hi ==> a[i] == b[i],
    ensures
        count_exceeded(a, v, lo, hi) == count_exceeded(b, v, lo, hi),
    decreases hi - lo,
{
    if hi > lo {
        lemma_exceeded_agree(a, b, v, lo, hi - 1);
    }
}

proof fn lemma_between_split(cells: Seq<u8>, lo: int, mid: int, hi: int)
    requires
        lo <= mid <= hi,
    ensures
        inversions_between(cells, lo, hi) == inversions_between(cells, lo, mid)
            + inversions_between(cells, mid, hi),
    decreases hi - mid,
{
    if hi > mid {
        lemma_between_split(cells, lo, mid, hi - 1);
    }
}

/// One row of the count, cut at the two exchanged cells.
proof fn lemma_row_cut(cells: Seq<u8>, v: u8, lo: int, p: int, q: int)
    requires
        0 <= lo <= p < q < cells.len(),
    ensures
        count_exceeded(cells, v, lo, cells.len() as int) == count_exceeded(cells, v, lo, p) + bit(
            exceeds(v, cells[p]),
        ) + count_exceeded(cells, v, p + 1, q) + bit(exceeds(v, cells[q])) + count_exceeded(
            cells,
            v,
            q + 1,
            cells.len() as int,
        ),
{
    let n = cells.len() as int;
    lemma_exceeded_split(cells, v, lo, p, n);
    lemma_exceeded_split(cells, v, p, p + 1, n);
    lemma_exceeded_split(cells, v, p + 1, q, n);
    lemma_exceeded_split(cells, v, q, q + 1, n);
    assert(count_exceeded(cells, v, p, p + 1) == bit(exceeds(v, cells[p]))) by {
        assert(count_exceeded(cells, v, p, p) == 0);
    }
    assert(count_exceeded(cells, v, q, q + 1) == bit(exceeds(v, cells[q]))) by {
        assert(count_exceeded(cells, v, q, q) == 0);
    }
}

/// The rows before both exchanged cells count the same.
proof fn lemma_rows_before(cells: Seq<u8>, p: int, q: int, k: int)
    requires
        0 <= k <= p < q < cells.len(),
    ensures
        inversions_between(swapped(cells, p, q), 0, k) == inversions_between(cells, 0, k),
    decreases k,
{
    if k > 0 {
        lemma_rows_before(cells, p, q, k - 1);
        let after = swapped(cells, p, q);
        let n = cells.len() as int;
        let v = cells[k - 1];
        lemma_row_cut(cells, v, k, p, q);
        lemma_row_cut(after, v, k, p, q);
        lemma_exceeded_agree(cells, after, v, k, p);
        lemma_exceeded_agree(cells, after, v, p + 1, q);
        lemma_exceeded_agree(cells, after, v, q + 1, n);
    }
}

/// The rows between the exchanged cells see one of the two tiles behind
/// them; which one changes.
proof fn lemma_rows_within(cells: Seq<u8>, p: int, q: int, k: int)
    requires
        0 <= p < k <= q < cells.len(),
    ensures
        inversions_between(swapped(cells, p, q), p + 1, k) + count_exceeding(
            cells,
            cells[q],
            p + 1,
            k,
        ) == inversions_between(cells, p + 1, k) + count_exceeding(cells, cells[p], p + 1, k),
    decreases k,
{
    if k > p + 1 {
        lemma_rows_within(cells, p, q, k - 1);
        let after = swapped(cells, p, q);
        let n = cells.len() as int;
        let v = cells[k - 1];
        lemma_exceeded_split(cells, v, k, q, n);
        lemma_exceeded_split(cells, v, q, q + 1, n);
        lemma_exceeded_split(after, v, k, q, n);
        lemma_exceeded_split(after, v, q, q + 1, n);
        assert(count_exceeded(cells, v, q, q) == 0);
        assert(count_exceeded(after, v, q, q) == 0);
        lemma_exceeded_agree(cells, after, v, k, q);
        lemma_exceeded_agree(cells, after, v, q + 1, n);
    }
}

/// The rows behind both exchanged cells count the same.
proof fn lemma_rows_behind(cells: Seq<u8>, p: int, q: int, k: int)
    requires
        0 <= p < q < k <= cells.len(),
    ensures
        inversions_between(swapped(cells, p, q), q + 1, k) == inversions_between(cells, q + 1, k),
    decreases k,
{
    if k > q + 1 {
        lemma_rows_behind(cells, p, q, k - 1);
        lemma_exceeded_agree(cells, swapped(cells, p, q), cells[k - 1], k, cells.len() as int);
    }
}

/// How the inversion count changes when the tiles at `p` and `q` trade
/// places: by the pair itself and by the tiles between the two.
pub proof fn lemma_swap_inversions(cells: Seq<u8>, p: int, q: int)
    requires
        0 <= p < q < cells.len(),
    ensures
        inversions(swapped(cells, p, q)) + count_exceeded(cells, cells[p], p + 1, q) + bit(
            exceeds(cells[p], cells[q]),
        ) + count_exceeding(cells, cells[q], p + 1, q) == inversions(cells) + count_exceeded(
            cells,
            cells[q],
            p + 1,
            q,
        ) + bit(exceeds(cells[q], cells[p])) + count_exceeding(cells, cells[p], p + 1, q),
{
    let after = swapped(cells, p, q);
    let n = cells.len() as int;
    let a = cells[p];
    let b = cells[q];
    lemma_between_split(cells, 0, p, n);
    lemma_between_split(cells, p, p + 1, n);
    lemma_between_split(cells, p + 1, q, n);
    lemma_between_split(cells, q, q + 1, n);
    lemma_between_split(after, 0, p, n);
    lemma_between_split(after, p, p + 1, n);
    lemma_between_split(after, p + 1, q, n);
    lemma_between_split(after, q, q + 1, n);
    assert(inversions_between(cells, p, p) == 0);
    assert(inversions_between(cells, q, q) == 0);
    assert(inversions_between(after, p, p) == 0);
    assert(inversions_between(after, q, q) == 0);
    lemma_rows_before(cells, p, q, p);
    lemma_rows_within(cells, p, q, q);
    lemma_rows_behind(cells, p, q, n);
    // The rows of the two exchanged cells themselves.
    lemma_exceeded_split(cells, a, p + 1, q, n);
    lemma_exceeded_split(cells, a, q, q + 1, n);
    lemma_exceeded_split(after, b, p + 1, q, n);
    lemma_exceeded_split(after, b, q, q + 1, n);
    assert(count_exceeded(cells, a, q, q) == 0);
    assert(count_exceeded(after, b, q, q) == 0);
    lemma_exceeded_agree(cells, after, b, p + 1, q);
    lemma_exceeded_agree(cells, after, b, q + 1, n);
    lemma_exceeded_agree(cells, after, a, q + 1, n);
}

/// Of two tiles with different labels exactly one exceeds the other, so on a
/// stretch of tiles that differ from `v` the two counts fill the stretch.
proof fn lemma_counts_fill(cells: Seq<u8>, v: u8, lo: int, hi: int)
    requires
        0 <= lo <= hi <= cells.len(),
        v != 0,
        forall|i: int| lo <= i < hi ==> cells[i] != 0 && cells[i] != v,
    ensures
        count_exceeded(cells, v, lo, hi) + count_exceeding(cells, v, lo, hi) == hi - lo,
    decreases hi - lo,
{
    if hi > lo {
        lemma_counts_fill(cells, v, lo, hi - 1);
    }
}

/// The number of cells in `lo..hi` that hold a tile.
pub open spec fn count_tiles(cells: Seq<u8>, lo: int, hi: int) -> nat
    decreases hi - lo,
{
    if hi <= lo {
        0
    } else {
        count_tiles(cells, lo, hi - 1) + bit(cells[hi - 1] != 0)
    }
}

/// Each tile of a stretch that holds no tile labelled `v` is exceeded by it
/// or exceeds it.
proof fn lemma_counts_cover(cells: Seq<u8>, v: u8, lo: int, hi: int)
    requires
        0 <= lo <= hi <= cells.len(),
        v != 0,
        forall|i: int| lo <= i < hi ==> cells[i] != v,
    ensures
        count_exceeded(cells, v, lo, hi) + count_exceeding(cells, v, lo, hi) == count_tiles(
            cells,
            lo,
            hi,
        ),
    decreases hi - lo,
{
    if hi > lo {
        lemma_counts_cover(cells, v, lo, hi - 1);
    }
}

/// Two tiles that trade places change the inversion count by an odd number.
pub proof fn lemma_swap_tiles(cells: Seq<u8>, p: int, q: int)
    requires
        0 <= p < q < cells.len(),
        cells[p] != 0,
        cells[q] != 0,
        forall|i: int, j: int| 0 <= i < cells.len() && 0 <= j < cells.len() && i != j ==> cells[i]
            != cells[j],
    ensures
        inversions(swapped(cells, p, q)) % 2 != inversions(cells) % 2,
{
    lemma_swap_inversions(cells, p, q);
    lemma_counts_cover(cells, cells[p], p + 1, q);
    lemma_counts_cover(cells, cells[q], p + 1, q);
}

/// The blank exceeds nothing and nothing exceeds it.
proof fn lemma_blank_counts(cells: Seq<u8>, lo: int, hi: int)
    ensures
        count_exceeded(cells, 0u8, lo, hi) == 0,
        count_exceeding(cells, 0u8, lo, hi) == 0,
    decreases hi - lo,
{
    if hi > lo {
        lemma_blank_counts(cells, lo, hi - 1);
    }
}

/// The blank that trades places with a tile changes the parity of the
/// inversion count by the number of cells between the two.
pub proof fn lemma_swap_blank(cells: Seq<u8>, p: int, q: int)
    requires
        0 <= p < q < cells.len(),
        cells[p] == 0 || cells[q] == 0,
        forall|i: int, j: int| 0 <= i < cells.len() && 0 <= j < cells.len() && i != j ==> cells[i]
            != cells[j],
    ensures
        (inversions(swapped(cells, p, q)) + q - p - 1) % 2 == inversions(cells) % 2,
{
    lemma_swap_inversions(cells, p, q);
    lemma_blank_counts(cells, p + 1, q);
    if cells[p] == 0 {
        lemma_counts_fill(cells, cells[q], p + 1, q);
    } else {
        lemma_counts_fill(cells, cells[p], p + 1, q);
    }
}

/// A legal move keeps the outcome of the parity test.
pub proof fn lemma_move_keeps_solvable(board: Board, m: Move)
    requires
        board.well_formed(),
        board.can_move(m),
    ensures
        board.apply(m).solvable() == board.solvable(),
{
    board.lemma_len();
    board.lemma_target(m);
    board.lemma_apply(m);
    board.lemma_position_of(0u8);
    let b = board.blank_index();
    let t = board.target_index(m);
    let after = board.apply(m);
    if b < t {
        assert(after.cells =~= swapped(board.cells, b, t));
        lemma_swap_blank(board.cells, b, t);
    } else {
        assert(after.cells =~= swapped(board.cells, t, b));
        lemma_swap_blank(board.cells, t, b);
    }
}

/// Whatever legal moves are made, the outcome of the parity test stays.
pub proof fn lemma_replay_keeps_solvable(board: Board, moves: Seq<Move>)
    requires
        board.well_formed(),
        board.replay(moves) is Some,
    ensures
        board.replay(moves).unwrap().solvable() == board.solvable(),
    decreases moves.len(),
{
    if moves.len() > 0 {
        board.lemma_apply(moves[0]);
        lemma_move_keeps_solvable(board, moves[0]);
        lemma_replay_keeps_solvable(board.apply(moves[0]), moves.skip(1));
    }
}

proof fn lemma_goal_row(size: int, i: int, k: int)
    requires
        1 <= size <= crate::npuzzle::MAX_SIZE,
        0 <= i < k <= size * size,
    ensures
        count_exceeded(Board::goal(size).cells, Board::goal(size).cells[i], i + 1, k) == 0,
    decreases k,
{
    if k > i + 1 {
        lemma_goal_row(size, i, k - 1);
        lemma_goal_well_formed(size);
        Board::goal(size).lemma_len();
    }
}

proof fn lemma_goal_rows(size: int, m: int)
    requires
        1 <= size <= crate::npuzzle::MAX_SIZE,
        0 <= m <= size * size,
    ensures
        inversions_between(Board::goal(size).cells, 0, m) == 0,
    decreases m,
{
    if m > 0 {
        lemma_goal_rows(size, m - 1);
        lemma_goal_row(size, m - 1, size * size);
    }
}

/// The solved board passes the parity test.
pub proof fn lemma_goal_solvable(size: int)
    requires
        1 <= size <= crate::npuzzle::MAX_SIZE,
    ensures
        Board::goal(size).solvable(),
{
    lemma_goal_well_formed(size);
    Board::goal(size).lemma_len();
    lemma_goal_rows(size, size * size);
}

/// A board that some move sequence solves passes the parity test.
pub proof fn lemma_solved_is_solvable(board: Board, moves: Seq<Move>)
    requires
        board.well_formed(),
        board.replay(moves) == Some(Board::goal(board.size)),
    ensures
        board.solvable(),
{
    lemma_replay_keeps_solvable(board, moves);
    lemma_goal_solvable(board.size);
}

/// Two tiles that trade places, wherever they lie, turn the outcome of the
/// parity test round and leave the blank where it is.
pub proof fn lemma_swap_tiles_flips_solvable(board: Board, p: int, q: int)
    requires
        board.well_formed(),
        0 <= p < board.cells.len(),
        0 <= q < board.cells.len(),
        p != q,
        board.cells[p] != 0,
        board.cells[q] != 0,
    ensures
        (Board { size: board.size, cells: swapped(board.cells, p, q) }).well_formed(),
        (Board { size: board.size, cells: swapped(board.cells, p, q) }).blank_index()
            == board.blank_index(),
        (Board { size: board.size, cells: swapped(board.cells, p, q) }).solvable()
            != board.solvable(),
{
    let after = Board { size: board.size, cells: swapped(board.cells, p, q) };
    board.lemma_len();
    lemma_swap_permutation(board.cells, p, q);
    if p < q {
        lemma_swap_tiles(board.cells, p, q);
    } else {
        assert(swapped(board.cells, p, q) =~= swapped(board.cells, q, p));
        lemma_swap_tiles(board.cells, q, p);
    }
    board.lemma_position_of(0u8);
    let b = board.blank_index();
    assert(after.cells[b] == 0);
    after.lemma_position(b);
}

} // verus!
