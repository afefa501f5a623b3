use vstd::prelude::*;
use rand::seq::SliceRandom;
use crate::error::{ParseError, PuzzleError};
use crate::grid::{lemma_cell, lemma_row_col};
use crate::parity::{
    count_exceeded, inversions, inversions_between, lemma_swap_tiles_flips_solvable, swapped,
};
use crate::reach::lemma_solvable_iff_solved;
use crate::search::solves;

verus! {

/// The largest side length whose tile labels fit in a byte.
pub const MAX_SIZE: u8 = 16;

/// A direction of travel. `Up` swaps the blank with the tile in the next row,
/// `Down` with the tile in the previous row, `Left` with the tile in the next
/// column and `Right` with the tile in the previous column.
#[derive(Debug, PartialEq, Eq, Clone, Copy, Structural)]
pub enum Move {
    Up,
    Down,
    Left,
    Right,
}

/// A cell of the board: `x` is its column, `y` its row, both from zero.
#[derive(Debug, Default, Clone, Copy, PartialEq, Eq, Structural)]
pub struct Point {
    pub x: u8,
    pub y: u8,
}

/// A sliding-tile board: the side length, the tile labels in row-major order
/// with `0` for the blank, and the cell in which the blank lies.
#[derive(Debug, PartialEq, Eq)]
pub struct NPuzzle {
    pub size: u8,
    pub board: Vec<u8>,
    pub blank_pos: Point,
}

/// A board as a mathematical value: the side length and the tile labels in
/// row-major order, `0` standing for the blank.
pub struct Board {
    pub size: int,
    pub cells: Seq<u8>,
}

impl Move {
    /// The move that undoes `self`, for use in specifications.
    pub open spec fn spec_inverse(self) -> Move {
        match self {
            Move::Up => Move::Down,
            Move::Down => Move::Up,
            Move::Left => Move::Right,
            Move::Right => Move::Left,
        }
    }

    /// The move that undoes `self`.
    #[verifier::when_used_as_spec(spec_inverse)]
    pub fn inverse(self) -> (r: Move)
        ensures
            r == self.spec_inverse(),
    {
        match self {
            Move::Up => Move::Down,
            Move::Down => Move::Up,
            Move::Left => Move::Right,
            Move::Right => Move::Left,
        }
    }

    /// How far the blank's row-major index shifts under `self`.
    pub open spec fn offset(self, size: int) -> int {
        match self {
            Move::Up => size,
            Move::Down => -size,
            Move::Left => 1,
            Move::Right => -1,
        }
    }
}

/// `cells` holds each label below its length exactly once.
pub open spec fn is_permutation(cells: Seq<u8>) -> bool {
    &&& forall|i: int| 0 <= i < cells.len() ==> (#[trigger] cells[i] as int) < cells.len()
    &&& forall|i: int, j: int|
        0 <= i < cells.len() && 0 <= j < cells.len() && i != j ==> cells[i] != cells[j]
    &&& forall|v: u8| (v as int) < cells.len() ==> #[trigger] cells.contains(v)
}

impl Board {
    /// The side is between one and the limit and the cells hold each of the
    /// labels `0..size * size` exactly once.
    pub open spec fn well_formed(self) -> bool {
        &&& 1 <= self.size <= MAX_SIZE
        &&& self.cells.len() == self.size * self.size
        &&& is_permutation(self.cells)
    }

    /// The row-major index of the tile labelled `v`.
    pub open spec fn position(self, v: u8) -> int {
        self.cells.index_of(v)
    }

    /// The row-major index of the blank.
    pub open spec fn blank_index(self) -> int {
        self.position(0)
    }

    /// The row of the blank, counted from the top, from zero.
    pub open spec fn blank_row(self) -> int {
        self.blank_index() / self.size
    }

    /// The column of the blank, counted from the left, from zero.
    pub open spec fn blank_col(self) -> int {
        self.blank_index() % self.size
    }

    /// Whether `m` keeps the blank on the board.
    pub open spec fn can_move(self, m: Move) -> bool {
        match m {
            Move::Up => self.blank_row() != self.size - 1,
            Move::Down => self.blank_row() != 0,
            Move::Left => self.blank_col() != self.size - 1,
            Move::Right => self.blank_col() != 0,
        }
    }

    /// The index of the tile that trades places with the blank under `m`.
    pub open spec fn target_index(self, m: Move) -> int {
        self.blank_index() + m.offset(self.size)
    }

    /// The board after `m`: the blank and its neighbour swapped.
    pub open spec fn apply(self, m: Move) -> Board {
        let b = self.blank_index();
        let t = self.target_index(m);
        Board { size: self.size, cells: self.cells.update(b, self.cells[t]).update(t, 0u8) }
    }

    /// The solved board: the labels `1..size*size` in order, then the blank.
    pub open spec fn goal(size: int) -> Board {
        Board {
            size,
            cells: Seq::new(
                (size * size) as nat,
                |i: int| if i == size * size - 1 { 0u8 } else { (i + 1) as u8 },
            ),
        }
    }

    /// Whether the board is the solved board of its size.
    pub open spec fn is_goal(self) -> bool {
        self == Board::goal(self.size)
    }
}


impl Board {
    /// The parity test for reachability of the goal.
    pub open spec fn solvable(self) -> bool {
        let inv = inversions(self.cells);
        if self.size % 2 == 1 {
            inv % 2 == 0
        } else if self.blank_row() % 2 == 0 {
            inv % 2 == 1
        } else {
            inv % 2 == 0
        }
    }

    /// The board that the moves lead to, or `None` where one of them is not
    /// legal on the board it meets.
    pub open spec fn replay(self, moves: Seq<Move>) -> Option<Board>
        decreases moves.len(),
    {
        if moves.len() == 0 {
            Some(self)
        } else if self.can_move(moves[0]) {
            self.apply(moves[0]).replay(moves.skip(1))
        } else {
            None
        }
    }

    /// A well-formed board has between one and 256 cells.
    pub proof fn lemma_len(self)
        requires
            self.well_formed(),
        ensures
            1 <= self.cells.len() <= 256,
            self.cells.len() == self.size * self.size,
    {
        assert(1 <= self.size * self.size <= 256) by (nonlinear_arith)
            requires
                1 <= self.size <= 16,
        ;
    }

    /// On a well-formed board every cell is where its label is looked up.
    pub proof fn lemma_position(self, i: int)
        requires
            is_permutation(self.cells),
            0 <= i < self.cells.len(),
        ensures
            self.position(self.cells[i]) == i,
    {
        let v = self.cells[i];
        let j = self.cells.index_of(v);
        assert(0 <= j < self.cells.len() && self.cells[j] == v);
    }

    /// Every label of a well-formed board has a cell.
    pub proof fn lemma_position_of(self, v: u8)
        requires
            is_permutation(self.cells),
            (v as int) < self.cells.len(),
        ensures
            0 <= self.position(v) < self.cells.len(),
            self.cells[self.position(v)] == v,
    {
        assert(self.cells.contains(v));
    }

    /// The blank and the target of a legal move are cells of the board, in the
    /// rows and columns that the move implies.
    pub proof fn lemma_target(self, m: Move)
        requires
            self.well_formed(),
            self.can_move(m),
        ensures
            0 <= self.blank_index() < self.cells.len(),
            0 <= self.target_index(m) < self.cells.len(),
            self.target_index(m) != self.blank_index(),
            self.target_index(m) / self.size == self.blank_row() + match m {
                Move::Up => 1int,
                Move::Down => -1int,
                _ => 0int,
            },
            self.target_index(m) % self.size == self.blank_col() + match m {
                Move::Left => 1int,
                Move::Right => -1int,
                _ => 0int,
            },
    {
        let n = self.size;
        let b = self.blank_index();
        self.lemma_len();
        self.lemma_position_of(0u8);
        lemma_cell(n, b);
        let row = b / n;
        let col = b % n;
        match m {
            Move::Up => {
                lemma_row_col(n, row + 1, col);
                assert((row + 1) * n + col == b + n) by (nonlinear_arith)
                    requires
                        b == row * n + col,
                ;
                assert((row + 1) * n + col < n * n) by (nonlinear_arith)
                    requires
                        row + 1 < n,
                        0 <= col < n,
                ;
            },
            Move::Down => {
                lemma_row_col(n, row - 1, col);
                assert((row - 1) * n + col == b - n) by (nonlinear_arith)
                    requires
                        b == row * n + col,
                ;
                assert((row - 1) * n + col >= 0) by (nonlinear_arith)
                    requires
                        row - 1 >= 0,
                        0 <= col < n,
                ;
            },
            Move::Left => {
                lemma_row_col(n, row, col + 1);
                assert(row * n + col + 1 < n * n) by (nonlinear_arith)
                    requires
                        0 <= row < n,
                        0 <= col + 1 < n,
                ;
            },
            Move::Right => {
                lemma_row_col(n, row, col - 1);
                assert(row * n + col - 1 >= 0) by (nonlinear_arith)
                    requires
                        0 <= row < n,
                        0 <= col - 1,
                        n > 0,
                ;
            },
        }
    }

    /// A legal move leaves a well-formed board, with the blank on the target.
    pub proof fn lemma_apply(self, m: Move)
        requires
            self.well_formed(),
            self.can_move(m),
        ensures
            self.apply(m).well_formed(),
            self.apply(m).blank_index() == self.target_index(m),
            self.apply(m).cells[self.blank_index()] == self.cells[self.target_index(m)],
            self.cells[self.target_index(m)] != 0,
    {
        self.lemma_target(m);
        let b = self.blank_index();
        let t = self.target_index(m);
        let after = self.apply(m);
        self.lemma_len();
        self.lemma_position_of(0u8);
        lemma_swap_permutation(self.cells, b, t);
        assert(after.cells =~= swapped(self.cells, b, t));
        after.lemma_position(t);
    }
}

/// A legal move can be taken back: its inverse is legal on the board that it
/// leaves, and leads back to the board it was made on.
pub proof fn lemma_move_reversible(board: Board, m: Move)
    requires
        board.well_formed(),
        board.can_move(m),
    ensures
        board.apply(m).can_move(m.inverse()),
        board.apply(m).apply(m.inverse()) == board,
{
    board.lemma_len();
    board.lemma_target(m);
    board.lemma_apply(m);
    board.lemma_position_of(0u8);
    let after = board.apply(m);
    lemma_cell(board.size, board.blank_index());
    assert(after.target_index(m.inverse()) == board.blank_index());
    assert(after.apply(m.inverse()).cells =~= board.cells);
}

/// Replaying moves on a well-formed board ends on a well-formed board of the
/// same size.
pub proof fn lemma_replay_well_formed(board: Board, moves: Seq<Move>)
    requires
        board.well_formed(),
        board.replay(moves) is Some,
    ensures
        board.replay(moves).unwrap().well_formed(),
        board.replay(moves).unwrap().size == board.size,
    decreases moves.len(),
{
    if moves.len() > 0 {
        board.lemma_apply(moves[0]);
        lemma_replay_well_formed(board.apply(moves[0]), moves.skip(1));
    }
}

/// Replaying two sequences one after the other is replaying the second on
/// the board that the first leads to.
pub proof fn lemma_replay_concat(board: Board, first: Seq<Move>, second: Seq<Move>)
    ensures
        board.replay(first + second) == match board.replay(first) {
            Some(mid) => mid.replay(second),
            None => None,
        },
    decreases first.len(),
{
    if first.len() == 0 {
        assert(first + second =~= second);
    } else {
        assert((first + second).skip(1) =~= first.skip(1) + second);
        if board.can_move(first[0]) {
            lemma_replay_concat(board.apply(first[0]), first.skip(1), second);
        }
    }
}

/// One more move at the end is one more step from where the others lead.
pub proof fn lemma_replay_push(board: Board, moves: Seq<Move>, m: Move)
    ensures
        board.replay(moves.push(m)) == match board.replay(moves) {
            Some(mid) => if mid.can_move(m) {
                Some(mid.apply(m))
            } else {
                None
            },
            None => None,
        },
{
    lemma_replay_concat(board, moves, seq![m]);
    assert(moves.push(m) =~= moves + seq![m]);
    if let Some(mid) = board.replay(moves) {
        let one = seq![m];
        assert(one.skip(1) =~= Seq::<Move>::empty());
        if mid.can_move(m) {
            assert(mid.apply(m).replay(one.skip(1)) == Some(mid.apply(m)));
        }
    }
}

/// Exchanging two entries keeps a permutation a permutation.
pub proof fn lemma_swap_permutation(cells: Seq<u8>, a: int, b: int)
    requires
        is_permutation(cells),
        0 <= a < cells.len(),
        0 <= b < cells.len(),
    ensures
        is_permutation(swapped(cells, a, b)),
{
    let s = swapped(cells, a, b);
    assert forall|v: u8| (v as int) < s.len() implies #[trigger] s.contains(v) by {
        assert(cells.contains(v));
        let i = choose|i: int| 0 <= i < cells.len() && cells[i] == v;
        let j = if i == a {
            b
        } else if i == b {
            a
        } else {
            i
        };
        assert(s[j] == v);
    }
}

impl View for NPuzzle {
    type V = Board;

    open spec fn view(&self) -> Board {
        Board { size: self.size as int, cells: self.board@ }
    }
}

/// The first index at which `value` lies in `board`, if it lies anywhere.
fn first_index(board: &Vec<u8>, value: u8) -> (r: Option<usize>)
    ensures
        match r {
            Some(i) => i < board.len() && board[i as int] == value && forall|j: int|
                0 <= j < i ==> board[j] != value,
            None => !board@.contains(value),
        },
{
    let mut i: usize = 0;
    while i < board.len()
        invariant
            i <= board.len(),
            forall|j: int| 0 <= j < i ==> board[j] != value,
        decreases board.len() - i,
    {
        if board[i] == value {
            return Some(i);
        }
        i += 1;
    }
    None
}

/// Whether `board` holds each label below its length exactly once.
fn holds_each_label_once(board: &Vec<u8>) -> (r: bool)
    requires
        board.len() <= 256,
    ensures
        r == is_permutation(board@),
{
    let n = board.len();
    let mut seen: Vec<bool> = Vec::new();
    while seen.len() < n
        invariant
            seen.len() <= n,
            forall|v: int| 0 <= v < seen.len() ==> !seen[v],
        decreases n - seen.len(),
    {
        seen.push(false);
    }
    let mut i: usize = 0;
    while i < n
        invariant
            i <= n,
            n == board.len(),
            seen.len() == n,
            forall|j: int| 0 <= j < i ==> (#[trigger] board[j] as int) < n,
            forall|j: int, k: int| 0 <= j < i && 0 <= k < i && j != k ==> board[j] != board[k],
            forall|v: int|
                0 <= v < n ==> (#[trigger] seen[v] <==> exists|j: int|
                    0 <= j < i && board[j] == v),
        decreases n - i,
    {
        let label = board[i] as usize;
        if label >= n {
            return false;
        }
        if seen[label] {
            proof {
                let j = choose|j: int| 0 <= j < i && board[j] == label;
                assert(board@[j] == board@[i as int]);
            }
            return false;
        }
        seen.set(label, true);
        proof {
            assert forall|v: int| 0 <= v < n implies (#[trigger] seen[v] <==> exists|j: int|
                0 <= j < i + 1 && board[j] == v) by {
                if v == label {
                    assert(board[i as int] == v);
                }
            }
        }
        i += 1;
    }
    let mut label: usize = 0;
    while label < n
        invariant
            label <= n,
            n == board.len(),
            n <= 256,
            seen.len() == n,
            forall|v: int|
                0 <= v < n ==> (#[trigger] seen[v] <==> exists|j: int|
                    0 <= j < n && board[j] == v),
            forall|v: int| 0 <= v < label ==> seen[v],
        decreases n - label,
    {
        if !seen[label] {
            proof {
                if board@.contains(label as u8) {
                    let j = choose|j: int| 0 <= j < board@.len() && board@[j] == label as u8;
                    assert(board[j] == label as int);
                    assert(seen[label as int]);
                }
            }
            return false;
        }
        label += 1;
    }
    proof {
        assert forall|v: u8| (v as int) < board@.len() implies #[trigger] board@.contains(v) by {
            assert(seen[v as int]);
        }
    }
    true
}

/// Shuffles `board` in place with the thread-local generator of `rand`.
///
/// `SliceRandom::shuffle` does nothing but exchange entries of the slice, so
/// the contract claims that the entries after the call are those before it,
/// each as often as before; it claims nothing of their order.
#[verifier::external_body]
fn shuffle(board: &mut Vec<u8>)
    ensures
        final(board)@.to_multiset() == old(board)@.to_multiset(),
{
    board.shuffle(&mut rand::thread_rng());
}

/// Exchanges the entries at `i` and `j`.
fn swap_tiles(board: &mut Vec<u8>, i: usize, j: usize)
    requires
        i < old(board).len(),
        j < old(board).len(),
    ensures
        final(board)@ == swapped(old(board)@, i as int, j as int),
{
    let a = board[i];
    let b = board[j];
    board.set(i, b);
    board.set(j, a);
}

/// A rearrangement of a permutation is a permutation.
pub proof fn lemma_permutation_rearranged(a: Seq<u8>, b: Seq<u8>)
    requires
        is_permutation(a),
        a.to_multiset() == b.to_multiset(),
    ensures
        is_permutation(b),
        a.len() == b.len(),
{
    a.to_multiset_ensures();
    b.to_multiset_ensures();
    assert(a.no_duplicates());
    a.lemma_multiset_has_no_duplicates();
    b.lemma_multiset_has_no_duplicates_conv();
    assert forall|i: int| 0 <= i < b.len() implies (#[trigger] b[i] as int) < b.len() by {
        assert(b.contains(b[i]));
        assert(b.to_multiset().count(b[i]) > 0);
        assert(a.to_multiset().count(b[i]) > 0);
        assert(a.contains(b[i]));
        let j = choose|j: int| 0 <= j < a.len() && a[j] == b[i];
        assert((a[j] as int) < a.len());
    }
    assert forall|v: u8| (v as int) < b.len() implies #[trigger] b.contains(v) by {
        assert(a.contains(v));
        assert(a.to_multiset().count(v) > 0);
        assert(b.to_multiset().count(v) > 0);
    }
}

/// What is wrong with `cells` as the tiles of a board of side `size`, if
/// anything is: a length other than `size * size`, then a missing blank,
/// then a side over the limit or tiles that are no permutation.
pub open spec fn tiles_error(size: int, cells: Seq<u8>) -> Option<ParseError> {
    if cells.len() != size * size {
        Some(ParseError::RowCount)
    } else if !cells.contains(0u8) {
        Some(ParseError::MissingBlank)
    } else if size > MAX_SIZE || !is_permutation(cells) {
        Some(ParseError::InvalidTiles)
    } else {
        None
    }
}

impl Clone for NPuzzle {
    fn clone(&self) -> (r: Self)
        ensures
            r@ == self@,
            r.blank_pos == self.blank_pos,
    {
        NPuzzle { size: self.size, board: self.board.clone(), blank_pos: self.blank_pos }
    }
}

impl NPuzzle {
    /// The tiles form a permutation and `blank_pos` is where the `0` lies.
    pub open spec fn well_formed(&self) -> bool {
        &&& self@.well_formed()
        &&& self.blank_pos.x == self@.blank_col()
        &&& self.blank_pos.y == self@.blank_row()
    }

    /// A random solvable board of the given side.
    pub fn new(size: u8) -> (r: Self)
        requires
            1 <= size <= MAX_SIZE,
        ensures
            r.well_formed(),
            r.size == size,
            r@.solvable(),
    {
        NPuzzle::generate_random(size, true)
    }

    /// A random board of the given side that passes the parity test or fails
    /// it, as `solvable` asks. The tiles are shuffled; where the outcome of
    /// the test is not the one asked for, the first two cells trade places,
    /// or the last two where the blank lies in one of the first two.
    pub fn generate_random(size: u8, solvable: bool) -> (r: Self)
        requires
            1 <= size <= MAX_SIZE,
            size >= 2 || solvable,
        ensures
            r.well_formed(),
            r.size == size,
            r@.solvable() == solvable,
    {
        assert(1 <= size * size <= 256 && (size >= 2 ==> size * size >= 4)) by (nonlinear_arith)
            requires
                1 <= size <= 16,
        ;
        let total_elements = size as usize * size as usize;
        let mut board: Vec<u8> = Vec::new();
        let mut label: usize = 0;
        while label < total_elements
            invariant
                label <= total_elements,
                total_elements <= 256,
                board.len() == label,
                forall|j: int| 0 <= j < label ==> board[j] == j,
            decreases total_elements - label,
        {
            board.push(label as u8);
            label += 1;
        }
        let ghost ordered = board@;
        proof {
            assert forall|v: u8| (v as int) < ordered.len() implies #[trigger] ordered.contains(
                v,
            ) by {
                assert(ordered[v as int] == v);
            }
        }
        shuffle(&mut board);
        proof {
            lemma_permutation_rearranged(ordered, board@);
        }
        let blank_pos = match NPuzzle::find_blank(&board, size) {
            Some(blank_pos) => blank_pos,
            None => {
                proof {
                    assert(board@.contains(0u8));
                }
                Point { x: 0, y: 0 }
            },
        };
        let mut npuzzle = NPuzzle { size, board, blank_pos };
        proof {
            let i = choose|i: int|
                0 <= i < npuzzle.board.len() && npuzzle.board[i] == 0 && blank_pos.x == i % (
                size as int) && blank_pos.y == i / (size as int);
            npuzzle@.lemma_position(i);
        }
        let is_solvable = npuzzle.is_solvable();
        if solvable != is_solvable {
            let ghost before = npuzzle@;
            proof {
                if size == 1 {
                    assert(inversions_between(before.cells, 0, 0) == 0);
                    assert(count_exceeded(before.cells, before.cells[0], 1, 1) == 0);
                    assert(inversions(before.cells) == 0);
                }
            }
            if npuzzle.board[0] != 0 && npuzzle.board[1] != 0 {
                proof {
                    lemma_swap_tiles_flips_solvable(before, 0, 1);
                }
                swap_tiles(&mut npuzzle.board, 0, 1);
            } else {
                proof {
                    lemma_swap_tiles_flips_solvable(
                        before,
                        total_elements - 1,
                        total_elements - 2,
                    );
                }
                swap_tiles(&mut npuzzle.board, total_elements - 1, total_elements - 2);
            }
        }
        npuzzle
    }

    /// The puzzle with the given side and tiles, or the reason why they make
    /// no board.
    pub fn from_tiles(size: u8, board: Vec<u8>) -> (r: Result<NPuzzle, ParseError>)
        ensures
            match r {
                Ok(npuzzle) => {
                    &&& tiles_error(size as int, board@) is None
                    &&& npuzzle.well_formed()
                    &&& npuzzle@ == (Board { size: size as int, cells: board@ })
                },
                Err(e) => tiles_error(size as int, board@) == Some(e),
            },
            (Board { size: size as int, cells: board@ }).well_formed() <==> r is Ok,
    {
        assert(size * size <= 255 * 255) by (nonlinear_arith)
            requires
                size <= 255,
        ;
        let n = size as usize * size as usize;
        if board.len() != n {
            return Err(ParseError::RowCount);
        }
        if size == 0 {
            return Err(ParseError::MissingBlank);
        }
        if first_index(&board, 0).is_none() {
            proof {
                let candidate = Board { size: size as int, cells: board@ };
                if candidate.well_formed() {
                    candidate.lemma_len();
                    assert(candidate.cells.contains(0u8));
                }
            }
            return Err(ParseError::MissingBlank);
        }
        if size > MAX_SIZE {
            return Err(ParseError::InvalidTiles);
        }
        assert(size * size <= 256) by (nonlinear_arith)
            requires
                size <= 16,
        ;
        if !holds_each_label_once(&board) {
            return Err(ParseError::InvalidTiles);
        }
        let blank_pos = match NPuzzle::find_blank(&board, size) {
            Some(blank_pos) => blank_pos,
            None => {
                return Err(ParseError::MissingBlank);
            },
        };
        let npuzzle = NPuzzle { size, board, blank_pos };
        proof {
            let i = choose|i: int|
                0 <= i < board.len() && board[i] == 0 && blank_pos.x == i % (size as int)
                    && blank_pos.y == i / (size as int);
            npuzzle@.lemma_position(i);
        }
        Ok(npuzzle)
    }

    /// Where the first `0` of `board` lies on a grid with `size` columns.
    fn find_blank(board: &Vec<u8>, size: u8) -> (r: Option<Point>)
        requires
            size > 0,
            board.len() <= 256,
        ensures
            match r {
                Some(p) => exists|i: int|
                    0 <= i < board.len() && board[i] == 0 && p.x == i % (size as int) && p.y == i
                        / (size as int) && forall|j: int| 0 <= j < i ==> board[j] != 0,
                None => !board@.contains(0u8),
            },
    {
        let mut i: usize = 0;
        while i < board.len()
            invariant
                i <= board.len(),
                board.len() <= 256,
                size > 0,
                forall|j: int| 0 <= j < i ==> board[j] != 0,
            decreases board.len() - i,
        {
            if board[i] == 0 {
                let x = (i % size as usize) as u8;
                let y = (i / size as usize) as u8;
                return Some(Point { x, y });
            }
            i += 1;
        }
        None
    }

    /// The solved board of the given side length.
    pub fn goal_board(size: u8) -> (r: NPuzzle)
        requires
            1 <= size <= MAX_SIZE,
        ensures
            r@ == Board::goal(size as int),
            r@.is_goal(),
            r.well_formed(),
    {
        assert(1 <= size * size <= 256) by (nonlinear_arith)
            requires
                1 <= size <= 16,
        ;
        let n: usize = size as usize * size as usize;
        let mut board: Vec<u8> = Vec::new();
        let mut i: usize = 1;
        while i < n
            invariant
                1 <= i <= n,
                n == size * size,
                n <= 256,
                board.len() == i - 1,
                forall|j: int| 0 <= j < i - 1 ==> board[j] == j + 1,
            decreases n - i,
        {
            board.push(i as u8);
            i += 1;
        }
        board.push(0);
        let r = NPuzzle { size, board, blank_pos: Point { x: size - 1, y: size - 1 } };
        proof {
            assert(r@.cells =~= Board::goal(size as int).cells);
            lemma_goal_well_formed(size as int);
        }
        r
    }

    /// Whether `movement` keeps the blank on the board.
    pub fn can_move(&self, movement: Move) -> (r: bool)
        requires
            self.well_formed(),
        ensures
            r == self@.can_move(movement),
    {
        match movement {
            Move::Up => self.blank_pos.y != self.size - 1,
            Move::Down => self.blank_pos.y != 0,
            Move::Left => self.blank_pos.x != self.size - 1,
            Move::Right => self.blank_pos.x != 0,
        }
    }

    /// Swaps the blank with its neighbour in the direction of `movement`, or
    /// fails and leaves the board as it was.
    pub fn apply_move(&mut self, movement: Move) -> (r: Result<(), PuzzleError>)
        requires
            old(self).well_formed(),
        ensures
            final(self).well_formed(),
            old(self)@.can_move(movement) ==> r is Ok && final(self)@ == old(self)@.apply(movement),
            !old(self)@.can_move(movement) ==> r == Err::<(), PuzzleError>(PuzzleError::InvalidMove)
                && *final(self) == *old(self),
    {
        if !self.can_move(movement) {
            return Err(PuzzleError::InvalidMove);
        }
        proof {
            self@.lemma_len();
            self@.lemma_target(movement);
            self@.lemma_apply(movement);
            self@.lemma_position_of(0u8);
            lemma_cell(self.size as int, self@.blank_index());
            lemma_cell(self.size as int, self@.target_index(movement));
        }
        let blank_pos = self.blank_pos;
        let (swap_x, swap_y): (u8, u8) = match movement {
            Move::Up => (blank_pos.x, blank_pos.y + 1),
            Move::Down => (blank_pos.x, blank_pos.y - 1),
            Move::Left => (blank_pos.x + 1, blank_pos.y),
            Move::Right => (blank_pos.x - 1, blank_pos.y),
        };
        let size = self.size as usize;
        assert(swap_y * size + swap_x == self@.target_index(movement)) by (nonlinear_arith)
            requires
                swap_y == self@.target_index(movement) / (size as int),
                swap_x == self@.target_index(movement) % (size as int),
                self@.target_index(movement) == (self@.target_index(movement) / (size as int))
                    * size + self@.target_index(movement) % (size as int),
        ;
        assert(blank_pos.y * size + blank_pos.x == self@.blank_index()) by (nonlinear_arith)
            requires
                blank_pos.y == self@.blank_index() / (size as int),
                blank_pos.x == self@.blank_index() % (size as int),
                self@.blank_index() == (self@.blank_index() / (size as int)) * size
                    + self@.blank_index() % (size as int),
        ;
        let swap_index = swap_y as usize * size + swap_x as usize;
        let blank_index = blank_pos.y as usize * size + blank_pos.x as usize;
        let tile = self.board[swap_index];
        self.board.set(blank_index, tile);
        self.board.set(swap_index, 0);
        self.blank_pos = Point { x: swap_x, y: swap_y };
        Ok(())
    }

    /// The number of pairs of tiles that stand in the wrong order.
    fn inversion_count(&self) -> (r: u32)
        requires
            self.board.len() <= 0x1_0000,
        ensures
            r == inversions(self.board@),
    {
        let n = self.board.len();
        let mut count: u32 = 0;
        let mut i: usize = 0;
        while i < n
            invariant
                i <= n,
                n == self.board.len(),
                n <= 0x1_0000,
                count == inversions_between(self.board@, 0, i as int),
                count <= i * 0x1_0000,
            decreases n - i,
        {
            let mut row: u32 = 0;
            let mut j: usize = i + 1;
            while j < n
                invariant
                    i < n,
                    i + 1 <= j <= n,
                    n == self.board.len(),
                    n <= 0x1_0000,
                    row == count_exceeded(self.board@, self.board[i as int], i + 1, j as int),
                    row <= j - i - 1,
                decreases n - j,
            {
                let val_i = self.board[i];
                let val_j = self.board[j];
                if val_i != 0 && val_j != 0 && val_i > val_j {
                    row = row + 1;
                }
                j += 1;
            }
            count = count + row;
            i += 1;
        }
        count
    }

    /// Whether the board can be solved, decided by the parity test: for an odd
    /// side the inversion count is even; for an even side it is odd where the
    /// blank lies in an even row (counted from the top, from zero) and even
    /// where it lies in an odd row.
    pub fn is_solvable(&self) -> (r: bool)
        requires
            self.well_formed(),
        ensures
            r == self@.solvable(),
            r <==> exists|moves: Seq<Move>| solves(self@, moves),
    {
        proof {
            self@.lemma_len();
            lemma_solvable_iff_solved(self@);
        }
        let inversion_count = self.inversion_count();
        let size = self.size;
        if size % 2 == 1 {
            inversion_count % 2 == 0
        } else if self.blank_pos.y % 2 == 0 {
            inversion_count % 2 == 1
        } else {
            inversion_count % 2 == 0
        }
    }

    /// The first index at which `value` lies, if it lies anywhere.
    pub fn find_index(&self, value: u8) -> (r: Option<usize>)
        ensures
            match r {
                Some(i) => i < self.board.len() && self.board[i as int] == value
                    && forall|j: int| 0 <= j < i ==> self.board[j] != value,
                None => !self.board@.contains(value),
            },
    {
        first_index(&self.board, value)
    }
}

/// The solved board is well formed, with the blank in the last cell.
pub proof fn lemma_goal_well_formed(size: int)
    requires
        1 <= size <= MAX_SIZE,
    ensures
        Board::goal(size).well_formed(),
        Board::goal(size).blank_index() == size * size - 1,
        Board::goal(size).blank_row() == size - 1,
        Board::goal(size).blank_col() == size - 1,
{
    let g = Board::goal(size);
    let n = size * size;
    assert(1 <= n <= 256) by (nonlinear_arith)
        requires
            1 <= size <= 16,
            n == size * size,
    ;
    assert forall|v: u8| (v as int) < g.cells.len() implies #[trigger] g.cells.contains(v) by {
        if v == 0 {
            assert(g.cells[n - 1] == v);
        } else {
            assert(g.cells[v - 1] == v);
        }
    }
    g.lemma_position(n - 1);
    lemma_row_col(size, size - 1, size - 1);
    assert((size - 1) * size + (size - 1) == n - 1) by (nonlinear_arith)
        requires
            n == size * size,
    ;
}

} // verus!
