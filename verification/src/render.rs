use vstd::prelude::*;
use crate::npuzzle::{Board, NPuzzle};

verus! {

/// `String::push` appends the character to the end of the string; the
/// contract claims that and no more.
pub assume_specification[ String::push ](s: &mut String, c: char)
    ensures
        final(s)@ == old(s)@.push(c),
;

/// The glyph that stands for the blank.
pub const BLANK_GLYPH: char = '\u{25a0}';

/// The width of a cell in the rendering.
pub const CELL_WIDTH: usize = 4;

/// `count` copies of `c`.
pub open spec fn repeated(c: char, count: int) -> Seq<char> {
    Seq::new(count as nat, |i: int| c)
}

/// The character of the decimal digit `d`.
pub open spec fn digit_glyph(d: u8) -> char {
    (48 + d) as char
}

/// The label of a tile in decimal, the blank as its glyph.
pub open spec fn label_text(v: u8) -> Seq<char> {
    if v == 0 {
        seq![BLANK_GLYPH]
    } else if v < 10 {
        seq![digit_glyph(v)]
    } else if v < 100 {
        seq![digit_glyph(v / 10), digit_glyph(v % 10)]
    } else {
        seq![digit_glyph(v / 100), digit_glyph((v / 10) % 10), digit_glyph(v % 10)]
    }
}

/// The label flushed right in a cell: spaces on the left up to the width.
pub open spec fn cell_text(v: u8) -> Seq<char> {
    repeated(' ', CELL_WIDTH - label_text(v).len()) + label_text(v)
}

/// The first `k` cells of the row that starts at the cell `first`.
pub open spec fn cells_text(cells: Seq<u8>, first: int, k: int) -> Seq<char>
    decreases k,
{
    if k <= 0 {
        Seq::empty()
    } else {
        cells_text(cells, first, k - 1) + cell_text(cells[first + k - 1])
    }
}

/// The first `k` rows, each closed by an empty line.
pub open spec fn rows_text(board: Board, k: int) -> Seq<char>
    decreases k,
{
    if k <= 0 {
        Seq::empty()
    } else {
        rows_text(board, k - 1) + cells_text(board.cells, (k - 1) * board.size, board.size)
            + seq!['\n', '\n']
    }
}

/// The board as text: a rule of `4 * size + 3` dashes and an empty line,
/// then the rows, each cell four wide with its label flushed right, and an
/// empty line after each row.
pub open spec fn rendering(board: Board) -> Seq<char> {
    repeated('-', 4 * board.size + 3) + seq!['\n', '\n'] + rows_text(board, board.size)
}

fn push_repeated(text: &mut String, c: char, count: usize)
    ensures
        final(text)@ == old(text)@ + repeated(c, count as int),
{
    let mut i: usize = 0;
    proof {
        assert(text@ =~= old(text)@ + repeated(c, 0));
    }
    while i < count
        invariant
            i <= count,
            text@ == old(text)@ + repeated(c, i as int),
        decreases count - i,
    {
        text.push(c);
        i += 1;
        proof {
            assert(text@ =~= old(text)@ + repeated(c, i as int));
        }
    }
}

fn digit_char(d: u8) -> (c: char)
    requires
        d < 10,
    ensures
        c == digit_glyph(d),
{
    (48 + d) as char
}

fn push_cell(text: &mut String, v: u8)
    ensures
        final(text)@ == old(text)@ + cell_text(v),
{
    if v == 0 {
        push_repeated(text, ' ', 3);
        text.push(BLANK_GLYPH);
    } else if v < 10 {
        push_repeated(text, ' ', 3);
        text.push(digit_char(v));
    } else if v < 100 {
        push_repeated(text, ' ', 2);
        text.push(digit_char(v / 10));
        text.push(digit_char(v % 10));
    } else {
        push_repeated(text, ' ', 1);
        text.push(digit_char(v / 100));
        text.push(digit_char((v / 10) % 10));
        text.push(digit_char(v % 10));
    }
    proof {
        assert(text@ =~= old(text)@ + cell_text(v));
    }
}

impl NPuzzle {
    /// The board as text, for display.
    pub fn render(&self) -> (r: String)
        requires
            self.well_formed(),
        ensures
            r@ == rendering(self@),
    {
        proof {
            self@.lemma_len();
        }
        let size = self.size as usize;
        let mut text = String::new();
        push_repeated(&mut text, '-', size * 4 + 3);
        text.push('\n');
        text.push('\n');
        let ghost head = text@;
        proof {
            assert(head =~= repeated('-', 4 * self@.size + 3) + seq!['\n', '\n']);
            assert(text@ =~= head + rows_text(self@, 0));
        }
        let mut i: usize = 0;
        while i < size
            invariant
                i <= size,
                size == self.size,
                self.well_formed(),
                self.board.len() == size * size,
                text@ == head + rows_text(self@, i as int),
            decreases size - i,
        {
            let ghost before = text@;
            let mut j: usize = 0;
            proof {
                assert(text@ =~= before + cells_text(self.board@, i * size, 0));
                assert(i * size + size <= size * size) by (nonlinear_arith)
                    requires
                        i < size,
                ;
            }
            while j < size
                invariant
                    j <= size,
                    i < size,
                    i * size + size <= size * size,
                    self.board.len() == size * size,
                    text@ == before + cells_text(self.board@, i * size, j as int),
                decreases size - j,
            {
                let value = self.board[i * size + j];
                let ghost row = text@;
                push_cell(&mut text, value);
                j += 1;
                proof {
                    assert(text@ =~= before + cells_text(self.board@, i * size, j as int));
                }
            }
            text.push('\n');
            text.push('\n');
            i += 1;
            proof {
                assert(text@ =~= head + rows_text(self@, i as int));
            }
        }
        text
    }
}

} // verus!
