use vstd::prelude::*;
use vstd::arithmetic::div_mod::{lemma_fundamental_div_mod, lemma_fundamental_div_mod_converse};

verus! {

/// The distance between two numbers.
pub open spec fn abs_diff(a: int, b: int) -> int {
    if a >= b {
        a - b
    } else {
        b - a
    }
}

/// The L1 distance between the cells with row-major indices `a` and `b` on a
/// grid with `size` columns.
pub open spec fn grid_distance(size: int, a: int, b: int) -> int {
    abs_diff(a % size, b % size) + abs_diff(a / size, b / size)
}

/// A row-major index splits into a row and a column below `size`.
pub proof fn lemma_cell(size: int, idx: int)
    requires
        size > 0,
        0 <= idx < size * size,
    ensures
        0 <= idx / size < size,
        0 <= idx % size < size,
        idx == (idx / size) * size + idx % size,
{
    lemma_fundamental_div_mod(idx, size);
    assert(0 <= idx % size < size);
    let q = idx / size;
    assert(size * q == q * size) by (nonlinear_arith);
    assert(q >= 0) by (nonlinear_arith)
        requires
            size > 0,
            idx >= 0,
            q == idx / size,
    ;
    assert(q < size) by (nonlinear_arith)
        requires
            size > 0,
            q * size <= idx,
            idx < size * size,
    ;
}

/// Row and column determine the row-major index, and the other way round.
pub proof fn lemma_row_col(size: int, row: int, col: int)
    requires
        size > 0,
        0 <= col < size,
    ensures
        (row * size + col) / size == row,
        (row * size + col) % size == col,
{
    lemma_fundamental_div_mod_converse(row * size + col, size, row, col);
}

} // verus!
