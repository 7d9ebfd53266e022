//! Row-major image geometry: the arithmetic shared by everything that walks a
//! two-dimensional image stored as one flat sequence.

use vstd::prelude::*;

verus! {

/// The position of cell `(r, c)` in a row-major image of `cols` columns.
pub open spec fn flat(r: int, c: int, cols: int) -> int {
    r * cols + c
}

/// The position of a cell determines its row and its column.
pub proof fn lemma_flat_inverse(r: int, c: int, cols: int)
    requires
        0 <= c < cols,
    ensures
        flat(r, c, cols) / cols == r,
        flat(r, c, cols) % cols == c,
{
    vstd::arithmetic::div_mod::lemma_fundamental_div_mod_converse(flat(r, c, cols), cols, r, c);
}

/// Every position is the position of its own row and column.
pub proof fn lemma_flat_of(i: int, cols: int)
    requires
        cols > 0,
    ensures
        flat(i / cols, i % cols, cols) == i,
        0 <= i % cols < cols,
{
    vstd::arithmetic::div_mod::lemma_fundamental_div_mod(i, cols);
    assert((i / cols) * cols == cols * (i / cols)) by (nonlinear_arith);
}

/// A cell inside the image has a position inside the flat sequence.
pub proof fn lemma_flat_bound(r: int, c: int, rows: int, cols: int)
    requires
        0 <= r < rows,
        0 <= c < cols,
    ensures
        0 <= flat(r, c, cols) < rows * cols,
        0 <= r * cols,
        r * cols + cols <= rows * cols,
{
    assert(r * cols + cols == (r + 1) * cols) by (nonlinear_arith);
    assert((r + 1) * cols <= rows * cols) by (nonlinear_arith)
        requires
            r + 1 <= rows,
            0 < cols,
    ;
    assert(0 <= r * cols) by (nonlinear_arith)
        requires
            0 <= r,
            0 < cols,
    ;
}

/// A position inside the flat sequence has a row and a column inside the image.
pub proof fn lemma_flat_cell(i: int, rows: int, cols: int)
    requires
        0 <= i < rows * cols,
        0 <= cols,
    ensures
        0 < cols,
        0 <= i / cols < rows,
        0 <= i % cols < cols,
        flat(i / cols, i % cols, cols) == i,
{
    if cols == 0 {
        assert(rows * cols == 0) by (nonlinear_arith)
            requires
                cols == 0,
        ;
    }
    lemma_flat_of(i, cols);
    let r = i / cols;
    if r < 0 {
        assert(r * cols <= -cols) by (nonlinear_arith)
            requires
                r <= -1,
                cols > 0,
        ;
    }
    if r >= rows {
        assert(r * cols >= rows * cols) by (nonlinear_arith)
            requires
                r >= rows,
                cols > 0,
        ;
    }
}

/// Positions are ordered by row, and within a row by column.
pub proof fn lemma_flat_order(i: int, j: int, cols: int)
    requires
        cols > 0,
    ensures
        i < j <==> i / cols < j / cols || (i / cols == j / cols && i % cols < j % cols),
{
    lemma_flat_of(i, cols);
    lemma_flat_of(j, cols);
    let a = i / cols;
    let b = j / cols;
    if a < b {
        assert(b * cols >= a * cols + cols) by (nonlinear_arith)
            requires
                b >= a + 1,
                cols > 0,
        ;
    } else if a > b {
        assert(a * cols >= b * cols + cols) by (nonlinear_arith)
            requires
                a >= b + 1,
                cols > 0,
        ;
    }
}

} // verus!
