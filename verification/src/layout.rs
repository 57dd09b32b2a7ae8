//! Arithmetic facts about flat row-major buffers.
//!
//! A buffer of `rows * cols` bytes stores row `r` at offsets
//! `r * cols .. (r + 1) * cols`; the byte at row `r`, column `c` lives at
//! offset `r * cols + c`. The encoder, the recoder and the decoder matrix
//! all use this layout.

use vstd::prelude::*;

verus! {

/// An in-range row and column index lands strictly inside the buffer, and
/// the row itself ends within it.
pub proof fn lemma_flat_index(r: int, c: int, rows: int, cols: int)
    requires
        0 <= r < rows,
        0 <= c < cols,
    ensures
        0 <= r * cols,
        r * cols + c < rows * cols,
        r * cols + cols <= rows * cols,
{
    assert(0 <= r * cols && r * cols + cols <= rows * cols) by (nonlinear_arith)
        requires
            0 <= r < rows,
            0 < cols,
    ;
}

/// Growing a flat buffer by one row of `cols` bytes matches the product
/// with one more row.
pub proof fn lemma_row_extend(rows: int, cols: int)
    requires
        0 <= rows,
        0 <= cols,
    ensures
        rows * cols + cols == (rows + 1) * cols,
        0 <= rows * cols,
{
    assert(rows * cols + cols == (rows + 1) * cols && 0 <= rows * cols) by (nonlinear_arith)
        requires
            0 <= rows,
            0 <= cols,
    ;
}

/// Two distinct rows of a flat buffer occupy disjoint byte ranges.
pub proof fn lemma_rows_disjoint(r1: int, r2: int, cols: int)
    requires
        0 <= r1,
        0 <= r2,
        r1 != r2,
        cols >= 1,
    ensures
        r1 < r2 ==> r1 * cols + cols <= r2 * cols,
        r2 < r1 ==> r2 * cols + cols <= r1 * cols,
{
    assert((r1 < r2 ==> r1 * cols + cols <= r2 * cols) && (r2 < r1 ==> r2 * cols + cols <= r1
        * cols)) by (nonlinear_arith)
        requires
            0 <= r1,
            0 <= r2,
            r1 != r2,
            cols >= 1,
    ;
}

/// The view of a vector never exceeds the machine's index range.
pub proof fn lemma_vec_len_bound(v: &Vec<u8>)
    ensures
        v@.len() <= usize::MAX,
{
    vstd::std_specs::vec::axiom_spec_len(v);
}

} // verus!
