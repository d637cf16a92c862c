//! A dense row-major integer matrix, the carrier for the difference operator
//! and the penalty Gram matrix.

use vstd::prelude::*;

verus! {

/// A dense matrix of exact integer entries, stored row by row.
///
/// Entries are `i128` so that every value arising in the operator
/// construction (binomial stencil coefficients and their Gram products) is
/// exactly representable for every supported order.
#[derive(Debug)]
pub struct Matrix {
    rows: usize,
    cols: usize,
    data: Vec<Vec<i128>>,
}

impl Matrix {
    /// Structural well-formedness: one inner vector per row, each of width
    /// `cols`.
    pub closed spec fn wf(&self) -> bool {
        &&& self.data@.len() == self.rows
        &&& forall|r: int| 0 <= r < self.rows ==> self.data@[r]@.len() == self.cols
    }

    /// The entry at row `r`, column `c`, as a mathematical integer.
    pub closed spec fn entry_spec(&self, r: int, c: int) -> int {
        self.data@[r]@[c] as int
    }

    pub closed spec fn rows_spec(&self) -> int {
        self.rows as int
    }

    pub closed spec fn cols_spec(&self) -> int {
        self.cols as int
    }

    /// Wrap a row-major vector of rows as a matrix.
    pub fn from_rows(rows: usize, cols: usize, data: Vec<Vec<i128>>) -> (m: Matrix)
        requires
            data@.len() == rows,
            forall|r: int| 0 <= r < rows ==> data@[r]@.len() == cols,
        ensures
            m.wf(),
            m.rows_spec() == rows,
            m.cols_spec() == cols,
            forall|r: int, c: int|
                0 <= r < rows && 0 <= c < cols ==> m.entry_spec(r, c) == data@[r]@[c],
    {
        Matrix { rows, cols, data }
    }

    /// The number of rows.
    pub fn rows(&self) -> (n: usize)
        ensures
            n == self.rows_spec(),
    {
        self.rows
    }

    /// The number of columns.
    pub fn cols(&self) -> (n: usize)
        ensures
            n == self.cols_spec(),
    {
        self.cols
    }

    /// The entry at row `r`, column `c`.
    pub fn entry(&self, r: usize, c: usize) -> (v: i128)
        requires
            self.wf(),
            r < self.rows_spec(),
            c < self.cols_spec(),
        ensures
            v == self.entry_spec(r as int, c as int),
    {
        self.data[r][c]
    }
}

} // verus!
