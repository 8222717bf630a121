use vstd::prelude::*;
use ndarray::Array2;
use crate::tax::Tax;

verus! {

/// The tableau's numbers, held by `ndarray` in one dense row-major buffer.
#[verifier::external_body]
pub struct Matrix {
    inner: Array2<Tax>,
}

/// The rows of a matrix, top to bottom.
pub uninterp spec fn matrix_rows(m: Matrix) -> Seq<Seq<Tax>>;

impl View for Matrix {
    type V = Seq<Seq<Tax>>;

    open spec fn view(&self) -> Seq<Seq<Tax>> {
        matrix_rows(*self)
    }
}

/// The entries of each row of `rows`.
pub open spec fn rows_view(rows: Seq<Vec<Tax>>) -> Seq<Seq<Tax>> {
    rows.map_values(|v: Vec<Tax>| v@)
}

impl Matrix {
    /// Relies on `ndarray::Array2::from_shape_vec`: the rows, laid end to end,
    /// are read back in row-major order in the shape `(rows, ncols)`; with
    /// every row `ncols` long the shape matches and no error comes.
    #[verifier::external_body]
    pub fn from_rows(rows: Vec<Vec<Tax>>, ncols: usize) -> (m: Matrix)
        requires
            rows@.len() >= 1,
            forall|i: int| 0 <= i < rows@.len() ==> (#[trigger] rows@[i])@.len() == ncols,
        ensures
            matrix_rows(m) == rows_view(rows@),
    {
        let nrows = rows.len();
        Matrix { inner: Array2::from_shape_vec((nrows, ncols), rows.concat()).unwrap() }
    }

    /// Relies on indexing `ndarray::Array2` by `(row, column)`.
    #[verifier::external_body]
    pub fn get(&self, i: usize, j: usize) -> (r: Tax)
        requires
            i < self@.len(),
            j < self@[i as int].len(),
        ensures
            r == self@[i as int][j as int],
    {
        self.inner[(i, j)]
    }

    /// Relies on `ndarray::Array2::row` and `ArrayView1::to_vec`: the entries
    /// of row `i` in order.
    #[verifier::external_body]
    pub fn row(&self, i: usize) -> (r: Vec<Tax>)
        requires
            i < self@.len(),
        ensures
            r@ == self@[i as int],
    {
        self.inner.row(i).to_vec()
    }

    /// Relies on `ndarray::Array2::nrows`.
    #[verifier::external_body]
    pub fn nrows(&self) -> (r: usize)
        ensures
            r == matrix_rows(*self).len(),
    {
        self.inner.nrows()
    }

    /// Relies on `ndarray::Array2::ncols`: the array is rectangular, every row
    /// this long.
    #[verifier::external_body]
    pub fn ncols(&self) -> (r: usize)
        ensures
            forall|i: int| 0 <= i < self@.len() ==> (#[trigger] self@[i]).len() == r,
    {
        self.inner.ncols()
    }
}

} // verus!
