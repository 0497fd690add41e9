//! Dense matrices, stored column by column.
use vstd::prelude::*;
use crate::permutation::exchange;

verus! {

/// A matrix with `nrows` rows.
pub struct Matrix<F> {
    /// The number of rows.
    pub nrows: usize,
    /// The columns. Each holds `nrows` entries.
    pub columns: Vec<Vec<F>>,
}

/// Whether all of `columns` have `nrows` entries.
pub open spec fn has_rows<F>(columns: Seq<Seq<F>>, nrows: int) -> bool {
    forall|j: int| 0 <= j < columns.len() ==> (#[trigger] columns[j]).len() == nrows
}

impl<F> View for Matrix<F> {
    type V = Seq<Seq<F>>;

    /// The columns of the matrix.
    open spec fn view(&self) -> Seq<Seq<F>> {
        Seq::new(self.columns@.len(), |j: int| self.columns@[j]@)
    }
}

impl<F> Matrix<F> {
    /// Each column has as many entries as the matrix has rows.
    pub open spec fn wf(&self) -> bool {
        has_rows(self@, self.nrows as int)
    }

    /// The number of columns.
    pub fn ncols(&self) -> (n: usize)
        ensures
            n == self@.len(),
    {
        self.columns.len()
    }

    /// Exchanges two columns.
    pub fn swap_columns(&mut self, j: usize, k: usize)
        requires
            j < old(self)@.len(),
            k < old(self)@.len(),
        ensures
            final(self).nrows == old(self).nrows,
            final(self)@ == exchange(old(self)@, j as int, k as int),
    {
        if j != k {
            let mut column: Vec<F> = Vec::new();
            std::mem::swap(&mut column, &mut self.columns[j]);
            std::mem::swap(&mut column, &mut self.columns[k]);
            std::mem::swap(&mut column, &mut self.columns[j]);
        }
    }
}

} // verus!
