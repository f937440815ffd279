//! Bounds-checked access to single cells by `(row, column)`.

use super::model::lemma_cell_in_bounds;
use super::Array2d;
use core::ops::{Index, IndexMut};
use vstd::prelude::*;

verus! {

impl<T: Copy> vstd::std_specs::core::IndexSpecImpl<(usize, usize)> for Array2d<T> {
    open spec fn index_req(&self, idx: &(usize, usize)) -> bool {
        &&& self@.wf()
        &&& idx.0 < self@.rows
        &&& idx.1 < self@.cols
    }
}

impl<T: Copy> Index<(usize, usize)> for Array2d<T> {
    type Output = T;

    /// The cell at row `idx.0`, column `idx.1`.
    fn index(&self, idx: (usize, usize)) -> (cell: &T)
        ensures
            *cell == self@.at(idx.0 as int, idx.1 as int),
    {
        proof {
            self.lemma_buffer();
            lemma_cell_in_bounds(self.rows as int, self.cols as int, idx.0 as int, idx.1 as int);
            assert(self.cols * idx.0 == idx.0 * self.cols) by (nonlinear_arith);
        }
        let i_el = self.cols * idx.0 + idx.1;
        &self.data[i_el]
    }
}

impl<T: Copy> IndexMut<(usize, usize)> for Array2d<T> {
    /// The cell at row `idx.0`, column `idx.1`, for writing.
    fn index_mut(&mut self, idx: (usize, usize)) -> (cell: &mut T)
        requires
            old(self)@.wf(),
            idx.0 < old(self)@.rows,
            idx.1 < old(self)@.cols,
        ensures
            *cell == old(self)@.at(idx.0 as int, idx.1 as int),
            final(self)@.wf(),
            final(self)@.rows == old(self)@.rows,
            final(self)@.cols == old(self)@.cols,
            final(self)@.cells == old(self)@.cells.update(
                idx.0 * old(self)@.cols + idx.1,
                *final(cell),
            ),
    {
        proof {
            self.lemma_buffer();
            lemma_cell_in_bounds(self.rows as int, self.cols as int, idx.0 as int, idx.1 as int);
            assert(self.cols * idx.0 == idx.0 * self.cols) by (nonlinear_arith);
        }
        let i_el = self.cols * idx.0 + idx.1;
        &mut self.data[i_el]
    }
}

} // verus!
