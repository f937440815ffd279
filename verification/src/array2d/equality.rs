//! Equality of matrices: the shapes and every cell.

use super::Array2d;
use vstd::prelude::*;
use vstd::std_specs::cmp::{PartialEqSpec, PartialEqSpecImpl};

verus! {

impl<T: PartialEq> PartialEqSpecImpl for Array2d<T> {
    open spec fn obeys_eq_spec() -> bool {
        T::obeys_eq_spec()
    }

    open spec fn eq_spec(&self, other: &Array2d<T>) -> bool {
        &&& self@.rows == other@.rows
        &&& self@.cols == other@.cols
        &&& self@.cells.len() == other@.cells.len()
        &&& forall|k: int|
            0 <= k < self@.cells.len() ==> (#[trigger] self@.cells[k]).eq_spec(&other@.cells[k])
    }
}

impl<T: PartialEq> PartialEq for Array2d<T> {
    /// Two matrices are equal when their shapes are and every cell equals
    /// the cell in its place.
    fn eq(&self, other: &Array2d<T>) -> (equal: bool) {
        if self.rows != other.rows || self.cols != other.cols || self.data.len()
            != other.data.len() {
            return false;
        }
        let mut i: usize = 0;
        while i < self.data.len()
            invariant
                i <= self.data@.len(),
                self.data@.len() == other.data@.len(),
                self@.rows == other@.rows,
                self@.cols == other@.cols,
                T::obeys_eq_spec() ==> forall|k: int|
                    0 <= k < i ==> (#[trigger] self.data@[k]).eq_spec(&other.data@[k]),
            decreases self.data@.len() - i,
        {
            if self.data[i] != other.data[i] {
                return false;
            }
            i += 1;
        }
        true
    }
}

} // verus!
