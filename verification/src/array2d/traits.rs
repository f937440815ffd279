//! Reading a matrix as the vector of its cells.

use super::Array2d;
use core::ops::Deref;
use vstd::prelude::*;

verus! {

impl<T> Deref for Array2d<T> {
    type Target = Vec<T>;

    /// The cells in row-major order.
    fn deref(&self) -> (data: &Vec<T>)
        ensures
            data@ == self@.cells,
    {
        &self.data
    }
}

} // verus!
