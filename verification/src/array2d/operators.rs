//! Arithmetic applied to every cell: a scalar against a matrix, and a matrix
//! against a matrix of the same shape.

use super::Array2d;
use core::ops::{Add, Mul, Neg, Sub};
use vstd::prelude::*;
use vstd::std_specs::ops::{AddSpec, MulSpec, NegSpec, SubSpec};

verus! {

impl<T: Add<Output = T> + Copy> vstd::std_specs::ops::AddSpecImpl<T> for &Array2d<T> {
    open spec fn obeys_add_spec() -> bool {
        false
    }

    open spec fn add_req(self, rhs: T) -> bool {
        &&& self@.wf()
        &&& forall|k: int| 0 <= k < self@.cells.len() ==> (#[trigger] self@.cells[k]).add_req(rhs)
    }

    open spec fn add_spec(self, rhs: T) -> Array2d<T> {
        arbitrary()
    }
}

impl<T: Add<Output = T> + Copy> Add<T> for &Array2d<T> {
    type Output = Array2d<T>;

    /// Adds `rhs` to every cell; the shape stays.
    fn add(self, rhs: T) -> (sum: Array2d<T>)
        ensures
            sum@.wf(),
            sum@.rows == self@.rows,
            sum@.cols == self@.cols,
            T::obeys_add_spec() ==> forall|k: int|
                0 <= k < self@.cells.len() ==> #[trigger] sum@.cells[k] == self@.cells[k].add_spec(
                    rhs,
                ),
    {
        let mut vec: Vec<T> = Vec::with_capacity(self.data.len());
        let mut i: usize = 0;
        while i < self.data.len()
            invariant
                i <= self.data@.len(),
                vec@.len() == i,
                forall|k: int|
                    0 <= k < self.data@.len() ==> (#[trigger] self.data@[k]).add_req(rhs),
                T::obeys_add_spec() ==> forall|k: int|
                    0 <= k < i ==> #[trigger] vec@[k] == self.data@[k].add_spec(rhs),
            decreases self.data@.len() - i,
        {
            vec.push(self.data[i].add(rhs));
            i += 1;
        }
        Array2d { data: vec, rows: self.rows, cols: self.cols }
    }
}

impl<T: Sub<Output = T> + Copy> vstd::std_specs::ops::SubSpecImpl<T> for &Array2d<T> {
    open spec fn obeys_sub_spec() -> bool {
        false
    }

    open spec fn sub_req(self, rhs: T) -> bool {
        &&& self@.wf()
        &&& forall|k: int| 0 <= k < self@.cells.len() ==> (#[trigger] self@.cells[k]).sub_req(rhs)
    }

    open spec fn sub_spec(self, rhs: T) -> Array2d<T> {
        arbitrary()
    }
}

impl<T: Sub<Output = T> + Copy> Sub<T> for &Array2d<T> {
    type Output = Array2d<T>;

    /// Subtracts `rhs` from every cell; the shape stays.
    fn sub(self, rhs: T) -> (difference: Array2d<T>)
        ensures
            difference@.wf(),
            difference@.rows == self@.rows,
            difference@.cols == self@.cols,
            T::obeys_sub_spec() ==> forall|k: int|
                0 <= k < self@.cells.len() ==> #[trigger] difference@.cells[k] == self@.cells[k].sub_spec(
                    rhs,
                ),
    {
        let mut vec: Vec<T> = Vec::with_capacity(self.data.len());
        let mut i: usize = 0;
        while i < self.data.len()
            invariant
                i <= self.data@.len(),
                vec@.len() == i,
                forall|k: int|
                    0 <= k < self.data@.len() ==> (#[trigger] self.data@[k]).sub_req(rhs),
                T::obeys_sub_spec() ==> forall|k: int|
                    0 <= k < i ==> #[trigger] vec@[k] == self.data@[k].sub_spec(rhs),
            decreases self.data@.len() - i,
        {
            vec.push(self.data[i].sub(rhs));
            i += 1;
        }
        Array2d { data: vec, rows: self.rows, cols: self.cols }
    }
}

impl<T: Mul<Output = T> + Copy> vstd::std_specs::ops::MulSpecImpl<T> for &Array2d<T> {
    open spec fn obeys_mul_spec() -> bool {
        false
    }

    open spec fn mul_req(self, rhs: T) -> bool {
        &&& self@.wf()
        &&& forall|k: int| 0 <= k < self@.cells.len() ==> (#[trigger] self@.cells[k]).mul_req(rhs)
    }

    open spec fn mul_spec(self, rhs: T) -> Array2d<T> {
        arbitrary()
    }
}

impl<T: Mul<Output = T> + Copy> Mul<T> for &Array2d<T> {
    type Output = Array2d<T>;

    /// Multiplies by `rhs` every cell; the shape stays.
    fn mul(self, rhs: T) -> (scaled: Array2d<T>)
        ensures
            scaled@.wf(),
            scaled@.rows == self@.rows,
            scaled@.cols == self@.cols,
            T::obeys_mul_spec() ==> forall|k: int|
                0 <= k < self@.cells.len() ==> #[trigger] scaled@.cells[k] == self@.cells[k].mul_spec(
                    rhs,
                ),
    {
        let mut vec: Vec<T> = Vec::with_capacity(self.data.len());
        let mut i: usize = 0;
        while i < self.data.len()
            invariant
                i <= self.data@.len(),
                vec@.len() == i,
                forall|k: int|
                    0 <= k < self.data@.len() ==> (#[trigger] self.data@[k]).mul_req(rhs),
                T::obeys_mul_spec() ==> forall|k: int|
                    0 <= k < i ==> #[trigger] vec@[k] == self.data@[k].mul_spec(rhs),
            decreases self.data@.len() - i,
        {
            vec.push(self.data[i].mul(rhs));
            i += 1;
        }
        Array2d { data: vec, rows: self.rows, cols: self.cols }
    }
}

impl<'a, T: Add<Output = T> + Copy> vstd::std_specs::ops::AddSpecImpl<&'a Array2d<T>> for &Array2d<T> {
    open spec fn obeys_add_spec() -> bool {
        false
    }

    open spec fn add_req(self, rhs: &'a Array2d<T>) -> bool {
        &&& self@.wf()
        &&& rhs@.wf()
        &&& self@.rows == rhs@.rows
        &&& self@.cols == rhs@.cols
        &&& forall|k: int|
            0 <= k < self@.cells.len() ==> (#[trigger] self@.cells[k]).add_req(rhs@.cells[k])
    }

    open spec fn add_spec(self, rhs: &'a Array2d<T>) -> Array2d<T> {
        arbitrary()
    }
}

impl<'a, T: Add<Output = T> + Copy> Add<&'a Array2d<T>> for &Array2d<T> {
    type Output = Array2d<T>;

    /// Adds `rhs` to `self`, cell by cell; the shape stays.
    fn add(self, rhs: &'a Array2d<T>) -> (sum: Array2d<T>)
        ensures
            sum@.wf(),
            sum@.rows == self@.rows,
            sum@.cols == self@.cols,
            T::obeys_add_spec() ==> forall|k: int|
                0 <= k < self@.cells.len() ==> #[trigger] sum@.cells[k] == self@.cells[k].add_spec(
                    rhs@.cells[k],
                ),
    {
        proof {
            self.lemma_buffer();
            rhs.lemma_buffer();
        }
        let mut vec: Vec<T> = Vec::with_capacity(self.data.len());
        let mut i: usize = 0;
        while i < self.data.len()
            invariant
                i <= self.data@.len(),
                self.data@.len() == rhs.data@.len(),
                vec@.len() == i,
                forall|k: int|
                    0 <= k < self.data@.len() ==> (#[trigger] self.data@[k]).add_req(rhs.data@[k]),
                T::obeys_add_spec() ==> forall|k: int|
                    0 <= k < i ==> #[trigger] vec@[k] == self.data@[k].add_spec(rhs.data@[k]),
            decreases self.data@.len() - i,
        {
            vec.push(self.data[i].add(rhs.data[i]));
            i += 1;
        }
        Array2d { data: vec, rows: self.rows, cols: self.cols }
    }
}

impl<'a, T: Sub<Output = T> + Copy> vstd::std_specs::ops::SubSpecImpl<&'a Array2d<T>> for &Array2d<T> {
    open spec fn obeys_sub_spec() -> bool {
        false
    }

    open spec fn sub_req(self, rhs: &'a Array2d<T>) -> bool {
        &&& self@.wf()
        &&& rhs@.wf()
        &&& self@.rows == rhs@.rows
        &&& self@.cols == rhs@.cols
        &&& forall|k: int|
            0 <= k < self@.cells.len() ==> (#[trigger] self@.cells[k]).sub_req(rhs@.cells[k])
    }

    open spec fn sub_spec(self, rhs: &'a Array2d<T>) -> Array2d<T> {
        arbitrary()
    }
}

impl<'a, T: Sub<Output = T> + Copy> Sub<&'a Array2d<T>> for &Array2d<T> {
    type Output = Array2d<T>;

    /// Subtracts `rhs` from `self`, cell by cell; the shape stays.
    fn sub(self, rhs: &'a Array2d<T>) -> (difference: Array2d<T>)
        ensures
            difference@.wf(),
            difference@.rows == self@.rows,
            difference@.cols == self@.cols,
            T::obeys_sub_spec() ==> forall|k: int|
                0 <= k < self@.cells.len() ==> #[trigger] difference@.cells[k] == self@.cells[k].sub_spec(
                    rhs@.cells[k],
                ),
    {
        proof {
            self.lemma_buffer();
            rhs.lemma_buffer();
        }
        let mut vec: Vec<T> = Vec::with_capacity(self.data.len());
        let mut i: usize = 0;
        while i < self.data.len()
            invariant
                i <= self.data@.len(),
                self.data@.len() == rhs.data@.len(),
                vec@.len() == i,
                forall|k: int|
                    0 <= k < self.data@.len() ==> (#[trigger] self.data@[k]).sub_req(rhs.data@[k]),
                T::obeys_sub_spec() ==> forall|k: int|
                    0 <= k < i ==> #[trigger] vec@[k] == self.data@[k].sub_spec(rhs.data@[k]),
            decreases self.data@.len() - i,
        {
            vec.push(self.data[i].sub(rhs.data[i]));
            i += 1;
        }
        Array2d { data: vec, rows: self.rows, cols: self.cols }
    }
}

impl<T: Neg<Output = T> + Copy> vstd::std_specs::ops::NegSpecImpl for Array2d<T> {
    open spec fn obeys_neg_spec() -> bool {
        false
    }

    open spec fn neg_req(self) -> bool {
        &&& self@.wf()
        &&& forall|k: int| 0 <= k < self@.cells.len() ==> (#[trigger] self@.cells[k]).neg_req()
    }

    open spec fn neg_spec(self) -> Array2d<T> {
        arbitrary()
    }
}

impl<T: Neg<Output = T> + Copy> Neg for Array2d<T> {
    type Output = Array2d<T>;

    /// Negates every cell; the shape stays.
    fn neg(self) -> (negated: Array2d<T>)
        ensures
            negated@.wf(),
            negated@.rows == self@.rows,
            negated@.cols == self@.cols,
            T::obeys_neg_spec() ==> forall|k: int|
                0 <= k < self@.cells.len() ==> #[trigger] negated@.cells[k]
                    == self@.cells[k].neg_spec(),
    {
        let mut vec: Vec<T> = Vec::with_capacity(self.data.len());
        let mut i: usize = 0;
        while i < self.data.len()
            invariant
                i <= self.data@.len(),
                vec@.len() == i,
                forall|k: int| 0 <= k < self.data@.len() ==> (#[trigger] self.data@[k]).neg_req(),
                T::obeys_neg_spec() ==> forall|k: int|
                    0 <= k < i ==> #[trigger] vec@[k] == self.data@[k].neg_spec(),
            decreases self.data@.len() - i,
        {
            vec.push(self.data[i].neg());
            i += 1;
        }
        Array2d { data: vec, rows: self.rows, cols: self.cols }
    }
}

impl<T: Add<Output = T> + Copy> core::ops::AddAssign<T> for Array2d<T> {
    /// Adds `rhs` to every cell in place.
    fn add_assign(&mut self, rhs: T)
        requires
            old(self)@.wf(),
            forall|k: int|
                0 <= k < old(self)@.cells.len() ==> (#[trigger] old(self)@.cells[k]).add_req(rhs),
        ensures
            final(self)@.wf(),
            final(self)@.rows == old(self)@.rows,
            final(self)@.cols == old(self)@.cols,
            T::obeys_add_spec() ==> forall|k: int|
                0 <= k < old(self)@.cells.len() ==> #[trigger] final(self)@.cells[k] == old(
                    self,
                )@.cells[k].add_spec(rhs),
    {
        let mut i: usize = 0;
        while i < self.data.len()
            invariant
                i <= self.data@.len(),
                self.rows == old(self).rows,
                self.cols == old(self).cols,
                self.data@.len() == old(self).data@.len(),
                forall|k: int| i <= k < self.data@.len() ==> self.data@[k] == old(self).data@[k],
                forall|k: int|
                    0 <= k < self.data@.len() ==> (#[trigger] old(self).data@[k]).add_req(rhs),
                T::obeys_add_spec() ==> forall|k: int|
                    0 <= k < i ==> #[trigger] self.data@[k] == old(self).data@[k].add_spec(rhs),
            decreases self.data@.len() - i,
        {
            let cell = self.data[i].add(rhs);
            self.data[i] = cell;
            i += 1;
        }
    }
}

impl<T: Sub<Output = T> + Copy> core::ops::SubAssign<T> for Array2d<T> {
    /// Subtracts `rhs` from every cell in place.
    fn sub_assign(&mut self, rhs: T)
        requires
            old(self)@.wf(),
            forall|k: int|
                0 <= k < old(self)@.cells.len() ==> (#[trigger] old(self)@.cells[k]).sub_req(rhs),
        ensures
            final(self)@.wf(),
            final(self)@.rows == old(self)@.rows,
            final(self)@.cols == old(self)@.cols,
            T::obeys_sub_spec() ==> forall|k: int|
                0 <= k < old(self)@.cells.len() ==> #[trigger] final(self)@.cells[k] == old(
                    self,
                )@.cells[k].sub_spec(rhs),
    {
        let mut i: usize = 0;
        while i < self.data.len()
            invariant
                i <= self.data@.len(),
                self.rows == old(self).rows,
                self.cols == old(self).cols,
                self.data@.len() == old(self).data@.len(),
                forall|k: int| i <= k < self.data@.len() ==> self.data@[k] == old(self).data@[k],
                forall|k: int|
                    0 <= k < self.data@.len() ==> (#[trigger] old(self).data@[k]).sub_req(rhs),
                T::obeys_sub_spec() ==> forall|k: int|
                    0 <= k < i ==> #[trigger] self.data@[k] == old(self).data@[k].sub_spec(rhs),
            decreases self.data@.len() - i,
        {
            let cell = self.data[i].sub(rhs);
            self.data[i] = cell;
            i += 1;
        }
    }
}

impl<T: Mul<Output = T> + Copy> core::ops::MulAssign<T> for Array2d<T> {
    /// Multiplies every cell by `rhs` in place.
    fn mul_assign(&mut self, rhs: T)
        requires
            old(self)@.wf(),
            forall|k: int|
                0 <= k < old(self)@.cells.len() ==> (#[trigger] old(self)@.cells[k]).mul_req(rhs),
        ensures
            final(self)@.wf(),
            final(self)@.rows == old(self)@.rows,
            final(self)@.cols == old(self)@.cols,
            T::obeys_mul_spec() ==> forall|k: int|
                0 <= k < old(self)@.cells.len() ==> #[trigger] final(self)@.cells[k] == old(
                    self,
                )@.cells[k].mul_spec(rhs),
    {
        let mut i: usize = 0;
        while i < self.data.len()
            invariant
                i <= self.data@.len(),
                self.rows == old(self).rows,
                self.cols == old(self).cols,
                self.data@.len() == old(self).data@.len(),
                forall|k: int| i <= k < self.data@.len() ==> self.data@[k] == old(self).data@[k],
                forall|k: int|
                    0 <= k < self.data@.len() ==> (#[trigger] old(self).data@[k]).mul_req(rhs),
                T::obeys_mul_spec() ==> forall|k: int|
                    0 <= k < i ==> #[trigger] self.data@[k] == old(self).data@[k].mul_spec(rhs),
            decreases self.data@.len() - i,
        {
            let cell = self.data[i].mul(rhs);
            self.data[i] = cell;
            i += 1;
        }
    }
}

impl<'a, T: Add<Output = T> + Copy> core::ops::AddAssign<&'a Array2d<T>> for Array2d<T> {
    /// Adds `rhs` into `self`, cell by cell.
    fn add_assign(&mut self, rhs: &'a Array2d<T>)
        requires
            old(self)@.wf(),
            rhs@.wf(),
            old(self)@.rows == rhs@.rows,
            old(self)@.cols == rhs@.cols,
            forall|k: int|
                0 <= k < old(self)@.cells.len() ==> (#[trigger] old(self)@.cells[k]).add_req(
                    rhs@.cells[k],
                ),
        ensures
            final(self)@.wf(),
            final(self)@.rows == old(self)@.rows,
            final(self)@.cols == old(self)@.cols,
            T::obeys_add_spec() ==> forall|k: int|
                0 <= k < old(self)@.cells.len() ==> #[trigger] final(self)@.cells[k] == old(
                    self,
                )@.cells[k].add_spec(rhs@.cells[k]),
    {
        proof {
            self.lemma_buffer();
            rhs.lemma_buffer();
        }
        let mut i: usize = 0;
        while i < self.data.len()
            invariant
                i <= self.data@.len(),
                self.rows == old(self).rows,
                self.cols == old(self).cols,
                self.data@.len() == old(self).data@.len(),
                self.data@.len() == rhs.data@.len(),
                forall|k: int| i <= k < self.data@.len() ==> self.data@[k] == old(self).data@[k],
                forall|k: int|
                    0 <= k < self.data@.len() ==> (#[trigger] old(self).data@[k]).add_req(
                        rhs.data@[k],
                    ),
                T::obeys_add_spec() ==> forall|k: int|
                    0 <= k < i ==> #[trigger] self.data@[k] == old(self).data@[k].add_spec(
                        rhs.data@[k],
                    ),
            decreases self.data@.len() - i,
        {
            let cell = self.data[i].add(rhs.data[i]);
            self.data[i] = cell;
            i += 1;
        }
    }
}

} // verus!
