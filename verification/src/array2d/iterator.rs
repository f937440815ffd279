//! Walks over the rows and over the diagonal of a matrix.

use super::model::{lemma_row_in_bounds, lemma_stride_count, lemma_stride_count_step, stride_count};
use super::Array2d;
use vstd::prelude::*;

verus! {

/// A walk over the rows of a matrix, top to bottom.
pub struct RowIter<'a, T> {
    arr: &'a Array2d<T>,
    row: usize,
}

/// A walk over the diagonal of a matrix: the cells met from flat index 0 in
/// steps of one row and one cell.
pub struct DiagIter<'a, T> {
    data: &'a Vec<T>,
    start: usize,
    stop: usize,
    cols: usize,
}

impl<'a, T: Copy> RowIter<'a, T> {
    /// The rows that are still to come.
    pub closed spec fn remaining(&self) -> Seq<Seq<T>> {
        self.arr@.row_seq().skip(self.row as int)
    }

    /// The walk stands at a row of a well-shaped matrix, or behind its last one.
    pub closed spec fn wf(&self) -> bool {
        &&& self.arr@.wf()
        &&& self.row <= self.arr@.rows
    }

    /// The next row as a vector of its own, or `None` behind the last one.
    pub fn next(&mut self) -> (item: Option<Vec<T>>)
        requires
            old(self).wf(),
        ensures
            final(self).wf(),
            old(self).remaining().len() == 0 ==> item is None && final(self).remaining()
                == old(self).remaining(),
            old(self).remaining().len() > 0 ==> item is Some && item->0@ == old(
                self,
            ).remaining().first() && final(self).remaining() == old(self).remaining().drop_first(),
    {
        if self.row >= self.arr.rows {
            return None;
        }
        let values = self.arr.row(self.row);
        proof {
            assert(old(self).remaining().first() == self.arr@.row(self.row as int));
            assert(self.arr@.row_seq().skip(self.row + 1) =~= old(self).remaining().drop_first());
        }
        self.row = self.row + 1;
        Some(values)
    }
}

impl<'a, T: Copy> DiagIter<'a, T> {
    /// The cells that are still to come.
    pub closed spec fn remaining(&self) -> Seq<T> {
        Seq::new(
            stride_count(self.stop - self.start, self.cols as int),
            |k: int| self.data@[self.start + k * (self.cols + 1)],
        )
    }

    /// The walk stands inside the buffer or at its end.
    pub closed spec fn wf(&self) -> bool {
        &&& self.start <= self.stop
        &&& self.stop == self.data@.len()
    }

    /// The next cell of the diagonal, or `None` behind the last one.
    pub fn next(&mut self) -> (item: Option<T>)
        requires
            old(self).wf(),
        ensures
            final(self).wf(),
            old(self).remaining().len() == 0 ==> item is None && final(self).remaining()
                == old(self).remaining(),
            old(self).remaining().len() > 0 ==> item == Some(old(self).remaining().first())
                && final(self).remaining() == old(self).remaining().drop_first(),
    {
        if self.start >= self.stop {
            return None;
        }
        proof {
            lemma_stride_count(self.stop - self.start, self.cols as int, 0);
        }
        let el_diag = self.data[self.start];
        if self.stop - self.start <= self.cols {
            proof {
                lemma_stride_count(self.stop - self.start, self.cols as int, 1);
                assert(old(self).remaining().len() == 1);
            }
            self.start = self.stop;
            proof {
                assert(self.remaining() =~= old(self).remaining().drop_first());
            }
        } else {
            proof {
                lemma_stride_count_step(self.stop - self.start, self.cols as int);
            }
            self.start = self.start + self.cols + 1;
            proof {
                assert forall|k: int| 0 <= k < self.remaining().len() implies self.remaining()[k]
                    == old(self).remaining().drop_first()[k] by {
                    assert((k + 1) * (self.cols + 1) == k * (self.cols + 1) + (self.cols + 1))
                        by (nonlinear_arith);
                }
                assert(self.remaining() =~= old(self).remaining().drop_first());
            }
        }
        Some(el_diag)
    }
}

impl<T: Copy> Array2d<T> {
    /// A walk over the rows, starting at the first one.
    pub fn iter(&self) -> (it: RowIter<'_, T>)
        requires
            self@.wf(),
        ensures
            it.wf(),
            it.remaining() == self@.row_seq(),
    {
        let it = RowIter { arr: self, row: 0 };
        assert(it.remaining() =~= self@.row_seq());
        it
    }

    /// A walk over the diagonal, starting at the first cell.
    pub fn diag_iter(&self) -> (it: DiagIter<'_, T>)
        requires
            self@.wf(),
        ensures
            it.wf(),
            it.remaining() == self@.diagonal(),
    {
        let it = DiagIter { data: &self.data, start: 0, stop: self.data.len(), cols: self.cols };
        assert(it.remaining() =~= self@.diagonal());
        it
    }
}

} // verus!
