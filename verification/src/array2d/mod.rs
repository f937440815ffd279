//! The dense matrix container: a flat row-major buffer with its shape.

use vstd::prelude::*;

pub mod equality;
pub mod indexing;
pub mod iterator;
pub mod model;
pub mod numerics;
pub mod operators;
pub mod swapping;
pub mod text;
pub mod traits;
pub mod transposition;

use model::{lemma_cell_in_bounds, lemma_grid_ext, lemma_row_in_bounds, skipping, Grid};

verus! {

/// A dense matrix over `T`, stored row by row in one buffer.
#[derive(Debug)]
pub struct Array2d<T> {
    data: Vec<T>,
    rows: usize,
    cols: usize,
}

impl<T> View for Array2d<T> {
    type V = Grid<T>;

    closed spec fn view(&self) -> Grid<T> {
        Grid { rows: self.rows as nat, cols: self.cols as nat, cells: self.data@ }
    }
}

impl<T> Array2d<T> {
    /// What the fields of a well-shaped matrix satisfy.
    proof fn lemma_buffer(&self)
        requires
            self@.wf(),
        ensures
            self.data@.len() == self.rows * self.cols,
            self.rows * self.cols <= usize::MAX,
    {
        assert(self.data.len() == self.data@.len());
    }
}

impl<T: Copy> Array2d<T> {
    /// Wraps a row-major buffer as a `rows` by `cols` matrix.
    pub fn new(data: Vec<T>, rows: usize, cols: usize) -> (arr: Array2d<T>)
        requires
            data@.len() == rows * cols,
        ensures
            arr@ == (Grid { rows: rows as nat, cols: cols as nat, cells: data@ }),
            arr@.wf(),
    {
        Array2d { data, rows, cols }
    }

    /// A `rows` by `cols` matrix with `value` in every cell.
    pub fn new_fill(value: T, rows: usize, cols: usize) -> (arr: Array2d<T>)
        requires
            rows * cols <= usize::MAX,
        ensures
            arr@ == Grid::filled(value, rows as nat, cols as nat),
            arr@.wf(),
    {
        let n_el = rows * cols;
        let mut data: Vec<T> = Vec::with_capacity(n_el);
        let mut i: usize = 0;
        while i < n_el
            invariant
                i <= n_el,
                data@.len() == i,
                forall|k: int| 0 <= k < i ==> data@[k] == value,
            decreases n_el - i,
        {
            data.push(value);
            i += 1;
        }
        assert(data@ =~= Grid::filled(value, rows as nat, cols as nat).cells);
        Array2d { data, rows, cols }
    }

    /// An independent copy of `arr`.
    pub fn new_from_array(arr: &Array2d<T>) -> (copy: Array2d<T>)
        requires
            arr@.wf(),
        ensures
            copy@ == arr@,
    {
        let n_el = arr.data.len();
        let mut data: Vec<T> = Vec::with_capacity(n_el);
        let mut i: usize = 0;
        while i < n_el
            invariant
                i <= n_el,
                n_el == arr.data@.len(),
                data@ == arr.data@.take(i as int),
            decreases n_el - i,
        {
            data.push(arr.data[i]);
            i += 1;
        }
        assert(data@ =~= arr.data@);
        Array2d { data, rows: arr.rows, cols: arr.cols }
    }

    /// The shape as `(rows, cols)`.
    pub fn shape(&self) -> (s: (usize, usize))
        ensures
            s.0 == self@.rows,
            s.1 == self@.cols,
            self@.wf() ==> self@.rows * self@.cols <= usize::MAX,
    {
        proof {
            if self@.wf() {
                self.lemma_buffer();
            }
        }
        (self.rows, self.cols)
    }

    /// Row `row` as a vector of its own.
    pub fn row(&self, row: usize) -> (values: Vec<T>)
        requires
            self@.wf(),
            row < self@.rows,
        ensures
            values@ == self@.row(row as int),
    {
        proof {
            self.lemma_buffer();
            lemma_row_in_bounds(self.rows as int, self.cols as int, row as int);
        }
        let start = row * self.cols;
        let mut values: Vec<T> = Vec::with_capacity(self.cols);
        let mut c: usize = 0;
        while c < self.cols
            invariant
                c <= self.cols,
                start == row * self.cols,
                start + self.cols <= self.data@.len() <= usize::MAX,
                values@.len() == c,
                forall|k: int| 0 <= k < c ==> values@[k] == self@.at(row as int, k),
            decreases self.cols - c,
        {
            values.push(self.data[start + c]);
            c += 1;
        }
        assert(values@ =~= self@.row(row as int));
        values
    }

    /// Overwrites row `row` with `data`.
    pub fn set_row(&mut self, row: usize, data: Vec<T>)
        requires
            old(self)@.wf(),
            row < old(self)@.rows,
            data@.len() == old(self)@.cols,
        ensures
            final(self)@ == old(self)@.with_row(row as int, data@),
            final(self)@.wf(),
    {
        proof {
            self.lemma_buffer();
            lemma_row_in_bounds(self.rows as int, self.cols as int, row as int);
        }
        let start = row * self.cols;
        let mut c: usize = 0;
        while c < self.cols
            invariant
                c <= self.cols,
                self.rows == old(self).rows,
                self.cols == old(self).cols,
                data@.len() == self.cols,
                start == row * self.cols,
                start + self.cols <= self.data@.len() <= usize::MAX,
                self.data@.len() == old(self).data@.len(),
                forall|k: int|
                    0 <= k < self.data@.len() ==> self.data@[k] == if start <= k < start + c {
                        data@[k - start]
                    } else {
                        old(self).data@[k]
                    },
            decreases self.cols - c,
        {
            self.data[start + c] = data[c];
            c += 1;
        }
        proof {
            let target = old(self)@.with_row(row as int, data@);
            old(self)@.lemma_with_row(row as int, data@);
            assert forall|r: int, c: int| self@.has(r, c) implies #[trigger] self@.at(r, c)
                == target.at(r, c) by {
                lemma_cell_in_bounds(self.rows as int, self.cols as int, r, c);
                lemma_row_in_bounds(self.rows as int, self.cols as int, row as int);
                if r < row {
                    lemma_row_in_bounds(row as int, self.cols as int, r);
                } else if r > row {
                    lemma_row_in_bounds(r as int, self.cols as int, row as int);
                }
            }
            lemma_grid_ext(self@, target);
        }
    }

    /// Column `col` as a vector of its own.
    pub fn col(&self, col: usize) -> (values: Vec<T>)
        requires
            self@.wf(),
            col < self@.cols,
        ensures
            values@ == self@.col(col as int),
    {
        proof {
            self.lemma_buffer();
        }
        let mut values: Vec<T> = Vec::with_capacity(self.rows);
        let mut r: usize = 0;
        while r < self.rows
            invariant
                r <= self.rows,
                col < self.cols,
                self.data@.len() == self.rows * self.cols <= usize::MAX,
                values@.len() == r,
                forall|k: int| 0 <= k < r ==> values@[k] == self@.at(k, col as int),
            decreases self.rows - r,
        {
            proof {
                lemma_cell_in_bounds(self.rows as int, self.cols as int, r as int, col as int);
            }
            values.push(self.data[r * self.cols + col]);
            r += 1;
        }
        assert(values@ =~= self@.col(col as int));
        values
    }

    /// The same cells as a matrix of one row.
    pub fn flatten(&self) -> (flat: Array2d<T>)
        requires
            self@.wf(),
        ensures
            flat@ == self@.flattened(),
            flat@.wf(),
    {
        proof {
            self.lemma_buffer();
        }
        let copy = Self::new_from_array(self);
        Array2d { data: copy.data, rows: 1, cols: self.rows * self.cols }
    }

    /// The transpose as a new matrix; `self` is left as it is.
    pub fn transpose(&self) -> (t: Array2d<T>)
        requires
            self@.wf(),
        ensures
            t@ == self@.transposed(),
            t@.wf(),
    {
        let mut temp = Self::new_from_array(self);
        temp.transpose_inplace();
        temp
    }

    /// The matrix that remains when row `row` and column `col` are struck out.
    pub fn get_subarray(&self, row: usize, col: usize) -> (sub: Array2d<T>)
        requires
            self@.wf(),
            row < self@.rows,
            col < self@.cols,
        ensures
            sub@ == self@.without(row as int, col as int),
            sub@.wf(),
    {
        proof {
            self.lemma_buffer();
            self@.lemma_without(row as int, col as int);
            lemma_row_in_bounds(self.rows as int, self.cols as int, self.rows - 1);
            assert((self.rows - 1) * (self.cols - 1) <= (self.rows - 1) * self.cols)
                by (nonlinear_arith)
                requires
                    self.rows >= 1,
                    self.cols >= 1,
            ;
        }
        let sub_rows = self.rows - 1;
        let sub_cols = self.cols - 1;
        let mut data: Vec<T> = Vec::with_capacity(sub_rows * sub_cols);
        let mut r: usize = 0;
        while r < sub_rows
            invariant
                r <= sub_rows,
                sub_rows == self.rows - 1,
                sub_cols == self.cols - 1,
                row < self.rows,
                col < self.cols,
                self.data@.len() == self.rows * self.cols <= usize::MAX,
                data@.len() == r * sub_cols,
                forall|x: int, y: int|
                    0 <= x < r && 0 <= y < sub_cols ==> #[trigger] data@[x * sub_cols + y]
                        == self@.at(skipping(x, row as int), skipping(y, col as int)),
            decreases sub_rows - r,
        {
            let src_row = if r < row {
                r
            } else {
                r + 1
            };
            let mut c: usize = 0;
            while c < sub_cols
                invariant
                    c <= sub_cols,
                    r < sub_rows,
                    sub_rows == self.rows - 1,
                    sub_cols == self.cols - 1,
                    col < self.cols,
                    src_row == skipping(r as int, row as int),
                    src_row < self.rows,
                    self.data@.len() == self.rows * self.cols <= usize::MAX,
                    data@.len() == r * sub_cols + c,
                    forall|x: int, y: int|
                        0 <= x < r && 0 <= y < sub_cols ==> #[trigger] data@[x * sub_cols + y]
                            == self@.at(skipping(x, row as int), skipping(y, col as int)),
                    forall|y: int|
                        0 <= y < c ==> #[trigger] data@[r * sub_cols + y] == self@.at(
                            src_row as int,
                            skipping(y, col as int),
                        ),
                decreases sub_cols - c,
            {
                let src_col = if c < col {
                    c
                } else {
                    c + 1
                };
                proof {
                    lemma_cell_in_bounds(
                        self.rows as int,
                        self.cols as int,
                        src_row as int,
                        src_col as int,
                    );
                }
                let ghost before = data@;
                data.push(self.data[src_row * self.cols + src_col]);
                proof {
                    assert forall|x: int, y: int| 0 <= x < r && 0 <= y < sub_cols implies (
                    #[trigger] data@[x * sub_cols + y]) == self@.at(
                        skipping(x, row as int),
                        skipping(y, col as int),
                    ) by {
                        lemma_cell_in_bounds(r as int, sub_cols as int, x, y);
                        assert(before[x * sub_cols + y] == self@.at(
                            skipping(x, row as int),
                            skipping(y, col as int),
                        ));
                    }
                    assert forall|y: int| 0 <= y < c + 1 implies #[trigger] data@[r * sub_cols + y]
                        == self@.at(src_row as int, skipping(y, col as int)) by {
                        if y < c {
                            assert(before[r * sub_cols + y] == self@.at(
                                src_row as int,
                                skipping(y, col as int),
                            ));
                        }
                    }
                }
                c += 1;
            }
            proof {
                assert((r + 1) * sub_cols == r * sub_cols + sub_cols) by (nonlinear_arith);
            }
            r += 1;
        }
        let sub = Array2d { data, rows: sub_rows, cols: sub_cols };
        proof {
            let target = self@.without(row as int, col as int);
            assert forall|x: int, y: int| sub@.has(x, y) implies #[trigger] sub@.at(x, y)
                == target.at(x, y) by {
                assert(sub@.at(x, y) == data@[x * sub_cols + y]);
            }
            lemma_grid_ext(sub@, target);
        }
        sub
    }

    /// The cells in row-major order.
    pub fn get_data(&self) -> (data: &Vec<T>)
        ensures
            data@ == self@.cells,
    {
        &self.data
    }
}

} // verus!
