//! The mathematical model of a matrix and the coordinate arithmetic behind it.

use vstd::arithmetic::div_mod::lemma_fundamental_div_mod;
use vstd::arithmetic::div_mod::lemma_fundamental_div_mod_converse;
use vstd::arithmetic::div_mod::lemma_mod_bound;
use vstd::prelude::*;

verus! {

/// Mathematical model of a matrix: its shape and its cells in row-major order.
pub struct Grid<T> {
    pub rows: nat,
    pub cols: nat,
    pub cells: Seq<T>,
}

/// Index `r` with the two indices `i` and `j` exchanged.
pub open spec fn exchanged(r: int, i: int, j: int) -> int {
    if r == i {
        j
    } else if r == j {
        i
    } else {
        r
    }
}

/// Index `r` of a sequence from which position `gap` was removed, as an index
/// of the sequence before the removal.
pub open spec fn skipping(r: int, gap: int) -> int {
    if r < gap {
        r
    } else {
        r + 1
    }
}

/// How many of the indices `0, cols + 1, 2 * (cols + 1), ...` lie below `len`.
pub open spec fn stride_count(len: int, cols: int) -> nat {
    if len <= 0 {
        0
    } else {
        ((len + cols) / (cols + 1)) as nat
    }
}

impl<T> Grid<T> {
    /// The cell count matches the shape.
    pub open spec fn wf(self) -> bool {
        self.cells.len() == self.rows * self.cols
    }

    /// `(r, c)` names a cell of this grid.
    pub open spec fn has(self, r: int, c: int) -> bool {
        0 <= r < self.rows && 0 <= c < self.cols
    }

    /// The cell at row `r`, column `c`.
    pub open spec fn at(self, r: int, c: int) -> T {
        self.cells[r * self.cols + c]
    }

    /// Row `r`, left to right.
    pub open spec fn row(self, r: int) -> Seq<T> {
        Seq::new(self.cols, |c: int| self.at(r, c))
    }

    /// Column `c`, top to bottom.
    pub open spec fn col(self, c: int) -> Seq<T> {
        Seq::new(self.rows, |r: int| self.at(r, c))
    }

    /// The rows, top to bottom.
    pub open spec fn row_seq(self) -> Seq<Seq<T>> {
        Seq::new(self.rows, |r: int| self.row(r))
    }

    /// The cells met from flat index 0 in steps of `cols + 1`: the main diagonal
    /// of a grid that is no taller than wide.
    pub open spec fn diagonal(self) -> Seq<T> {
        Seq::new(stride_count(self.cells.len() as int, self.cols as int), |k: int| self.cells[k * (self.cols + 1)])
    }

    /// The grid of the given shape whose cell `(r, c)` is `f(r, c)`.
    pub open spec fn from_fn(rows: nat, cols: nat, f: spec_fn(int, int) -> T) -> Grid<T> {
        Grid {
            rows,
            cols,
            cells: Seq::new(rows * cols, |k: int| f(k / (cols as int), k % (cols as int))),
        }
    }

    /// The grid of the given shape whose every cell is `value`.
    pub open spec fn filled(value: T, rows: nat, cols: nat) -> Grid<T> {
        Grid { rows, cols, cells: Seq::new(rows * cols, |k: int| value) }
    }

    /// This grid with row `r` replaced by `values`.
    pub open spec fn with_row(self, r: int, values: Seq<T>) -> Grid<T> {
        Grid::from_fn(
            self.rows,
            self.cols,
            |i: int, c: int|
                if i == r {
                    values[c]
                } else {
                    self.at(i, c)
                },
        )
    }

    /// The same cells laid out as a single row.
    pub open spec fn flattened(self) -> Grid<T> {
        Grid { rows: 1, cols: self.rows * self.cols, cells: self.cells }
    }

    /// Rows and columns exchanged: cell `(r, c)` of the result is cell `(c, r)` of this grid.
    pub open spec fn transposed(self) -> Grid<T> {
        Grid::from_fn(self.cols, self.rows, |r: int, c: int| self.at(c, r))
    }

    /// Rows `i` and `j` exchanged.
    pub open spec fn rows_swapped(self, i: int, j: int) -> Grid<T> {
        Grid::from_fn(self.rows, self.cols, |r: int, c: int| self.at(exchanged(r, i, j), c))
    }

    /// Rows `i` and `j` exchanged, except in columns `i` and `j`.
    pub open spec fn rows_swapped_off_diagonal(self, i: int, j: int) -> Grid<T> {
        Grid::from_fn(
            self.rows,
            self.cols,
            |r: int, c: int|
                if c == i || c == j {
                    self.at(r, c)
                } else {
                    self.at(exchanged(r, i, j), c)
                },
        )
    }

    /// Columns `i` and `j` exchanged.
    pub open spec fn cols_swapped(self, i: int, j: int) -> Grid<T> {
        Grid::from_fn(self.rows, self.cols, |r: int, c: int| self.at(r, exchanged(c, i, j)))
    }

    /// This grid without row `row` and without column `col`.
    pub open spec fn without(self, row: int, col: int) -> Grid<T> {
        Grid::from_fn(
            (self.rows - 1) as nat,
            (self.cols - 1) as nat,
            |r: int, c: int| self.at(skipping(r, row), skipping(c, col)),
        )
    }
}

/// Cell `(r, c)` of a well-shaped grid lies inside its buffer.
pub proof fn lemma_cell_in_bounds(rows: int, cols: int, r: int, c: int)
    requires
        0 <= r < rows,
        0 <= c < cols,
    ensures
        0 <= r * cols + c < rows * cols,
        r * cols + cols <= rows * cols,
{
    lemma_row_in_bounds(rows, cols, r);
}

/// Row `r` of a well-shaped grid lies inside its buffer.
pub proof fn lemma_row_in_bounds(rows: int, cols: int, r: int)
    requires
        0 <= r < rows,
        0 <= cols,
    ensures
        0 <= r * cols,
        r * cols + cols <= rows * cols,
{
    assert(r * cols >= 0) by (nonlinear_arith)
        requires
            r >= 0,
            cols >= 0,
    ;
    assert((r + 1) * cols <= rows * cols) by (nonlinear_arith)
        requires
            r + 1 <= rows,
            cols >= 0,
    ;
    assert((r + 1) * cols == r * cols + cols) by (nonlinear_arith);
}

/// Distinct rows occupy disjoint stretches of the buffer.
pub proof fn lemma_rows_apart(cols: int, r: int, s: int)
    requires
        0 <= cols,
    ensures
        r < s ==> r * cols + cols <= s * cols,
        s < r ==> s * cols + cols <= r * cols,
{
    if r < s {
        assert((r + 1) * cols <= s * cols) by (nonlinear_arith)
            requires
                r + 1 <= s,
                cols >= 0,
        ;
        assert((r + 1) * cols == r * cols + cols) by (nonlinear_arith);
    }
    if s < r {
        assert((s + 1) * cols <= r * cols) by (nonlinear_arith)
            requires
                s + 1 <= r,
                cols >= 0,
        ;
        assert((s + 1) * cols == s * cols + cols) by (nonlinear_arith);
    }
}

/// A flat index determines its row and column, and the other way round.
pub proof fn lemma_coords(cols: int, r: int, c: int)
    requires
        0 <= c < cols,
    ensures
        (r * cols + c) / cols == r,
        (r * cols + c) % cols == c,
{
    lemma_fundamental_div_mod_converse(r * cols + c, cols, r, c);
}

/// Every flat index of a well-shaped grid names one of its cells.
pub proof fn lemma_flat_index(rows: int, cols: int, k: int)
    requires
        0 <= k < rows * cols,
        0 <= rows,
        0 <= cols,
    ensures
        0 < cols,
        0 <= k / cols < rows,
        0 <= k % cols < cols,
        k == (k / cols) * cols + k % cols,
{
    assert(cols != 0) by (nonlinear_arith)
        requires
            0 <= k < rows * cols,
    ;
    lemma_fundamental_div_mod(k, cols);
    lemma_mod_bound(k, cols);
    let q = k / cols;
    let m = k % cols;
    assert(cols * q == q * cols) by (nonlinear_arith);
    assert(0 <= q < rows) by (nonlinear_arith)
        requires
            k == q * cols + m,
            0 <= m < cols,
            0 <= k < rows * cols,
    ;
}

impl<T> Grid<T> {
    /// What `with_row` holds, cell by cell.
    pub proof fn lemma_with_row(self, r: int, values: Seq<T>)
        ensures
            self.with_row(r, values).wf(),
            self.with_row(r, values).rows == self.rows,
            self.with_row(r, values).cols == self.cols,
            forall|i: int, c: int|
                self.has(i, c) ==> #[trigger] self.with_row(r, values).at(i, c) == if i == r {
                    values[c]
                } else {
                    self.at(i, c)
                },
    {
        assert forall|i: int, c: int| self.has(i, c) implies #[trigger] self.with_row(
            r,
            values,
        ).at(i, c) == if i == r {
            values[c]
        } else {
            self.at(i, c)
        } by {
            lemma_cell_in_bounds(self.rows as int, self.cols as int, i, c);
            lemma_coords(self.cols as int, i, c);
        }
    }

    /// What `transposed` holds, cell by cell.
    pub proof fn lemma_transposed(self)
        ensures
            self.transposed().wf(),
            self.transposed().rows == self.cols,
            self.transposed().cols == self.rows,
            forall|r: int, c: int|
                0 <= r < self.cols && 0 <= c < self.rows ==> #[trigger] self.transposed().at(r, c)
                    == self.at(c, r),
    {
        assert forall|r: int, c: int| 0 <= r < self.cols && 0 <= c < self.rows implies (
        #[trigger] self.transposed().at(r, c)) == self.at(c, r) by {
            lemma_cell_in_bounds(self.cols as int, self.rows as int, r, c);
            lemma_coords(self.rows as int, r, c);
        }
    }

    /// What `rows_swapped` holds, cell by cell.
    pub proof fn lemma_rows_swapped(self, i: int, j: int)
        ensures
            self.rows_swapped(i, j).wf(),
            self.rows_swapped(i, j).rows == self.rows,
            self.rows_swapped(i, j).cols == self.cols,
            forall|r: int, c: int|
                self.has(r, c) ==> #[trigger] self.rows_swapped(i, j).at(r, c) == self.at(
                    exchanged(r, i, j),
                    c,
                ),
    {
        assert forall|r: int, c: int| self.has(r, c) implies #[trigger] self.rows_swapped(
            i,
            j,
        ).at(r, c) == self.at(exchanged(r, i, j), c) by {
            lemma_cell_in_bounds(self.rows as int, self.cols as int, r, c);
            lemma_coords(self.cols as int, r, c);
        }
    }

    /// What `rows_swapped_off_diagonal` holds, cell by cell.
    pub proof fn lemma_rows_swapped_off_diagonal(self, i: int, j: int)
        ensures
            self.rows_swapped_off_diagonal(i, j).wf(),
            self.rows_swapped_off_diagonal(i, j).rows == self.rows,
            self.rows_swapped_off_diagonal(i, j).cols == self.cols,
            forall|r: int, c: int|
                self.has(r, c) ==> #[trigger] self.rows_swapped_off_diagonal(i, j).at(r, c) == if c
                    == i || c == j {
                    self.at(r, c)
                } else {
                    self.at(exchanged(r, i, j), c)
                },
    {
        assert forall|r: int, c: int| self.has(r, c) implies #[trigger] self.rows_swapped_off_diagonal(
        i, j).at(r, c) == if c == i || c == j {
            self.at(r, c)
        } else {
            self.at(exchanged(r, i, j), c)
        } by {
            lemma_cell_in_bounds(self.rows as int, self.cols as int, r, c);
            lemma_coords(self.cols as int, r, c);
        }
    }

    /// What `cols_swapped` holds, cell by cell.
    pub proof fn lemma_cols_swapped(self, i: int, j: int)
        ensures
            self.cols_swapped(i, j).wf(),
            self.cols_swapped(i, j).rows == self.rows,
            self.cols_swapped(i, j).cols == self.cols,
            forall|r: int, c: int|
                self.has(r, c) ==> #[trigger] self.cols_swapped(i, j).at(r, c) == self.at(
                    r,
                    exchanged(c, i, j),
                ),
    {
        assert forall|r: int, c: int| self.has(r, c) implies #[trigger] self.cols_swapped(
            i,
            j,
        ).at(r, c) == self.at(r, exchanged(c, i, j)) by {
            lemma_cell_in_bounds(self.rows as int, self.cols as int, r, c);
            lemma_coords(self.cols as int, r, c);
        }
    }

    /// What `without` holds, cell by cell.
    pub proof fn lemma_without(self, row: int, col: int)
        requires
            self.rows >= 1,
            self.cols >= 1,
        ensures
            self.without(row, col).wf(),
            self.without(row, col).rows == self.rows - 1,
            self.without(row, col).cols == self.cols - 1,
            forall|r: int, c: int|
                0 <= r < self.rows - 1 && 0 <= c < self.cols - 1 ==> #[trigger] self.without(
                    row,
                    col,
                ).at(r, c) == self.at(skipping(r, row), skipping(c, col)),
    {
        assert forall|r: int, c: int| 0 <= r < self.rows - 1 && 0 <= c < self.cols - 1 implies (
        #[trigger] self.without(row, col).at(r, c)) == self.at(
            skipping(r, row),
            skipping(c, col),
        ) by {
            lemma_cell_in_bounds(self.rows - 1, self.cols - 1, r, c);
            lemma_coords(self.cols - 1, r, c);
        }
    }
}

/// The index after `k` steps of the stride lies below `len` exactly for the
/// first `stride_count(len, cols)` steps.
pub proof fn lemma_stride_count(len: int, cols: int, k: int)
    requires
        0 <= len,
        0 <= cols,
        0 <= k,
    ensures
        k * (cols + 1) < len <==> k < stride_count(len, cols),
        0 <= k * (cols + 1),
{
    let d = cols + 1;
    assert(0 <= k * d) by (nonlinear_arith)
        requires
            0 <= k,
            0 < d,
    ;
    if len > 0 {
        let x = len + cols;
        let q = x / d;
        lemma_fundamental_div_mod(x, d);
        lemma_mod_bound(x, d);
        assert(d * q == q * d) by (nonlinear_arith);
        if k < q {
            assert(k * d <= (q - 1) * d) by (nonlinear_arith)
                requires
                    k <= q - 1,
                    0 < d,
            ;
            assert((q - 1) * d == q * d - d) by (nonlinear_arith);
        } else {
            assert(k * d >= q * d) by (nonlinear_arith)
                requires
                    k >= q,
                    0 < d,
            ;
        }
    }
}

/// Moving the start of the stride one step on leaves one index fewer.
pub proof fn lemma_stride_count_step(len: int, cols: int)
    requires
        0 <= cols,
        cols + 1 <= len,
    ensures
        stride_count(len - (cols + 1), cols) + 1 == stride_count(len, cols),
{
    let d = cols + 1;
    let x = len + cols;
    let q = x / d;
    lemma_fundamental_div_mod(x, d);
    lemma_mod_bound(x, d);
    assert(d * q == q * d) by (nonlinear_arith);
    assert((q - 1) * d == q * d - d) by (nonlinear_arith);
    if len - d > 0 {
        lemma_fundamental_div_mod_converse(x - d, d, q - 1, x % d);
    } else {
        lemma_fundamental_div_mod_converse(x, d, 1, cols);
    }
}

/// Transposing twice gives the grid back, whatever its shape.
pub proof fn lemma_transpose_involution<T>(g: Grid<T>)
    requires
        g.wf(),
    ensures
        g.transposed().transposed() == g,
{
    let t = g.transposed();
    g.lemma_transposed();
    t.lemma_transposed();
    assert forall|r: int, c: int| g.has(r, c) implies #[trigger] t.transposed().at(r, c) == g.at(
        r,
        c,
    ) by {
        assert(t.at(c, r) == g.at(r, c));
    }
    lemma_grid_ext(t.transposed(), g);
}

/// Two well-shaped grids of one shape that agree cell by cell are equal.
pub proof fn lemma_grid_ext<T>(a: Grid<T>, b: Grid<T>)
    requires
        a.wf(),
        b.wf(),
        a.rows == b.rows,
        a.cols == b.cols,
        forall|r: int, c: int| a.has(r, c) ==> #[trigger] a.at(r, c) == b.at(r, c),
    ensures
        a == b,
{
    assert forall|k: int| 0 <= k < a.cells.len() implies a.cells[k] == b.cells[k] by {
        lemma_flat_index(a.rows as int, a.cols as int, k);
        let r = k / (a.cols as int);
        let c = k % (a.cols as int);
        assert(a.has(r, c));
        assert(a.at(r, c) == b.at(r, c));
    }
    assert(a.cells =~= b.cells);
}

} // verus!
