//! Arithmetic on whole matrices: products, traces, determinants.

use super::model::{lemma_cell_in_bounds, lemma_coords, lemma_grid_ext, Grid};
use super::Array2d;
use crate::scalar::Scalar;
use core::ops::{Add, Index, IndexMut};
use vstd::arithmetic::div_mod::lemma_fundamental_div_mod_converse;
use vstd::laws_cmp::{obeys_cmp, obeys_cmp_ord, obeys_cmp_partial_ord, obeys_partial_cmp_spec_properties};
use vstd::laws_eq::obeys_eq_spec_properties;
use vstd::prelude::*;
use vstd::std_specs::cmp::{PartialEqSpec, PartialOrdIs, PartialOrdSpec};
use vstd::std_specs::ops::AddSpec;

verus! {

/// The integers that the cells of `g` stand for.
pub open spec fn values<T: Scalar>(g: Grid<T>) -> Grid<int> {
    Grid { rows: g.rows, cols: g.cols, cells: Seq::new(g.cells.len(), |k: int| g.cells[k].value()) }
}

/// `a[0] * b[0] + ... + a[n - 1] * b[n - 1]`.
pub open spec fn dot_prefix<T: Scalar>(a: Seq<T>, b: Seq<T>, n: nat) -> int
    decreases n,
{
    if n == 0 {
        0
    } else {
        dot_prefix(a, b, (n - 1) as nat) + a[n - 1].value() * b[n - 1].value()
    }
}

/// The dot product of two sequences of one length.
pub open spec fn dot_product<T: Scalar>(a: Seq<T>, b: Seq<T>) -> int {
    dot_prefix(a, b, a.len())
}

/// Every product and every partial sum of the dot product can be held by `T`.
pub open spec fn dot_fits<T: Scalar>(a: Seq<T>, b: Seq<T>) -> bool {
    &&& forall|i: int| 0 <= i < a.len() ==> T::holds(#[trigger] a[i].value() * b[i].value())
    &&& forall|n: nat| n <= a.len() ==> T::holds(#[trigger] dot_prefix(a, b, n))
}

/// The matrix product as integers: cell `(i, j)` is row `i` of `a` times column `j` of `b`.
pub open spec fn product<T: Scalar>(a: Grid<T>, b: Grid<T>) -> Grid<int> {
    Grid::from_fn(a.rows, b.cols, |i: int, j: int| dot_product(a.row(i), b.col(j)))
}

/// Every dot product of the matrix product can be computed in `T`.
pub open spec fn product_fits<T: Scalar>(a: Grid<T>, b: Grid<T>) -> bool {
    forall|i: int, j: int|
        0 <= i < a.rows && 0 <= j < b.cols ==> dot_fits(#[trigger] a.row(i), #[trigger] b.col(j))
}

/// `s[0] + ... + s[n - 1]`.
pub open spec fn sum_prefix<T: Scalar>(s: Seq<T>, n: nat) -> int
    decreases n,
{
    if n == 0 {
        0
    } else {
        sum_prefix(s, (n - 1) as nat) + s[n - 1].value()
    }
}

/// Every partial sum of `s` can be held by `T`.
pub open spec fn sum_fits<T: Scalar>(s: Seq<T>) -> bool {
    forall|n: nat| n <= s.len() ==> T::holds(#[trigger] sum_prefix(s, n))
}

/// A flat index lies on the diagonal stride: it is a multiple of `cols + 1`.
pub open spec fn on_diagonal(k: int, cols: int) -> bool {
    k % (cols + 1) == 0
}

/// The integers of the identity pattern: 1 on the diagonal stride, 0 elsewhere.
pub open spec fn identity_values(rows: nat, cols: nat) -> Grid<int> {
    Grid {
        rows,
        cols,
        cells: Seq::new(
            rows * cols,
            |k: int|
                if on_diagonal(k, cols as int) {
                    1int
                } else {
                    0int
                },
        ),
    }
}

/// `+1` for an even index, `-1` for an odd one.
pub open spec fn sign(i: int) -> int {
    if i % 2 == 0 {
        1
    } else {
        -1
    }
}

/// The determinant of a square grid of two or more rows: for two rows the
/// difference of the diagonal products, for more the expansion along the first row.
pub open spec fn determinant<T: Scalar>(g: Grid<T>) -> int
    decreases g.rows, g.cols + 1,
{
    if g.rows == 2 {
        g.at(0, 0).value() * g.at(1, 1).value() - g.at(0, 1).value() * g.at(1, 0).value()
    } else if g.rows > 2 {
        expansion(g, g.cols)
    } else {
        0
    }
}

/// The first `n` terms of the expansion along the first row: term `i` is
/// `sign(i) * g[0, i] * determinant(g without row 0 and column i)`.
pub open spec fn expansion<T: Scalar>(g: Grid<T>, n: nat) -> int
    decreases g.rows, n,
{
    if n == 0 || g.rows <= 2 {
        0
    } else {
        expansion(g, (n - 1) as nat) + sign(n - 1) * (g.at(0, n - 1).value() * determinant(
            g.without(0, n - 1),
        ))
    }
}

/// Every product, every minor and every partial sum of the determinant can be
/// held by `T`.
pub open spec fn determinant_fits<T: Scalar>(g: Grid<T>) -> bool
    decreases g.rows,
{
    if g.rows == 2 {
        &&& T::holds(g.at(0, 0).value() * g.at(1, 1).value())
        &&& T::holds(g.at(0, 1).value() * g.at(1, 0).value())
        &&& T::holds(determinant(g))
    } else if g.rows > 2 {
        forall|i: int|
            0 <= i < g.cols ==> {
                &&& determinant_fits(#[trigger] g.without(0, i))
                &&& T::holds(g.at(0, i).value() * determinant(g.without(0, i)))
                &&& T::holds(expansion(g, (i + 1) as nat))
            }
    } else {
        true
    }
}

/// The determinant of `[[a, b], [c, d]]` is `a * d - b * c`.
pub proof fn lemma_determinant_two_by_two<T: Scalar>(g: Grid<T>)
    requires
        g.wf(),
        g.rows == 2,
        g.cols == 2,
    ensures
        determinant(g) == g.cells[0].value() * g.cells[3].value() - g.cells[1].value()
            * g.cells[2].value(),
{
}

/// Grids whose cells stand for the same integers are the same grid.
pub proof fn lemma_values_determine<T: Scalar>(a: Grid<T>, b: Grid<T>)
    requires
        a.wf(),
        b.wf(),
        values(a) == values(b),
    ensures
        a == b,
{
    assert forall|k: int| 0 <= k < a.cells.len() implies a.cells[k] == b.cells[k] by {
        assert(values(a).cells[k] == a.cells[k].value());
        assert(values(b).cells[k] == b.cells[k].value());
        T::lemma_value(a.cells[k], b.cells[k]);
    }
    assert(values(a).cells.len() == a.cells.len());
    assert(values(b).cells.len() == b.cells.len());
    assert(a.cells =~= b.cells);
}

/// Row `i` of `a` times column `j` of the square identity, term by term: the
/// partial sums are 0 up to term `j` and `a[i, j]` from there on.
proof fn lemma_identity_column<T: Scalar>(a: Grid<T>, id: Grid<T>, i: int, j: int, n: nat)
    requires
        a.wf(),
        id.wf(),
        values(id) == identity_values(a.cols, a.cols),
        0 <= i < a.rows,
        0 <= j < a.cols,
        n <= a.cols,
    ensures
        dot_prefix(a.row(i), id.col(j), n) == if n > j {
            a.at(i, j).value()
        } else {
            0
        },
        forall|k: int|
            0 <= k < a.cols ==> (#[trigger] id.col(j)[k]).value() == if k == j {
                1int
            } else {
                0int
            },
    decreases n,
{
    assert forall|k: int| 0 <= k < a.cols implies (#[trigger] id.col(j)[k]).value() == if k == j {
        1int
    } else {
        0int
    } by {
        lemma_cell_in_bounds(a.cols as int, a.cols as int, k, j);
        lemma_square_diagonal(a.cols as int, k, j);
        let flat = k * a.cols + j;
        assert(id.col(j)[k] == id.cells[flat]);
        assert(values(id).cells[flat] == id.cells[flat].value());
        assert(identity_values(a.cols, a.cols).cells[flat] == if on_diagonal(flat, a.cols as int) {
            1int
        } else {
            0int
        });
    }
    if n > 0 {
        lemma_identity_column(a, id, i, j, (n - 1) as nat);
        let k = n - 1;
        assert(a.row(i)[k] == a.at(i, k));
        if k == j {
            assert(a.row(i)[k].value() * id.col(j)[k].value() == a.at(i, j).value())
                by (nonlinear_arith)
                requires
                    id.col(j)[k].value() == 1,
                    a.row(i)[k].value() == a.at(i, j).value(),
            ;
        } else {
            assert(a.row(i)[k].value() * id.col(j)[k].value() == 0) by (nonlinear_arith)
                requires
                    id.col(j)[k].value() == 0,
            ;
        }
    }
}

/// Multiplying a matrix by the square identity on the right can always be
/// computed and gives the matrix back.
pub proof fn lemma_mat_mul_identity<T: Scalar>(a: Grid<T>, id: Grid<T>)
    requires
        a.wf(),
        id.wf(),
        values(id) == identity_values(a.cols, a.cols),
    ensures
        product_fits(a, id),
        product(a, id) == values(a),
        forall|prod: Grid<T>| prod.wf() && #[trigger] values(prod) == product(a, id) ==> prod == a,
{
    lemma_product_cells(a, id);
    assert forall|i: int, j: int| 0 <= i < a.rows && 0 <= j < id.cols implies dot_fits(
        #[trigger] a.row(i),
        #[trigger] id.col(j),
    ) by {
        let x = a.row(i);
        let y = id.col(j);
        assert forall|k: int| 0 <= k < x.len() implies T::holds(
            #[trigger] x[k].value() * y[k].value(),
        ) by {
            lemma_identity_column(a, id, i, j, 0);
            T::lemma_value(x[k], x[k]);
            if k == j {
                assert(x[k].value() * y[k].value() == x[k].value()) by (nonlinear_arith)
                    requires
                        y[k].value() == 1,
                ;
            } else {
                assert(x[k].value() * y[k].value() == 0) by (nonlinear_arith)
                    requires
                        y[k].value() == 0,
                ;
            }
        }
        assert forall|n: nat| n <= x.len() implies T::holds(#[trigger] dot_prefix(x, y, n)) by {
            lemma_identity_column(a, id, i, j, n);
            T::lemma_value(a.at(i, j), a.at(i, j));
        }
    }
    assert forall|i: int, j: int| values(a).has(i, j) implies #[trigger] values(a).at(i, j)
        == product(a, id).at(i, j) by {
        lemma_identity_column(a, id, i, j, a.cols);
        lemma_cell_in_bounds(a.rows as int, a.cols as int, i, j);
        assert(values(a).at(i, j) == a.at(i, j).value());
        assert(a.row(i).len() == a.cols);
    }
    assert(values(a).cells.len() == a.cells.len());
    lemma_grid_ext(values(a), product(a, id));
    assert forall|prod: Grid<T>| prod.wf() && #[trigger] values(prod) == product(a, id) implies prod
        == a by {
        lemma_values_determine(prod, a);
    }
}

/// What `product` holds, cell by cell.
pub proof fn lemma_product_cells<T: Scalar>(a: Grid<T>, b: Grid<T>)
    ensures
        product(a, b).wf(),
        product(a, b).rows == a.rows,
        product(a, b).cols == b.cols,
        forall|i: int, j: int|
            0 <= i < a.rows && 0 <= j < b.cols ==> #[trigger] product(a, b).at(i, j) == dot_product(
                a.row(i),
                b.col(j),
            ),
{
    assert forall|i: int, j: int| 0 <= i < a.rows && 0 <= j < b.cols implies #[trigger] product(
        a,
        b,
    ).at(i, j) == dot_product(a.row(i), b.col(j)) by {
        lemma_cell_in_bounds(a.rows as int, b.cols as int, i, j);
        lemma_coords(b.cols as int, i, j);
    }
}

/// In a square grid the diagonal stride meets exactly the cells with `r == c`.
pub proof fn lemma_square_diagonal(n: int, r: int, c: int)
    requires
        0 <= r < n,
        0 <= c < n,
    ensures
        on_diagonal(r * n + c, n) <==> r == c,
{
    let k = r * n + c;
    if c >= r {
        assert(k == r * (n + 1) + (c - r)) by (nonlinear_arith)
            requires
                k == r * n + c,
        ;
        lemma_fundamental_div_mod_converse(k, n + 1, r, c - r);
    } else {
        assert(k == (r - 1) * (n + 1) + (n + 1 + c - r)) by (nonlinear_arith)
            requires
                k == r * n + c,
        ;
        lemma_fundamental_div_mod_converse(k, n + 1, r - 1, n + 1 + c - r);
    }
}

/// From one index on the diagonal stride the next one is `cols + 1` further on.
pub proof fn lemma_diagonal_step(k: int, cols: int)
    requires
        0 <= k,
        0 <= cols,
        on_diagonal(k, cols),
    ensures
        on_diagonal(k + cols + 1, cols),
        forall|x: int| k < x < k + cols + 1 ==> !on_diagonal(x, cols),
{
    let q = k / (cols + 1);
    vstd::arithmetic::div_mod::lemma_fundamental_div_mod(k, cols + 1);
    assert((cols + 1) * q == q * (cols + 1)) by (nonlinear_arith);
    assert((q + 1) * (cols + 1) == q * (cols + 1) + (cols + 1)) by (nonlinear_arith);
    lemma_fundamental_div_mod_converse(k + cols + 1, cols + 1, q + 1, 0);
    assert forall|x: int| k < x < k + cols + 1 implies !on_diagonal(x, cols) by {
        lemma_fundamental_div_mod_converse(x, cols + 1, q, x - k);
    }
}

/// The dot product of two vectors of one length.
pub fn dot<T: Scalar>(vec_1: &Vec<T>, vec_2: &Vec<T>) -> (sum: T)
    requires
        vec_1@.len() == vec_2@.len(),
        dot_fits(vec_1@, vec_2@),
    ensures
        sum.value() == dot_product(vec_1@, vec_2@),
{
    let mut sum = T::zero_value();
    let mut i: usize = 0;
    while i < vec_1.len()
        invariant
            i <= vec_1@.len(),
            vec_1@.len() == vec_2@.len(),
            dot_fits(vec_1@, vec_2@),
            sum.value() == dot_prefix(vec_1@, vec_2@, i as nat),
        decreases vec_1@.len() - i,
    {
        proof {
            T::lemma_product(vec_1@[i as int], vec_2@[i as int]);
            assert(T::holds(vec_1@[i as int].value() * vec_2@[i as int].value()));
        }
        let term = vec_1[i] * vec_2[i];
        proof {
            T::lemma_sum(sum, term);
            assert(T::holds(dot_prefix(vec_1@, vec_2@, (i + 1) as nat)));
        }
        sum = sum + term;
        i += 1;
    }
    sum
}

/// The identity pattern over any two values: `one` on the diagonal stride,
/// `zero` elsewhere.
pub open spec fn identity_pattern<T>(zero: T, one: T, rows: nat, cols: nat) -> Grid<T> {
    Grid {
        rows,
        cols,
        cells: Seq::new(
            rows * cols,
            |k: int|
                if on_diagonal(k, cols as int) {
                    one
                } else {
                    zero
                },
        ),
    }
}

impl<T: Copy> Array2d<T> {
    /// A `rows` by `cols` matrix of `zero` with `one` along the diagonal
    /// stride: at the flat indices `0`, `cols + 1`, `2 * (cols + 1)` and so on.
    pub fn identity_with(zero: T, one: T, rows: usize, cols: usize) -> (arr: Array2d<T>)
        requires
            rows * cols <= usize::MAX,
        ensures
            arr@ == identity_pattern(zero, one, rows as nat, cols as nat),
            arr@.wf(),
    {
        let n_el = rows * cols;
        let mut arr = Self::new_fill(zero, rows, cols);
        let mut i: usize = 0;
        while i < n_el
            invariant
                i <= n_el,
                n_el == rows * cols,
                arr.rows == rows,
                arr.cols == cols,
                arr.data@.len() == n_el,
                i < n_el ==> on_diagonal(i as int, cols as int),
                forall|k: int|
                    0 <= k < n_el ==> #[trigger] arr.data@[k] == if k < i && on_diagonal(
                        k,
                        cols as int,
                    ) {
                        one
                    } else {
                        zero
                    },
            decreases n_el - i,
        {
            arr.data[i] = one;
            proof {
                lemma_diagonal_step(i as int, cols as int);
            }
            i = if n_el - i <= cols {
                n_el
            } else {
                i + cols + 1
            };
        }
        assert(arr.data@ =~= identity_pattern(zero, one, rows as nat, cols as nat).cells);
        arr
    }
}

impl<T: Scalar> Array2d<T> {
    /// A `rows` by `cols` matrix of zeros.
    pub fn zeros(rows: usize, cols: usize) -> (arr: Array2d<T>)
        requires
            rows * cols <= usize::MAX,
        ensures
            values(arr@) == Grid::filled(0int, rows as nat, cols as nat),
            arr@.wf(),
    {
        let arr = Self::new_fill(T::zero_value(), rows, cols);
        assert(values(arr@).cells =~= Grid::filled(0int, rows as nat, cols as nat).cells);
        arr
    }

    /// A `rows` by `cols` matrix of zeros with ones along the diagonal stride.
    pub fn identity(rows: usize, cols: usize) -> (arr: Array2d<T>)
        requires
            rows * cols <= usize::MAX,
        ensures
            values(arr@) == identity_values(rows as nat, cols as nat),
            arr@.wf(),
    {
        let arr = Self::identity_with(T::zero_value(), T::one_value(), rows, cols);
        assert(values(arr@).cells =~= identity_values(rows as nat, cols as nat).cells);
        arr
    }

    /// The matrix product `self * other`, written cell by cell.
    pub fn mat_mul(&self, other: &Self) -> (prod: Array2d<T>)
        requires
            self@.wf(),
            other@.wf(),
            self@.cols == other@.rows,
            self@.rows * other@.cols <= usize::MAX,
            product_fits(self@, other@),
        ensures
            values(prod@) == product(self@, other@),
            prod@.wf(),
    {
        let trans = other.transpose();
        let mut prod = Self::zeros(self.rows, other.cols);
        proof {
            other@.lemma_transposed();
            lemma_product_cells(self@, other@);
            self.lemma_buffer();
            other.lemma_buffer();
        }
        let mut i: usize = 0;
        while i < self.rows
            invariant
                i <= self.rows,
                self@.wf(),
                other@.wf(),
                self@.cols == other@.rows,
                product_fits(self@, other@),
                trans@ == other@.transposed(),
                trans@.wf(),
                trans.rows == other.cols,
                prod.rows == self.rows,
                prod.cols == other.cols,
                prod@.wf(),
                forall|x: int, y: int|
                    0 <= x < i && 0 <= y < other.cols ==> (#[trigger] prod@.at(x, y)).value()
                        == dot_product(self@.row(x), other@.col(y)),
            decreases self.rows - i,
        {
            let mut j: usize = 0;
            while j < trans.rows
                invariant
                    j <= trans.rows,
                    i < self.rows,
                    self@.wf(),
                    other@.wf(),
                    self@.cols == other@.rows,
                    product_fits(self@, other@),
                    trans@ == other@.transposed(),
                    trans@.wf(),
                    trans.rows == other.cols,
                    prod.rows == self.rows,
                    prod.cols == other.cols,
                    prod@.wf(),
                    forall|x: int, y: int|
                        0 <= x < i && 0 <= y < other.cols ==> (#[trigger] prod@.at(x, y)).value()
                            == dot_product(self@.row(x), other@.col(y)),
                    forall|y: int|
                        0 <= y < j ==> (#[trigger] prod@.at(i as int, y)).value() == dot_product(
                            self@.row(i as int),
                            other@.col(y),
                        ),
                decreases trans.rows - j,
            {
                let lhs = self.row(i);
                let rhs = trans.row(j);
                proof {
                    other@.lemma_transposed();
                    assert(rhs@ =~= other@.col(j as int));
                    assert(dot_fits(self@.row(i as int), other@.col(j as int)));
                    lemma_cell_in_bounds(prod.rows as int, prod.cols as int, i as int, j as int);
                }
                let cell = dot(&lhs, &rhs);
                let ghost before = prod@;
                *prod.index_mut((i, j)) = cell;
                proof {
                    assert forall|x: int, y: int| 0 <= x < i && 0 <= y < other.cols implies (
                    #[trigger] prod@.at(x, y)).value() == dot_product(
                        self@.row(x),
                        other@.col(y),
                    ) by {
                        lemma_cell_in_bounds(prod.rows as int, prod.cols as int, x, y);
                        super::model::lemma_rows_apart(prod.cols as int, x, i as int);
                        assert(prod@.at(x, y) == before.at(x, y));
                    }
                    assert forall|y: int| 0 <= y < j + 1 implies (#[trigger] prod@.at(
                        i as int,
                        y,
                    )).value() == dot_product(self@.row(i as int), other@.col(y)) by {
                        if y < j {
                            assert(prod@.at(i as int, y) == before.at(i as int, y));
                        }
                    }
                }
                j += 1;
            }
            i += 1;
        }
        proof {
            let target = product(self@, other@);
            assert forall|x: int, y: int| values(prod@).has(x, y) implies #[trigger] values(
                prod@,
            ).at(x, y) == target.at(x, y) by {
                lemma_cell_in_bounds(prod.rows as int, prod.cols as int, x, y);
                assert(values(prod@).at(x, y) == prod@.at(x, y).value());
            }
            lemma_grid_ext(values(prod@), target);
        }
        prod
    }

    /// The matrix product `self * other`, gathered row by row.
    pub fn mat_mul_iter(&self, other: &Self) -> (prod: Array2d<T>)
        requires
            self@.wf(),
            other@.wf(),
            self@.cols == other@.rows,
            self@.rows * other@.cols <= usize::MAX,
            product_fits(self@, other@),
        ensures
            values(prod@) == product(self@, other@),
            prod@.wf(),
    {
        let trans = other.transpose();
        proof {
            other@.lemma_transposed();
            lemma_product_cells(self@, other@);
        }
        let mut cells: Vec<T> = Vec::new();
        let mut rows = self.iter();
        let ghost mut i: nat = 0;
        loop
            invariant
                i <= self@.rows,
                self@.wf(),
                other@.wf(),
                self@.cols == other@.rows,
                product_fits(self@, other@),
                trans@ == other@.transposed(),
                trans@.wf(),
                rows.wf(),
                rows.remaining() == self@.row_seq().skip(i as int),
                cells@.len() == i * other@.cols,
                forall|x: int, y: int|
                    0 <= x < i && 0 <= y < other@.cols ==> (#[trigger] cells@[x * other@.cols
                        + y]).value() == dot_product(self@.row(x), other@.col(y)),
            ensures
                i == self@.rows,
                cells@.len() == i * other@.cols,
                forall|x: int, y: int|
                    0 <= x < i && 0 <= y < other@.cols ==> (#[trigger] cells@[x * other@.cols
                        + y]).value() == dot_product(self@.row(x), other@.col(y)),
            decreases self@.rows - i,
        {
            let row = match rows.next() {
                Some(row) => row,
                None => {
                    break ;
                },
            };
            assert(row@ == self@.row(i as int));
            let mut cols = trans.iter();
            let ghost mut j: nat = 0;
            loop
                invariant
                    j <= other@.cols,
                    i < self@.rows,
                    self@.wf(),
                    other@.wf(),
                    self@.cols == other@.rows,
                    product_fits(self@, other@),
                    trans@ == other@.transposed(),
                    trans@.wf(),
                    trans@.rows == other@.cols,
                    row@ == self@.row(i as int),
                    cols.wf(),
                    cols.remaining() == trans@.row_seq().skip(j as int),
                    cells@.len() == i * other@.cols + j,
                    forall|x: int, y: int|
                        0 <= x < i && 0 <= y < other@.cols ==> (#[trigger] cells@[x * other@.cols
                            + y]).value() == dot_product(self@.row(x), other@.col(y)),
                    forall|y: int|
                        0 <= y < j ==> (#[trigger] cells@[i * other@.cols + y]).value()
                            == dot_product(self@.row(i as int), other@.col(y)),
                ensures
                    j == other@.cols,
                    cells@.len() == i * other@.cols + j,
                    forall|x: int, y: int|
                        0 <= x < i && 0 <= y < other@.cols ==> (#[trigger] cells@[x * other@.cols
                            + y]).value() == dot_product(self@.row(x), other@.col(y)),
                    forall|y: int|
                        0 <= y < j ==> (#[trigger] cells@[i * other@.cols + y]).value()
                            == dot_product(self@.row(i as int), other@.col(y)),
                decreases other@.cols - j,
            {
                let col = match cols.next() {
                    Some(col) => col,
                    None => {
                        break ;
                    },
                };
                proof {
                    other@.lemma_transposed();
                    assert(col@ == trans@.row(j as int));
                    assert(col@ =~= other@.col(j as int));
                    assert(dot_fits(self@.row(i as int), other@.col(j as int)));
                }
                let cell = dot(&row, &col);
                let ghost before = cells@;
                cells.push(cell);
                proof {
                    assert forall|x: int, y: int| 0 <= x < i && 0 <= y < other@.cols implies (
                    #[trigger] cells@[x * other@.cols + y]).value() == dot_product(
                        self@.row(x),
                        other@.col(y),
                    ) by {
                        lemma_cell_in_bounds(i as int, other@.cols as int, x, y);
                        assert(before[x * other@.cols + y] == cells@[x * other@.cols + y]);
                    }
                    assert forall|y: int| 0 <= y < j + 1 implies (#[trigger] cells@[i
                        * other@.cols + y]).value() == dot_product(
                        self@.row(i as int),
                        other@.col(y),
                    ) by {
                        if y < j {
                            assert(before[i * other@.cols + y] == cells@[i * other@.cols + y]);
                        }
                    }
                    assert(trans@.row_seq().skip(j as int).drop_first() =~= trans@.row_seq().skip(
                        j as int + 1,
                    ));
                    j = j + 1;
                }
            }
            proof {
                assert((i + 1) * other@.cols == i * other@.cols + other@.cols)
                    by (nonlinear_arith);
                assert(self@.row_seq().skip(i as int).drop_first() =~= self@.row_seq().skip(
                    i as int + 1,
                ));
                assert forall|x: int, y: int| 0 <= x < i + 1 && 0 <= y < other@.cols implies (
                #[trigger] cells@[x * other@.cols + y]).value() == dot_product(
                    self@.row(x),
                    other@.col(y),
                ) by {
                    if x == i {
                        assert(cells@[i * other@.cols + y].value() == dot_product(
                            self@.row(i as int),
                            other@.col(y),
                        ));
                    }
                }
                i = i + 1;
            }
        }
        let prod = Array2d { data: cells, rows: self.rows, cols: other.cols };
        proof {
            let target = product(self@, other@);
            assert forall|x: int, y: int| values(prod@).has(x, y) implies #[trigger] values(
                prod@,
            ).at(x, y) == target.at(x, y) by {
                lemma_cell_in_bounds(prod.rows as int, prod.cols as int, x, y);
                assert(values(prod@).at(x, y) == cells@[x * other@.cols + y].value());
            }
            lemma_grid_ext(values(prod@), target);
        }
        prod
    }

    /// The sum of the diagonal.
    pub fn trace(&self) -> (sum: T)
        requires
            self@.wf(),
            sum_fits(self@.diagonal()),
        ensures
            sum.value() == sum_prefix(self@.diagonal(), self@.diagonal().len()),
    {
        let ghost diagonal = self@.diagonal();
        let mut it = self.diag_iter();
        let mut sum = T::zero_value();
        let ghost mut n: nat = 0;
        loop
            invariant
                it.wf(),
                n <= diagonal.len(),
                it.remaining() == diagonal.skip(n as int),
                sum_fits(diagonal),
                sum.value() == sum_prefix(diagonal, n),
                diagonal == self@.diagonal(),
            ensures
                sum.value() == sum_prefix(diagonal, diagonal.len()),
            decreases diagonal.len() - n,
        {
            match it.next() {
                Some(el) => {
                    proof {
                        assert(el == diagonal[n as int]);
                        assert(T::holds(sum_prefix(diagonal, n + 1)));
                        T::lemma_sum(sum, el);
                        assert(diagonal.skip(n as int).drop_first() =~= diagonal.skip(n as int + 1));
                        n = n + 1;
                    }
                    sum = sum + el;
                },
                None => {
                    break ;
                },
            }
        }
        sum
    }

    /// The determinant, by expansion along the first row.
    pub fn det(&self) -> (d: T)
        requires
            self@.wf(),
            self@.rows == self@.cols,
            self@.rows >= 2,
            determinant_fits(self@),
        ensures
            d.value() == determinant(self@),
        decreases self@.rows,
    {
        if self.rows == 2 {
            let a = *self.index((0, 0));
            let b = *self.index((0, 1));
            let c = *self.index((1, 0));
            let d = *self.index((1, 1));
            proof {
                T::lemma_product(a, d);
                T::lemma_product(b, c);
            }
            let main = a * d;
            let anti = b * c;
            proof {
                T::lemma_difference(main, anti);
            }
            return main - anti;
        }
        let row = self.row(0);
        let mut det = T::zero_value();
        let mut i: usize = 0;
        while i < self.cols
            invariant
                i <= self.cols,
                self@.wf(),
                self@.rows == self@.cols,
                self@.rows > 2,
                self.cols == self@.cols,
                determinant_fits(self@),
                row@ == self@.row(0),
                det.value() == expansion(self@, i as nat),
            decreases self.cols - i,
        {
            let sub = self.get_subarray(0, i);
            proof {
                self@.lemma_without(0, i as int);
                assert(determinant_fits(self@.without(0, i as int)));
            }
            let minor = sub.det();
            let entry = row[i];
            proof {
                assert(entry == self@.at(0, i as int));
                T::lemma_product(entry, minor);
            }
            let term = entry * minor;
            proof {
                assert(T::holds(expansion(self@, (i + 1) as nat)));
                T::lemma_sum(det, term);
                T::lemma_difference(det, term);
                assert(sign(i as int) * term.value() == if i % 2 == 0 {
                    term.value()
                } else {
                    -term.value()
                }) by (nonlinear_arith)
                    requires
                        sign(i as int) == if i % 2 == 0 {
                            1int
                        } else {
                            -1int
                        },
                ;
            }
            det = if i % 2 == 0 {
                det + term
            } else {
                det - term
            };
            i += 1;
        }
        det
    }
}

/// Adds `rhs` into `lhs` cell by cell, except at the indices on the diagonal stride.
pub fn add_non_diag_inplace<T: Copy + Add<Output = T>>(lhs: &mut Array2d<T>, rhs: &Array2d<T>)
    requires
        old(lhs)@.wf(),
        rhs@.wf(),
        old(lhs)@.rows == rhs@.rows,
        old(lhs)@.cols == rhs@.cols,
        forall|k: int|
            0 <= k < rhs@.cells.len() && !on_diagonal(k, rhs@.cols as int) ==> (
            #[trigger] old(lhs)@.cells[k]).add_req(rhs@.cells[k]),
    ensures
        final(lhs)@.wf(),
        final(lhs)@.rows == old(lhs)@.rows,
        final(lhs)@.cols == old(lhs)@.cols,
        forall|k: int|
            0 <= k < rhs@.cells.len() && on_diagonal(k, rhs@.cols as int) ==> (
            #[trigger] final(lhs)@.cells[k]) == old(lhs)@.cells[k],
        T::obeys_add_spec() ==> forall|k: int|
            0 <= k < rhs@.cells.len() && !on_diagonal(k, rhs@.cols as int) ==> (
            #[trigger] final(lhs)@.cells[k]) == old(lhs)@.cells[k].add_spec(rhs@.cells[k]),
{
    proof {
        lhs.lemma_buffer();
        rhs.lemma_buffer();
    }
    let n_el = lhs.data.len();
    let cols = lhs.cols;
    let mut skip: usize = 0;
    let mut i: usize = 0;
    while i < n_el
        invariant
            i <= n_el,
            i <= skip <= n_el,
            n_el == lhs.data@.len(),
            n_el == rhs.data@.len(),
            cols == rhs.cols,
            lhs.rows == old(lhs).rows,
            lhs.cols == old(lhs).cols,
            skip < n_el ==> on_diagonal(skip as int, cols as int),
            forall|k: int| i <= k < skip ==> !on_diagonal(k, cols as int),
            forall|k: int| i <= k < n_el ==> lhs.data@[k] == old(lhs).data@[k],
            forall|k: int|
                0 <= k < n_el && !on_diagonal(k, cols as int) ==> (#[trigger] old(
                    lhs,
                ).data@[k]).add_req(rhs.data@[k]),
            forall|k: int|
                0 <= k < i && on_diagonal(k, cols as int) ==> (#[trigger] lhs.data@[k]) == old(
                    lhs,
                ).data@[k],
            T::obeys_add_spec() ==> forall|k: int|
                0 <= k < i && !on_diagonal(k, cols as int) ==> (#[trigger] lhs.data@[k]) == old(
                    lhs,
                ).data@[k].add_spec(rhs.data@[k]),
        decreases n_el - i,
    {
        if i == skip {
            proof {
                lemma_diagonal_step(i as int, cols as int);
            }
            skip = if n_el - i <= cols {
                n_el
            } else {
                i + cols + 1
            };
        } else {
            let sum = lhs.data[i] + rhs.data[i];
            lhs.data[i] = sum;
        }
        i += 1;
    }
}

/// Element `i` of `s`.
pub open spec fn nth<T>(s: Seq<T>, i: usize) -> T {
    s[i as int]
}

/// Comparisons on `T` follow their specification, which is a strict order
/// with an equivalence beside it.
pub open spec fn ordered<T: PartialOrd>() -> bool {
    &&& T::obeys_partial_cmp_spec()
    &&& obeys_partial_cmp_spec_properties::<T>()
}

/// Any two elements of `s` can be compared.
pub open spec fn comparable<T: PartialOrd>(s: Seq<T>) -> bool {
    forall|i: int, j: int|
        #![trigger s[i], s[j]]
        0 <= i < s.len() && 0 <= j < s.len() ==> s[i].is_le(&s[j]) || s[i].is_gt(&s[j])
}

/// `s[k]` is a smallest element of the first `n` of `s`, and the first such.
pub open spec fn first_min_of<T: PartialOrd>(s: Seq<T>, n: int, k: int) -> bool {
    &&& 0 <= k < n <= s.len()
    &&& forall|j: int| #![trigger s[j]] 0 <= j < n ==> s[k].is_le(&s[j])
    &&& forall|j: int| #![trigger s[j]] 0 <= j < k ==> s[k].is_lt(&s[j])
}

/// `s[k]` is a largest element of the first `n` of `s`, and the first such.
pub open spec fn first_max_of<T: PartialOrd>(s: Seq<T>, n: int, k: int) -> bool {
    &&& 0 <= k < n <= s.len()
    &&& forall|j: int| #![trigger s[j]] 0 <= j < n ==> s[k].is_ge(&s[j])
    &&& forall|j: int| #![trigger s[j]] 0 <= j < k ==> s[k].is_gt(&s[j])
}

/// `s[k]` is a smallest element of `s`, and the first such.
pub open spec fn is_first_min<T: PartialOrd>(s: Seq<T>, k: usize) -> bool {
    first_min_of(s, s.len() as int, k as int)
}

/// `s[k]` is a largest element of `s`, and the first such.
pub open spec fn is_first_max<T: PartialOrd>(s: Seq<T>, k: usize) -> bool {
    first_max_of(s, s.len() as int, k as int)
}

/// An element below the smallest so far is below everything so far.
proof fn lemma_below_all<T: PartialOrd>(x: T, best: T, other: T)
    requires
        ordered::<T>(),
        x.is_lt(&best),
        best.is_le(&other),
        x.is_le(&other) || x.is_gt(&other),
    ensures
        x.is_lt(&other),
{
    reveal(obeys_partial_cmp_spec_properties);
    reveal(obeys_eq_spec_properties);
    if !x.is_lt(&other) {
        if x.is_gt(&other) {
            assert(other.is_lt(&x));
            assert(other.is_lt(&best));
            assert(best.is_gt(&other));
        } else {
            assert(x.eq_spec(&other));
            if best.is_lt(&other) {
                assert(x.is_lt(&other));
            } else {
                assert(best.eq_spec(&other));
                assert(other.eq_spec(&best));
                assert(x.eq_spec(&best));
            }
        }
    }
}

/// An element that is not below another is at or above it.
proof fn lemma_not_below<T: PartialOrd>(x: T, best: T)
    requires
        ordered::<T>(),
        !x.is_lt(&best),
        best.is_le(&x) || best.is_gt(&x),
    ensures
        best.is_le(&x),
{
    reveal(obeys_partial_cmp_spec_properties);
}

/// An element that is not above another is at or below it.
proof fn lemma_not_above<T: PartialOrd>(x: T, best: T)
    requires
        ordered::<T>(),
        !x.is_gt(&best),
        x.is_le(&best) || x.is_gt(&best),
    ensures
        best.is_ge(&x),
{
    reveal(obeys_partial_cmp_spec_properties);
    reveal(obeys_eq_spec_properties);
}

/// An element above the largest so far is above everything so far.
proof fn lemma_above_all<T: PartialOrd>(x: T, best: T, other: T)
    requires
        ordered::<T>(),
        x.is_gt(&best),
        best.is_ge(&other),
        x.is_le(&other) || x.is_gt(&other),
    ensures
        x.is_gt(&other),
{
    reveal(obeys_partial_cmp_spec_properties);
    reveal(obeys_eq_spec_properties);
    if !x.is_gt(&other) {
        if x.is_lt(&other) {
            assert(other.is_gt(&x));
            assert(other.is_gt(&best));
            assert(best.is_lt(&other));
        } else {
            assert(x.eq_spec(&other));
            if best.is_gt(&other) {
                assert(x.is_gt(&other));
            } else {
                assert(best.eq_spec(&other));
                assert(other.eq_spec(&best));
                assert(x.eq_spec(&best));
            }
        }
    }
}

/// Under a total order any two values can be compared.
proof fn lemma_total<T: Ord>(s: Seq<T>)
    requires
        obeys_cmp::<T>(),
    ensures
        ordered::<T>(),
        comparable(s),
{
    reveal(obeys_cmp_partial_ord);
    reveal(obeys_cmp_ord);
}

/// The index of the first smallest element.
fn first_min_index<T: PartialOrd + Copy>(data: &Vec<T>) -> (k: usize)
    requires
        data@.len() > 0,
        ordered::<T>(),
        comparable(data@),
    ensures
        is_first_min(data@, k),
{
    let mut best: usize = 0;
    let mut i: usize = 1;
    proof {
        lemma_reflexive(data@, 0);
    }
    while i < data.len()
        invariant
            1 <= i <= data@.len(),
            ordered::<T>(),
            comparable(data@),
            first_min_of(data@, i as int, best as int),
        decreases data@.len() - i,
    {
        if data[i] < data[best] {
            proof {
                assert forall|j: int| #![trigger data@[j]] 0 <= j < i implies data@[i as int].is_lt(
                    &data@[j],
                ) by {
                    lemma_below_all(data@[i as int], data@[best as int], data@[j]);
                }
                lemma_reflexive(data@, i as int);
            }
            best = i;
        } else {
            proof {
                lemma_not_below(data@[i as int], data@[best as int]);
            }
        }
        i += 1;
    }
    best
}

/// The index of the first largest element.
fn first_max_index<T: PartialOrd + Copy>(data: &Vec<T>) -> (k: usize)
    requires
        data@.len() > 0,
        ordered::<T>(),
        comparable(data@),
    ensures
        is_first_max(data@, k),
{
    let mut best: usize = 0;
    let mut i: usize = 1;
    proof {
        lemma_reflexive(data@, 0);
    }
    while i < data.len()
        invariant
            1 <= i <= data@.len(),
            ordered::<T>(),
            comparable(data@),
            first_max_of(data@, i as int, best as int),
        decreases data@.len() - i,
    {
        if data[i] > data[best] {
            proof {
                assert forall|j: int| #![trigger data@[j]] 0 <= j < i implies data@[i as int].is_gt(
                    &data@[j],
                ) by {
                    lemma_above_all(data@[i as int], data@[best as int], data@[j]);
                }
                lemma_reflexive(data@, i as int);
            }
            best = i;
        } else {
            proof {
                lemma_not_above(data@[i as int], data@[best as int]);
            }
        }
        i += 1;
    }
    best
}

/// An element compares equal to itself.
proof fn lemma_reflexive<T: PartialOrd>(s: Seq<T>, i: int)
    requires
        ordered::<T>(),
        comparable(s),
        0 <= i < s.len(),
    ensures
        s[i].is_le(&s[i]),
        s[i].is_ge(&s[i]),
{
    reveal(obeys_partial_cmp_spec_properties);
    assert(s[i].is_le(&s[i]) || s[i].is_gt(&s[i]));
    if s[i].is_gt(&s[i]) {
        assert(s[i].is_lt(&s[i]));
    }
}

/// The smallest element under the total order of `T`, or `None` for an empty matrix.
pub fn imin<'a, T: 'a + Ord + Copy>(arr: &'a Array2d<T>) -> (found: Option<&'a T>)
    requires
        arr@.wf(),
        obeys_cmp::<T>(),
    ensures
        arr@.cells.len() == 0 <==> found is None,
        found matches Some(cell) ==> exists|k: usize|
            is_first_min(arr@.cells, k) && *cell == nth(arr@.cells, k),
{
    match iargmin(arr) {
        Some(pair) => Some(pair.1),
        None => None,
    }
}

/// The largest element under the total order of `T`, or `None` for an empty matrix.
pub fn imax<'a, T: 'a + Ord + Copy>(arr: &'a Array2d<T>) -> (found: Option<&'a T>)
    requires
        arr@.wf(),
        obeys_cmp::<T>(),
    ensures
        arr@.cells.len() == 0 <==> found is None,
        found matches Some(cell) ==> exists|k: usize|
            is_first_max(arr@.cells, k) && *cell == nth(arr@.cells, k),
{
    match iargmax(arr) {
        Some(pair) => Some(pair.1),
        None => None,
    }
}

/// The smallest element under the partial order of `T`, or `None` for an empty matrix.
pub fn min<'a, T: 'a + PartialOrd + Copy>(arr: &'a Array2d<T>) -> (found: Option<&'a T>)
    requires
        arr@.wf(),
        ordered::<T>(),
        comparable(arr@.cells),
    ensures
        arr@.cells.len() == 0 <==> found is None,
        found matches Some(cell) ==> exists|k: usize|
            is_first_min(arr@.cells, k) && *cell == nth(arr@.cells, k),
{
    match argmin(arr) {
        Some(pair) => Some(pair.1),
        None => None,
    }
}

/// The largest element under the partial order of `T`, or `None` for an empty matrix.
pub fn max<'a, T: 'a + PartialOrd + Copy>(arr: &'a Array2d<T>) -> (found: Option<&'a T>)
    requires
        arr@.wf(),
        ordered::<T>(),
        comparable(arr@.cells),
    ensures
        arr@.cells.len() == 0 <==> found is None,
        found matches Some(cell) ==> exists|k: usize|
            is_first_max(arr@.cells, k) && *cell == nth(arr@.cells, k),
{
    match argmax(arr) {
        Some(pair) => Some(pair.1),
        None => None,
    }
}

/// The flat index of the first smallest element under the total order of `T`,
/// with the element.
pub fn iargmin<'a, T: 'a + Ord + Copy>(arr: &'a Array2d<T>) -> (found: Option<(usize, &'a T)>)
    requires
        arr@.wf(),
        obeys_cmp::<T>(),
    ensures
        arr@.cells.len() == 0 <==> found is None,
        found matches Some(pair) ==> is_first_min(arr@.cells, pair.0) && *pair.1 == nth(
            arr@.cells,
            pair.0,
        ),
{
    proof {
        lemma_total(arr@.cells);
    }
    argmin(arr)
}

/// The flat index of the first largest element under the total order of `T`,
/// with the element.
pub fn iargmax<'a, T: 'a + Ord + Copy>(arr: &'a Array2d<T>) -> (found: Option<(usize, &'a T)>)
    requires
        arr@.wf(),
        obeys_cmp::<T>(),
    ensures
        arr@.cells.len() == 0 <==> found is None,
        found matches Some(pair) ==> is_first_max(arr@.cells, pair.0) && *pair.1 == nth(
            arr@.cells,
            pair.0,
        ),
{
    proof {
        lemma_total(arr@.cells);
    }
    argmax(arr)
}

/// The flat index of the first smallest element under the partial order of
/// `T`, with the element.
pub fn argmin<'a, T: 'a + PartialOrd + Copy>(arr: &'a Array2d<T>) -> (found: Option<
    (usize, &'a T),
>)
    requires
        arr@.wf(),
        ordered::<T>(),
        comparable(arr@.cells),
    ensures
        arr@.cells.len() == 0 <==> found is None,
        found matches Some(pair) ==> is_first_min(arr@.cells, pair.0) && *pair.1 == nth(
            arr@.cells,
            pair.0,
        ),
{
    if arr.data.len() == 0 {
        return None;
    }
    let k = first_min_index(&arr.data);
    Some((k, &arr.data[k]))
}

/// The flat index of the first largest element under the partial order of
/// `T`, with the element.
pub fn argmax<'a, T: 'a + PartialOrd + Copy>(arr: &'a Array2d<T>) -> (found: Option<
    (usize, &'a T),
>)
    requires
        arr@.wf(),
        ordered::<T>(),
        comparable(arr@.cells),
    ensures
        arr@.cells.len() == 0 <==> found is None,
        found matches Some(pair) ==> is_first_max(arr@.cells, pair.0) && *pair.1 == nth(
            arr@.cells,
            pair.0,
        ),
{
    if arr.data.len() == 0 {
        return None;
    }
    let k = first_max_index(&arr.data);
    Some((k, &arr.data[k]))
}

} // verus!
