//! Shape-preserving exchanges of rows and columns.

use super::model::{exchanged, lemma_cell_in_bounds, lemma_grid_ext, lemma_row_in_bounds, lemma_rows_apart};
use super::Array2d;
use vstd::prelude::*;

verus! {

/// `<[T]>::swap` exchanges the elements at two positions of a slice and leaves
/// every other element where it was; both positions must lie inside the slice.
pub assume_specification<Item>[ <[Item]>::swap ](s: &mut [Item], a: usize, b: usize)
    requires
        a < old(s)@.len(),
        b < old(s)@.len(),
    ensures
        final(s)@ == old(s)@.update(a as int, old(s)@[b as int]).update(b as int, old(s)@[a as int]),
;

/// Exchanges rows `i` and `j`.
pub fn swap_rows_inplace<T>(arr: &mut Array2d<T>, i: usize, j: usize)
    requires
        old(arr)@.wf(),
        i < old(arr)@.rows,
        j < old(arr)@.rows,
    ensures
        final(arr)@ == old(arr)@.rows_swapped(i as int, j as int),
        final(arr)@.wf(),
{
    proof {
        arr.lemma_buffer();
        lemma_row_in_bounds(arr.rows as int, arr.cols as int, i as int);
        lemma_row_in_bounds(arr.rows as int, arr.cols as int, j as int);
        assert(arr.cols * i == i * arr.cols) by (nonlinear_arith);
        assert(arr.cols * j == j * arr.cols) by (nonlinear_arith);
    }
    let row_one_start = arr.cols * i;
    let row_two_start = arr.cols * j;
    let mut k: usize = 0;
    while k < arr.cols
        invariant
            k <= arr.cols,
            arr.rows == old(arr).rows,
            arr.cols == old(arr).cols,
            arr.data@.len() == old(arr).data@.len(),
            row_one_start == i * arr.cols,
            row_two_start == j * arr.cols,
            row_one_start + arr.cols <= arr.data@.len() <= usize::MAX,
            row_two_start + arr.cols <= arr.data@.len(),
            forall|x: int|
                0 <= x < arr.data@.len() ==> arr.data@[x] == if row_one_start <= x < row_one_start
                    + k {
                    old(arr).data@[x - row_one_start + row_two_start]
                } else if row_two_start <= x < row_two_start + k {
                    old(arr).data@[x - row_two_start + row_one_start]
                } else {
                    old(arr).data@[x]
                },
        decreases arr.cols - k,
    {
        proof {
            if i < j {
                lemma_row_in_bounds(j as int, arr.cols as int, i as int);
            } else if j < i {
                lemma_row_in_bounds(i as int, arr.cols as int, j as int);
            }
        }
        arr.data.swap(row_one_start + k, row_two_start + k);
        k += 1;
    }
    proof {
        let target = old(arr)@.rows_swapped(i as int, j as int);
        old(arr)@.lemma_rows_swapped(i as int, j as int);
        assert forall|r: int, c: int| arr@.has(r, c) implies #[trigger] arr@.at(r, c) == target.at(
            r,
            c,
        ) by {
            lemma_cell_in_bounds(arr.rows as int, arr.cols as int, r, c);
            lemma_rows_apart(arr.cols as int, r, i as int);
            lemma_rows_apart(arr.cols as int, r, j as int);
        }
        lemma_grid_ext(arr@, target);
    }
}

/// Exchanges rows `i` and `j`, leaving columns `i` and `j` of both rows as they are.
pub fn swap_rows_non_diag_inplace<T>(arr: &mut Array2d<T>, i: usize, j: usize)
    requires
        old(arr)@.wf(),
        i < old(arr)@.rows,
        j < old(arr)@.rows,
    ensures
        final(arr)@ == old(arr)@.rows_swapped_off_diagonal(i as int, j as int),
        final(arr)@.wf(),
{
    proof {
        arr.lemma_buffer();
        lemma_row_in_bounds(arr.rows as int, arr.cols as int, i as int);
        lemma_row_in_bounds(arr.rows as int, arr.cols as int, j as int);
        assert(arr.cols * i == i * arr.cols) by (nonlinear_arith);
        assert(arr.cols * j == j * arr.cols) by (nonlinear_arith);
    }
    let row_one_start = arr.cols * i;
    let row_two_start = arr.cols * j;
    let mut k: usize = 0;
    while k < arr.cols
        invariant
            k <= arr.cols,
            arr.rows == old(arr).rows,
            arr.cols == old(arr).cols,
            arr.data@.len() == old(arr).data@.len(),
            row_one_start == i * arr.cols,
            row_two_start == j * arr.cols,
            row_one_start + arr.cols <= arr.data@.len() <= usize::MAX,
            row_two_start + arr.cols <= arr.data@.len(),
            forall|x: int|
                0 <= x < arr.data@.len() ==> arr.data@[x] == if row_one_start <= x < row_one_start
                    + k && x - row_one_start != i && x - row_one_start != j {
                    old(arr).data@[x - row_one_start + row_two_start]
                } else if row_two_start <= x < row_two_start + k && x - row_two_start != i && x
                    - row_two_start != j {
                    old(arr).data@[x - row_two_start + row_one_start]
                } else {
                    old(arr).data@[x]
                },
        decreases arr.cols - k,
    {
        proof {
            if i < j {
                lemma_row_in_bounds(j as int, arr.cols as int, i as int);
            } else if j < i {
                lemma_row_in_bounds(i as int, arr.cols as int, j as int);
            }
        }
        if k != i && k != j {
            arr.data.swap(row_one_start + k, row_two_start + k);
        }
        k += 1;
    }
    proof {
        let target = old(arr)@.rows_swapped_off_diagonal(i as int, j as int);
        old(arr)@.lemma_rows_swapped_off_diagonal(i as int, j as int);
        assert forall|r: int, c: int| arr@.has(r, c) implies #[trigger] arr@.at(r, c) == target.at(
            r,
            c,
        ) by {
            lemma_cell_in_bounds(arr.rows as int, arr.cols as int, r, c);
            lemma_rows_apart(arr.cols as int, r, i as int);
            lemma_rows_apart(arr.cols as int, r, j as int);
        }
        lemma_grid_ext(arr@, target);
    }
}

/// Exchanges columns `i` and `j`.
pub fn swap_cols_inplace<T>(arr: &mut Array2d<T>, i: usize, j: usize)
    requires
        old(arr)@.wf(),
        i < old(arr)@.cols,
        j < old(arr)@.cols,
    ensures
        final(arr)@ == old(arr)@.cols_swapped(i as int, j as int),
        final(arr)@.wf(),
{
    proof {
        arr.lemma_buffer();
    }
    let mut k: usize = 0;
    while k < arr.rows
        invariant
            k <= arr.rows,
            i < arr.cols,
            j < arr.cols,
            arr.rows == old(arr).rows,
            arr.cols == old(arr).cols,
            arr.data@.len() == old(arr).data@.len(),
            arr.data@.len() == arr.rows * arr.cols <= usize::MAX,
            forall|r: int, c: int|
                0 <= r < arr.rows && 0 <= c < arr.cols ==> #[trigger] arr.data@[r * arr.cols + c]
                    == if r < k {
                    old(arr).data@[r * arr.cols + exchanged(c, i as int, j as int)]
                } else {
                    old(arr).data@[r * arr.cols + c]
                },
        decreases arr.rows - k,
    {
        proof {
            lemma_cell_in_bounds(arr.rows as int, arr.cols as int, k as int, i as int);
            lemma_cell_in_bounds(arr.rows as int, arr.cols as int, k as int, j as int);
        }
        let ghost before = arr.data@;
        arr.data.swap(i + k * arr.cols, j + k * arr.cols);
        proof {
            assert forall|r: int, c: int| 0 <= r < arr.rows && 0 <= c < arr.cols implies (
            #[trigger] arr.data@[r * arr.cols + c]) == if r < k + 1 {
                old(arr).data@[r * arr.cols + exchanged(c, i as int, j as int)]
            } else {
                old(arr).data@[r * arr.cols + c]
            } by {
                lemma_cell_in_bounds(arr.rows as int, arr.cols as int, r, c);
                lemma_rows_apart(arr.cols as int, r, k as int);
                assert(before[r * arr.cols + c] == if r < k {
                    old(arr).data@[r * arr.cols + exchanged(c, i as int, j as int)]
                } else {
                    old(arr).data@[r * arr.cols + c]
                });
            }
        }
        k += 1;
    }
    proof {
        let target = old(arr)@.cols_swapped(i as int, j as int);
        old(arr)@.lemma_cols_swapped(i as int, j as int);
        assert forall|r: int, c: int| arr@.has(r, c) implies #[trigger] arr@.at(r, c) == target.at(
            r,
            c,
        ) by {
            assert(arr@.at(r, c) == arr.data@[r * arr.cols + c]);
        }
        lemma_grid_ext(arr@, target);
    }
}

} // verus!
