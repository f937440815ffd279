use rusty_arrays::array2d;
use rusty_arrays::array2d::Array2d;

#[test]
fn transpose() {
    let v1 = vec![1, 2, 3, 4, 5, 6, 7, 8, 9, 10, 11, 12, 13, 14, 15, 16];
    let v2 = vec![1, 5, 9, 13, 2, 6, 10, 14, 3, 7, 11, 15, 4, 8, 12, 16];
    let arr1 = Array2d::<usize>::new(v1, 4, 4);
    let mut arr2 = Array2d::<usize>::new(v2, 4, 4);
    assert_eq!(arr1, arr2.transpose());
    arr2.transpose_inplace();
    assert_eq!(arr1, arr2);

    let v1 = vec![0, 1, 2, 3, 4, 5, 6, 7];
    let v2 = vec![0, 4, 1, 5, 2, 6, 3, 7];
    let mut arr1 = Array2d::<usize>::new(v1, 2, 4);
    let arr2 = Array2d::<usize>::new(v2, 4, 2);
    arr1.transpose_inplace();
    assert_eq!(arr1, arr2);
}

#[test]
fn mat_mul() {
    let v1 = vec![1, 2, 3, 4, 5, 6, 7, 8, 9, 10, 11, 12, 13, 14, 15, 16];
    let v2 = vec![1, 5, 9, 13, 2, 6, 10, 14, 3, 7, 11, 15, 4, 8, 12, 16];
    let arr1 = Array2d::<usize>::new(v1, 4, 4);
    let arr2 = Array2d::<usize>::new(v2, 4, 4);
    let identity = Array2d::<usize>::identity(4, 4);
    assert_eq!(arr1, arr1.mat_mul_iter(&identity));
    assert_eq!(arr1, arr1.mat_mul_iter(&identity));

    let v_res = vec![
        30, 70, 110, 150, 70, 174, 278, 382, 110, 278, 446, 614, 150, 382, 614, 846,
    ];
    let res = Array2d::<usize>::new(v_res, 4, 4);
    assert_eq!(arr1.mat_mul_iter(&arr2), res);

    let v_res = vec![
        276, 304, 332, 360, 304, 336, 368, 400, 332, 368, 404, 440, 360, 400, 440,
        480,
    ];
    let res = Array2d::<usize>::new(v_res, 4, 4);
    assert_eq!(arr2.mat_mul_iter(&arr1), res);
}

#[test]
fn dot() {
    let v1 = vec![1, 2, 3];
    let v2 = vec![1, 2, 3];
    assert_eq!(array2d::numerics::dot(&v1, &v2), 14);
}

#[test]
fn set_row() {
    let v1 = vec![1, 2, 3, 4, 5, 6, 7, 8, 9, 10, 11, 12, 13, 14, 15, 16];
    let mut arr1 = Array2d::<usize>::new(v1, 4, 4);

    let v2 = vec![0, 0, 0, 0];
    arr1.set_row(2, v2);
    assert_eq!(arr1.row(2), vec![0, 0, 0, 0]);
}

#[test]
fn set_row_leaves_the_other_rows() {
    let mut arr = Array2d::<i32>::new(vec![1, 2, 3, 4, 5, 6], 3, 2);
    arr.set_row(1, vec![9, 8]);
    assert_eq!(*arr.get_data(), vec![1, 2, 9, 8, 5, 6]);
    assert_eq!(arr.shape(), (3, 2));
}

#[test]
fn transpose_twice_gives_the_matrix_back() {
    let arr = Array2d::<i32>::new(vec![1, 2, 3, 4, 5, 6, 7, 8, 9, 10, 11, 12, 13, 14, 15], 3, 5);
    let once = arr.transpose();
    assert_eq!(once.shape(), (5, 3));
    assert_eq!(
        *once.get_data(),
        vec![1, 6, 11, 2, 7, 12, 3, 8, 13, 4, 9, 14, 5, 10, 15]
    );
    assert_eq!(once.transpose(), arr);
    let mut inplace = Array2d::new_from_array(&arr);
    inplace.transpose_inplace();
    assert_eq!(inplace, once);
    inplace.transpose_inplace();
    assert_eq!(inplace, arr);
}

#[test]
fn transpose_of_thin_and_empty_matrices() {
    let mut row = Array2d::<i32>::new(vec![1, 2, 3], 1, 3);
    row.transpose_inplace();
    assert_eq!(row, Array2d::<i32>::new(vec![1, 2, 3], 3, 1));
    let mut one = Array2d::<i32>::new(vec![5], 1, 1);
    one.transpose_inplace();
    assert_eq!(one, Array2d::<i32>::new(vec![5], 1, 1));
    let mut empty = Array2d::<i32>::new(vec![], 0, 4);
    empty.transpose_inplace();
    assert_eq!(empty.shape(), (4, 0));
    let text = Array2d::<&str>::new(vec!["a", "b", "c", "d", "e", "f"], 2, 3);
    assert_eq!(*text.transpose().get_data(), vec!["a", "d", "b", "e", "c", "f"]);
}

#[test]
fn mat_mul_agrees_with_mat_mul_iter_on_rectangles() {
    let a = Array2d::<i64>::new(vec![1, 2, 3, 4, 5, 6], 2, 3);
    let b = Array2d::<i64>::new(vec![7, 8, 9, 10, 11, 12], 3, 2);
    let expected = Array2d::<i64>::new(vec![58, 64, 139, 154], 2, 2);
    assert_eq!(a.mat_mul(&b), expected);
    assert_eq!(a.mat_mul_iter(&b), expected);
    let id = Array2d::<i64>::identity(3, 3);
    assert_eq!(a.mat_mul(&id), a);
    assert_eq!(a.mat_mul_iter(&id), a);
}

#[test]
fn dot_of_negative_and_empty_vectors() {
    let v1: Vec<i32> = vec![1, -2, 3];
    let v2: Vec<i32> = vec![-4, 5, 6];
    assert_eq!(array2d::numerics::dot(&v1, &v2), 4);
    let none: Vec<i32> = vec![];
    assert_eq!(array2d::numerics::dot(&none, &none), 0);
}

#[test]
fn determinant_of_two_by_two() {
    let arr = Array2d::<i64>::new(vec![1, 2, 3, 4], 2, 2);
    assert_eq!(arr.det(), -2);
    let other = Array2d::<i64>::new(vec![7, -3, 5, 2], 2, 2);
    assert_eq!(other.det(), 7 * 2 - (-3) * 5);
}

#[test]
fn determinant_by_expansion() {
    let arr = Array2d::<i64>::new(vec![2, 0, 1, 1, 3, 2, 1, 1, 1], 3, 3);
    assert_eq!(arr.det(), 0);
    let arr = Array2d::<i64>::new(vec![6, 1, 1, 4, -2, 5, 2, 8, 7], 3, 3);
    assert_eq!(arr.det(), -306);
    let arr = Array2d::<i64>::new(
        vec![1, 0, 2, -1, 3, 0, 0, 5, 2, 1, 4, -3, 1, 0, 5, 0],
        4,
        4,
    );
    assert_eq!(arr.det(), 30);
    assert_eq!(Array2d::<i32>::identity(4, 4).det(), 1);
}

#[test]
fn trace_sums_the_diagonal() {
    let arr = Array2d::<i32>::new(vec![1, 2, 3, 4, 5, 6, 7, 8, 9], 3, 3);
    assert_eq!(arr.trace(), 15);
    let wide = Array2d::<i32>::new(vec![1, 2, 3, 4, 5, 6], 2, 3);
    assert_eq!(wide.trace(), 6);
}

#[test]
fn sub_matrix_strikes_one_row_and_one_column() {
    let arr = Array2d::<i32>::new(vec![1, 2, 3, 4, 5, 6, 7, 8, 9, 10, 11, 12], 3, 4);
    assert_eq!(
        arr.get_subarray(0, 0),
        Array2d::<i32>::new(vec![6, 7, 8, 10, 11, 12], 2, 3)
    );
    assert_eq!(
        arr.get_subarray(1, 2),
        Array2d::<i32>::new(vec![1, 2, 4, 9, 10, 12], 2, 3)
    );
    assert_eq!(
        arr.get_subarray(2, 3),
        Array2d::<i32>::new(vec![1, 2, 3, 5, 6, 7], 2, 3)
    );
}

#[test]
fn rows_columns_and_flattening() {
    let arr = Array2d::<i32>::new(vec![1, 2, 3, 4, 5, 6], 2, 3);
    assert_eq!(arr.row(0), vec![1, 2, 3]);
    assert_eq!(arr.row(1), vec![4, 5, 6]);
    assert_eq!(arr.col(0), vec![1, 4]);
    assert_eq!(arr.col(2), vec![3, 6]);
    let flat = arr.flatten();
    assert_eq!(flat.shape(), (1, 6));
    assert_eq!(*flat.get_data(), vec![1, 2, 3, 4, 5, 6]);
}

#[test]
fn cells_by_row_and_column() {
    let mut arr = Array2d::<i32>::new(vec![1, 2, 3, 4, 5, 6], 2, 3);
    assert_eq!(arr[(0, 0)], 1);
    assert_eq!(arr[(1, 2)], 6);
    assert_eq!(arr[(0, 2)], 3);
    arr[(1, 0)] = 40;
    assert_eq!(*arr.get_data(), vec![1, 2, 3, 40, 5, 6]);
}

#[test]
fn walks_over_rows_and_diagonal() {
    let arr = Array2d::<i32>::new(vec![1, 2, 3, 4, 5, 6], 2, 3);
    let mut rows = arr.iter();
    assert_eq!(rows.next(), Some(vec![1, 2, 3]));
    assert_eq!(rows.next(), Some(vec![4, 5, 6]));
    assert_eq!(rows.next(), None);
    assert_eq!(rows.next(), None);
    let mut again = arr.iter();
    assert_eq!(again.next(), Some(vec![1, 2, 3]));
    let mut diag = arr.diag_iter();
    assert_eq!(diag.next(), Some(1));
    assert_eq!(diag.next(), Some(5));
    assert_eq!(diag.next(), None);
    let tall = Array2d::<i32>::new(vec![1, 2, 3, 4, 5, 6, 7, 8], 4, 2);
    let mut diag = tall.diag_iter();
    assert_eq!(diag.next(), Some(1));
    assert_eq!(diag.next(), Some(4));
    assert_eq!(diag.next(), Some(7));
    assert_eq!(diag.next(), None);
}

#[test]
fn swaps_of_rows_and_columns() {
    let mut arr = Array2d::<i32>::new(vec![1, 2, 3, 4, 5, 6, 7, 8, 9], 3, 3);
    array2d::swapping::swap_rows_inplace(&mut arr, 0, 2);
    assert_eq!(*arr.get_data(), vec![7, 8, 9, 4, 5, 6, 1, 2, 3]);
    array2d::swapping::swap_rows_inplace(&mut arr, 1, 1);
    assert_eq!(*arr.get_data(), vec![7, 8, 9, 4, 5, 6, 1, 2, 3]);
    array2d::swapping::swap_cols_inplace(&mut arr, 0, 1);
    assert_eq!(*arr.get_data(), vec![8, 7, 9, 5, 4, 6, 2, 1, 3]);
    let mut arr = Array2d::<i32>::new(vec![1, 2, 3, 4, 5, 6, 7, 8, 9], 3, 3);
    array2d::swapping::swap_rows_non_diag_inplace(&mut arr, 0, 2);
    assert_eq!(*arr.get_data(), vec![1, 8, 3, 4, 5, 6, 7, 2, 9]);
}

#[test]
fn add_off_the_diagonal() {
    let mut lhs = Array2d::<i32>::new(vec![1, 2, 3, 4, 5, 6, 7, 8, 9], 3, 3);
    let rhs = Array2d::<i32>::new(vec![10, 10, 10, 10, 10, 10, 10, 10, 10], 3, 3);
    array2d::numerics::add_non_diag_inplace(&mut lhs, &rhs);
    assert_eq!(*lhs.get_data(), vec![1, 12, 13, 14, 5, 16, 17, 18, 9]);
    let mut lhs = Array2d::<f64>::new(vec![1.0, 2.0, 3.0, 4.0], 2, 2);
    let rhs = Array2d::<f64>::new(vec![0.5, 0.5, 0.5, 0.5], 2, 2);
    array2d::numerics::add_non_diag_inplace(&mut lhs, &rhs);
    assert_eq!(*lhs.get_data(), vec![1.0, 2.5, 3.5, 4.0]);
}

#[test]
fn smallest_and_largest() {
    let arr = Array2d::<i32>::new(vec![3, 1, 4, 1, 5, 9, 2, 9], 2, 4);
    assert_eq!(array2d::numerics::imin(&arr), Some(&1));
    assert_eq!(array2d::numerics::imax(&arr), Some(&9));
    assert_eq!(array2d::numerics::min(&arr), Some(&1));
    assert_eq!(array2d::numerics::max(&arr), Some(&9));
    assert_eq!(array2d::numerics::iargmin(&arr), Some((1, &1)));
    assert_eq!(array2d::numerics::iargmax(&arr), Some((5, &9)));
    assert_eq!(array2d::numerics::argmin(&arr), Some((1, &1)));
    assert_eq!(array2d::numerics::argmax(&arr), Some((5, &9)));
    let floats = Array2d::<f64>::new(vec![2.5, -1.0, 7.25, -1.0], 2, 2);
    assert_eq!(array2d::numerics::min(&floats), Some(&-1.0));
    assert_eq!(array2d::numerics::argmin(&floats), Some((1, &-1.0)));
    assert_eq!(array2d::numerics::argmax(&floats), Some((2, &7.25)));
    let empty = Array2d::<i32>::new(vec![], 0, 0);
    assert_eq!(array2d::numerics::imin(&empty), None);
    assert_eq!(array2d::numerics::argmax(&empty), None);
}

#[test]
fn arithmetic_on_every_cell() {
    let arr = Array2d::<i32>::new(vec![1, 2, 3, 4], 2, 2);
    assert_eq!(&arr + 10, Array2d::<i32>::new(vec![11, 12, 13, 14], 2, 2));
    assert_eq!(&arr - 1, Array2d::<i32>::new(vec![0, 1, 2, 3], 2, 2));
    assert_eq!(&arr * 3, Array2d::<i32>::new(vec![3, 6, 9, 12], 2, 2));
    let other = Array2d::<i32>::new(vec![10, 20, 30, 40], 2, 2);
    assert_eq!(&arr + &other, Array2d::<i32>::new(vec![11, 22, 33, 44], 2, 2));
    assert_eq!(&other - &arr, Array2d::<i32>::new(vec![9, 18, 27, 36], 2, 2));
    assert_eq!(-other, Array2d::<i32>::new(vec![-10, -20, -30, -40], 2, 2));
    let mut acc = Array2d::<i32>::new(vec![1, 2, 3, 4], 2, 2);
    acc += 1;
    assert_eq!(*acc.get_data(), vec![2, 3, 4, 5]);
    acc -= 2;
    assert_eq!(*acc.get_data(), vec![0, 1, 2, 3]);
    acc *= 5;
    assert_eq!(*acc.get_data(), vec![0, 5, 10, 15]);
    acc += &arr;
    assert_eq!(*acc.get_data(), vec![1, 7, 13, 19]);
    let floats = Array2d::<f64>::new(vec![1.5, 2.5], 1, 2);
    assert_eq!(&floats * 2.0, Array2d::<f64>::new(vec![3.0, 5.0], 1, 2));
}

#[test]
fn equality_looks_at_shape_and_cells() {
    let a = Array2d::<i32>::new(vec![1, 2, 3, 4, 5, 6], 2, 3);
    let same = Array2d::<i32>::new(vec![1, 2, 3, 4, 5, 6], 2, 3);
    let reshaped = Array2d::<i32>::new(vec![1, 2, 3, 4, 5, 6], 3, 2);
    let changed = Array2d::<i32>::new(vec![1, 2, 3, 4, 5, 7], 2, 3);
    assert!(a == same);
    assert!(a != reshaped);
    assert!(a != changed);
    let nan = Array2d::<f64>::new(vec![f64::NAN], 1, 1);
    assert!(nan != Array2d::<f64>::new(vec![f64::NAN], 1, 1));
}

#[test]
fn a_matrix_reads_as_the_vector_of_its_cells() {
    let a = Array2d::<i32>::new(vec![1, 2, 3, 4, 5, 6], 2, 3);
    assert_eq!(a.len(), 6);
    assert_eq!((*a)[4], 5);
    assert_eq!((*a).iter().sum::<i32>(), 21);
    assert_eq!(*a, vec![1, 2, 3, 4, 5, 6]);
}
