use rusty_arrays::vector_functions;

#[test]
fn add() {
    let mut v1 = vec![1, 2, 3, 4];
    let v2 = vec![1, 2, 3, 4];
    vector_functions::add_vec_inplace(&mut v1, &v2);
    assert_eq!(v1, vec![2, 4, 6, 8]);

    let mut v1 = vec![1.0, 2.0, 3.0, 4.0];
    let v2 = vec![1.0, 2.0, 3.0, 4.0];
    vector_functions::add_vec_inplace(&mut v1, &v2);
    assert_eq!(v1, vec![2.0, 4.0, 6.0, 8.0]);
}

#[test]
fn sub() {
    let mut v1 = vec![1, 2, 3, 4];
    let v2 = vec![1, 2, 3, 4];
    vector_functions::sub_vec_inplace(&mut v1, &v2);
    assert_eq!(v1, vec![0, 0, 0, 0]);

    let mut v1 = vec![1.0, 2.0, 3.0, 4.0];
    let v2 = vec![1.0, 2.0, 3.0, 4.0];
    vector_functions::sub_vec_inplace(&mut v1, &v2);
    assert_eq!(v1, vec![0.0, 0.0, 0.0, 0.0]);
}

#[test]
fn vectors_of_unequal_length_meet_as_far_as_both_reach() {
    let mut v1 = vec![10, 20, 30];
    let v2 = vec![1, 2];
    vector_functions::add_vec_inplace(&mut v1, &v2);
    assert_eq!(v1, vec![11, 22, 30]);
    let mut v3 = vec![10];
    let v4 = vec![1, 2, 3];
    vector_functions::sub_vec_inplace(&mut v3, &v4);
    assert_eq!(v3, vec![9]);
}
