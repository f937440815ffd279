use rusty_arrays::array2d::text::TextError;
use rusty_arrays::array2d::Array2d;

#[test]
fn load_float_matrix_and_save_it_back() {
    let arr = Array2d::<f64>::from_string("1 2\n3 4\n".to_string()).unwrap();
    assert_eq!(arr, Array2d::<f64>::new(vec![1.0, 2.0, 3.0, 4.0], 2, 2));
    assert_eq!(arr.to_string(), "1.0\t2.0\n3.0\t4.0\n");
}

#[test]
fn load_integers_round_trip() {
    let arr = Array2d::<isize>::new(vec![1, -2, 30, 4, 5, -600], 2, 3);
    let text = arr.to_string();
    assert_eq!(text, "1\t-2\t30\n4\t5\t-600\n");
    assert_eq!(Array2d::<isize>::from_string(text), Ok(arr));
}

#[test]
fn load_skips_empty_lines_and_any_white_space() {
    let arr = Array2d::<i32>::from_string("\n\n 1 \t 2\u{a0}3\n\n4  5 6".to_string());
    assert_eq!(arr, Ok(Array2d::<i32>::new(vec![1, 2, 3, 4, 5, 6], 2, 3)));
}

#[test]
fn load_refuses_what_is_no_matrix() {
    assert_eq!(
        Array2d::<i32>::from_string("".to_string()),
        Err(TextError::Empty)
    );
    assert_eq!(
        Array2d::<i32>::from_string("\n\n".to_string()),
        Err(TextError::Empty)
    );
    assert_eq!(
        Array2d::<i32>::from_string("1 2\n3 x\n".to_string()),
        Err(TextError::Token)
    );
    assert_eq!(
        Array2d::<i32>::from_string("1 2\n3\n".to_string()),
        Err(TextError::Ragged)
    );
    assert_eq!(
        Array2d::<i32>::from_string("1 2\n \n".to_string()),
        Err(TextError::Ragged)
    );
}

#[test]
fn load_and_save_with_a_reader_and_a_writer_of_ones_own() {
    let arr = Array2d::<bool>::from_string_with("y n\nn y\n", |t: &str| match t {
        "y" => Some(true),
        "n" => Some(false),
        _ => None,
    });
    assert_eq!(
        arr,
        Ok(Array2d::<bool>::new(vec![true, false, false, true], 2, 2))
    );
    let text = arr.unwrap().to_string_with(|b: &bool| {
        if *b {
            "y".to_string()
        } else {
            "n".to_string()
        }
    });
    assert_eq!(text, "y\tn\nn\ty\n");
}

#[test]
fn save_a_matrix_without_columns() {
    let arr = Array2d::<i32>::new(vec![], 3, 0);
    assert_eq!(arr.to_string(), "\n\n\n");
}
